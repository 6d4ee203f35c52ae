use uftwo::reader::{from_bytes, is_uf2_buffer, verify, ReaderError};
use uftwo::{Block, BlockError, Flags, Uf2File};

#[test]
fn test_is_uf2_buffer_valid() {
    // Create a valid UF2 block
    let mut block = Block::default();
    block.data_len = 256;
    block.data[0..256].copy_from_slice(&[0xAA; 256]);

    let bytes = block.to_bytes();
    let buffer = [bytes.as_slice(); 1]; // Single block

    assert!(is_uf2_buffer(&buffer.concat()));
}

#[test]
fn test_is_uf2_buffer_invalid_size() {
    // Buffer not multiple of BLOCK_SIZE
    let bytes = vec![0u8; 511];
    assert!(!is_uf2_buffer(&bytes));
}

#[test]
fn test_is_uf2_buffer_valid_magic() {
    // Create a valid block and verify it's detected as UF2
    let block = Block::default();
    let bytes = block.to_bytes();

    assert!(is_uf2_buffer(&bytes));
}

#[test]
fn test_is_uf2_buffer_empty() {
    // Empty buffer
    let bytes: &[u8] = &[];
    assert!(!is_uf2_buffer(bytes));
}

#[test]
fn test_is_uf2_buffer_multiple_blocks() {
    // Create multiple valid blocks
    let mut block1 = Block::default();
    block1.block = 0;
    block1.total_blocks = 2;
    block1.data_len = 100;
    block1.data[0..100].copy_from_slice(&[0xAA; 100]);

    let mut block2 = Block::default();
    block2.block = 1;
    block2.total_blocks = 2;
    block2.data_len = 100;
    block2.data[0..100].copy_from_slice(&[0xBB; 100]);

    let mut bytes = Vec::new();
    bytes.extend_from_slice(&block1.to_bytes());
    bytes.extend_from_slice(&block2.to_bytes());

    assert!(is_uf2_buffer(&bytes));
}

#[test]
fn test_from_bytes_single_block() {
    let mut block = Block::default();
    block.block = 0;
    block.total_blocks = 1;
    block.data_len = 100;
    block.data[0..100].copy_from_slice(&[0xCC; 100]);

    let bytes = block.to_bytes();
    let uf2_file = from_bytes(&bytes).unwrap();

    assert_eq!(uf2_file.len(), 1);
    assert_eq!(uf2_file.blocks()[0].block, 0);
    assert_eq!(uf2_file.blocks()[0].data(), &[0xCC; 100]);
}

#[test]
fn test_from_bytes_multiple_blocks() {
    let mut block1 = Block::default();
    block1.block = 0;
    block1.total_blocks = 2;
    block1.data_len = 100;
    block1.data[0..100].copy_from_slice(&[0xAA; 100]);

    let mut block2 = Block::default();
    block2.block = 1;
    block2.total_blocks = 2;
    block2.data_len = 50;
    block2.data[0..50].copy_from_slice(&[0xBB; 50]);

    let mut bytes = Vec::new();
    bytes.extend_from_slice(&block1.to_bytes());
    bytes.extend_from_slice(&block2.to_bytes());

    let uf2_file = from_bytes(&bytes).unwrap();

    assert_eq!(uf2_file.len(), 2);
    assert_eq!(uf2_file.blocks()[0].data(), &[0xAA; 100]);
    assert_eq!(uf2_file.blocks()[1].data(), &[0xBB; 50]);
}

#[test]
fn test_from_bytes_invalid_size() {
    let bytes = vec![0u8; 511]; // Not multiple of BLOCK_SIZE
    let result = from_bytes(&bytes);

    assert!(result.is_err());
    assert!(matches!(result.unwrap_err(), ReaderError::FileSizeMismatch));
}

#[test]
fn test_from_bytes_invalid_magic() {
    let mut bytes = vec![0u8; 512];
    // Set invalid magic numbers
    bytes[0..4].copy_from_slice(&[0xDE, 0xAD, 0xBE, 0xEF]);

    let result = from_bytes(&bytes);

    assert!(result.is_err());
    assert!(matches!(
        result.unwrap_err(),
        ReaderError::BlockCorruption(_)
    ));
}

#[test]
fn test_from_bytes_empty() {
    let bytes: &[u8] = &[];
    let result = from_bytes(bytes);

    // Empty buffer: 0 is a multiple of BLOCK_SIZE, but there are no blocks
    // This should succeed and return an empty Uf2File
    assert!(result.is_ok());
    assert_eq!(result.unwrap().len(), 0);
}

#[test]
fn test_verify_valid() {
    let mut uf2_file = Uf2File::new();

    // Add sequentially numbered blocks
    let block1 = Block::new(0, 2, &[0xAA; 100], 0);
    uf2_file.push_block(block1);

    let block2 = Block::new(1, 2, &[0xBB; 100], 0);
    uf2_file.push_block(block2);

    let result = verify(&uf2_file);
    assert!(result.is_ok());
}

#[test]
fn test_verify_block_index_mismatch() {
    let mut uf2_file = Uf2File::new();

    // Add blocks with non-sequential indices
    let block1 = Block::new(0, 2, &[0xAA; 100], 0);
    uf2_file.push_block(block1);

    let block2 = Block::new(2, 2, &[0xBB; 100], 0); // Skip index 1
    uf2_file.push_block(block2);

    let result = verify(&uf2_file);
    assert!(result.is_err());
    assert!(matches!(
        result.unwrap_err(),
        ReaderError::BlockOrderMismatch
    ));
}

#[test]
fn test_verify_total_blocks_mismatch() {
    let mut uf2_file = Uf2File::new();

    // Add blocks with inconsistent total_blocks
    let block1 = Block::new(0, 2, &[0xAA; 100], 0);
    uf2_file.push_block(block1);

    let block2 = Block::new(1, 3, &[0xBB; 100], 0); // Different total_blocks
    uf2_file.push_block(block2);

    let result = verify(&uf2_file);
    assert!(result.is_err());
    assert!(matches!(
        result.unwrap_err(),
        ReaderError::BlockOrderMismatch
    ));
}

#[test]
fn test_verify_index_exceeds_total() {
    let mut uf2_file = Uf2File::new();

    // Create block manually to bypass Block::new() assertion
    let mut block = Block::default();
    block.block = 5;
    block.total_blocks = 3; // block=5 >= total=3
    block.data_len = 100;
    block.data[0..100].copy_from_slice(&[0xAA; 100]);

    uf2_file.push_block(block);

    let result = verify(&uf2_file);
    assert!(result.is_err());
    assert!(matches!(
        result.unwrap_err(),
        ReaderError::BlockOrderMismatch
    ));
}

#[test]
fn test_verify_empty_file() {
    let uf2_file = Uf2File::new();
    let result = verify(&uf2_file);
    assert!(result.is_ok()); // Empty file is valid
}

#[test]
fn test_verify_single_block() {
    let mut uf2_file = Uf2File::new();
    let block = Block::new(0, 1, &[0xAA; 100], 0);
    uf2_file.push_block(block);

    let result = verify(&uf2_file);
    assert!(result.is_ok());
}

#[test]
fn test_verify_with_family_id() {
    let mut uf2_file = Uf2File::new();

    let mut block1 = Block::new(0, 2, &[0xAA; 100], 0);
    block1.flags |= Flags::FamilyId;
    block1.board_family_id_or_file_size = 0x12345678;
    uf2_file.push_block(block1);

    let mut block2 = Block::new(1, 2, &[0xBB; 100], 0);
    block2.flags |= Flags::FamilyId;
    block2.board_family_id_or_file_size = 0x12345678;
    uf2_file.push_block(block2);

    let result = verify(&uf2_file);
    assert!(result.is_ok()); // Family ID doesn't affect verification
}

#[test]
fn test_reader_error_display() {
    let error = ReaderError::InputBuffer;
    assert_eq!(error.to_string(), "Input buffer");

    let error = ReaderError::FileSizeMismatch;
    assert_eq!(error.to_string(), "File size mismatch");

    let error = ReaderError::BlockOrderMismatch;
    assert_eq!(error.to_string(), "UF2 Block index or order mismatch");

    let error = ReaderError::AlignmentError;
    assert_eq!(error.to_string(), "Alignment error");

    let error = ReaderError::BlockCorruption(BlockError::MagicNumber);
    assert_eq!(
        error.to_string(),
        "UF2 Block corruption: Magic number incorrect"
    );
}

#[test]
fn test_reader_error_from_block_error() {
    let block_error = BlockError::PayloadSize;
    let reader_error: ReaderError = block_error.into();

    assert!(matches!(
        reader_error,
        ReaderError::BlockCorruption(BlockError::PayloadSize)
    ));
}
