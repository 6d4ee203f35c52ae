use uftwo::block::MAX_PAYLOAD_SIZE;
use uftwo::{Uf2File, WriterError};

#[test]
fn test_add_payload_basic() {
    let mut uf2_file = Uf2File::new();
    let payload = [0xAA; 256];

    let result = uf2_file.add_payload(&payload, None);
    assert!(result.is_ok());
    assert_eq!(uf2_file.len(), 1); // 256 bytes fits in one block
}

#[test]
fn test_add_payload_multiple_blocks() {
    let mut uf2_file = Uf2File::new();
    let payload = [0xBB; 512]; // Requires 2 blocks (476 + 36)

    let result = uf2_file.add_payload(&payload, None);
    assert!(result.is_ok());
    assert_eq!(uf2_file.len(), 2);
}

#[test]
fn test_add_payload_with_family_id() {
    let mut uf2_file = Uf2File::new();
    let payload = [0xCC; 100];
    let family_id = 0x12345678;

    let result = uf2_file.add_payload(&payload, Some(family_id));
    assert!(result.is_ok());
    assert_eq!(uf2_file.len(), 1);

    // Verify family ID is set
    let block = uf2_file.blocks()[0];
    assert_eq!(block.board_family_id(), Some(family_id));
}

#[test]
fn test_add_payload_various_sizes() {
    // Test with various payload sizes that should work
    let payloads = [
        vec![0xAA; 1],   // 1 byte
        vec![0xBB; 4],   // 4 bytes (aligned)
        vec![0xCC; 256], // 256 bytes
        vec![0xDD; 476], // MAX_PAYLOAD_SIZE
        vec![0xEE; 512], // More than one block
    ];

    for payload in payloads {
        let mut uf2_file = Uf2File::new();
        let result = uf2_file.add_payload(&payload, None);
        assert!(
            result.is_ok(),
            "Failed for payload size {}",
            payload.len()
        );
    }
}

#[test]
fn writer_test_to_bytes() {
    let mut uf2_file = Uf2File::new();
    uf2_file.add_payload(&[0xCC; 256], None).unwrap();

    let bytes = uf2_file.to_bytes();
    assert_eq!(bytes.len(), 512);
}

#[test]
fn writer_test_to_bytes_empty() {
    let uf2_file = Uf2File::new();
    let bytes = uf2_file.to_bytes();
    assert!(bytes.is_empty());
}

#[test]
fn test_add_binary_basic() {
    let mut uf2_file = Uf2File::new();
    let binary = [0xAA; 256];

    let result = uf2_file.add_binary(
        &binary,
        0x08000000,
        Some(0x12345678),
        256,
        "1.0.0",
    );
    assert!(result.is_ok());
    assert!(uf2_file.len() > 0);
}

#[test]
fn test_add_binary_alignment_error() {
    let mut uf2_file = Uf2File::new();
    let binary = [0xBB; 100];

    // Use unaligned target address
    let result = uf2_file.add_binary(
        &binary,
        0x08000001,
        Some(0x12345678),
        256,
        "1.0.0",
    );
    assert!(result.is_err());
    assert!(matches!(result.unwrap_err(), WriterError::AlignmentError));
}

#[test]
fn test_add_binary_with_extensions() {
    let mut uf2_file = Uf2File::new();
    let binary = [0xCC; 256];

    let result = uf2_file.add_binary(
        &binary,
        0x08000000,
        Some(0x12345678),
        256,
        "1.0.0",
    );
    assert!(result.is_ok());

    // Verify extensions are added to first block
    let first_block = uf2_file.blocks()[0];
    assert!(first_block.has_extensions());
}

#[test]
fn test_add_binary_checksum_flag() {
    let mut uf2_file = Uf2File::new();
    let binary = [0xDD; 256];

    let result = uf2_file.add_binary(
        &binary,
        0x08000000,
        Some(0x12345678),
        256,
        "1.0.0",
    );
    assert!(result.is_ok());

    // Verify checksum flag is set
    let first_block = uf2_file.blocks()[0];
    assert!(first_block.has_checksum());
}

#[test]
fn writer_test_set_target_addresses() {
    let mut uf2_file = Uf2File::new();
    uf2_file.add_payload(&[0xAA; 100], None).unwrap();
    uf2_file.add_payload(&[0xBB; 100], None).unwrap();

    uf2_file.set_target_addresses(0x08000000);

    assert_eq!(uf2_file.blocks()[0].target_addr, 0x08000000);
    assert_eq!(uf2_file.blocks()[1].target_addr, 0x08000000 + 100);
}

#[test]
fn writer_test_concat() {
    let mut uf2_file1 = Uf2File::new();
    uf2_file1.add_payload(&[0xAA; 100], None).unwrap();

    let mut uf2_file2 = Uf2File::new();
    uf2_file2.add_payload(&[0xBB; 100], None).unwrap();

    uf2_file1.concat(&uf2_file2);

    assert_eq!(uf2_file1.len(), 2);
    assert_eq!(uf2_file2.len(), 1); // Original unchanged
}

#[test]
fn test_roundtrip_add_payload() {
    // Create a UF2 file with payload
    let mut original = Uf2File::new();
    let payload = [0xAA; 256];
    original.add_payload(&payload, Some(0x12345678)).unwrap();

    // Convert to bytes
    let bytes = original.to_bytes();

    // Parse back
    let restored = uftwo::reader::from_bytes(&bytes).unwrap();

    // Verify payload matches
    let restored_payload = restored.get_payload(Some(0x12345678)).unwrap();
    assert_eq!(payload, restored_payload.as_slice());
}

#[test]
fn test_writer_error_display() {
    let error = WriterError::InputBuffer;
    assert_eq!(error.to_string(), "Input buffer error");

    let error = WriterError::AlignmentError;
    assert_eq!(error.to_string(), "Alignment error");

    let error = WriterError::BlockCorruption;
    assert_eq!(error.to_string(), "Block corruption during writing");
}

#[test]
fn test_add_payload_empty() {
    let mut uf2_file = Uf2File::new();
    let payload: &[u8] = &[];

    let result = uf2_file.add_payload(payload, None);
    assert!(result.is_ok());
    assert_eq!(uf2_file.len(), 0); // Empty payload results in no blocks
}

#[test]
fn test_add_payload_max_size() {
    let mut uf2_file = Uf2File::new();
    let payload = [0xFF; MAX_PAYLOAD_SIZE * 2]; // Exactly 2 blocks worth

    let result = uf2_file.add_payload(&payload, None);
    assert!(result.is_ok());
    assert_eq!(uf2_file.len(), 2);
}

#[test]
fn test_add_binary_page_alignment() {
    let mut uf2_file = Uf2File::new();
    let binary = [0xEE; 512];

    // Use page size that divides evenly
    let result = uf2_file.add_binary(
        &binary,
        0x08000000,
        Some(0x12345678),
        256,
        "1.0.0",
    );
    assert!(result.is_ok());

    // Verify blocks are created
    assert!(uf2_file.len() > 0);
}
