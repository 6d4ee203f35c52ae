use uftwo::binary::page_to_blocks;
use uftwo::convert::{
    bin_to_uf2, is_uf2_extension, plan_conversion, uf2_to_bin, Conversion, ConvertError,
};
use uftwo::reader::{from_bytes, is_uf2_buffer, verify, ReaderError};
use uftwo::{
    Block, BlockError, Checksum, ExtensionTag, Flags, Uf2File, WriterError, BLOCK_SIZE,
    MAX_PAYLOAD_SIZE,
};

fn sample_block() -> Block {
    let mut b = Block::new(3, 7, &[1, 2, 3, 4, 5], 0x2000_0000);
    b.flags = Flags::FamilyId | Flags::NotMainFlash;
    b.board_family_id_or_file_size = 0xE48B_FF56;
    b.data[470] = 0x99;
    b
}

fn same_block(a: &Block, b: &Block) -> bool {
    a.magic_start_0 == b.magic_start_0
        && a.magic_start_1 == b.magic_start_1
        && a.flags == b.flags
        && a.target_addr == b.target_addr
        && a.data_len == b.data_len
        && a.block == b.block
        && a.total_blocks == b.total_blocks
        && a.board_family_id_or_file_size == b.board_family_id_or_file_size
        && a.data == b.data
        && a.magic_end == b.magic_end
}

#[test]
fn block_layout_is_little_endian_words_then_data() {
    let bytes = Block::default().to_bytes();
    assert_eq!(bytes.len(), BLOCK_SIZE);
    assert_eq!(&bytes[0..4], b"UF2\n");
    assert_eq!(&bytes[4..8], &[0x57, 0x51, 0x5D, 0x9E]);
    assert_eq!(&bytes[508..512], &[0x30, 0x6F, 0xB1, 0x0A]);

    let bytes = sample_block().to_bytes();
    assert_eq!(&bytes[8..12], &[0x01, 0x20, 0x00, 0x00]);
    assert_eq!(&bytes[12..16], &[0x00, 0x00, 0x00, 0x20]);
    assert_eq!(&bytes[16..20], &[5, 0, 0, 0]);
    assert_eq!(&bytes[20..24], &[3, 0, 0, 0]);
    assert_eq!(&bytes[24..28], &[7, 0, 0, 0]);
    assert_eq!(&bytes[28..32], &[0x56, 0xFF, 0x8B, 0xE4]);
    assert_eq!(&bytes[32..37], &[1, 2, 3, 4, 5]);
    assert_eq!(bytes[32 + 470], 0x99);
}

#[test]
fn block_bytes_read_back() {
    let b = sample_block();
    let back = Block::from_bytes(&b.to_bytes()).unwrap();
    assert!(same_block(&b, &back));
}

#[test]
fn block_read_errors() {
    assert_eq!(Block::from_bytes(&[0u8; 511]).unwrap_err(), BlockError::InputBuffer);
    assert_eq!(Block::from_bytes(&[0u8; 513]).unwrap_err(), BlockError::InputBuffer);

    let mut bytes = Block::default().to_bytes();
    bytes[510] = 0;
    assert_eq!(Block::from_bytes(&bytes).unwrap_err(), BlockError::MagicNumber);

    let mut b = Block::default();
    b.data_len = 477;
    assert_eq!(Block::from_bytes(&b.to_bytes()).unwrap_err(), BlockError::PayloadSize);

    b.data_len = 476;
    assert!(Block::from_bytes(&b.to_bytes()).is_ok());
}

#[test]
fn block_accessors() {
    let mut b = Block::new(0, 1, &[7; 10], 0);
    assert_eq!(b.data(), &[7; 10]);
    assert_eq!(b.board_family_id(), None);
    assert!(!b.has_checksum());
    assert!(!b.has_extensions());
    b.data_len = 1000;
    assert_eq!(b.data().len(), MAX_PAYLOAD_SIZE);
    b.flags = Flags::FamilyId | Flags::Checksum | Flags::ExtensionTags;
    b.board_family_id_or_file_size = 42;
    assert_eq!(b.board_family_id(), Some(42));
    assert!(b.has_checksum());
    assert!(b.has_extensions());
}

#[test]
fn block_error_messages() {
    assert_eq!(BlockError::InputBuffer.to_string(), "Input buffer");
    assert_eq!(BlockError::MagicNumber.to_string(), "Magic number incorrect");
    assert_eq!(BlockError::PayloadSize.to_string(), "Payload size too large");
    assert_eq!(
        ReaderError::BlockCorruption(BlockError::PayloadSize).to_string(),
        "UF2 Block corruption: Payload size too large"
    );
}

#[test]
fn extension_tags_and_checksum_records() {
    assert_eq!(ExtensionTag::TargetPageSize.to_bytes(), [0xF7, 0xE9, 0x0B]);
    assert_eq!(ExtensionTag::SemverString.to_bytes(), [0xBC, 0xC7, 0x9F]);
    assert_eq!(ExtensionTag::Description.to_bytes(), [0x9D, 0x0D, 0x65]);
    assert_eq!(ExtensionTag::Sha2Checksum.to_bytes(), [0xB0, 0x6D, 0xB4]);
    assert_eq!(ExtensionTag::DeviceTypeId.to_bytes(), [0x29, 0xA7, 0xC8]);

    let c = Checksum {
        start: 0x0800_0100,
        length: 0x100,
        checksum: [0xAB; 16],
    };
    let bytes = c.to_bytes();
    assert_eq!(bytes.len(), 24);
    assert_eq!(&bytes[0..8], &[0x00, 0x01, 0x00, 0x08, 0x00, 0x01, 0x00, 0x00]);
    assert_eq!(&bytes[8..24], &[0xAB; 16]);
}

#[test]
fn file_bytes_read_back_block_for_block() {
    let mut f = Uf2File::new();
    f.push_block(sample_block());
    f.push_block(Block::new(1, 2, &[0x5A; 300], 0x100));
    f.push_block(Block::default());
    let back = from_bytes(&f.to_bytes()).unwrap();
    assert_eq!(back.len(), 3);
    for i in 0..3 {
        assert!(same_block(&f.blocks()[i], &back.blocks()[i]));
    }
}

#[test]
fn from_bytes_reports_first_bad_block() {
    let mut bytes = Block::default().to_bytes();
    let mut second = Block::default();
    second.data_len = 600;
    bytes.extend_from_slice(&second.to_bytes());
    let mut third = Block::default().to_bytes();
    third[0] = 0;
    bytes.extend_from_slice(&third);
    assert_eq!(
        from_bytes(&bytes).unwrap_err(),
        ReaderError::BlockCorruption(BlockError::PayloadSize)
    );
    assert_eq!(
        from_bytes(&bytes[..1000]).unwrap_err(),
        ReaderError::FileSizeMismatch
    );
}

#[test]
fn is_uf2_buffer_checks_first_block() {
    let mut bytes = Block::default().to_bytes();
    bytes[0] = 0;
    assert!(!is_uf2_buffer(&bytes));
    let mut two = Block::default().to_bytes();
    two.extend_from_slice(&bytes);
    assert!(is_uf2_buffer(&two));
}

#[test]
fn verify_rules() {
    // Index may restart at 0 with a new total.
    let mut f = Uf2File::new();
    f.push_block(Block::new(0, 2, &[1], 0));
    f.push_block(Block::new(1, 2, &[1], 0));
    f.push_block(Block::new(0, 1, &[1], 0));
    assert_eq!(verify(&f), Ok(()));

    // Payload size beyond the data area.
    let mut g = Uf2File::new();
    let mut b = Block::new(0, 1, &[1], 0);
    b.data_len = 477;
    g.push_block(b);
    assert_eq!(
        verify(&g),
        Err(ReaderError::BlockCorruption(BlockError::PayloadSize))
    );

    // The order error of the first block wins over a later payload error.
    let mut h = Uf2File::new();
    h.push_block(Block::new(1, 1, &[1], 0));
    h.push_block(b);
    assert_eq!(verify(&h), Err(ReaderError::BlockOrderMismatch));
}

#[test]
fn add_payload_layout() {
    let payload: Vec<u8> = (0..1000u32).map(|i| (i % 251) as u8).collect();
    let mut f = Uf2File::new();
    f.push_block(Block::default());
    assert_eq!(f.add_payload(&payload, Some(0xABCD_0123)), Ok(()));
    assert_eq!(f.len(), 4);
    let blocks = &f.blocks()[1..];
    let lens = [476u32, 476, 48];
    for (i, b) in blocks.iter().enumerate() {
        assert_eq!(b.block, i as u32);
        assert_eq!(b.total_blocks, 3); // 1000 / 452 rounded up
        assert_eq!(b.target_addr, 476 * i as u32);
        assert_eq!(b.data_len, lens[i]);
        assert_eq!(b.flags, Flags::FamilyId);
        assert_eq!(b.board_family_id(), Some(0xABCD_0123));
        assert_eq!(b.data(), &payload[476 * i..476 * i + lens[i] as usize]);
    }
    assert!(blocks[2].data[48..].iter().all(|&x| x == 0));

    // 952 bytes take two blocks but announce a total of three.
    let mut g = Uf2File::new();
    g.add_payload(&[1; 952], None).unwrap();
    assert_eq!(g.len(), 2);
    assert_eq!(g.blocks()[0].total_blocks, 3);
    assert_eq!(g.blocks()[0].flags, 0);
}

#[test]
fn add_payload_reads_back_and_verifies() {
    let payload: Vec<u8> = (0..3000u32).map(|i| (i * 7 % 256) as u8).collect();
    let mut f = Uf2File::new();
    f.add_payload(&payload, Some(5)).unwrap();
    assert_eq!(verify(&f), Ok(()));
    assert_eq!(f.get_payload(Some(5)).unwrap(), payload);
    assert_eq!(f.get_payload(None).unwrap(), payload);
    assert_eq!(f.get_payload(Some(6)), None);
    let back = from_bytes(&f.to_bytes()).unwrap();
    assert_eq!(back.get_payload(Some(5)).unwrap(), payload);
}

#[test]
fn set_target_addresses_wraps() {
    let mut f = Uf2File::new();
    f.add_payload(&[0; 1000], None).unwrap();
    f.set_target_addresses(0xFFFF_FF00);
    assert_eq!(f.blocks()[0].target_addr, 0xFFFF_FF00);
    assert_eq!(f.blocks()[1].target_addr, 0xDC);
    assert_eq!(f.blocks()[2].target_addr, 0xDC + 476);
}

#[test]
fn list_family_ids_in_order_of_appearance() {
    let mut f = Uf2File::new();
    for id in [9u32, 4, 9, 1, 4] {
        let mut b = Block::new(0, 1, &[1], 0);
        b.flags |= Flags::FamilyId;
        b.board_family_id_or_file_size = id;
        f.push_block(b);
    }
    let mut plain = Block::new(0, 1, &[1], 0);
    plain.board_family_id_or_file_size = 77; // no FamilyId flag: a file size
    f.push_block(plain);
    assert_eq!(f.list_family_ids(), vec![9, 4, 1]);
}

#[test]
fn add_binary_block_contents() {
    let binary: Vec<u8> = (0..256u32).map(|i| i as u8).collect();
    let mut f = Uf2File::new();
    f.push_block(Block::default());
    f.add_binary(&binary, 0x0800_0000, Some(0x1234_5678), 256, "1.0.0")
        .unwrap();
    assert_eq!(f.len(), 2);
    let b = f.blocks()[1];
    assert_eq!(b.block, 0);
    assert_eq!(b.total_blocks, 1);
    assert_eq!(b.target_addr, 0x0800_0000);
    assert_eq!(b.data_len, 256);
    assert_eq!(
        b.flags,
        Flags::FamilyId | Flags::Checksum | Flags::ExtensionTags
    );
    assert_eq!(b.board_family_id_or_file_size, 0x1234_5678);
    assert_eq!(b.data(), binary.as_slice());
    // Page-size record, then version record.
    assert_eq!(&b.data[256..264], &[7, 0xF7, 0xE9, 0x0B, b'2', b'5', b'6', 0]);
    assert_eq!(&b.data[264..273], &[9, 0xBC, 0xC7, 0x9F, b'1', b'.', b'0', b'.', b'0']);
    assert!(b.data[273..452].iter().all(|&x| x == 0));
    // Checksum record: page start, page length, MD5 of the page.
    assert_eq!(&b.data[452..460], &[0, 0, 0, 8, 0, 1, 0, 0]);
    assert_eq!(&b.data[460..476], &md5::compute(&binary).0);
}

#[test]
fn add_binary_pages_and_numbering() {
    let binary = [0xEE; 600];
    let mut f = Uf2File::new();
    f.add_binary(&binary, 0x1000_0100, None, 256, "1.0.0").unwrap();
    // Pages of 256, 256 and 88 bytes; one block each.
    assert_eq!(f.len(), 3);
    assert_eq!(verify(&f), Ok(()));
    assert_eq!(f.get_payload(None).unwrap(), binary.to_vec());
    let starts = [0x1000_0100u32, 0x1000_0200, 0x1000_0300];
    let lens = [256u32, 256, 88];
    for (i, b) in f.blocks().iter().enumerate() {
        assert_eq!(b.block, i as u32);
        assert_eq!(b.total_blocks, 3);
        assert_eq!(b.target_addr, starts[i]);
        assert_eq!(b.data_len, lens[i]);
        assert!(b.has_checksum());
        assert!(b.has_extensions());
        let page = &binary[256 * i..256 * i + lens[i] as usize];
        assert_eq!(&b.data[460..476], &md5::compute(page).0);
    }

    // Large pages: a page is split over several blocks, only the first
    // carries the extensions.
    let binary: Vec<u8> = (0..2048u32).map(|i| (i % 253) as u8).collect();
    let mut g = Uf2File::new();
    g.add_binary(&binary, 0, None, 1024, "v2").unwrap();
    assert_eq!(g.get_payload(None).unwrap(), binary);
    assert!(g.blocks()[0].has_extensions());
    assert!(!g.blocks()[1].has_extensions());
    assert_eq!(verify(&g), Ok(()));
}

#[test]
fn add_binary_unaligned_page_size_leaves_file_unchanged() {
    let mut f = Uf2File::new();
    f.push_block(Block::default());
    let result = f.add_binary(&[1; 16], 0x0800_0000, None, 3, "1.0.0");
    assert_eq!(result, Err(WriterError::AlignmentError));
    assert_eq!(f.len(), 1);
    let result = f.add_binary(&[1; 4], 0, None, 6, "1.0.0");
    assert_eq!(result, Err(WriterError::AlignmentError));
    assert_eq!(f.len(), 1);
}

#[test]
fn add_binary_long_version_keeps_payload() {
    // The version record cannot fit: it is left out, the page-size record
    // stays, and the payload is placed in full.
    let semver = "x".repeat(500);
    let binary: Vec<u8> = (0..1000u32).map(|i| (i % 251) as u8).collect();
    let mut f = Uf2File::new();
    assert_eq!(f.add_binary(&binary, 0, None, 256, &semver), Ok(()));
    assert_eq!(f.get_payload(None).unwrap(), binary);
    assert_eq!(verify(&f), Ok(()));
    let b = f.blocks()[0];
    assert!(b.has_extensions());
    assert_eq!(&b.data[256..263], &[7, 0xF7, 0xE9, 0x0B, b'2', b'5', b'6']);
    assert!(b.data[263..452].iter().all(|&x| x == 0));

    let mut g = Uf2File::new();
    assert_eq!(g.add_binary(&[9; 4], 0, None, 4, &"y".repeat(440)), Ok(()));
    assert_eq!(g.get_payload(None).unwrap(), vec![9; 4]);
}

#[test]
fn page_to_blocks_uses_given_digest() {
    let page = [0x42u8; 100];
    let blocks = page_to_blocks(&page, 0x400, 256, Some(3), "1", 5, &[0x11; 16]).unwrap();
    assert_eq!(blocks.len(), 1);
    let b = blocks[0];
    assert_eq!(b.block, 5);
    assert_eq!(b.total_blocks, u32::MAX);
    assert_eq!(b.target_addr, 0x400);
    assert_eq!(&b.data[452..460], &[0x00, 0x04, 0, 0, 100, 0, 0, 0]);
    assert_eq!(&b.data[460..476], &[0x11; 16]);
    assert_eq!(&b.data[100..107], &[7, 0xF7, 0xE9, 0x0B, b'2', b'5', b'6']);
    assert_eq!(&b.data[108..113], &[5, 0xBC, 0xC7, 0x9F, b'1']);

    assert_eq!(
        page_to_blocks(&page, 0x401, 256, None, "1", 0, &[0; 16]).unwrap_err(),
        WriterError::AlignmentError
    );
}

#[test]
fn convert_roundtrip() {
    let binary: Vec<u8> = (0..1500u32).map(|i| (i % 97) as u8).collect();
    let f = bin_to_uf2(&binary, 0x0800_0000, Some(7));
    assert_eq!(f.len(), 4);
    assert_eq!(f.blocks()[1].target_addr, 0x0800_0000 + 476);
    let (payload, blocks) = uf2_to_bin(&f.to_bytes()).unwrap();
    assert_eq!(payload, binary);
    assert_eq!(blocks, 4);
}

#[test]
fn convert_errors() {
    assert_eq!(
        uf2_to_bin(&[0; 100]).unwrap_err(),
        ConvertError::Read(ReaderError::FileSizeMismatch)
    );
    assert_eq!(
        uf2_to_bin(&[0; 512]).unwrap_err(),
        ConvertError::Read(ReaderError::BlockCorruption(BlockError::MagicNumber))
    );
    assert_eq!(
        uf2_to_bin(&Block::default().to_bytes()).unwrap_err(),
        ConvertError::NoPayload
    );
    assert_eq!(uf2_to_bin(&[]).unwrap_err(), ConvertError::NoPayload);
    assert_eq!(ConvertError::NoPayload.to_string(), "No payload found");
    assert_eq!(
        ConvertError::Read(ReaderError::FileSizeMismatch).to_string(),
        "File size mismatch"
    );
}

#[test]
fn uf2_extension() {
    assert!(is_uf2_extension(b"uf2"));
    assert!(is_uf2_extension(b"UF2"));
    assert!(!is_uf2_extension(b"Uf2"));
    assert!(!is_uf2_extension(b"bin"));
    assert!(!is_uf2_extension(b""));
}

#[test]
fn conversion_plan() {
    assert_eq!(plan_conversion(Some(b"uf2")), Ok(Conversion::Uf2ToBin));
    assert_eq!(plan_conversion(Some(b"UF2")), Ok(Conversion::Uf2ToBin));
    assert_eq!(plan_conversion(Some(b"bin")), Ok(Conversion::BinToUf2));
    assert_eq!(plan_conversion(None), Err(ConvertError::MissingExtension));
    assert_eq!(Conversion::Uf2ToBin.output_extension(), "bin");
    assert_eq!(Conversion::BinToUf2.output_extension(), "uf2");
    assert_eq!(
        ConvertError::MissingExtension.to_string(),
        "Input file missing extension."
    );
}
