//! The UF2 block: a fixed 512-byte record holding up to 476 bytes of payload.

use vstd::bytes::{
    lemma_auto_spec_u32_to_from_le_bytes, spec_u32_from_le_bytes, spec_u32_to_le_bytes,
    u32_from_le_bytes, u32_to_le_bytes,
};
use vstd::prelude::*;
use vstd::slice::slice_subrange;

verus! {

/// Size of one UF2 block in bytes.
pub const BLOCK_SIZE: usize = 512;

/// Size of the data area of a block.
pub const MAX_PAYLOAD_SIZE: usize = 476;

/// Payload that fits in a block when the last 24 bytes of the data area hold a checksum.
pub const MAX_PAYLOAD_SIZE_WITH_CHECKSUM: usize = 452;

/// Alignment required of target addresses and extension records.
pub const ALIGN: usize = 4;

/// First magic number of a block.
pub const MAGIC_START_0: u32 = 0x0A32_4655;

/// Second magic number of a block.
pub const MAGIC_START_1: u32 = 0x9E5D_5157;

/// Final magic number of a block.
pub const MAGIC_END: u32 = 0x0AB1_6F30;

/// The three magic numbers, in the order they appear in a block.
pub const MAGIC_NUMBER: [u32; 3] = [0x0A32_4655, 0x9E5D_5157, 0x0AB1_6F30];

/// Bits of the `flags` field of a block.
pub struct Flags;

#[allow(non_upper_case_globals)]
impl Flags {
    /// The block is not meant for main flash.
    pub const NotMainFlash: u32 = 0x0000_0001;
    /// The file is a container of files.
    pub const FileContainer: u32 = 0x0000_1000;
    /// `board_family_id_or_file_size` holds a board family id.
    pub const FamilyId: u32 = 0x0000_2000;
    /// The last 24 bytes of the data area hold an MD5 checksum record.
    pub const Checksum: u32 = 0x0000_4000;
    /// Extension tags follow the payload in the data area.
    pub const ExtensionTags: u32 = 0x0000_8000;
}

/// Error found in a block while reading it from bytes.
#[derive(Debug, Clone, Copy, PartialEq, Eq)]
pub enum BlockError {
    /// The input is not exactly one block long.
    InputBuffer,
    /// One of the magic numbers is wrong.
    MagicNumber,
    /// The payload size exceeds the data area.
    PayloadSize,
}

impl BlockError {
    /// Human readable description of the error.
    pub fn to_string(&self) -> (r: String)
        ensures
            r@ == self.spec_message(),
    {
        match self {
            BlockError::InputBuffer => "Input buffer".to_owned(),
            BlockError::MagicNumber => "Magic number incorrect".to_owned(),
            BlockError::PayloadSize => "Payload size too large".to_owned(),
        }
    }

    pub open spec fn spec_message(&self) -> Seq<char> {
        match self {
            BlockError::InputBuffer => "Input buffer"@,
            BlockError::MagicNumber => "Magic number incorrect"@,
            BlockError::PayloadSize => "Payload size too large"@,
        }
    }
}

/// The checksum record stored in the last 24 bytes of a block's data area:
/// the flash region it covers and the MD5 digest of that region.
#[derive(Debug, Clone, Copy)]
pub struct Checksum {
    pub start: u32,
    pub length: u32,
    pub checksum: [u8; 16],
}

impl Checksum {
    pub open spec fn spec_to_bytes(&self) -> Seq<u8> {
        le32(self.start) + le32(self.length) + self.checksum@
    }

    /// The 24 bytes of the record.
    pub fn to_bytes(&self) -> (r: Vec<u8>)
        ensures
            r@ == self.spec_to_bytes(),
            r@.len() == 24,
    {
        proof {
            lemma_auto_spec_u32_to_from_le_bytes();
        }
        let mut out = u32_to_le_bytes(self.start);
        let mut w = u32_to_le_bytes(self.length);
        out.append(&mut w);
        let ghost head = out@;
        let mut i: usize = 0;
        while i < 16
            invariant
                i <= 16,
                out@ == head + self.checksum@.subrange(0, i as int),
            decreases 16 - i,
        {
            out.push(self.checksum[i]);
            i = i + 1;
            assert(out@ =~= head + self.checksum@.subrange(0, i as int));
        }
        assert(self.checksum@.subrange(0, 16) =~= self.checksum@);
        out
    }
}

/// An extension record placed after the payload: a size byte, a 3-byte tag
/// and the tag's value.
pub struct Extension;

impl Extension {
    /// Size of the size byte and the tag.
    pub const HEADER_SIZE: usize = 4;
}

/// The tags of extension records.
#[derive(Debug, Clone, Copy, PartialEq, Eq)]
pub enum ExtensionTag {
    /// Version of the firmware, as a semantic version string.
    SemverString,
    /// Description of the device.
    Description,
    /// Page size of the target device.
    TargetPageSize,
    /// SHA-2 checksum of the firmware.
    Sha2Checksum,
    /// Device type identifier.
    DeviceTypeId,
}

impl ExtensionTag {
    /// The 3 bytes of the tag, little endian.
    pub open spec fn spec_to_bytes(&self) -> Seq<u8> {
        match self {
            ExtensionTag::SemverString => seq![0xBCu8, 0xC7u8, 0x9Fu8],
            ExtensionTag::Description => seq![0x9Du8, 0x0Du8, 0x65u8],
            ExtensionTag::TargetPageSize => seq![0xF7u8, 0xE9u8, 0x0Bu8],
            ExtensionTag::Sha2Checksum => seq![0xB0u8, 0x6Du8, 0xB4u8],
            ExtensionTag::DeviceTypeId => seq![0x29u8, 0xA7u8, 0xC8u8],
        }
    }

    /// The 3 bytes of the tag, little endian.
    pub fn to_bytes(&self) -> (r: [u8; 3])
        ensures
            r@ == self.spec_to_bytes(),
    {
        let r = match self {
            ExtensionTag::SemverString => [0xBCu8, 0xC7u8, 0x9Fu8],
            ExtensionTag::Description => [0x9Du8, 0x0Du8, 0x65u8],
            ExtensionTag::TargetPageSize => [0xF7u8, 0xE9u8, 0x0Bu8],
            ExtensionTag::Sha2Checksum => [0xB0u8, 0x6Du8, 0xB4u8],
            ExtensionTag::DeviceTypeId => [0x29u8, 0xA7u8, 0xC8u8],
        };
        assert(r@ =~= self.spec_to_bytes());
        r
    }
}

/// One UF2 block, field by field in on-disk order (all words little endian).
#[derive(Debug, Clone, Copy)]
pub struct Block {
    pub magic_start_0: u32,
    pub magic_start_1: u32,
    pub flags: u32,
    pub target_addr: u32,
    pub data_len: u32,
    pub block: u32,
    pub total_blocks: u32,
    pub board_family_id_or_file_size: u32,
    pub data: [u8; MAX_PAYLOAD_SIZE],
    pub magic_end: u32,
}

/// Little-endian encoding of a word.
pub open spec fn le32(x: u32) -> Seq<u8> {
    spec_u32_to_le_bytes(x)
}

/// The word stored little endian at `off` in `s`.
pub open spec fn word_at(s: Seq<u8>, off: int) -> u32 {
    spec_u32_from_le_bytes(s.subrange(off, off + 4))
}

/// Why the bytes `s` are not one well-formed block, if they are not.
pub open spec fn block_parse_error(s: Seq<u8>) -> Option<BlockError> {
    if s.len() != BLOCK_SIZE {
        Some(BlockError::InputBuffer)
    } else if word_at(s, 0) != MAGIC_START_0 || word_at(s, 4) != MAGIC_START_1 || word_at(s, 508)
        != MAGIC_END {
        Some(BlockError::MagicNumber)
    } else if word_at(s, 16) > MAX_PAYLOAD_SIZE {
        Some(BlockError::PayloadSize)
    } else {
        None
    }
}

pub open spec fn spec_min(a: int, b: int) -> int {
    if a <= b {
        a
    } else {
        b
    }
}

/// Each field of a block can be read back from its bytes at its offset.
proof fn lemma_fields_at_offsets(b: Block)
    ensures
        b.spec_to_bytes().len() == BLOCK_SIZE,
        b.spec_to_bytes().subrange(0, 4) == le32(b.magic_start_0),
        b.spec_to_bytes().subrange(4, 8) == le32(b.magic_start_1),
        b.spec_to_bytes().subrange(8, 12) == le32(b.flags),
        b.spec_to_bytes().subrange(12, 16) == le32(b.target_addr),
        b.spec_to_bytes().subrange(16, 20) == le32(b.data_len),
        b.spec_to_bytes().subrange(20, 24) == le32(b.block),
        b.spec_to_bytes().subrange(24, 28) == le32(b.total_blocks),
        b.spec_to_bytes().subrange(28, 32) == le32(b.board_family_id_or_file_size),
        b.spec_to_bytes().subrange(32, 508) == b.data@,
        b.spec_to_bytes().subrange(508, 512) == le32(b.magic_end),
        word_at(b.spec_to_bytes(), 0) == b.magic_start_0,
        word_at(b.spec_to_bytes(), 4) == b.magic_start_1,
        word_at(b.spec_to_bytes(), 8) == b.flags,
        word_at(b.spec_to_bytes(), 12) == b.target_addr,
        word_at(b.spec_to_bytes(), 16) == b.data_len,
        word_at(b.spec_to_bytes(), 20) == b.block,
        word_at(b.spec_to_bytes(), 24) == b.total_blocks,
        word_at(b.spec_to_bytes(), 28) == b.board_family_id_or_file_size,
        word_at(b.spec_to_bytes(), 508) == b.magic_end,
{
    lemma_auto_spec_u32_to_from_le_bytes();
    let s = b.spec_to_bytes();
    assert(s.subrange(0, 4) =~= le32(b.magic_start_0));
    assert(s.subrange(4, 8) =~= le32(b.magic_start_1));
    assert(s.subrange(8, 12) =~= le32(b.flags));
    assert(s.subrange(12, 16) =~= le32(b.target_addr));
    assert(s.subrange(16, 20) =~= le32(b.data_len));
    assert(s.subrange(20, 24) =~= le32(b.block));
    assert(s.subrange(24, 28) =~= le32(b.total_blocks));
    assert(s.subrange(28, 32) =~= le32(b.board_family_id_or_file_size));
    assert(s.subrange(32, 508) =~= b.data@);
    assert(s.subrange(508, 512) =~= le32(b.magic_end));
}

/// Every word is 4 bytes long.
pub proof fn lemma_auto_le32_len()
    ensures
        forall|x: u32| #[trigger] le32(x).len() == 4,
{
    lemma_auto_spec_u32_to_from_le_bytes();
}

/// Every block is 512 bytes long.
pub proof fn lemma_block_bytes_len(b: Block)
    ensures
        b.spec_to_bytes().len() == BLOCK_SIZE,
{
    lemma_fields_at_offsets(b);
}

/// The bytes of a well-formed block pass every check made when reading a block.
pub proof fn lemma_well_formed_block_reads_back(b: Block)
    requires
        b.well_formed(),
    ensures
        block_parse_error(b.spec_to_bytes()) is None,
{
    lemma_fields_at_offsets(b);
}

/// Two blocks with the same bytes are the same block: reading a block from
/// bytes can give only one result.
pub proof fn lemma_bytes_determine_block(b1: Block, b2: Block)
    requires
        b1.spec_to_bytes() == b2.spec_to_bytes(),
    ensures
        b1 == b2,
{
    lemma_auto_spec_u32_to_from_le_bytes();
    lemma_fields_at_offsets(b1);
    lemma_fields_at_offsets(b2);
    assert(b1.data =~= b2.data);
}

impl Block {
    /// Magic numbers right and payload size within the data area.
    pub open spec fn well_formed(&self) -> bool {
        &&& self.magic_start_0 == MAGIC_START_0
        &&& self.magic_start_1 == MAGIC_START_1
        &&& self.magic_end == MAGIC_END
        &&& self.data_len <= MAX_PAYLOAD_SIZE
    }

    /// The 512 bytes of the block.
    pub open spec fn spec_to_bytes(&self) -> Seq<u8> {
        le32(self.magic_start_0) + le32(self.magic_start_1) + le32(self.flags) + le32(
            self.target_addr,
        ) + le32(self.data_len) + le32(self.block) + le32(self.total_blocks) + le32(
            self.board_family_id_or_file_size,
        ) + self.data@ + le32(self.magic_end)
    }

    /// The payload: the first `data_len` bytes of the data area (all of it if
    /// `data_len` is larger).
    pub open spec fn spec_data(&self) -> Seq<u8> {
        self.data@.subrange(0, spec_min(self.data_len as int, MAX_PAYLOAD_SIZE as int))
    }

    pub open spec fn has_flag(&self, flag: u32) -> bool {
        self.flags & flag != 0
    }

    pub open spec fn spec_board_family_id(&self) -> Option<u32> {
        if self.has_flag(Flags::FamilyId) {
            Some(self.board_family_id_or_file_size)
        } else {
            None
        }
    }

    /// A block with the given numbering, payload and target address, no flags
    /// and a zero-filled rest of the data area.
    pub fn new(block: u32, total_blocks: u32, data: &[u8], target_addr: u32) -> (r: Block)
        requires
            block <= total_blocks,
            data@.len() <= MAX_PAYLOAD_SIZE,
        ensures
            r.well_formed(),
            r.flags == 0,
            r.target_addr == target_addr,
            r.data_len == data@.len(),
            r.block == block,
            r.total_blocks == total_blocks,
            r.board_family_id_or_file_size == 0,
            r.data@ == data@ + Seq::new((MAX_PAYLOAD_SIZE - data@.len()) as nat, |i: int| 0u8),
    {
        let mut buf = [0u8; MAX_PAYLOAD_SIZE];
        let n = data.len();
        let mut i: usize = 0;
        while i < n
            invariant
                n == data@.len(),
                n <= MAX_PAYLOAD_SIZE,
                i <= n,
                forall|j: int| 0 <= j < i ==> buf@[j] == data@[j],
                forall|j: int| i <= j < MAX_PAYLOAD_SIZE ==> buf@[j] == 0u8,
            decreases n - i,
        {
            buf[i] = data[i];
            i = i + 1;
        }
        let r = Block {
            magic_start_0: MAGIC_START_0,
            magic_start_1: MAGIC_START_1,
            flags: 0,
            target_addr,
            data_len: n as u32,
            block,
            total_blocks,
            board_family_id_or_file_size: 0,
            data: buf,
            magic_end: MAGIC_END,
        };
        assert(r.data@ =~= data@ + Seq::new((MAX_PAYLOAD_SIZE - data@.len()) as nat, |i: int| 0u8));
        r
    }

    /// The payload of the block.
    pub fn data(&self) -> (r: &[u8])
        ensures
            r@ == self.spec_data(),
    {
        let n: usize = if (self.data_len as usize) < MAX_PAYLOAD_SIZE {
            self.data_len as usize
        } else {
            MAX_PAYLOAD_SIZE
        };
        slice_subrange(self.data.as_slice(), 0, n)
    }

    /// The board family id, when the `FamilyId` flag is set.
    pub fn board_family_id(&self) -> (r: Option<u32>)
        ensures
            r == self.spec_board_family_id(),
    {
        if self.flags & Flags::FamilyId != 0 {
            Some(self.board_family_id_or_file_size)
        } else {
            None
        }
    }

    /// Whether the block carries a checksum record.
    pub fn has_checksum(&self) -> (r: bool)
        ensures
            r == self.has_flag(Flags::Checksum),
    {
        self.flags & Flags::Checksum != 0
    }

    /// Whether the block carries extension tags.
    pub fn has_extensions(&self) -> (r: bool)
        ensures
            r == self.has_flag(Flags::ExtensionTags),
    {
        self.flags & Flags::ExtensionTags != 0
    }

    /// The 512 bytes of the block.
    pub fn to_bytes(&self) -> (r: Vec<u8>)
        ensures
            r@ == self.spec_to_bytes(),
            r@.len() == BLOCK_SIZE,
    {
        proof {
            lemma_auto_spec_u32_to_from_le_bytes();
        }
        let mut out: Vec<u8> = Vec::with_capacity(BLOCK_SIZE);
        let mut w = u32_to_le_bytes(self.magic_start_0);
        out.append(&mut w);
        let mut w = u32_to_le_bytes(self.magic_start_1);
        out.append(&mut w);
        let mut w = u32_to_le_bytes(self.flags);
        out.append(&mut w);
        let mut w = u32_to_le_bytes(self.target_addr);
        out.append(&mut w);
        let mut w = u32_to_le_bytes(self.data_len);
        out.append(&mut w);
        let mut w = u32_to_le_bytes(self.block);
        out.append(&mut w);
        let mut w = u32_to_le_bytes(self.total_blocks);
        out.append(&mut w);
        let mut w = u32_to_le_bytes(self.board_family_id_or_file_size);
        out.append(&mut w);
        let ghost head = out@;
        let mut i: usize = 0;
        while i < MAX_PAYLOAD_SIZE
            invariant
                i <= MAX_PAYLOAD_SIZE,
                out@ == head + self.data@.subrange(0, i as int),
            decreases MAX_PAYLOAD_SIZE - i,
        {
            out.push(self.data[i]);
            i = i + 1;
            assert(out@ =~= head + self.data@.subrange(0, i as int));
        }
        let mut w = u32_to_le_bytes(self.magic_end);
        out.append(&mut w);
        assert(self.data@.subrange(0, MAX_PAYLOAD_SIZE as int) =~= self.data@);
        out
    }

    /// Read one block from exactly 512 bytes, checking its magic numbers and
    /// payload size.
    pub fn from_bytes(buf: &[u8]) -> (r: Result<Block, BlockError>)
        ensures
            match r {
                Ok(b) => {
                    &&& block_parse_error(buf@) is None
                    &&& b.spec_to_bytes() == buf@
                    &&& b.well_formed()
                },
                Err(e) => block_parse_error(buf@) == Some(e),
            },
    {
        proof {
            lemma_auto_spec_u32_to_from_le_bytes();
        }
        if buf.len() != BLOCK_SIZE {
            return Err(BlockError::InputBuffer);
        }
        let magic_start_0 = u32_from_le_bytes(slice_subrange(buf, 0, 4));
        let magic_start_1 = u32_from_le_bytes(slice_subrange(buf, 4, 8));
        let magic_end = u32_from_le_bytes(slice_subrange(buf, 508, 512));
        if magic_start_0 != MAGIC_START_0 || magic_start_1 != MAGIC_START_1 || magic_end
            != MAGIC_END {
            return Err(BlockError::MagicNumber);
        }
        let data_len = u32_from_le_bytes(slice_subrange(buf, 16, 20));
        if data_len as usize > MAX_PAYLOAD_SIZE {
            return Err(BlockError::PayloadSize);
        }
        let flags = u32_from_le_bytes(slice_subrange(buf, 8, 12));
        let target_addr = u32_from_le_bytes(slice_subrange(buf, 12, 16));
        let block = u32_from_le_bytes(slice_subrange(buf, 20, 24));
        let total_blocks = u32_from_le_bytes(slice_subrange(buf, 24, 28));
        let board_family_id_or_file_size = u32_from_le_bytes(slice_subrange(buf, 28, 32));
        let mut data = [0u8; MAX_PAYLOAD_SIZE];
        let mut i: usize = 0;
        while i < MAX_PAYLOAD_SIZE
            invariant
                i <= MAX_PAYLOAD_SIZE,
                buf@.len() == BLOCK_SIZE,
                forall|j: int| 0 <= j < i ==> data@[j] == buf@[32 + j],
            decreases MAX_PAYLOAD_SIZE - i,
        {
            data[i] = buf[32 + i];
            i = i + 1;
        }
        let b = Block {
            magic_start_0,
            magic_start_1,
            flags,
            target_addr,
            data_len,
            block,
            total_blocks,
            board_family_id_or_file_size,
            data,
            magic_end,
        };
        proof {
            let s = buf@;
            assert(data@ =~= s.subrange(32, 508));
            assert(le32(magic_start_0) == s.subrange(0, 4));
            assert(le32(magic_start_1) == s.subrange(4, 8));
            assert(le32(flags) == s.subrange(8, 12));
            assert(le32(target_addr) == s.subrange(12, 16));
            assert(le32(data_len) == s.subrange(16, 20));
            assert(le32(block) == s.subrange(20, 24));
            assert(le32(total_blocks) == s.subrange(24, 28));
            assert(le32(board_family_id_or_file_size) == s.subrange(28, 32));
            assert(le32(magic_end) == s.subrange(508, 512));
            assert(b.spec_to_bytes() =~= s);
        }
        Ok(b)
    }
}

impl Default for Block {
    /// An empty, well-formed block: magic numbers set, everything else zero.
    fn default() -> (r: Block)
        ensures
            r.well_formed(),
            r.flags == 0,
            r.target_addr == 0,
            r.data_len == 0,
            r.block == 0,
            r.total_blocks == 0,
            r.board_family_id_or_file_size == 0,
            forall|i: int| 0 <= i < MAX_PAYLOAD_SIZE ==> r.data@[i] == 0u8,
    {
        Block {
            magic_start_0: MAGIC_START_0,
            magic_start_1: MAGIC_START_1,
            flags: 0,
            target_addr: 0,
            data_len: 0,
            block: 0,
            total_blocks: 0,
            board_family_id_or_file_size: 0,
            data: [0u8; MAX_PAYLOAD_SIZE],
            magic_end: MAGIC_END,
        }
    }
}

} // verus!
