//! Reading UF2 data from byte buffers and checking the order of its blocks.

use crate::block::{Block, BlockError, BLOCK_SIZE, MAX_PAYLOAD_SIZE};
use crate::file::{blocks_to_bytes, Uf2File};
use vstd::prelude::*;
use vstd::slice::slice_subrange;
use vstd::std_specs::convert::FromSpecImpl;
use vstd::string::StringExecFns;

verus! {

/// Error type for UF2 reading operations.
#[derive(Debug, PartialEq, Eq)]
pub enum ReaderError {
    /// There was an issue with the input buffer size or alignment.
    InputBuffer,
    /// File size is not a multiple of the block size.
    FileSizeMismatch,
    /// One or more blocks in the file are corrupted.
    BlockCorruption(BlockError),
    /// Block order or indexing is inconsistent.
    BlockOrderMismatch,
    /// Address or payload size is not properly aligned.
    AlignmentError,
}

impl ReaderError {
    pub open spec fn spec_message(&self) -> Seq<char> {
        match self {
            ReaderError::InputBuffer => "Input buffer"@,
            ReaderError::FileSizeMismatch => "File size mismatch"@,
            ReaderError::BlockCorruption(e) => "UF2 Block corruption: "@ + e.spec_message(),
            ReaderError::BlockOrderMismatch => "UF2 Block index or order mismatch"@,
            ReaderError::AlignmentError => "Alignment error"@,
        }
    }

    /// Human readable description of the error.
    pub fn to_string(&self) -> (r: String)
        ensures
            r@ == self.spec_message(),
    {
        match self {
            ReaderError::InputBuffer => "Input buffer".to_owned(),
            ReaderError::FileSizeMismatch => "File size mismatch".to_owned(),
            ReaderError::BlockCorruption(e) => {
                let mut s = "UF2 Block corruption: ".to_owned();
                let m = e.to_string();
                s.append(m.as_str());
                s
            },
            ReaderError::BlockOrderMismatch => "UF2 Block index or order mismatch".to_owned(),
            ReaderError::AlignmentError => "Alignment error".to_owned(),
        }
    }
}

impl From<BlockError> for ReaderError {
    fn from(error: BlockError) -> (r: Self) {
        ReaderError::BlockCorruption(error)
    }
}

impl FromSpecImpl<BlockError> for ReaderError {
    open spec fn obeys_from_spec() -> bool {
        true
    }

    open spec fn from_spec(error: BlockError) -> Self {
        ReaderError::BlockCorruption(error)
    }
}

/// Block `i` of the buffer `s`.
pub open spec fn chunk(s: Seq<u8>, i: int) -> Seq<u8> {
    s.subrange(BLOCK_SIZE * i, BLOCK_SIZE * i + BLOCK_SIZE)
}

/// The error of the first of the first `n` blocks of `s` that does not read
/// as a block, if there is one.
pub open spec fn first_block_error(s: Seq<u8>, n: nat) -> Option<BlockError>
    decreases n,
{
    if n == 0 {
        None
    } else {
        match first_block_error(s, (n - 1) as nat) {
            Some(e) => Some(e),
            None => crate::block::block_parse_error(chunk(s, n - 1)),
        }
    }
}

/// Whether `buf` looks like UF2 data: a whole, non-zero number of blocks of
/// which the first reads as a block.
pub open spec fn spec_is_uf2_buffer(buf: Seq<u8>) -> bool {
    &&& buf.len() > 0
    &&& buf.len() % (BLOCK_SIZE as nat) == 0
    &&& crate::block::block_parse_error(chunk(buf, 0)) is None
}

/// What is wrong with block `b`, given the block `prev` read just before it.
pub open spec fn block_order_error(prev: Option<Block>, b: Block) -> Option<ReaderError> {
    if b.block >= b.total_blocks {
        Some(ReaderError::BlockOrderMismatch)
    } else if prev is Some && b.block != prev->0.block + 1 && b.block != 0 {
        Some(ReaderError::BlockOrderMismatch)
    } else if prev is Some && b.total_blocks != prev->0.total_blocks && b.block != 0 {
        Some(ReaderError::BlockOrderMismatch)
    } else if b.data_len > MAX_PAYLOAD_SIZE {
        Some(ReaderError::BlockCorruption(BlockError::PayloadSize))
    } else {
        None
    }
}

/// The first error met when checking the first `n` blocks in order.
pub open spec fn first_order_error(blocks: Seq<Block>, n: nat) -> Option<ReaderError>
    decreases n,
{
    if n == 0 {
        None
    } else {
        match first_order_error(blocks, (n - 1) as nat) {
            Some(e) => Some(e),
            None => block_order_error(
                if n >= 2 {
                    Some(blocks[n - 2])
                } else {
                    None
                },
                blocks[n - 1],
            ),
        }
    }
}

/// Once a block fails to read, later blocks do not change the first error.
proof fn lemma_first_block_error_stays(s: Seq<u8>, k: nat, n: nat)
    requires
        k <= n,
        first_block_error(s, k) is Some,
    ensures
        first_block_error(s, n) == first_block_error(s, k),
    decreases n - k,
{
    if k < n {
        lemma_first_block_error_stays(s, k, (n - 1) as nat);
    }
}

/// Once a block is out of order, later blocks do not change the first error.
proof fn lemma_first_order_error_stays(blocks: Seq<Block>, k: nat, n: nat)
    requires
        k <= n,
        first_order_error(blocks, k) is Some,
    ensures
        first_order_error(blocks, n) == first_order_error(blocks, k),
    decreases n - k,
{
    if k < n {
        lemma_first_order_error_stays(blocks, k, (n - 1) as nat);
    }
}

proof fn lemma_chunk_in_bounds(len: int, i: int)
    requires
        0 <= i < len / 512,
        len >= 0,
    ensures
        BLOCK_SIZE * i + BLOCK_SIZE <= len,
{
    assert(BLOCK_SIZE * i + BLOCK_SIZE <= len) by (nonlinear_arith)
        requires
            0 <= i < len / 512,
            len >= 0,
    ;
}

/// Check if the given buffer is valid UF2 data.
///
/// Checks buffer size is a multiple of BLOCK_SIZE and first block is valid.
pub fn is_uf2_buffer(buf: &[u8]) -> (r: bool)
    ensures
        r == spec_is_uf2_buffer(buf@),
        r ==> buf@.len() > 0 && buf@.len() % 512 == 0,
        r <==> (buf@.len() > 0 && buf@.len() % 512 == 0 && crate::block::block_parse_error(
            buf@.subrange(0, 512),
        ) is None),
{
    proof {
        lemma_uf2_buffer_is_whole_blocks(buf@);
    }
    if buf.len() % BLOCK_SIZE != 0 {
        return false;
    }
    if buf.len() == 0 {
        return false;
    }
    let first = slice_subrange(buf, 0, BLOCK_SIZE);
    match Block::from_bytes(first) {
        Ok(_) => true,
        Err(_) => false,
    }
}

/// Construct a [`Uf2File`] from a byte slice.
///
/// # Errors
/// - [`ReaderError::FileSizeMismatch`] if the buffer size is not a multiple of the block size.
/// - [`ReaderError::BlockCorruption`] if any block in the buffer is corrupted.
pub fn from_bytes(buf: &[u8]) -> (r: Result<Uf2File, ReaderError>)
    ensures
        buf@.len() % (BLOCK_SIZE as nat) != 0 ==> r == Err::<Uf2File, ReaderError>(
            ReaderError::FileSizeMismatch,
        ),
        buf@.len() % (BLOCK_SIZE as nat) == 0 ==> {
            let n = (buf@.len() / (BLOCK_SIZE as nat)) as nat;
            match r {
                Ok(f) => {
                    &&& first_block_error(buf@, n) is None
                    &&& f@.len() == n
                    &&& forall|i: int|
                        0 <= i < n ==> (#[trigger] f@[i]).spec_to_bytes() == chunk(buf@, i)
                            && f@[i].well_formed()
                },
                Err(e) => first_block_error(buf@, n) matches Some(be) && e
                    == ReaderError::BlockCorruption(be),
            }
        },
{
    if buf.len() % BLOCK_SIZE != 0 {
        return Err(ReaderError::FileSizeMismatch);
    }
    let len = buf.len();
    let n = len / BLOCK_SIZE;
    let mut blocks: Vec<Block> = Vec::new();
    let mut i: usize = 0;
    while i < n
        invariant
            len == buf@.len(),
            buf@.len() % (BLOCK_SIZE as nat) == 0,
            n == buf@.len() / (BLOCK_SIZE as nat),
            i <= n,
            blocks@.len() == i,
            first_block_error(buf@, i as nat) is None,
            forall|j: int|
                0 <= j < i ==> (#[trigger] blocks@[j]).spec_to_bytes() == chunk(buf@, j)
                    && blocks@[j].well_formed(),
        decreases n - i,
    {
        proof {
            lemma_chunk_in_bounds(buf@.len() as int, i as int);
        }
        let part = slice_subrange(buf, BLOCK_SIZE * i, BLOCK_SIZE * i + BLOCK_SIZE);
        match Block::from_bytes(part) {
            Ok(b) => {
                blocks.push(b);
            },
            Err(e) => {
                proof {
                    lemma_first_block_error_stays(buf@, (i + 1) as nat, n as nat);
                }
                return Err(ReaderError::BlockCorruption(e));
            },
        }
        i = i + 1;
    }
    Ok(Uf2File::from_blocks(blocks.as_slice()))
}

/// Verify the integrity of the UF2 file.
///
/// Each block's index must be below its total, and follow the previous
/// block's index or restart at 0; its total must equal the previous block's
/// unless its index is 0; its payload size must fit the data area.
///
/// # Errors
/// - [`ReaderError::BlockOrderMismatch`] if the block order is incorrect.
/// - [`ReaderError::BlockCorruption`] if any block is corrupted.
pub fn verify(uf2_file: &Uf2File) -> (r: Result<(), ReaderError>)
    ensures
        match first_order_error(uf2_file@, uf2_file@.len()) {
            None => r is Ok,
            Some(e) => r == Err::<(), ReaderError>(e),
        },
        r is Ok <==> forall|i: int|
            0 <= i < uf2_file@.len() ==> {
                let b = #[trigger] uf2_file@[i];
                &&& b.block < b.total_blocks
                &&& b.data_len <= 476
                &&& i > 0 && b.block != 0 ==> b.block == uf2_file@[i - 1].block + 1
                    && b.total_blocks == uf2_file@[i - 1].total_blocks
            },
{
    proof {
        lemma_verify_accepts_exactly_ordered(uf2_file@);
    }
    let blocks = uf2_file.blocks();
    let n = blocks.len();
    let mut i: usize = 0;
    while i < n
        invariant
            n == uf2_file@.len(),
            blocks@ == uf2_file@,
            i <= n,
            first_order_error(uf2_file@, i as nat) is None,
        decreases n - i,
    {
        let b = blocks[i];
        let ghost prev_spec: Option<Block> = if i >= 1 { Some(uf2_file@[i - 1]) } else { None };
        let mut err: Option<ReaderError> = None;
        if b.block >= b.total_blocks {
            err = Some(ReaderError::BlockOrderMismatch);
        } else if i > 0 && b.block as u64 != blocks[i - 1].block as u64 + 1 && b.block != 0 {
            err = Some(ReaderError::BlockOrderMismatch);
        } else if i > 0 && b.total_blocks != blocks[i - 1].total_blocks && b.block != 0 {
            err = Some(ReaderError::BlockOrderMismatch);
        } else if b.data_len as usize > MAX_PAYLOAD_SIZE {
            err = Some(ReaderError::BlockCorruption(BlockError::PayloadSize));
        }
        assert(err == block_order_error(prev_spec, uf2_file@[i as int]));
        if let Some(e) = err {
            proof {
                lemma_first_order_error_stays(uf2_file@, (i + 1) as nat, n as nat);
            }
            return Err(e);
        }
        i = i + 1;
    }
    Ok(())
}


/// Block `i` of the bytes of a file is the bytes of its block `i`.
proof fn lemma_chunk_of_blocks_to_bytes(blocks: Seq<Block>, i: int)
    requires
        0 <= i < blocks.len(),
    ensures
        chunk(blocks_to_bytes(blocks), i) == blocks[i].spec_to_bytes(),
    decreases blocks.len(),
{
    let rest = blocks.drop_last();
    crate::file::lemma_blocks_to_bytes_len(rest);
    crate::block::lemma_block_bytes_len(blocks.last());
    let s = blocks_to_bytes(blocks);
    let head = blocks_to_bytes(rest);
    assert(s == head + blocks.last().spec_to_bytes());
    assert(BLOCK_SIZE * i + BLOCK_SIZE <= BLOCK_SIZE * blocks.len()) by (nonlinear_arith)
        requires
            0 <= i < blocks.len(),
    ;
    if i < blocks.len() - 1 {
        lemma_chunk_of_blocks_to_bytes(rest, i);
        assert(BLOCK_SIZE * i + BLOCK_SIZE <= BLOCK_SIZE * rest.len()) by (nonlinear_arith)
            requires
                0 <= i < rest.len(),
        ;
        assert(chunk(s, i) =~= chunk(head, i));
        assert(rest[i] == blocks[i]);
    } else {
        assert(BLOCK_SIZE * i == head.len());
        assert(chunk(s, i) =~= blocks.last().spec_to_bytes());
    }
}

/// Reading back the bytes of a file of well-formed blocks gives those blocks:
/// the bytes are a whole number of blocks, every block reads without error,
/// and the blocks read are exactly the blocks written.
pub proof fn lemma_file_bytes_read_back(blocks: Seq<Block>)
    requires
        forall|i: int| 0 <= i < blocks.len() ==> (#[trigger] blocks[i]).well_formed(),
    ensures
        ({
            let s = blocks_to_bytes(blocks);
            &&& s.len() == BLOCK_SIZE * blocks.len()
            &&& s.len() / (BLOCK_SIZE as nat) == blocks.len()
            &&& s.len() % (BLOCK_SIZE as nat) == 0
            &&& first_block_error(s, blocks.len()) is None
            &&& forall|parsed: Seq<Block>|
                parsed.len() == blocks.len() && (forall|i: int|
                    0 <= i < blocks.len() ==> (#[trigger] parsed[i]).spec_to_bytes() == chunk(s, i))
                    ==> parsed == blocks
        }),
{
    let s = blocks_to_bytes(blocks);
    crate::file::lemma_blocks_to_bytes_len(blocks);
    assert(s.len() / (BLOCK_SIZE as nat) == blocks.len() && s.len() % (BLOCK_SIZE as nat) == 0)
        by (nonlinear_arith)
        requires
            s.len() == 512 * blocks.len(),
    ;
    lemma_no_block_error(blocks, blocks.len());
    assert forall|parsed: Seq<Block>|
        parsed.len() == blocks.len() && (forall|i: int|
            0 <= i < blocks.len() ==> (#[trigger] parsed[i]).spec_to_bytes() == chunk(s, i))
            implies parsed == blocks by {
        assert forall|i: int| 0 <= i < blocks.len() implies parsed[i] == blocks[i] by {
            lemma_chunk_of_blocks_to_bytes(blocks, i);
            crate::block::lemma_bytes_determine_block(parsed[i], blocks[i]);
        }
        assert(parsed =~= blocks);
    }
}

proof fn lemma_no_block_error(blocks: Seq<Block>, k: nat)
    requires
        k <= blocks.len(),
        forall|i: int| 0 <= i < blocks.len() ==> (#[trigger] blocks[i]).well_formed(),
    ensures
        first_block_error(blocks_to_bytes(blocks), k) is None,
    decreases k,
{
    if k > 0 {
        lemma_no_block_error(blocks, (k - 1) as nat);
        lemma_chunk_of_blocks_to_bytes(blocks, k - 1);
        crate::block::lemma_well_formed_block_reads_back(blocks[k - 1]);
    }
}


/// Writing back the blocks read from a buffer gives the buffer: a buffer of
/// `n` whole blocks is the concatenation of the bytes of its blocks.
pub proof fn lemma_read_blocks_write_back(buf: Seq<u8>, blocks: Seq<Block>)
    requires
        buf.len() == BLOCK_SIZE * blocks.len(),
        forall|i: int| 0 <= i < blocks.len() ==> (#[trigger] blocks[i]).spec_to_bytes() == chunk(buf, i),
    ensures
        blocks_to_bytes(blocks) == buf,
    decreases blocks.len(),
{
    if blocks.len() == 0 {
        assert(buf =~= Seq::<u8>::empty());
    } else {
        let m = blocks.len() - 1;
        let head = buf.subrange(0, BLOCK_SIZE * m);
        let rest = blocks.drop_last();
        assert forall|i: int| 0 <= i < rest.len() implies (#[trigger] rest[i]).spec_to_bytes()
            == chunk(head, i) by {
            assert(BLOCK_SIZE * i + BLOCK_SIZE <= BLOCK_SIZE * m) by (nonlinear_arith)
                requires
                    0 <= i < m,
            ;
            assert(rest[i] == blocks[i]);
            assert(chunk(head, i) =~= chunk(buf, i));
        }
        lemma_read_blocks_write_back(head, rest);
        assert(head + chunk(buf, m) =~= buf);
    }
}


/// A buffer taken for UF2 data is a non-zero, whole number of blocks whose
/// first block reads without error.
pub proof fn lemma_uf2_buffer_is_whole_blocks(buf: Seq<u8>)
    ensures
        spec_is_uf2_buffer(buf) <==> (buf.len() > 0 && buf.len() % 512 == 0
            && crate::block::block_parse_error(buf.subrange(0, 512)) is None),
        spec_is_uf2_buffer(buf) ==> buf.len() / 512 >= 1 && first_block_error(buf, 1) is None,
{
    if spec_is_uf2_buffer(buf) {
        assert(chunk(buf, 0) == buf.subrange(0, 512));
        assert(first_block_error(buf, 0) is None);
    }
    if buf.len() > 0 && buf.len() % 512 == 0 && crate::block::block_parse_error(
        buf.subrange(0, 512),
    ) is None {
        assert(chunk(buf, 0) == buf.subrange(0, 512));
    }
}

/// The conditions `verify` checks, block by block.
proof fn lemma_order_error_prefix(blocks: Seq<Block>, n: nat)
    requires
        n <= blocks.len(),
    ensures
        first_order_error(blocks, n) is None <==> forall|i: int|
            0 <= i < n ==> {
                let b = #[trigger] blocks[i];
                &&& b.block < b.total_blocks
                &&& b.data_len <= 476
                &&& i > 0 && b.block != 0 ==> b.block == blocks[i - 1].block + 1
                    && b.total_blocks == blocks[i - 1].total_blocks
            },
    decreases n,
{
    if n > 0 {
        lemma_order_error_prefix(blocks, (n - 1) as nat);
    }
}

/// `verify` accepts a file exactly when every block's index is below its
/// total, its payload fits the data area, and every block but one with index
/// 0 follows the block before it: the next index, and the same total.
pub proof fn lemma_verify_accepts_exactly_ordered(blocks: Seq<Block>)
    ensures
        first_order_error(blocks, blocks.len()) is None <==> forall|i: int|
            0 <= i < blocks.len() ==> {
                let b = #[trigger] blocks[i];
                &&& b.block < b.total_blocks
                &&& b.data_len <= 476
                &&& i > 0 && b.block != 0 ==> b.block == blocks[i - 1].block + 1
                    && b.total_blocks == blocks[i - 1].total_blocks
            },
{
    lemma_order_error_prefix(blocks, blocks.len());
}

/// A block whose index is neither 0 nor the next after the block before it
/// (a missing or repeated block) makes `verify` fail with
/// `BlockOrderMismatch`, when the blocks before it are in order.
pub proof fn lemma_verify_rejects_gap(blocks: Seq<Block>, i: int)
    requires
        0 < i < blocks.len(),
        blocks[i].block != 0,
        blocks[i].block != blocks[i - 1].block + 1,
        forall|j: int|
            0 <= j < i ==> {
                let b = #[trigger] blocks[j];
                &&& b.block < b.total_blocks
                &&& b.data_len <= 476
                &&& j > 0 && b.block != 0 ==> b.block == blocks[j - 1].block + 1
                    && b.total_blocks == blocks[j - 1].total_blocks
            },
    ensures
        first_order_error(blocks, blocks.len()) == Some(ReaderError::BlockOrderMismatch),
{
    lemma_order_error_prefix(blocks, i as nat);
    assert(first_order_error(blocks, (i + 1) as nat) == Some(ReaderError::BlockOrderMismatch));
    lemma_first_order_error_stays(blocks, (i + 1) as nat, blocks.len());
}

} // verus!
