//! Turning payloads into UF2 blocks.

use crate::block::{
    Block, Flags, MAGIC_END, MAGIC_START_0, MAGIC_START_1, MAX_PAYLOAD_SIZE,
    MAX_PAYLOAD_SIZE_WITH_CHECKSUM,
};
use crate::file::{payload_of, Uf2File};
use crate::reader::first_order_error;
use vstd::prelude::*;

verus! {

/// Error type for UF2 writing operations.
#[derive(Debug, PartialEq, Eq)]
pub enum WriterError {
    /// There was an issue with the input buffer.
    InputBuffer,
    /// Address or payload size is not properly aligned.
    AlignmentError,
    /// Block corruption occurred during writing.
    BlockCorruption,
}

impl WriterError {
    pub open spec fn spec_message(&self) -> Seq<char> {
        match self {
            WriterError::InputBuffer => "Input buffer error"@,
            WriterError::AlignmentError => "Alignment error"@,
            WriterError::BlockCorruption => "Block corruption during writing"@,
        }
    }

    /// Human readable description of the error.
    pub fn to_string(&self) -> (r: String)
        ensures
            r@ == self.spec_message(),
    {
        match self {
            WriterError::InputBuffer => "Input buffer error".to_owned(),
            WriterError::AlignmentError => "Alignment error".to_owned(),
            WriterError::BlockCorruption => "Block corruption during writing".to_owned(),
        }
    }
}

/// `x` rounded up to a multiple of `m` (`m > 0`).
pub open spec fn round_up(x: int, m: int) -> int {
    (x + m - 1) / m * m
}

/// Number of blocks `add_payload` makes of a payload of `n` bytes.
pub open spec fn payload_block_count(n: int) -> int {
    (n + MAX_PAYLOAD_SIZE - 1) / (MAX_PAYLOAD_SIZE as int)
}

/// The value `add_payload` writes into `total_blocks`: the payload size
/// divided by the checksum-sized payload, rounded up.
pub open spec fn payload_total_blocks(n: int) -> int {
    (n + MAX_PAYLOAD_SIZE_WITH_CHECKSUM - 1) / (MAX_PAYLOAD_SIZE_WITH_CHECKSUM as int)
}

/// Bytes of payload in block `i` of `add_payload` for a payload of `n` bytes.
pub open spec fn payload_chunk_len(n: int, i: int) -> int {
    crate::block::spec_min(MAX_PAYLOAD_SIZE as int, n - MAX_PAYLOAD_SIZE * i)
}

/// `n` zero bytes.
pub open spec fn zeros(n: int) -> Seq<u8> {
    Seq::new(n as nat, |j: int| 0u8)
}

/// Block `i` made by `add_payload` from `payload`: 476 bytes of payload per
/// block at target address 476 * i, tagged with the family id when given.
pub open spec fn is_payload_block(b: Block, payload: Seq<u8>, family_id: Option<u32>, i: int) -> bool {
    let n = payload.len() as int;
    let len = payload_chunk_len(n, i);
    let start = MAX_PAYLOAD_SIZE * i;
    &&& b.magic_start_0 == MAGIC_START_0
    &&& b.magic_start_1 == MAGIC_START_1
    &&& b.magic_end == MAGIC_END
    &&& b.flags == (if family_id is Some {
        Flags::FamilyId
    } else {
        0u32
    })
    &&& b.target_addr == start as u32
    &&& b.data_len == len as u32
    &&& b.block == i as u32
    &&& b.total_blocks == payload_total_blocks(n) as u32
    &&& b.board_family_id_or_file_size == (match family_id {
        Some(id) => id,
        None => 0u32,
    })
    &&& b.data@ == payload.subrange(start, start + len) + zeros(MAX_PAYLOAD_SIZE - len)
}

/// Payload of a sequence of blocks extended by one block.
proof fn lemma_payload_of_push(blocks: Seq<Block>, b: Block, family_id: Option<u32>)
    ensures
        payload_of(blocks.push(b), family_id) == payload_of(blocks, family_id) + if
        crate::file::block_selected(b, family_id) {
            b.spec_data()
        } else {
            Seq::empty()
        },
{
    assert(blocks.push(b).drop_last() =~= blocks);
}

/// A block made by `add_payload` is well formed, selected by the family id it
/// was made with, and holds its chunk of the payload.
pub proof fn lemma_payload_block_facts(b: Block, payload: Seq<u8>, family_id: Option<u32>, i: int)
    requires
        0 <= i < payload_block_count(payload.len() as int),
        is_payload_block(b, payload, family_id, i),
    ensures
        b.well_formed(),
        crate::file::block_selected(b, family_id),
        b.spec_data() == payload.subrange(
            MAX_PAYLOAD_SIZE * i,
            MAX_PAYLOAD_SIZE * i + payload_chunk_len(payload.len() as int, i),
        ),
{
    let n = payload.len() as int;
    let len = payload_chunk_len(n, i);
    assert(0 < len <= 476) by (nonlinear_arith)
        requires
            0 <= i < (n + 475) / 476,
            len == crate::block::spec_min(476, n - 476 * i),
    ;
    assert(Flags::FamilyId & Flags::FamilyId != 0) by (bit_vector);
    assert(b.spec_data() =~= payload.subrange(476 * i, 476 * i + len));
}

/// The payload of the old blocks and the first `k` added blocks.
proof fn lemma_add_payload_prefix(
    old_blocks: Seq<Block>,
    new_blocks: Seq<Block>,
    payload: Seq<u8>,
    family_id: Option<u32>,
    k: int,
)
    requires
        0 <= k <= payload_block_count(payload.len() as int),
        new_blocks.len() == old_blocks.len() + payload_block_count(payload.len() as int),
        forall|i: int| 0 <= i < old_blocks.len() ==> #[trigger] new_blocks[i] == old_blocks[i],
        forall|i: int|
            0 <= i < payload_block_count(payload.len() as int) ==> is_payload_block(
                #[trigger] new_blocks[old_blocks.len() + i],
                payload,
                family_id,
                i,
            ),
    ensures
        payload_of(new_blocks.subrange(0, old_blocks.len() + k), family_id) == payload_of(
            old_blocks,
            family_id,
        ) + payload.subrange(0, crate::block::spec_min(payload.len() as int, 476 * k)),
    decreases k,
{
    let n = payload.len() as int;
    let base = old_blocks.len() as int;
    if k == 0 {
        assert(new_blocks.subrange(0, base) =~= old_blocks);
        assert(payload.subrange(0, 0) =~= Seq::<u8>::empty());
    } else {
        let j = k - 1;
        lemma_add_payload_prefix(old_blocks, new_blocks, payload, family_id, j);
        let b = new_blocks[base + j];
        lemma_payload_block_facts(b, payload, family_id, j);
        assert(new_blocks.subrange(0, base + j + 1) =~= new_blocks.subrange(0, base + j).push(b));
        lemma_payload_of_push(new_blocks.subrange(0, base + j), b, family_id);
        let len = payload_chunk_len(n, j);
        assert(crate::block::spec_min(n, 476 * j) == 476 * j && crate::block::spec_min(
            n,
            476 * (j + 1),
        ) == 476 * j + len) by (nonlinear_arith)
            requires
                0 <= j < (n + 475) / 476,
                len == crate::block::spec_min(476, n - 476 * j),
        ;
        assert(payload.subrange(0, 476 * j) + payload.subrange(476 * j, 476 * j + len)
            =~= payload.subrange(0, 476 * j + len));
    }
}

/// What `add_payload` writes is what `get_payload` reads: the payload selected
/// by the family id grows by exactly the bytes added.
pub proof fn lemma_add_payload_reads_back(
    old_blocks: Seq<Block>,
    new_blocks: Seq<Block>,
    payload: Seq<u8>,
    family_id: Option<u32>,
)
    requires
        new_blocks.len() == old_blocks.len() + payload_block_count(payload.len() as int),
        forall|i: int| 0 <= i < old_blocks.len() ==> #[trigger] new_blocks[i] == old_blocks[i],
        forall|i: int|
            0 <= i < payload_block_count(payload.len() as int) ==> is_payload_block(
                #[trigger] new_blocks[old_blocks.len() + i],
                payload,
                family_id,
                i,
            ),
    ensures
        payload_of(new_blocks, family_id) == payload_of(old_blocks, family_id) + payload,
{
    let n = payload.len() as int;
    let count = payload_block_count(n);
    lemma_add_payload_prefix(old_blocks, new_blocks, payload, family_id, count);
    assert(crate::block::spec_min(n, 476 * count) == n) by (nonlinear_arith)
        requires
            count == (n + 475) / 476,
            n >= 0,
    ;
    assert(new_blocks.subrange(0, old_blocks.len() + count) =~= new_blocks);
    assert(payload.subrange(0, n) =~= payload);
}

/// The first `k` blocks made by `add_payload` are in order.
proof fn lemma_payload_blocks_in_order(
    blocks: Seq<Block>,
    payload: Seq<u8>,
    family_id: Option<u32>,
    k: nat,
)
    requires
        k <= blocks.len(),
        blocks.len() == payload_block_count(payload.len() as int),
        forall|i: int|
            0 <= i < blocks.len() ==> is_payload_block(#[trigger] blocks[i], payload, family_id, i),
        payload_total_blocks(payload.len() as int) <= u32::MAX,
    ensures
        first_order_error(blocks, k) is None,
    decreases k,
{
    if k > 0 {
        lemma_payload_blocks_in_order(blocks, payload, family_id, (k - 1) as nat);
        let n = payload.len() as int;
        let count = blocks.len() as int;
        let total = payload_total_blocks(n);
        assert(count <= total) by (nonlinear_arith)
            requires
                count == (n + 475) / 476,
                total == (n + 451) / 452,
                n >= 0,
        ;
        let j = k - 1;
        let b = blocks[j];
        lemma_payload_block_facts(b, payload, family_id, j);
        assert(b.block == j);
        if j >= 1 {
            let p = blocks[j - 1];
            assert(p.block == j - 1);
        }
    }
}

/// A file made by `add_payload` alone passes `verify`, as long as the block
/// total it writes fits in 32 bits.
pub proof fn lemma_added_payload_passes_verify(
    blocks: Seq<Block>,
    payload: Seq<u8>,
    family_id: Option<u32>,
)
    requires
        blocks.len() == payload_block_count(payload.len() as int),
        forall|i: int|
            0 <= i < blocks.len() ==> is_payload_block(#[trigger] blocks[i], payload, family_id, i),
        payload_total_blocks(payload.len() as int) <= u32::MAX,
    ensures
        first_order_error(blocks, blocks.len()) is None,
{
    lemma_payload_blocks_in_order(blocks, payload, family_id, blocks.len());
}

impl Uf2File {
    /// Add payload to the UF2 file.
    ///
    /// The payload is cut into blocks of 476 bytes (the last one shorter),
    /// numbered from 0, with target addresses counted from 0 and, when a
    /// family id is given, the `FamilyId` flag and that id. Every offset is a
    /// multiple of 4, so the alignment checks always pass.
    ///
    /// # Errors
    /// Returns `Err` if target address is not 4-byte aligned.
    pub fn add_payload(&mut self, payload: &[u8], family_id: Option<u32>) -> (r: Result<
        (),
        WriterError,
    >)
        ensures
            r is Ok,
            final(self)@.len() == old(self)@.len() + payload_block_count(payload@.len() as int),
            forall|i: int| 0 <= i < old(self)@.len() ==> #[trigger] final(self)@[i] == old(self)@[i],
            forall|i: int|
                0 <= i < payload_block_count(payload@.len() as int) ==> is_payload_block(
                    #[trigger] final(self)@[old(self)@.len() + i],
                    payload@,
                    family_id,
                    i,
                ),
    {
        let n = payload.len();
        let mut offset: usize = 0;
        let mut block_num: usize = 0;
        let total_blocks: usize = n / MAX_PAYLOAD_SIZE_WITH_CHECKSUM + if n
            % MAX_PAYLOAD_SIZE_WITH_CHECKSUM == 0 {
            0
        } else {
            1
        };
        let ghost old_blocks = self@;
        proof {
            assert(total_blocks == payload_total_blocks(n as int)) by (nonlinear_arith)
                requires
                    total_blocks == n / 452 + if n % 452 == 0 {
                        0int
                    } else {
                        1int
                    },
                    n >= 0,
            ;
        }
        while offset < n
            invariant
                n == payload@.len(),
                offset < n ==> offset == MAX_PAYLOAD_SIZE * block_num,
                offset >= n ==> offset == n && block_num == payload_block_count(n as int),
                block_num <= payload_block_count(n as int),
                offset < n ==> block_num < payload_block_count(n as int),
                total_blocks == payload_total_blocks(n as int),
                self@.len() == old_blocks.len() + block_num,
                forall|i: int| 0 <= i < old_blocks.len() ==> #[trigger] self@[i] == old_blocks[i],
                forall|i: int|
                    0 <= i < block_num ==> is_payload_block(
                        #[trigger] self@[old_blocks.len() + i],
                        payload@,
                        family_id,
                        i,
                    ),
            decreases n - offset,
        {
            let chunk_size: usize = if MAX_PAYLOAD_SIZE < n - offset {
                MAX_PAYLOAD_SIZE
            } else {
                n - offset
            };
            if offset % 4 != 0 {
                return Err(WriterError::AlignmentError);
            }
            if chunk_size < n - offset && chunk_size % 4 != 0 {
                return Err(WriterError::AlignmentError);
            }
            let mut data = [0u8; MAX_PAYLOAD_SIZE];
            let mut j: usize = 0;
            while j < chunk_size
                invariant
                    n == payload@.len(),
                    chunk_size <= MAX_PAYLOAD_SIZE,
                    offset + chunk_size <= n,
                    j <= chunk_size,
                    forall|k: int| 0 <= k < j ==> data@[k] == payload@[offset + k],
                    forall|k: int| j <= k < MAX_PAYLOAD_SIZE ==> data@[k] == 0u8,
                decreases chunk_size - j,
            {
                data[j] = payload[offset + j];
                j = j + 1;
            }
            let mut block = Block {
                magic_start_0: MAGIC_START_0,
                magic_start_1: MAGIC_START_1,
                flags: 0,
                target_addr: offset as u32,
                data_len: chunk_size as u32,
                block: block_num as u32,
                total_blocks: total_blocks as u32,
                board_family_id_or_file_size: 0,
                data,
                magic_end: MAGIC_END,
            };
            if let Some(id) = family_id {
                block.flags = block.flags | Flags::FamilyId;
                block.board_family_id_or_file_size = id;
            }
            proof {
                assert(0u32 | Flags::FamilyId == Flags::FamilyId) by (bit_vector);
                assert(chunk_size == payload_chunk_len(n as int, block_num as int));
                assert(block.data@ =~= payload@.subrange(offset as int, offset + chunk_size)
                    + zeros(MAX_PAYLOAD_SIZE - chunk_size));
                assert(is_payload_block(block, payload@, family_id, block_num as int));
            }
            self.push_block(block);
            offset = offset + chunk_size;
            block_num = block_num + 1;
            proof {
                if offset < n {
                    assert(offset == 476 * block_num);
                    assert(block_num < payload_block_count(n as int)) by (nonlinear_arith)
                        requires
                            offset == 476 * block_num,
                            offset < n,
                    ;
                } else {
                    assert(offset == n);
                    assert(block_num == payload_block_count(n as int)) by (nonlinear_arith)
                        requires
                            476 * block_num >= n,
                            476 * (block_num - 1) < n,
                            block_num >= 1,
                    ;
                }
            }
        }
        proof {
            if n == 0 {
                assert(payload_block_count(0) == 0);
            }
        }
        Ok(())
    }
}

} // verus!
