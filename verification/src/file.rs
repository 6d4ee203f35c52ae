//! A UF2 file: a sequence of blocks.

use crate::block::{Block, BLOCK_SIZE};
use vstd::prelude::*;

verus! {

/// Whether a block belongs to the payload selected by `family_id`: every block
/// when no family id is asked for, else the blocks tagged with that id.
pub open spec fn block_selected(b: Block, family_id: Option<u32>) -> bool {
    match family_id {
        None => true,
        Some(id) => b.spec_board_family_id() == Some(id),
    }
}

/// The payload of the selected blocks, concatenated in block order.
pub open spec fn payload_of(blocks: Seq<Block>, family_id: Option<u32>) -> Seq<u8>
    decreases blocks.len(),
{
    if blocks.len() == 0 {
        Seq::empty()
    } else {
        let b = blocks.last();
        payload_of(blocks.drop_last(), family_id) + if block_selected(b, family_id) {
            b.spec_data()
        } else {
            Seq::empty()
        }
    }
}

/// The distinct family ids of the blocks, in order of first appearance.
pub open spec fn family_ids_of(blocks: Seq<Block>) -> Seq<u32>
    decreases blocks.len(),
{
    if blocks.len() == 0 {
        Seq::empty()
    } else {
        let ids = family_ids_of(blocks.drop_last());
        match blocks.last().spec_board_family_id() {
            Some(id) => if ids.contains(id) {
                ids
            } else {
                ids.push(id)
            },
            None => ids,
        }
    }
}

/// The bytes of the blocks, one after the other.
pub open spec fn blocks_to_bytes(blocks: Seq<Block>) -> Seq<u8>
    decreases blocks.len(),
{
    if blocks.len() == 0 {
        Seq::empty()
    } else {
        blocks_to_bytes(blocks.drop_last()) + blocks.last().spec_to_bytes()
    }
}

/// Sum of `data_len` over the first `n` blocks.
pub open spec fn data_len_sum(blocks: Seq<Block>, n: int) -> int
    decreases n,
{
    if n <= 0 {
        0
    } else {
        data_len_sum(blocks, n - 1) + blocks[n - 1].data_len
    }
}

/// `b` with its target address replaced.
pub open spec fn with_target_addr(b: Block, addr: u32) -> Block {
    Block { target_addr: addr, ..b }
}

/// UF2 file structure containing a collection of blocks.
#[derive(Debug)]
pub struct Uf2File {
    blocks: Vec<Block>,
}

impl View for Uf2File {
    type V = Seq<Block>;

    closed spec fn view(&self) -> Seq<Block> {
        self.blocks@
    }
}

/// `out` extended by the bytes of `src`.
pub(crate) fn append_bytes(out: &mut Vec<u8>, src: &[u8])
    ensures
        final(out)@ == old(out)@ + src@,
{
    let n = src.len();
    let ghost start = out@;
    let mut i: usize = 0;
    while i < n
        invariant
            n == src@.len(),
            i <= n,
            out@ == start + src@.subrange(0, i as int),
        decreases n - i,
    {
        out.push(src[i]);
        i = i + 1;
        assert(out@ =~= start + src@.subrange(0, i as int));
    }
    assert(src@.subrange(0, n as int) =~= src@);
}

/// Whether `id` occurs in `ids`.
fn contains_id(ids: &Vec<u32>, id: u32) -> (r: bool)
    ensures
        r == ids@.contains(id),
{
    let mut i: usize = 0;
    while i < ids.len()
        invariant
            i <= ids@.len(),
            forall|j: int| 0 <= j < i ==> ids@[j] != id,
        decreases ids@.len() - i,
    {
        if ids[i] == id {
            return true;
        }
        i = i + 1;
    }
    false
}

impl Uf2File {
    /// Create a new empty UF2 file.
    pub fn new() -> (r: Self)
        ensures
            r@ == Seq::<Block>::empty(),
    {
        Uf2File { blocks: Vec::new() }
    }

    /// Create a UF2 file from a slice of blocks.
    pub fn from_blocks(blocks: &[Block]) -> (r: Self)
        ensures
            r@ == blocks@,
    {
        let mut v: Vec<Block> = Vec::new();
        let mut i: usize = 0;
        while i < blocks.len()
            invariant
                i <= blocks@.len(),
                v@ == blocks@.subrange(0, i as int),
            decreases blocks@.len() - i,
        {
            let b = blocks[i];
            v.push(b);
            i = i + 1;
            assert(v@ =~= blocks@.subrange(0, i as int));
        }
        assert(blocks@.subrange(0, blocks@.len() as int) =~= blocks@);
        Uf2File { blocks: v }
    }

    /// Get the number of blocks in the UF2 file.
    pub fn len(&self) -> (r: usize)
        ensures
            r == self@.len(),
    {
        self.blocks.len()
    }

    /// Check if the UF2 file is empty.
    pub fn is_empty(&self) -> (r: bool)
        ensures
            r == (self@.len() == 0),
    {
        self.blocks.len() == 0
    }

    /// Get a slice of all blocks in the file.
    pub fn blocks(&self) -> (r: &[Block])
        ensures
            r@ == self@,
    {
        self.blocks.as_slice()
    }

    /// Get a mutable slice of all blocks in the file.
    pub fn blocks_mut(&mut self) -> (r: &mut [Block])
        ensures
            r@ == old(self)@,
            final(r)@ == final(self)@,
    {
        self.blocks.as_mut_slice()
    }

    /// Add a block to the file.
    pub fn push_block(&mut self, block: Block)
        ensures
            final(self)@ == old(self)@.push(block),
    {
        self.blocks.push(block);
    }

    /// Concatenate another [`Uf2File`] to this one.
    pub fn concat(&mut self, other: &Self)
        ensures
            final(self)@ == old(self)@ + other@,
    {
        let ghost start = self@;
        let mut i: usize = 0;
        while i < other.blocks.len()
            invariant
                i <= other@.len(),
                self@ == start + other@.subrange(0, i as int),
            decreases other@.len() - i,
        {
            let b = other.blocks[i];
            self.blocks.push(b);
            i = i + 1;
            assert(self@ =~= start + other@.subrange(0, i as int));
        }
        assert(other@.subrange(0, other@.len() as int) =~= other@);
    }

    /// Set the target address for each block starting from the given address.
    ///
    /// Block `i` gets `start_addr` plus the data lengths of the blocks before
    /// it, taken modulo 2^32.
    pub fn set_target_addresses(&mut self, start_addr: u32)
        ensures
            final(self)@.len() == old(self)@.len(),
            forall|i: int|
                0 <= i < old(self)@.len() ==> #[trigger] final(self)@[i] == with_target_addr(
                    old(self)@[i],
                    ((start_addr + data_len_sum(old(self)@, i)) % 0x1_0000_0000) as u32,
                ),
    {
        let ghost orig = self@;
        let n = self.blocks.len();
        let mut offset: u32 = start_addr;
        let mut i: usize = 0;
        while i < n
            invariant
                n == orig.len(),
                i <= n,
                self@.len() == n,
                offset == (start_addr + data_len_sum(orig, i as int)) % 0x1_0000_0000,
                forall|j: int|
                    0 <= j < i ==> #[trigger] self@[j] == with_target_addr(
                        orig[j],
                        ((start_addr + data_len_sum(orig, j)) % 0x1_0000_0000) as u32,
                    ),
                forall|j: int| i <= j < n ==> #[trigger] self@[j] == orig[j],
            decreases n - i,
        {
            let mut b = self.blocks[i];
            b.target_addr = offset;
            let len = b.data_len;
            self.blocks.set(i, b);
            offset = offset.wrapping_add(len);
            i = i + 1;
            assert(offset == (start_addr + data_len_sum(orig, i as int)) % 0x1_0000_0000);
        }
    }

    /// Get payload of the UF2 file with the specified family ID.
    ///
    /// # Returns
    /// - `Some(Vec<u8>)` if the payload is not empty.
    /// - `None` if the payload is empty.
    pub fn get_payload(&self, family_id: Option<u32>) -> (r: Option<Vec<u8>>)
        ensures
            match r {
                Some(v) => v@ == payload_of(self@, family_id) && v@.len() > 0,
                None => payload_of(self@, family_id).len() == 0,
            },
    {
        let mut payload: Vec<u8> = Vec::new();
        let mut i: usize = 0;
        while i < self.blocks.len()
            invariant
                i <= self@.len(),
                payload@ == payload_of(self@.subrange(0, i as int), family_id),
            decreases self@.len() - i,
        {
            let block = &self.blocks[i];
            let ghost prefix = self@.subrange(0, i as int + 1);
            assert(prefix.drop_last() =~= self@.subrange(0, i as int));
            let selected = match family_id {
                None => true,
                Some(id) => match block.board_family_id() {
                    Some(own) => own == id,
                    None => false,
                },
            };
            if selected {
                append_bytes(&mut payload, block.data());
            }
            i = i + 1;
        }
        assert(self@.subrange(0, self@.len() as int) =~= self@);
        if payload.len() == 0 {
            None
        } else {
            Some(payload)
        }
    }

    /// List all family IDs in the UF2 file.
    ///
    /// Returns a vector of family IDs.
    /// If there are duplicate family IDs, they are removed.
    /// If there are no family IDs, returns an empty vector.
    pub fn list_family_ids(&self) -> (r: Vec<u32>)
        ensures
            r@ == family_ids_of(self@),
            r@.no_duplicates(),
            forall|id: u32|
                r@.contains(id) <==> exists|i: int|
                    0 <= i < self@.len() && #[trigger] self@[i].spec_board_family_id() == Some(id),
    {
        let mut ids: Vec<u32> = Vec::new();
        let mut i: usize = 0;
        while i < self.blocks.len()
            invariant
                i <= self@.len(),
                ids@ == family_ids_of(self@.subrange(0, i as int)),
            decreases self@.len() - i,
        {
            let ghost prefix = self@.subrange(0, i as int + 1);
            assert(prefix.drop_last() =~= self@.subrange(0, i as int));
            match self.blocks[i].board_family_id() {
                Some(id) => {
                    if !contains_id(&ids, id) {
                        ids.push(id);
                    }
                },
                None => {},
            }
            i = i + 1;
        }
        assert(self@.subrange(0, self@.len() as int) =~= self@);
        proof {
            lemma_family_ids_distinct_and_complete(self@);
        }
        ids
    }

    /// Convert the UF2 file to a byte vector.
    pub fn to_bytes(&self) -> (r: Vec<u8>)
        ensures
            r@ == blocks_to_bytes(self@),
            r@.len() == BLOCK_SIZE * self@.len(),
    {
        let mut out: Vec<u8> = Vec::new();
        let mut i: usize = 0;
        while i < self.blocks.len()
            invariant
                i <= self@.len(),
                out@ == blocks_to_bytes(self@.subrange(0, i as int)),
            decreases self@.len() - i,
        {
            let ghost prefix = self@.subrange(0, i as int + 1);
            assert(prefix.drop_last() =~= self@.subrange(0, i as int));
            let mut bytes = self.blocks[i].to_bytes();
            out.append(&mut bytes);
            i = i + 1;
        }
        assert(self@.subrange(0, self@.len() as int) =~= self@);
        proof {
            lemma_blocks_to_bytes_len(self@);
        }
        out
    }
}

impl Default for Uf2File {
    /// An empty file.
    fn default() -> (r: Self)
        ensures
            r@ == Seq::<Block>::empty(),
    {
        Uf2File::new()
    }
}

/// The list of family ids has no repeats, and holds exactly the ids that
/// some block carries.
pub proof fn lemma_family_ids_distinct_and_complete(blocks: Seq<Block>)
    ensures
        family_ids_of(blocks).no_duplicates(),
        forall|id: u32|
            family_ids_of(blocks).contains(id) <==> exists|i: int|
                0 <= i < blocks.len() && #[trigger] blocks[i].spec_board_family_id() == Some(id),
    decreases blocks.len(),
{
    if blocks.len() > 0 {
        let rest = blocks.drop_last();
        let last = blocks.last();
        let ids = family_ids_of(rest);
        lemma_family_ids_distinct_and_complete(rest);
        assert forall|id: u32|
            family_ids_of(blocks).contains(id) <==> exists|i: int|
                0 <= i < blocks.len() && #[trigger] blocks[i].spec_board_family_id() == Some(
                    id,
                ) by {
            let in_rest = exists|i: int|
                0 <= i < rest.len() && #[trigger] rest[i].spec_board_family_id() == Some(id);
            if in_rest {
                let i = choose|i: int|
                    0 <= i < rest.len() && #[trigger] rest[i].spec_board_family_id() == Some(id);
                assert(blocks[i] == rest[i]);
            }
            if exists|i: int|
                0 <= i < blocks.len() && #[trigger] blocks[i].spec_board_family_id() == Some(id) {
                let i = choose|i: int|
                    0 <= i < blocks.len() && #[trigger] blocks[i].spec_board_family_id() == Some(
                        id,
                    );
                if i < blocks.len() - 1 {
                    assert(rest[i] == blocks[i]);
                } else {
                    assert(last.spec_board_family_id() == Some(id));
                }
            }
            match last.spec_board_family_id() {
                Some(lid) => {
                    if !ids.contains(lid) {
                        assert(ids.push(lid).contains(id) <==> (ids.contains(id) || id == lid)) by {
                            if ids.push(lid).contains(id) {
                                let k = choose|k: int|
                                    0 <= k < ids.push(lid).len() && ids.push(lid)[k] == id;
                                if k < ids.len() {
                                    assert(ids[k] == id);
                                }
                            }
                            if ids.contains(id) {
                                let k = choose|k: int| 0 <= k < ids.len() && ids[k] == id;
                                assert(ids.push(lid)[k] == id);
                            }
                            if id == lid {
                                assert(ids.push(lid)[ids.len() as int] == id);
                            }
                        }
                        assert(blocks[blocks.len() - 1].spec_board_family_id() == Some(lid));
                    } else {
                        assert(blocks[blocks.len() - 1].spec_board_family_id() == Some(lid));
                    }
                },
                None => {},
            }
        }
    }
}

/// A file of `n` blocks is `512 * n` bytes long.
pub proof fn lemma_blocks_to_bytes_len(blocks: Seq<Block>)
    ensures
        blocks_to_bytes(blocks).len() == BLOCK_SIZE * blocks.len(),
    decreases blocks.len(),
{
    if blocks.len() > 0 {
        lemma_blocks_to_bytes_len(blocks.drop_last());
        crate::block::lemma_block_bytes_len(blocks.last());
    }
}

} // verus!
