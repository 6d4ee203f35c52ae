//! Binaries laid out for flash: cut into pages at multiples of the page
//! size, each page into blocks carrying the page's MD5 checksum, and the
//! first block of each page carrying page-size and version extensions.

use crate::block::{
    le32, spec_min, Block, Checksum, Extension, ExtensionTag, Flags, ALIGN, MAGIC_END,
    MAGIC_START_0, MAGIC_START_1, MAX_PAYLOAD_SIZE, MAX_PAYLOAD_SIZE_WITH_CHECKSUM,
};
use crate::file::{append_bytes, Uf2File};
use crate::writer::{round_up, zeros, WriterError};
use vstd::prelude::*;
use vstd::slice::slice_subrange;
use vstd::string::StringSliceAdditionalSpecFns;

verus! {

/// Name for the MD5 digest of `data`, as `md5::compute` returns it.
pub uninterp spec fn md5_digest(data: Seq<u8>) -> Seq<u8>;

/// Calls `md5::compute` on `data`; the result is the 16-byte digest, named
/// `md5_digest(data)` (its value is not stated here).
#[verifier::external_body]
fn md5_compute(data: &[u8]) -> (r: [u8; 16])
    ensures
        r@ == md5_digest(data@),
{
    md5::compute(data).0
}

/// The decimal digits of `n`, as ASCII bytes, without leading zeros.
pub open spec fn decimal(n: nat) -> Seq<u8>
    decreases n,
{
    if n < 10 {
        seq![(48 + n) as u8]
    } else {
        decimal(n / 10).push((48 + n % 10) as u8)
    }
}

/// `10^k`.
pub open spec fn pow10(k: nat) -> nat
    decreases k,
{
    if k == 0 {
        1
    } else {
        10 * pow10((k - 1) as nat)
    }
}

proof fn lemma_decimal_len(n: nat, k: nat)
    requires
        n < pow10(k),
        k >= 1,
    ensures
        decimal(n).len() <= k,
    decreases k,
{
    if n >= 10 {
        reveal_with_fuel(pow10, 2);
        assert(pow10(1) == 10);
        assert(k >= 2) by {
            if k == 1 {
                assert(n < 10);
            }
        }
        let k1 = (k - 1) as nat;
        assert(pow10(k) == 10 * pow10(k1));
        assert(n / 10 < pow10(k1)) by (nonlinear_arith)
            requires
                n < 10 * pow10(k1),
        ;
        lemma_decimal_len(n / 10, k1);
    }
}

/// The decimal representation of `n`, as `n.to_string()` gives it.
fn decimal_digits(n: usize) -> (r: Vec<u8>)
    ensures
        r@ == decimal(n as nat),
        r@.len() <= 20,
    decreases n,
{
    proof {
        reveal_with_fuel(pow10, 21);
        assert(pow10(20) == 100000000000000000000nat);
        lemma_decimal_len(n as nat, 20);
    }
    if n < 10 {
        let mut v: Vec<u8> = Vec::new();
        v.push((48 + n) as u8);
        v
    } else {
        let mut v = decimal_digits(n / 10);
        v.push((48 + n % 10) as u8);
        v
    }
}

/// `s` with the bytes from `at` on replaced by `src`.
pub open spec fn overwrite(s: Seq<u8>, at: int, src: Seq<u8>) -> Seq<u8> {
    s.subrange(0, at) + src + s.subrange(at + src.len(), s.len() as int)
}

/// Write `src` into `data` at `at`.
fn write_at(data: &mut [u8; MAX_PAYLOAD_SIZE], at: usize, src: &[u8])
    requires
        at + src@.len() <= MAX_PAYLOAD_SIZE,
    ensures
        final(data)@ == overwrite(old(data)@, at as int, src@),
{
    let ghost start = data@;
    let n = src.len();
    let mut i: usize = 0;
    while i < n
        invariant
            n == src@.len(),
            at + n <= MAX_PAYLOAD_SIZE,
            i <= n,
            forall|j: int| 0 <= j < at ==> data@[j] == start[j],
            forall|j: int| 0 <= j < i ==> data@[at + j] == src@[j],
            forall|j: int| at + i <= j < MAX_PAYLOAD_SIZE ==> data@[j] == start[j],
        decreases n - i,
    {
        data[at + i] = src[i];
        i = i + 1;
    }
    assert(data@ =~= overwrite(start, at as int, src@));
}

/// Payload room of the first block of a page, which also carries the page
/// size and version extensions: 452 bytes less the room reserved for both
/// records; when that leaves no room for payload, 452 bytes less the room of
/// the page-size record alone (the version record is then left out); and the
/// whole 452 bytes if even that leaves no room.
pub open spec fn first_block_room(digits_len: int, semver_len: int) -> int {
    let page_size_room = Extension::HEADER_SIZE + round_up(digits_len, ALIGN as int);
    let reserved = page_size_room + (Extension::HEADER_SIZE + round_up(
        semver_len,
        ALIGN as int,
    ));
    if reserved < MAX_PAYLOAD_SIZE_WITH_CHECKSUM {
        MAX_PAYLOAD_SIZE_WITH_CHECKSUM - reserved
    } else if page_size_room < MAX_PAYLOAD_SIZE_WITH_CHECKSUM {
        MAX_PAYLOAD_SIZE_WITH_CHECKSUM - page_size_room
    } else {
        MAX_PAYLOAD_SIZE_WITH_CHECKSUM as int
    }
}

/// The first block's room is a positive multiple of 4 no larger than 452.
pub proof fn lemma_first_block_room(digits_len: int, semver_len: int)
    requires
        digits_len >= 0,
        semver_len >= 0,
    ensures
        0 < first_block_room(digits_len, semver_len) <= MAX_PAYLOAD_SIZE_WITH_CHECKSUM,
        first_block_room(digits_len, semver_len) % 4 == 0,
{
    let a = round_up(digits_len, 4);
    let b = round_up(semver_len, 4);
    assert(a % 4 == 0 && a >= 0 && b % 4 == 0 && b >= 0) by (nonlinear_arith)
        requires
            a == (digits_len + 3) / 4 * 4,
            b == (semver_len + 3) / 4 * 4,
            digits_len >= 0,
            semver_len >= 0,
    ;
}

/// Payload of a block, given the page size, the room in the block and the
/// bytes left in the page. When pages fit in a block, whole pages are taken
/// where at least one fits.
pub open spec fn binary_chunk_len(page_size: int, room: int, remaining: int) -> int {
    let avail = spec_min(room, remaining);
    if 0 < page_size <= MAX_PAYLOAD_SIZE && avail >= page_size {
        avail / page_size * page_size
    } else {
        avail
    }
}

/// A block never takes more than its room or the bytes left in its page.
pub proof fn lemma_chunk_at_most_room(page_size: int, room: int, remaining: int)
    ensures
        binary_chunk_len(page_size, room, remaining) <= spec_min(room, remaining),
{
    let avail = spec_min(room, remaining);
    if 0 < page_size <= MAX_PAYLOAD_SIZE && avail >= page_size {
        assert(avail / page_size * page_size <= avail) by (nonlinear_arith)
            requires
                avail >= page_size,
                page_size > 0,
        ;
    }
}

/// The blocks of a page of `page_len` bytes, from offset `page_offset` on: the
/// offset in the page and the payload length of each. A block with no room
/// for payload ends the page.
pub open spec fn page_chunks(page_len: int, page_size: int, first_room: int, page_offset: int) -> Seq<
    (int, int),
>
    decreases page_len - page_offset,
{
    if page_offset >= page_len {
        Seq::empty()
    } else {
        let room = if page_offset == 0 {
            first_room
        } else {
            MAX_PAYLOAD_SIZE_WITH_CHECKSUM as int
        };
        let c = binary_chunk_len(page_size, room, page_len - page_offset);
        proof {
            lemma_chunk_at_most_room(page_size, room, page_len - page_offset);
        }
        if c <= 0 {
            Seq::empty()
        } else {
            seq![(page_offset, c)] + page_chunks(page_len, page_size, first_room, page_offset + c)
        }
    }
}

/// A page never has more blocks than bytes.
proof fn lemma_page_chunks_len(page_len: int, page_size: int, first_room: int, page_offset: int)
    requires
        0 <= page_offset <= page_len,
    ensures
        page_chunks(page_len, page_size, first_room, page_offset).len() <= page_len - page_offset,
    decreases page_len - page_offset,
{
    if page_offset < page_len {
        let room = if page_offset == 0 {
            first_room
        } else {
            MAX_PAYLOAD_SIZE_WITH_CHECKSUM as int
        };
        let c = binary_chunk_len(page_size, room, page_len - page_offset);
        lemma_chunk_at_most_room(page_size, room, page_len - page_offset);
        if c > 0 {
            lemma_page_chunks_len(page_len, page_size, first_room, page_offset + c);
        }
    }
}

/// Where one block of `add_binary` sits: its page (offset in the binary and
/// length) and its payload (offset in the page and length).
pub struct BlockPlan {
    pub page_start: int,
    pub page_len: int,
    pub page_offset: int,
    pub chunk: int,
}

/// The plans of the blocks of the page at binary offset `start`, `page_len`
/// bytes long, from offset `page_offset` in the page on.
pub open spec fn page_plans(
    start: int,
    page_len: int,
    page_size: int,
    first_room: int,
    page_offset: int,
) -> Seq<BlockPlan> {
    page_chunks(page_len, page_size, first_room, page_offset).map_values(
        |c: (int, int)| BlockPlan { page_start: start, page_len, page_offset: c.0, chunk: c.1 },
    )
}

/// Bytes of the page that begins at binary offset `offset`: up to the next
/// multiple of the page size in the target address space, or the end of the
/// binary.
pub open spec fn page_len_at(addr: int, page_size: int, remaining: int) -> int {
    spec_min(page_size - addr % page_size, remaining)
}

/// The blocks `add_binary` makes of a binary of `n` bytes placed at
/// `target_addr`, from binary offset `offset` on.
pub open spec fn binary_plans(
    n: int,
    target_addr: int,
    page_size: int,
    first_room: int,
    offset: int,
) -> Seq<BlockPlan>
    decreases n - offset,
{
    if offset >= n || page_size <= 0 {
        Seq::empty()
    } else {
        let pl = page_len_at(target_addr + offset, page_size, n - offset);
        page_plans(offset, pl, page_size, first_room, 0) + if pl > 0 {
            binary_plans(n, target_addr, page_size, first_room, offset + pl)
        } else {
            Seq::empty()
        }
    }
}

/// Start and length of the page-size extension record of a block with
/// `chunk` payload bytes.
pub open spec fn page_size_ext(chunk: int, digits_len: int) -> (int, int) {
    (round_up(chunk, ALIGN as int), Extension::HEADER_SIZE + digits_len)
}

/// Start and length of the version extension record.
pub open spec fn semver_ext(chunk: int, digits_len: int, semver_len: int) -> (int, int) {
    (round_up(chunk + Extension::HEADER_SIZE + digits_len, ALIGN as int), Extension::HEADER_SIZE
        + semver_len)
}

/// Whether an extension record (start, length) ends within the room left
/// before the checksum record.
pub open spec fn ext_fits(ext: (int, int)) -> bool {
    ext.0 + ext.1 <= MAX_PAYLOAD_SIZE_WITH_CHECKSUM
}

/// An extension record: size byte, tag, value.
pub open spec fn extension_record(len: int, tag: ExtensionTag, value: Seq<u8>) -> Seq<u8> {
    seq![len as u8] + tag.spec_to_bytes() + value
}

/// Whether a block at `page_offset` carries extension records.
pub open spec fn block_has_extensions(
    page_offset: int,
    chunk: int,
    digits_len: int,
    semver_len: int,
) -> bool {
    page_offset == 0 && (ext_fits(page_size_ext(chunk, digits_len)) || ext_fits(
        semver_ext(chunk, digits_len, semver_len),
    ))
}

/// The data area of a block of a page: its payload, zeros, the checksum
/// record in the last 24 bytes, and on the first block of the page the page
/// size and version records where they fit (the second written last).
pub open spec fn page_block_data(
    page: Seq<u8>,
    page_offset: int,
    chunk: int,
    checksum: Seq<u8>,
    digits: Seq<u8>,
    semver: Seq<u8>,
) -> Seq<u8> {
    let d0 = page.subrange(page_offset, page_offset + chunk) + zeros(MAX_PAYLOAD_SIZE - chunk);
    let d1 = overwrite(d0, MAX_PAYLOAD_SIZE_WITH_CHECKSUM as int, checksum);
    if page_offset != 0 {
        d1
    } else {
        let e1 = page_size_ext(chunk, digits.len() as int);
        let d2 = if ext_fits(e1) {
            overwrite(d1, e1.0, extension_record(e1.1, ExtensionTag::TargetPageSize, digits))
        } else {
            d1
        };
        let e2 = semver_ext(chunk, digits.len() as int, semver.len() as int);
        if ext_fits(e2) {
            overwrite(d2, e2.0, extension_record(e2.1, ExtensionTag::SemverString, semver))
        } else {
            d2
        }
    }
}

/// Flags of a block of `add_binary`.
pub open spec fn binary_block_flags(family_id: Option<u32>, extensions: bool) -> u32 {
    let f = if family_id is Some {
        Flags::FamilyId
    } else {
        0u32
    };
    let f = f | Flags::Checksum;
    if extensions {
        f | Flags::ExtensionTags
    } else {
        f
    }
}

/// The checksum record of a page at `page_addr` whose MD5 digest is `digest`.
pub open spec fn page_checksum(page_addr: int, page_len: int, digest: Seq<u8>) -> Seq<u8> {
    le32(page_addr as u32) + le32(page_len as u32) + digest
}

/// Block number `block_no` (out of `total`), holding `chunk` bytes from
/// `page_offset` of `page`, which starts at target address `page_addr`.
pub open spec fn is_page_block(
    b: Block,
    page: Seq<u8>,
    page_addr: int,
    page_offset: int,
    chunk: int,
    block_no: int,
    total: u32,
    family_id: Option<u32>,
    digits: Seq<u8>,
    semver: Seq<u8>,
    digest: Seq<u8>,
) -> bool {
    &&& digest.len() == 16
    &&& b.magic_start_0 == MAGIC_START_0
    &&& b.magic_start_1 == MAGIC_START_1
    &&& b.magic_end == MAGIC_END
    &&& b.flags == binary_block_flags(
        family_id,
        block_has_extensions(page_offset, chunk, digits.len() as int, semver.len() as int),
    )
    &&& b.target_addr == (page_addr + page_offset) as u32
    &&& b.data_len == chunk as u32
    &&& b.block == block_no as u32
    &&& b.total_blocks == total
    &&& b.board_family_id_or_file_size == (match family_id {
        Some(id) => id,
        None => 0u32,
    })
    &&& b.data@ == page_block_data(
        page,
        page_offset,
        chunk,
        page_checksum(page_addr, page.len() as int, digest),
        digits,
        semver,
    )
}

/// The bytes of the page of a planned block.
pub open spec fn plan_page(binary: Seq<u8>, p: BlockPlan) -> Seq<u8> {
    binary.subrange(p.page_start, p.page_start + p.page_len)
}

/// Block `block_no` of `add_binary`, following plan `p`.
pub open spec fn is_binary_block(
    b: Block,
    binary: Seq<u8>,
    target_addr: int,
    p: BlockPlan,
    block_no: int,
    total: u32,
    family_id: Option<u32>,
    digits: Seq<u8>,
    semver: Seq<u8>,
) -> bool {
    is_page_block(
        b,
        plan_page(binary, p),
        target_addr + p.page_start,
        p.page_offset,
        p.chunk,
        block_no,
        total,
        family_id,
        digits,
        semver,
        md5_digest(plan_page(binary, p)),
    )
}

/// Whether the block at `page_offset` of a page at `page_addr` has a target
/// address that is not a multiple of 4.
pub open spec fn misaligned(page_addr: int, page_offset: int) -> bool {
    (page_addr + page_offset) % 4 != 0
}

/// `x` rounded up to a multiple of 4.
fn next_multiple_of_4(x: usize) -> (r: usize)
    requires
        x + 3 <= usize::MAX,
    ensures
        r == round_up(x as int, 4),
{
    (x + 3) / 4 * 4
}

proof fn lemma_chunk_bounds(page_size: int, room: int, remaining: int)
    requires
        page_size > 0,
        0 <= room <= MAX_PAYLOAD_SIZE_WITH_CHECKSUM,
        remaining > 0,
    ensures
        binary_chunk_len(page_size, room, remaining) <= spec_min(room, remaining),
        room > 0 ==> binary_chunk_len(page_size, room, remaining) > 0,
        binary_chunk_len(page_size, room, remaining) >= 0,
{
    let avail = spec_min(room, remaining);
    if 0 < page_size <= MAX_PAYLOAD_SIZE && avail >= page_size {
        assert(avail / page_size * page_size <= avail && avail / page_size * page_size > 0)
            by (nonlinear_arith)
            requires
                avail >= page_size,
                page_size > 0,
        ;
    }
}

/// Build the block at `page_offset` of `page` holding `chunk` bytes.
fn make_page_block(
    page: &[u8],
    page_addr: usize,
    page_offset: usize,
    chunk: usize,
    block_no: usize,
    family_id: Option<u32>,
    digits: &[u8],
    semver: &[u8],
    digest: &[u8; 16],
) -> (b: Block)
    requires
        page_offset + chunk <= page@.len(),
        page_addr + page@.len() <= usize::MAX,
        chunk <= MAX_PAYLOAD_SIZE_WITH_CHECKSUM,
        digits@.len() <= 20,
        semver@.len() <= usize::MAX / 2,
    ensures
        is_page_block(
            b,
            page@,
            page_addr as int,
            page_offset as int,
            chunk as int,
            block_no as int,
            0xFFFF_FFFFu32,
            family_id,
            digits@,
            semver@,
            digest@,
        ),
{
    let page_len = page.len();
    let mut data = [0u8; MAX_PAYLOAD_SIZE];
    write_at(&mut data, 0, slice_subrange(page, page_offset, page_offset + chunk));
    proof {
        assert(data@ =~= page@.subrange(page_offset as int, page_offset + chunk) + zeros(
            MAX_PAYLOAD_SIZE - chunk,
        ));
    }
    let checksum = Checksum {
        start: page_addr as u32,
        length: page.len() as u32,
        checksum: *digest,
    };
    let checksum_bytes = checksum.to_bytes();
    write_at(&mut data, MAX_PAYLOAD_SIZE_WITH_CHECKSUM, checksum_bytes.as_slice());
    let mut extensions = false;
    if page_offset == 0 {
        let digits_len = digits.len();
        let ext_len = Extension::HEADER_SIZE + digits_len;
        let start = next_multiple_of_4(chunk);
        if start + ext_len <= MAX_PAYLOAD_SIZE_WITH_CHECKSUM {
            let mut record: Vec<u8> = Vec::new();
            record.push(ext_len as u8);
            let tag = ExtensionTag::TargetPageSize.to_bytes();
            append_bytes(&mut record, tag.as_slice());
            append_bytes(&mut record, digits);
            proof {
                assert(record@ =~= extension_record(
                    ext_len as int,
                    ExtensionTag::TargetPageSize,
                    digits@,
                ));
            }
            write_at(&mut data, start, record.as_slice());
            extensions = true;
        }
        let semver_len = semver.len();
        let ext2_len = Extension::HEADER_SIZE + semver_len;
        let start2 = next_multiple_of_4(chunk + ext_len);
        if start2 + ext2_len <= MAX_PAYLOAD_SIZE_WITH_CHECKSUM {
            let mut record: Vec<u8> = Vec::new();
            record.push(ext2_len as u8);
            let tag = ExtensionTag::SemverString.to_bytes();
            append_bytes(&mut record, tag.as_slice());
            append_bytes(&mut record, semver);
            proof {
                assert(record@ =~= extension_record(
                    ext2_len as int,
                    ExtensionTag::SemverString,
                    semver@,
                ));
            }
            write_at(&mut data, start2, record.as_slice());
            extensions = true;
        }
    }
    let mut flags: u32 = if family_id.is_some() {
        Flags::FamilyId
    } else {
        0
    };
    flags = flags | Flags::Checksum;
    if extensions {
        flags = flags | Flags::ExtensionTags;
    }
    let board_family_id_or_file_size = match family_id {
        Some(id) => id,
        None => 0,
    };
    Block {
        magic_start_0: MAGIC_START_0,
        magic_start_1: MAGIC_START_1,
        flags,
        target_addr: (page_addr + page_offset) as u32,
        data_len: chunk as u32,
        block: block_no as u32,
        total_blocks: 0xFFFF_FFFF,
        board_family_id_or_file_size,
        data,
        magic_end: MAGIC_END,
    }
}


/// The blocks of one page of a binary: `page` starts at target address
/// `page_addr`, its MD5 digest is `digest`, and its blocks are numbered from
/// `first_block_no`, with a total of `u32::MAX` to be fixed once all pages are
/// laid out.
///
/// # Errors
/// - [`WriterError::AlignmentError`] if a block's target address is not a
///   multiple of 4.
pub fn page_to_blocks(
    page: &[u8],
    page_addr: usize,
    page_size: usize,
    family_id: Option<u32>,
    semver: &str,
    first_block_no: usize,
    digest: &[u8; 16],
) -> (r: Result<Vec<Block>, WriterError>)
    requires
        page_size > 0,
        page_addr + page@.len() <= usize::MAX,
        first_block_no + page@.len() <= usize::MAX,
        semver.spec_bytes().len() <= usize::MAX / 2,
    ensures
        ({
            let digits = decimal(page_size as nat);
            let sv = semver.spec_bytes();
            let chunks = page_chunks(
                page@.len() as int,
                page_size as int,
                first_block_room(digits.len() as int, sv.len() as int),
                0,
            );
            match r {
                Ok(v) => {
                    &&& v@.len() == chunks.len()
                    &&& forall|k: int|
                        0 <= k < chunks.len() ==> !misaligned(page_addr as int, chunks[k].0)
                            && is_page_block(
                            #[trigger] v@[k],
                            page@,
                            page_addr as int,
                            chunks[k].0,
                            chunks[k].1,
                            first_block_no + k,
                            0xFFFF_FFFFu32,
                            family_id,
                            digits,
                            sv,
                            digest@,
                        )
                },
                Err(e) => {
                    &&& e == WriterError::AlignmentError
                    &&& exists|k: int|
                        0 <= k < chunks.len() && misaligned(page_addr as int, #[trigger] chunks[k].0)
                },
            }
        }),
{
    let digits = decimal_digits(page_size);
    let sv = semver.as_bytes();
    let digits_len = digits.len();
    let page_size_room = Extension::HEADER_SIZE + next_multiple_of_4(digits_len);
    let reserved = page_size_room + (Extension::HEADER_SIZE + next_multiple_of_4(sv.len()));
    let first_room: usize = if reserved < MAX_PAYLOAD_SIZE_WITH_CHECKSUM {
        MAX_PAYLOAD_SIZE_WITH_CHECKSUM - reserved
    } else if page_size_room < MAX_PAYLOAD_SIZE_WITH_CHECKSUM {
        MAX_PAYLOAD_SIZE_WITH_CHECKSUM - page_size_room
    } else {
        MAX_PAYLOAD_SIZE_WITH_CHECKSUM
    };
    let ghost fr = first_room as int;
    let n = page.len();
    let ghost all = page_chunks(n as int, page_size as int, fr, 0);
    let mut out: Vec<Block> = Vec::new();
    let mut page_offset: usize = 0;
    let ghost mut done: Seq<(int, int)> = Seq::empty();
    while page_offset < n
        invariant
            n == page@.len(),
            page_size > 0,
            page_addr + n <= usize::MAX,
            first_block_no + n <= usize::MAX,
            digits@ == decimal(page_size as nat),
            digits@.len() <= 20,
            sv@ == semver.spec_bytes(),
            sv@.len() <= usize::MAX / 2,
            fr == first_room,
            first_room <= MAX_PAYLOAD_SIZE_WITH_CHECKSUM,
            fr == first_block_room(digits@.len() as int, sv@.len() as int),
            all == page_chunks(n as int, page_size as int, fr, 0),
            page_offset <= n,
            done + page_chunks(n as int, page_size as int, fr, page_offset as int) == all,
            out@.len() == done.len(),
            done.len() <= page_offset,
            forall|k: int| 0 <= k < done.len() ==> !misaligned(page_addr as int, #[trigger] done[k].0),
            forall|k: int|
                0 <= k < done.len() ==> is_page_block(
                    #[trigger] out@[k],
                    page@,
                    page_addr as int,
                    done[k].0,
                    done[k].1,
                    first_block_no + k,
                    0xFFFF_FFFFu32,
                    family_id,
                    digits@,
                    sv@,
                    digest@,
                ),
        ensures
            page_chunks(n as int, page_size as int, fr, page_offset as int).len() == 0,
            out@.len() == done.len(),
            done == all,
            forall|k: int| 0 <= k < done.len() ==> !misaligned(page_addr as int, #[trigger] done[k].0),
            forall|k: int|
                0 <= k < done.len() ==> is_page_block(
                    #[trigger] out@[k],
                    page@,
                    page_addr as int,
                    done[k].0,
                    done[k].1,
                    first_block_no + k,
                    0xFFFF_FFFFu32,
                    family_id,
                    digits@,
                    sv@,
                    digest@,
                ),
        decreases n - page_offset,
    {
        let room: usize = if page_offset == 0 {
            first_room
        } else {
            MAX_PAYLOAD_SIZE_WITH_CHECKSUM
        };
        let remaining = n - page_offset;
        let avail = if room < remaining {
            room
        } else {
            remaining
        };
        proof {
            lemma_chunk_bounds(page_size as int, room as int, remaining as int);
        }
        let chunk: usize = if page_size <= MAX_PAYLOAD_SIZE && avail >= page_size {
            avail / page_size * page_size
        } else {
            avail
        };
        assert(chunk == binary_chunk_len(page_size as int, room as int, remaining as int));
        assert(page_chunks(n as int, page_size as int, fr, page_offset as int) == if chunk <= 0 {
            Seq::<(int, int)>::empty()
        } else {
            seq![(page_offset as int, chunk as int)] + page_chunks(
                n as int,
                page_size as int,
                fr,
                page_offset + chunk,
            )
        });
        if chunk == 0 {
            assert(done =~= all);
            break;
        }
        if (page_addr + page_offset) % ALIGN != 0 {
            proof {
                let k = done.len() as int;
                assert(all[k] == (page_offset as int, chunk as int));
                assert(misaligned(page_addr as int, all[k].0));
            }
            return Err(WriterError::AlignmentError);
        }
        let b = make_page_block(
            page,
            page_addr,
            page_offset,
            chunk,
            first_block_no + out.len(),
            family_id,
            digits.as_slice(),
            sv,
            digest,
        );
        assert(!misaligned(page_addr as int, page_offset as int));
        let ghost old_out = out@;
        out.push(b);
        proof {
            let old_done = done;
            done = done.push((page_offset as int, chunk as int));
            assert forall|k: int| 0 <= k < done.len() implies !misaligned(
                page_addr as int,
                #[trigger] done[k].0,
            ) by {
                if k < old_done.len() {
                    assert(done[k] == old_done[k]);
                }
            }
            assert forall|k: int|
                0 <= k < done.len() implies is_page_block(
                #[trigger] out@[k],
                page@,
                page_addr as int,
                done[k].0,
                done[k].1,
                first_block_no + k,
                0xFFFF_FFFFu32,
                family_id,
                digits@,
                sv@,
                digest@,
            ) by {
                if k < old_done.len() {
                    assert(out@[k] == old_out[k]);
                    assert(done[k] == old_done[k]);
                } else {
                    assert(out@[k] == b);
                }
            }
            assert(done + page_chunks(n as int, page_size as int, fr, page_offset + chunk) =~= old_done
                + page_chunks(n as int, page_size as int, fr, page_offset as int));
        }
        page_offset = page_offset + chunk;
    }
    proof {
        if page_offset >= n {
            assert(done =~= all);
        }
    }
    Ok(out)
}


/// `b` with its block total replaced.
pub open spec fn with_total(b: Block, total: u32) -> Block {
    Block { total_blocks: total, ..b }
}

impl Uf2File {
    /// Create a UF2 file from binary data with extensions.
    ///
    /// Adds binary data to an existing UF2 file, converting it into UF2 blocks with checksums.
    /// Extensions (`TargetPageSize` and `SemVerString`) are added to the first block of each flash page.
    ///
    /// The binary is cut into flash pages at multiples of `page_size` in the
    /// target address space; each page into blocks as [`page_to_blocks`]
    /// does, with the page's MD5 digest. The new blocks are numbered from 0
    /// and their total is their count. An extension record that does not fit
    /// in the first block of a page is left out; the binary is always placed
    /// in full.
    ///
    /// # Arguments
    /// * `binary` - Binary data to add to the UF2 file.
    /// * `target_addr` - Starting address for the first flash page.
    /// * `family_id` - Optional family ID for the UF2 file.
    /// * `page_size` - Size of the flash page for the target device.
    /// * `semver` - Semantic version string for the firmware.
    ///
    /// # Errors
    /// - [`WriterError::AlignmentError`] if target_addr or page_size are not
    ///   multiples of 4; the file is then unchanged.
    pub fn add_binary(
        &mut self,
        binary: &[u8],
        target_addr: u32,
        family_id: Option<u32>,
        page_size: usize,
        semver: &str,
    ) -> (r: Result<(), WriterError>)
        requires
            target_addr % 4 == 0 && binary@.len() > 0 ==> page_size > 0,
            target_addr + binary@.len() + page_size <= usize::MAX,
            semver.spec_bytes().len() <= usize::MAX / 2,
        ensures
            ({
                let digits = decimal(page_size as nat);
                let sv = semver.spec_bytes();
                let plans = binary_plans(
                    binary@.len() as int,
                    target_addr as int,
                    page_size as int,
                    first_block_room(digits.len() as int, sv.len() as int),
                    0,
                );
                if target_addr % 4 != 0 || page_size % 4 != 0 {
                    &&& r == Err::<(), WriterError>(WriterError::AlignmentError)
                    &&& final(self)@ == old(self)@
                } else {
                    &&& r is Ok
                    &&& final(self)@.len() == old(self)@.len() + plans.len()
                    &&& forall|i: int|
                        0 <= i < old(self)@.len() ==> #[trigger] final(self)@[i] == old(self)@[i]
                    &&& forall|k: int|
                        0 <= k < plans.len() ==> is_binary_block(
                            #[trigger] final(self)@[old(self)@.len() + k],
                            binary@,
                            target_addr as int,
                            plans[k],
                            k,
                            plans.len() as u32,
                            family_id,
                            digits,
                            sv,
                        )
                }
            }),
    {
        if target_addr % (ALIGN as u32) != 0 {
            return Err(WriterError::AlignmentError);
        }
        if page_size % ALIGN != 0 {
            return Err(WriterError::AlignmentError);
        }
        let ghost digits = decimal(page_size as nat);
        let ghost sv = semver.spec_bytes();
        let ghost fr = first_block_room(digits.len() as int, sv.len() as int);
        let n = binary.len();
        let ghost all = binary_plans(n as int, target_addr as int, page_size as int, fr, 0);
        proof {
            if n > 0 {
                lemma_first_block_room(digits.len() as int, sv.len() as int);
                lemma_binary_plans_aligned(
                    n as int,
                    target_addr as int,
                    page_size as int,
                    fr,
                    0,
                );
            }
        }
        let mut new_blocks: Vec<Block> = Vec::new();
        let mut offset: usize = 0;
        let ghost mut done: Seq<BlockPlan> = Seq::empty();
        while offset < n
            invariant
                n == binary@.len(),
                n > 0 ==> page_size > 0,
                target_addr % 4 == 0,
                page_size % 4 == 0,
                n > 0 ==> forall|k: int|
                    0 <= k < all.len() ==> !misaligned(
                        target_addr + all[k].page_start,
                        #[trigger] all[k].page_offset,
                    ),
                target_addr + n + page_size <= usize::MAX,
                semver.spec_bytes().len() <= usize::MAX / 2,
                digits == decimal(page_size as nat),
                sv == semver.spec_bytes(),
                fr == first_block_room(digits.len() as int, sv.len() as int),
                all == binary_plans(n as int, target_addr as int, page_size as int, fr, 0),
                offset <= n,
                done + binary_plans(n as int, target_addr as int, page_size as int, fr, offset as int)
                    == all,
                new_blocks@.len() == done.len(),
                new_blocks@.len() <= offset,
                forall|k: int|
                    0 <= k < done.len() ==> !misaligned(
                        target_addr + done[k].page_start,
                        #[trigger] done[k].page_offset,
                    ),
                forall|k: int|
                    0 <= k < done.len() ==> is_binary_block(
                        #[trigger] new_blocks@[k],
                        binary@,
                        target_addr as int,
                        done[k],
                        k,
                        0xFFFF_FFFFu32,
                        family_id,
                        digits,
                        sv,
                    ),
            decreases n - offset,
        {
            let addr: usize = target_addr as usize + offset;
            let remaining = n - offset;
            let to_boundary = page_size - addr % page_size;
            let page_len = if to_boundary < remaining {
                to_boundary
            } else {
                remaining
            };
            let page = slice_subrange(binary, offset, offset + page_len);
            let digest = md5_compute(page);
            let ghost chunks = page_chunks(page_len as int, page_size as int, fr, 0);
            let ghost mapped = page_plans(offset as int, page_len as int, page_size as int, fr, 0);
            assert(binary_plans(n as int, target_addr as int, page_size as int, fr, offset as int)
                == mapped + binary_plans(
                n as int,
                target_addr as int,
                page_size as int,
                fr,
                offset + page_len,
            ));
            match page_to_blocks(
                page,
                addr,
                page_size,
                family_id,
                semver,
                new_blocks.len(),
                &digest,
            ) {
                Err(e) => {
                    proof {
                        let k = choose|k: int|
                            0 <= k < chunks.len() && misaligned(
                                addr as int,
                                #[trigger] chunks[k].0,
                            );
                        let j = done.len() + k;
                        assert(all[j] == mapped[k]);
                        assert(misaligned(target_addr + all[j].page_start, all[j].page_offset));
                        assert(false);
                    }
                    return Err(e);
                },
                Ok(v) => {
                    let ghost start = new_blocks@;
                    let mut i: usize = 0;
                    while i < v.len()
                        invariant
                            i <= v@.len(),
                            v@.len() == chunks.len(),
                            new_blocks@ == start + v@.subrange(0, i as int),
                        decreases v@.len() - i,
                    {
                        new_blocks.push(v[i]);
                        i = i + 1;
                        assert(new_blocks@ =~= start + v@.subrange(0, i as int));
                    }
                    proof {
                        assert(v@.subrange(0, v@.len() as int) =~= v@);
                        lemma_page_chunks_len(page_len as int, page_size as int, fr, 0);
                        let old_done = done;
                        done = done + mapped;
                        assert(done + binary_plans(
                            n as int,
                            target_addr as int,
                            page_size as int,
                            fr,
                            offset + page_len,
                        ) =~= old_done + binary_plans(
                            n as int,
                            target_addr as int,
                            page_size as int,
                            fr,
                            offset as int,
                        ));
                        assert forall|k: int| 0 <= k < done.len() implies !misaligned(
                            target_addr + done[k].page_start,
                            #[trigger] done[k].page_offset,
                        ) by {
                            if k < old_done.len() {
                                assert(done[k] == old_done[k]);
                            } else {
                                let kk = k - old_done.len();
                                assert(done[k] == mapped[kk]);
                                assert(new_blocks@[k] == v@[kk]);
                                assert(!misaligned(addr as int, chunks[kk].0));
                            }
                        }
                        assert forall|k: int| 0 <= k < done.len() implies is_binary_block(
                            #[trigger] new_blocks@[k],
                            binary@,
                            target_addr as int,
                            done[k],
                            k,
                            0xFFFF_FFFFu32,
                            family_id,
                            digits,
                            sv,
                        ) by {
                            if k < old_done.len() {
                                assert(done[k] == old_done[k]);
                                assert(new_blocks@[k] == start[k]);
                            } else {
                                let kk = k - old_done.len();
                                assert(done[k] == mapped[kk]);
                                assert(new_blocks@[k] == v@[kk]);
                                assert(plan_page(binary@, done[k]) == page@);
                            }
                        }
                    }
                },
            }
            offset = offset + page_len;
        }
        proof {
            assert(done =~= all);
        }
        let total = new_blocks.len();
        let mut i: usize = 0;
        while i < total
            invariant
                total == new_blocks@.len(),
                total == all.len(),
                i <= total,
                forall|k: int|
                    0 <= k < total ==> is_binary_block(
                        #[trigger] new_blocks@[k],
                        binary@,
                        target_addr as int,
                        all[k],
                        k,
                        if k < i {
                            total as u32
                        } else {
                            0xFFFF_FFFFu32
                        },
                        family_id,
                        digits,
                        sv,
                    ),
            decreases total - i,
        {
            let mut b = new_blocks[i];
            b.total_blocks = total as u32;
            new_blocks.set(i, b);
            i = i + 1;
        }
        let file = Uf2File::from_blocks(new_blocks.as_slice());
        self.concat(&file);
        Ok(())
    }
}


/// The binary bytes a planned block carries.
pub open spec fn plan_bytes(binary: Seq<u8>, p: BlockPlan) -> Seq<u8> {
    binary.subrange(p.page_start + p.page_offset, p.page_start + p.page_offset + p.chunk)
}

/// The binary bytes of planned blocks, one after the other.
pub open spec fn plans_bytes(binary: Seq<u8>, plans: Seq<BlockPlan>) -> Seq<u8>
    decreases plans.len(),
{
    if plans.len() == 0 {
        Seq::empty()
    } else {
        plan_bytes(binary, plans[0]) + plans_bytes(binary, plans.drop_first())
    }
}

/// A plan that lies inside a binary of `n` bytes, with a payload that fits a
/// block with a checksum.
pub open spec fn plan_in_bounds(p: BlockPlan, n: int) -> bool {
    &&& 0 <= p.page_start
    &&& p.page_start + p.page_len <= n
    &&& 0 <= p.page_offset
    &&& 0 < p.chunk <= MAX_PAYLOAD_SIZE_WITH_CHECKSUM
    &&& p.page_offset + p.chunk <= p.page_len
}

proof fn lemma_plans_bytes_single(binary: Seq<u8>, p: BlockPlan)
    ensures
        plans_bytes(binary, seq![p]) == plan_bytes(binary, p),
{
    assert(seq![p].drop_first() =~= Seq::<BlockPlan>::empty());
    assert(plans_bytes(binary, Seq::<BlockPlan>::empty()) == Seq::<u8>::empty());
    assert(plan_bytes(binary, p) + Seq::<u8>::empty() =~= plan_bytes(binary, p));
}

proof fn lemma_plans_bytes_append(binary: Seq<u8>, a: Seq<BlockPlan>, b: Seq<BlockPlan>)
    ensures
        plans_bytes(binary, a + b) == plans_bytes(binary, a) + plans_bytes(binary, b),
    decreases a.len(),
{
    if a.len() == 0 {
        assert(a + b =~= b);
        assert(Seq::<u8>::empty() + plans_bytes(binary, b) =~= plans_bytes(binary, b));
    } else {
        assert((a + b).drop_first() =~= a.drop_first() + b);
        assert((a + b)[0] == a[0]);
        lemma_plans_bytes_append(binary, a.drop_first(), b);
        assert(plans_bytes(binary, a + b) =~= plans_bytes(binary, a) + plans_bytes(binary, b));
    }
}

/// When the first block of a page has room for payload, the blocks of the
/// page carry all of it, in order.
proof fn lemma_page_plans_cover(
    binary: Seq<u8>,
    start: int,
    page_len: int,
    page_size: int,
    first_room: int,
    page_offset: int,
)
    requires
        0 <= first_room <= MAX_PAYLOAD_SIZE_WITH_CHECKSUM,
        page_size > 0,
        0 <= page_offset <= page_len,
        0 <= start,
        start + page_len <= binary.len(),
    ensures
        first_room > 0 ==> plans_bytes(
            binary,
            page_plans(start, page_len, page_size, first_room, page_offset),
        ) == binary.subrange(start + page_offset, start + page_len),
        forall|k: int|
            0 <= k < page_plans(start, page_len, page_size, first_room, page_offset).len()
                ==> plan_in_bounds(
                #[trigger] page_plans(start, page_len, page_size, first_room, page_offset)[k],
                binary.len() as int,
            ),
    decreases page_len - page_offset,
{
    let plans = page_plans(start, page_len, page_size, first_room, page_offset);
    if page_offset >= page_len {
        assert(binary.subrange(start + page_offset, start + page_len) =~= Seq::<u8>::empty());
    } else {
        let room = if page_offset == 0 {
            first_room
        } else {
            MAX_PAYLOAD_SIZE_WITH_CHECKSUM as int
        };
        let c = binary_chunk_len(page_size, room, page_len - page_offset);
        lemma_chunk_bounds(page_size, room, page_len - page_offset);
        if c <= 0 {
            assert(plans =~= Seq::<BlockPlan>::empty());
            return;
        }
        let rest = page_plans(start, page_len, page_size, first_room, page_offset + c);
        lemma_page_plans_cover(binary, start, page_len, page_size, first_room, page_offset + c);
        let first = BlockPlan { page_start: start, page_len, page_offset, chunk: c };
        assert(plans =~= seq![first] + rest);
        lemma_plans_bytes_append(binary, seq![first], rest);
        lemma_plans_bytes_single(binary, first);
        assert(binary.subrange(start + page_offset, start + page_offset + c) + binary.subrange(
            start + page_offset + c,
            start + page_len,
        ) =~= binary.subrange(start + page_offset, start + page_len));
        assert forall|k: int| 0 <= k < plans.len() implies plan_in_bounds(
            #[trigger] plans[k],
            binary.len() as int,
        ) by {
            if k > 0 {
                assert(plans[k] == rest[k - 1]);
            }
        }
    }
}

/// When the first block of a page has room for payload, the blocks of a
/// binary carry all of it, in order.
proof fn lemma_binary_plans_cover(
    binary: Seq<u8>,
    target_addr: int,
    page_size: int,
    first_room: int,
    offset: int,
)
    requires
        0 <= first_room <= MAX_PAYLOAD_SIZE_WITH_CHECKSUM,
        page_size > 0,
        0 <= offset <= binary.len(),
    ensures
        first_room > 0 ==> plans_bytes(
            binary,
            binary_plans(binary.len() as int, target_addr, page_size, first_room, offset),
        ) == binary.subrange(offset, binary.len() as int),
        forall|k: int|
            0 <= k < binary_plans(
                binary.len() as int,
                target_addr,
                page_size,
                first_room,
                offset,
            ).len() ==> plan_in_bounds(
                #[trigger] binary_plans(
                    binary.len() as int,
                    target_addr,
                    page_size,
                    first_room,
                    offset,
                )[k],
                binary.len() as int,
            ),
    decreases binary.len() - offset,
{
    let n = binary.len() as int;
    let plans = binary_plans(n, target_addr, page_size, first_room, offset);
    if offset >= n {
        assert(binary.subrange(offset, n) =~= Seq::<u8>::empty());
    } else {
        let addr = target_addr + offset;
        assert(0 <= addr % page_size < page_size) by (nonlinear_arith)
            requires
                page_size > 0,
        ;
        let pl = page_len_at(addr, page_size, n - offset);
        let here = page_plans(offset, pl, page_size, first_room, 0);
        let rest = binary_plans(n, target_addr, page_size, first_room, offset + pl);
        lemma_page_plans_cover(binary, offset, pl, page_size, first_room, 0);
        lemma_binary_plans_cover(binary, target_addr, page_size, first_room, offset + pl);
        assert(plans == here + rest);
        lemma_plans_bytes_append(binary, here, rest);
        assert(binary.subrange(offset, offset + pl) + binary.subrange(offset + pl, n)
            =~= binary.subrange(offset, n));
        assert forall|k: int| 0 <= k < plans.len() implies plan_in_bounds(
            #[trigger] plans[k],
            n,
        ) by {
            if k < here.len() {
                assert(plans[k] == here[k]);
            } else {
                assert(plans[k] == rest[k - here.len()]);
            }
        }
    }
}

proof fn lemma_overwrite_prefix(s: Seq<u8>, at: int, src: Seq<u8>, c: int)
    requires
        0 <= c <= at <= s.len(),
    ensures
        overwrite(s, at, src).subrange(0, c) == s.subrange(0, c),
        overwrite(s, at, src).len() >= at,
        at + src.len() <= s.len() ==> overwrite(s, at, src).len() == s.len(),
{
    assert(overwrite(s, at, src).subrange(0, c) =~= s.subrange(0, c));
}

/// A block of `add_binary` is well formed, carries the checksum flag, is
/// selected by the family id it was made with, and holds the bytes of its
/// plan.
pub proof fn lemma_binary_block_facts(
    b: Block,
    binary: Seq<u8>,
    target_addr: int,
    p: BlockPlan,
    block_no: int,
    total: u32,
    family_id: Option<u32>,
    digits: Seq<u8>,
    semver: Seq<u8>,
)
    requires
        is_binary_block(b, binary, target_addr, p, block_no, total, family_id, digits, semver),
        plan_in_bounds(p, binary.len() as int),
    ensures
        b.well_formed(),
        b.has_flag(Flags::Checksum),
        b.has_flag(Flags::ExtensionTags) == block_has_extensions(
            p.page_offset,
            p.chunk,
            digits.len() as int,
            semver.len() as int,
        ),
        crate::file::block_selected(b, family_id),
        b.spec_data() == plan_bytes(binary, p),
{
    let page = plan_page(binary, p);
    let c = p.chunk;
    let po = p.page_offset;
    let checksum = page_checksum(target_addr + p.page_start, page.len() as int, md5_digest(page));
    let d0 = page.subrange(po, po + c) + zeros(MAX_PAYLOAD_SIZE - c);
    let d1 = overwrite(d0, MAX_PAYLOAD_SIZE_WITH_CHECKSUM as int, checksum);
    lemma_overwrite_prefix(d0, MAX_PAYLOAD_SIZE_WITH_CHECKSUM as int, checksum, c);
    let data = page_block_data(page, po, c, checksum, digits, semver);
    if po == 0 {
        let e1 = page_size_ext(c, digits.len() as int);
        let r1 = extension_record(e1.1, ExtensionTag::TargetPageSize, digits);
        let d2 = if ext_fits(e1) {
            overwrite(d1, e1.0, r1)
        } else {
            d1
        };
        assert(c <= round_up(c, 4)) by (nonlinear_arith)
            requires
                c >= 0,
        ;
        if ext_fits(e1) {
            lemma_overwrite_prefix(d1, e1.0, r1, c);
        }
        let e2 = semver_ext(c, digits.len() as int, semver.len() as int);
        let r2 = extension_record(e2.1, ExtensionTag::SemverString, semver);
        assert(c <= round_up(c + Extension::HEADER_SIZE + digits.len(), 4)) by (nonlinear_arith)
            requires
                c >= 0,
                digits.len() >= 0,
        ;
        if ext_fits(e2) {
            lemma_overwrite_prefix(d2, e2.0, r2, c);
        }
        assert(data.subrange(0, c) == d0.subrange(0, c));
    } else {
        assert(data.subrange(0, c) == d0.subrange(0, c));
    }
    assert(d0.subrange(0, c) =~= plan_bytes(binary, p));
    let ext = block_has_extensions(po, c, digits.len() as int, semver.len() as int);
    let f = if family_id is Some {
        Flags::FamilyId
    } else {
        0u32
    };
    assert(f == Flags::FamilyId || f == 0);
    assert((f == Flags::FamilyId || f == 0) ==> (f | Flags::Checksum) & Flags::Checksum != 0 && ((f
        | Flags::Checksum) | Flags::ExtensionTags) & Flags::Checksum != 0 && (f | Flags::Checksum)
        & Flags::ExtensionTags == 0 && ((f | Flags::Checksum) | Flags::ExtensionTags)
        & Flags::ExtensionTags != 0) by (bit_vector);
    if family_id is Some {
        assert((Flags::FamilyId | Flags::Checksum) & Flags::FamilyId != 0 && ((Flags::FamilyId
            | Flags::Checksum) | Flags::ExtensionTags) & Flags::FamilyId != 0) by (bit_vector);
    }
}

/// The payload of the blocks made by `add_binary` is the concatenation of
/// the bytes of their plans.
proof fn lemma_binary_blocks_payload(
    blocks: Seq<Block>,
    plans: Seq<BlockPlan>,
    binary: Seq<u8>,
    target_addr: int,
    total: u32,
    family_id: Option<u32>,
    digits: Seq<u8>,
    semver: Seq<u8>,
)
    requires
        blocks.len() == plans.len(),
        forall|k: int| 0 <= k < plans.len() ==> plan_in_bounds(#[trigger] plans[k], binary.len() as int),
        forall|k: int|
            0 <= k < plans.len() ==> is_binary_block(
                #[trigger] blocks[k],
                binary,
                target_addr,
                plans[k],
                k,
                total,
                family_id,
                digits,
                semver,
            ),
    ensures
        crate::file::payload_of(blocks, family_id) == plans_bytes(binary, plans),
    decreases blocks.len(),
{
    if blocks.len() == 0 {
        assert(crate::file::payload_of(blocks, family_id) =~= plans_bytes(binary, plans));
    } else {
        let m = blocks.len() - 1;
        let bs = blocks.drop_last();
        let ps = plans.drop_last();
        assert forall|k: int| 0 <= k < ps.len() implies is_binary_block(
            #[trigger] bs[k],
            binary,
            target_addr,
            ps[k],
            k,
            total,
            family_id,
            digits,
            semver,
        ) && plan_in_bounds(ps[k], binary.len() as int) by {
            assert(bs[k] == blocks[k]);
            assert(ps[k] == plans[k]);
        }
        lemma_binary_blocks_payload(bs, ps, binary, target_addr, total, family_id, digits, semver);
        lemma_binary_block_facts(
            blocks[m],
            binary,
            target_addr,
            plans[m],
            m,
            total,
            family_id,
            digits,
            semver,
        );
        assert(plans =~= ps + seq![plans[m]]);
        lemma_plans_bytes_append(binary, ps, seq![plans[m]]);
        lemma_plans_bytes_single(binary, plans[m]);
    }
}

/// What `add_binary` writes is what `get_payload` reads: the blocks it makes
/// carry the whole binary, in order, each selected by the family id they were
/// made with, and each well formed and marked as carrying a checksum. A long
/// version string never costs payload: the records that do not fit are left
/// out.
pub proof fn lemma_add_binary_reads_back(
    blocks: Seq<Block>,
    binary: Seq<u8>,
    target_addr: u32,
    family_id: Option<u32>,
    page_size: usize,
    semver: Seq<u8>,
)
    requires
        binary.len() > 0 ==> page_size > 0,
        ({
            let plans = binary_plans(
                binary.len() as int,
                target_addr as int,
                page_size as int,
                first_block_room(decimal(page_size as nat).len() as int, semver.len() as int),
                0,
            );
            &&& blocks.len() == plans.len()
            &&& forall|k: int|
                0 <= k < plans.len() ==> is_binary_block(
                    #[trigger] blocks[k],
                    binary,
                    target_addr as int,
                    plans[k],
                    k,
                    plans.len() as u32,
                    family_id,
                    decimal(page_size as nat),
                    semver,
                )
        }),
    ensures
        crate::file::payload_of(blocks, family_id) == binary,
        forall|k: int|
            0 <= k < blocks.len() ==> (#[trigger] blocks[k]).well_formed() && blocks[k].has_flag(
                Flags::Checksum,
            ),
{
    let digits = decimal(page_size as nat);
    let fr = first_block_room(digits.len() as int, semver.len() as int);
    let plans = binary_plans(binary.len() as int, target_addr as int, page_size as int, fr, 0);
    lemma_first_block_room(digits.len() as int, semver.len() as int);
    if binary.len() == 0 {
        assert(plans.len() == 0);
        assert(crate::file::payload_of(blocks, family_id) =~= binary);
    } else {
        lemma_binary_plans_cover(binary, target_addr as int, page_size as int, fr, 0);
        lemma_binary_blocks_payload(
            blocks,
            plans,
            binary,
            target_addr as int,
            plans.len() as u32,
            family_id,
            digits,
            semver,
        );
        assert(binary.subrange(0, binary.len() as int) =~= binary);
        assert forall|k: int| 0 <= k < blocks.len() implies (#[trigger] blocks[k]).well_formed()
            && blocks[k].has_flag(Flags::Checksum) by {
            lemma_binary_block_facts(
                blocks[k],
                binary,
                target_addr as int,
                plans[k],
                k,
                plans.len() as u32,
                family_id,
                digits,
                semver,
            );
        }
    }
}


/// A file made by `add_binary` alone passes `verify`, as long as its number
/// of blocks fits in 32 bits: blocks are numbered 0, 1, ... and all carry the
/// same total, their count.
pub proof fn lemma_add_binary_passes_verify(
    blocks: Seq<Block>,
    binary: Seq<u8>,
    target_addr: u32,
    family_id: Option<u32>,
    page_size: usize,
    semver: Seq<u8>,
)
    requires
        binary.len() > 0 ==> page_size > 0,
        blocks.len() <= u32::MAX,
        ({
            let plans = binary_plans(
                binary.len() as int,
                target_addr as int,
                page_size as int,
                first_block_room(decimal(page_size as nat).len() as int, semver.len() as int),
                0,
            );
            &&& blocks.len() == plans.len()
            &&& forall|k: int|
                0 <= k < plans.len() ==> is_binary_block(
                    #[trigger] blocks[k],
                    binary,
                    target_addr as int,
                    plans[k],
                    k,
                    plans.len() as u32,
                    family_id,
                    decimal(page_size as nat),
                    semver,
                )
        }),
    ensures
        crate::reader::first_order_error(blocks, blocks.len()) is None,
{
    let digits = decimal(page_size as nat);
    let fr = first_block_room(digits.len() as int, semver.len() as int);
    let plans = binary_plans(binary.len() as int, target_addr as int, page_size as int, fr, 0);
    lemma_first_block_room(digits.len() as int, semver.len() as int);
    if binary.len() > 0 {
        lemma_binary_plans_cover(binary, target_addr as int, page_size as int, fr, 0);
    }
    lemma_binary_blocks_in_order(blocks, plans, binary.len() as int, blocks.len());
}

proof fn lemma_binary_blocks_in_order(blocks: Seq<Block>, plans: Seq<BlockPlan>, n: int, k: nat)
    requires
        k <= blocks.len() <= u32::MAX,
        blocks.len() == plans.len(),
        forall|j: int| 0 <= j < plans.len() ==> plan_in_bounds(#[trigger] plans[j], n),
        forall|j: int|
            0 <= j < blocks.len() ==> (#[trigger] blocks[j]).block == j as u32
                && blocks[j].total_blocks == blocks.len() as u32 && blocks[j].data_len
                == plans[j].chunk as u32,
    ensures
        crate::reader::first_order_error(blocks, k) is None,
    decreases k,
{
    if k > 0 {
        lemma_binary_blocks_in_order(blocks, plans, n, (k - 1) as nat);
        let j = k - 1;
        assert(blocks[j].block == j);
        assert(plan_in_bounds(plans[j], n));
        if j >= 1 {
            assert(blocks[j - 1].block == j - 1);
        }
    }
}


/// With an aligned page size and room, every block of a page that starts at
/// an aligned address starts at an aligned address: only the block that ends
/// a page can have a length that is not a multiple of 4.
proof fn lemma_page_plans_aligned(
    base: int,
    start: int,
    page_len: int,
    page_size: int,
    first_room: int,
    page_offset: int,
)
    requires
        page_size > 0,
        page_size % 4 == 0,
        first_room % 4 == 0,
        0 <= first_room <= MAX_PAYLOAD_SIZE_WITH_CHECKSUM,
        0 <= page_offset <= page_len,
        (base + start + page_offset) % 4 == 0,
    ensures
        forall|k: int|
            0 <= k < page_plans(start, page_len, page_size, first_room, page_offset).len()
                ==> !misaligned(
                base + page_plans(start, page_len, page_size, first_room, page_offset)[k].page_start,
                #[trigger] page_plans(
                    start,
                    page_len,
                    page_size,
                    first_room,
                    page_offset,
                )[k].page_offset,
            ),
    decreases page_len - page_offset,
{
    let plans = page_plans(start, page_len, page_size, first_room, page_offset);
    if page_offset < page_len {
        let room = if page_offset == 0 {
            first_room
        } else {
            MAX_PAYLOAD_SIZE_WITH_CHECKSUM as int
        };
        let rem = page_len - page_offset;
        let c = binary_chunk_len(page_size, room, rem);
        lemma_chunk_bounds(page_size, room, rem);
        if c > 0 {
            let rest = page_plans(start, page_len, page_size, first_room, page_offset + c);
            let avail = spec_min(room, rem);
            if page_offset + c < page_len {
                if 0 < page_size <= MAX_PAYLOAD_SIZE && avail >= page_size {
                    let q = avail / page_size;
                    let m = page_size / 4;
                    assert(page_size == 4 * m);
                    assert(q * page_size == 4 * (q * m)) by (nonlinear_arith)
                        requires
                            page_size == 4 * m,
                    ;
                    let x = q * m;
                    assert((4 * x) % 4 == 0);
                } else {
                    assert(c == room);
                }
                assert(c % 4 == 0);
                lemma_page_plans_aligned(
                    base,
                    start,
                    page_len,
                    page_size,
                    first_room,
                    page_offset + c,
                );
            } else {
                assert(rest.len() == 0);
            }
            assert forall|k: int| 0 <= k < plans.len() implies !misaligned(
                base + plans[k].page_start,
                #[trigger] plans[k].page_offset,
            ) by {
                if k > 0 {
                    assert(plans[k] == rest[k - 1]);
                } else {
                    assert(plans[0].page_offset == page_offset);
                }
            }
        }
    }
}

/// With an aligned target address and page size, every block `add_binary`
/// plans starts at an aligned address.
proof fn lemma_binary_plans_aligned(
    n: int,
    target_addr: int,
    page_size: int,
    first_room: int,
    offset: int,
)
    requires
        page_size > 0,
        page_size % 4 == 0,
        first_room % 4 == 0,
        0 <= first_room <= MAX_PAYLOAD_SIZE_WITH_CHECKSUM,
        0 <= offset <= n,
        target_addr >= 0,
        (target_addr + offset) % 4 == 0,
    ensures
        forall|k: int|
            0 <= k < binary_plans(n, target_addr, page_size, first_room, offset).len()
                ==> !misaligned(
                target_addr + binary_plans(n, target_addr, page_size, first_room, offset)[k].page_start,
                #[trigger] binary_plans(n, target_addr, page_size, first_room, offset)[k].page_offset,
            ),
    decreases n - offset,
{
    let plans = binary_plans(n, target_addr, page_size, first_room, offset);
    if offset < n {
        let addr = target_addr + offset;
        assert(0 <= addr % page_size < page_size && (addr % page_size) % 4 == 0) by (nonlinear_arith)
            requires
                page_size > 0,
                page_size % 4 == 0,
                addr % 4 == 0,
                addr >= 0,
        ;
        let pl = page_len_at(addr, page_size, n - offset);
        let here = page_plans(offset, pl, page_size, first_room, 0);
        let rest = binary_plans(n, target_addr, page_size, first_room, offset + pl);
        lemma_page_plans_aligned(target_addr, offset, pl, page_size, first_room, 0);
        if offset + pl < n {
            assert(pl == page_size - addr % page_size);
            lemma_binary_plans_aligned(n, target_addr, page_size, first_room, offset + pl);
        } else {
            assert(rest.len() == 0);
        }
        assert(plans == here + rest);
        assert forall|k: int| 0 <= k < plans.len() implies !misaligned(
            target_addr + plans[k].page_start,
            #[trigger] plans[k].page_offset,
        ) by {
            if k < here.len() {
                assert(plans[k] == here[k]);
            } else {
                assert(plans[k] == rest[k - here.len()]);
            }
        }
    }
}


/// Sum of the payload lengths of the first `k` plans.
pub open spec fn chunk_sum(plans: Seq<BlockPlan>, k: int) -> int
    decreases k,
{
    if k <= 0 {
        0
    } else {
        chunk_sum(plans, k - 1) + plans[k - 1].chunk
    }
}

proof fn lemma_chunk_sum_concat(a: Seq<BlockPlan>, b: Seq<BlockPlan>, k: int)
    requires
        0 <= k <= a.len() + b.len(),
    ensures
        k <= a.len() ==> chunk_sum(a + b, k) == chunk_sum(a, k),
        k >= a.len() ==> chunk_sum(a + b, k) == chunk_sum(a, a.len() as int) + chunk_sum(
            b,
            k - a.len(),
        ),
    decreases k,
{
    if k > 0 {
        lemma_chunk_sum_concat(a, b, k - 1);
        if k > a.len() {
            assert((a + b)[k - 1] == b[k - 1 - a.len()]);
        } else {
            assert((a + b)[k - 1] == a[k - 1]);
        }
    }
}

/// When the first block of a page has room, the blocks of a page follow each
/// other without gaps and end with the page.
proof fn lemma_page_plans_consecutive(
    start: int,
    page_len: int,
    page_size: int,
    first_room: int,
    page_offset: int,
)
    requires
        0 < first_room <= MAX_PAYLOAD_SIZE_WITH_CHECKSUM,
        page_size > 0,
        0 <= page_offset <= page_len,
    ensures
        ({
            let plans = page_plans(start, page_len, page_size, first_room, page_offset);
            &&& chunk_sum(plans, plans.len() as int) == page_len - page_offset
            &&& forall|k: int|
                0 <= k < plans.len() ==> (#[trigger] plans[k]).page_start + plans[k].page_offset
                    == start + page_offset + chunk_sum(plans, k)
        }),
    decreases page_len - page_offset,
{
    let plans = page_plans(start, page_len, page_size, first_room, page_offset);
    if page_offset < page_len {
        let room = if page_offset == 0 {
            first_room
        } else {
            MAX_PAYLOAD_SIZE_WITH_CHECKSUM as int
        };
        let c = binary_chunk_len(page_size, room, page_len - page_offset);
        lemma_chunk_bounds(page_size, room, page_len - page_offset);
        let rest = page_plans(start, page_len, page_size, first_room, page_offset + c);
        lemma_page_plans_consecutive(start, page_len, page_size, first_room, page_offset + c);
        let first = BlockPlan { page_start: start, page_len, page_offset, chunk: c };
        assert(plans =~= seq![first] + rest);
        assert(chunk_sum(seq![first], 1) == c) by {
            assert(chunk_sum(seq![first], 0) == 0);
        }
        lemma_chunk_sum_concat(seq![first], rest, plans.len() as int);
        assert forall|k: int| 0 <= k < plans.len() implies (#[trigger] plans[k]).page_start
            + plans[k].page_offset == start + page_offset + chunk_sum(plans, k) by {
            lemma_chunk_sum_concat(seq![first], rest, k);
            if k > 0 {
                assert(plans[k] == rest[k - 1]);
            }
        }
    }
}

/// When the first block of a page has room, the blocks of a binary follow
/// each other without gaps from `offset` to its end.
proof fn lemma_binary_plans_consecutive(
    n: int,
    target_addr: int,
    page_size: int,
    first_room: int,
    offset: int,
)
    requires
        0 < first_room <= MAX_PAYLOAD_SIZE_WITH_CHECKSUM,
        page_size > 0,
        0 <= offset <= n,
    ensures
        ({
            let plans = binary_plans(n, target_addr, page_size, first_room, offset);
            &&& chunk_sum(plans, plans.len() as int) == n - offset
            &&& forall|k: int|
                0 <= k < plans.len() ==> (#[trigger] plans[k]).page_start + plans[k].page_offset
                    == offset + chunk_sum(plans, k)
        }),
    decreases n - offset,
{
    let plans = binary_plans(n, target_addr, page_size, first_room, offset);
    if offset < n {
        let addr = target_addr + offset;
        assert(0 <= addr % page_size < page_size) by (nonlinear_arith)
            requires
                page_size > 0,
        ;
        let pl = page_len_at(addr, page_size, n - offset);
        let here = page_plans(offset, pl, page_size, first_room, 0);
        let rest = binary_plans(n, target_addr, page_size, first_room, offset + pl);
        lemma_page_plans_consecutive(offset, pl, page_size, first_room, 0);
        lemma_binary_plans_consecutive(n, target_addr, page_size, first_room, offset + pl);
        assert(plans == here + rest);
        lemma_chunk_sum_concat(here, rest, plans.len() as int);
        assert forall|k: int| 0 <= k < plans.len() implies (#[trigger] plans[k]).page_start
            + plans[k].page_offset == offset + chunk_sum(plans, k) by {
            lemma_chunk_sum_concat(here, rest, k);
            if k < here.len() {
                assert(plans[k] == here[k]);
            } else {
                assert(plans[k] == rest[k - here.len()]);
            }
        }
    }
}

proof fn lemma_data_len_sum_is_chunk_sum(blocks: Seq<Block>, plans: Seq<BlockPlan>, k: int)
    requires
        0 <= k <= blocks.len(),
        blocks.len() == plans.len(),
        forall|j: int|
            0 <= j < blocks.len() ==> (#[trigger] blocks[j]).data_len == plans[j].chunk,
    ensures
        crate::file::data_len_sum(blocks, k) == chunk_sum(plans, k),
    decreases k,
{
    if k > 0 {
        lemma_data_len_sum_is_chunk_sum(blocks, plans, k - 1);
        assert(blocks[k - 1].data_len == plans[k - 1].chunk);
    }
}

/// The blocks `add_binary` makes follow each other in the target address
/// space: each starts where the payload of the ones before it ends.
#[verifier::spinoff_prover]
#[verifier::rlimit(40)]
pub proof fn lemma_add_binary_addresses(
    blocks: Seq<Block>,
    binary: Seq<u8>,
    target_addr: u32,
    family_id: Option<u32>,
    page_size: usize,
    semver: Seq<u8>,
)
    requires
        binary.len() > 0 ==> page_size > 0,
        ({
            let plans = binary_plans(
                binary.len() as int,
                target_addr as int,
                page_size as int,
                first_block_room(decimal(page_size as nat).len() as int, semver.len() as int),
                0,
            );
            &&& blocks.len() == plans.len()
            &&& forall|k: int|
                0 <= k < plans.len() ==> is_binary_block(
                    #[trigger] blocks[k],
                    binary,
                    target_addr as int,
                    plans[k],
                    k,
                    plans.len() as u32,
                    family_id,
                    decimal(page_size as nat),
                    semver,
                )
        }),
    ensures
        forall|k: int|
            0 <= k < blocks.len() ==> (#[trigger] blocks[k]).target_addr == (target_addr
                + crate::file::data_len_sum(blocks, k)) as u32,
{
    let digits = decimal(page_size as nat);
    let fr = first_block_room(digits.len() as int, semver.len() as int);
    let plans = binary_plans(binary.len() as int, target_addr as int, page_size as int, fr, 0);
    lemma_first_block_room(digits.len() as int, semver.len() as int);
    if binary.len() > 0 {
        lemma_binary_plans_cover(binary, target_addr as int, page_size as int, fr, 0);
        lemma_binary_plans_consecutive(
            binary.len() as int,
            target_addr as int,
            page_size as int,
            fr,
            0,
        );
        assert forall|j: int| 0 <= j < blocks.len() implies (#[trigger] blocks[j]).data_len
            == plans[j].chunk by {
            assert(plan_in_bounds(plans[j], binary.len() as int));
        }
        assert forall|k: int| 0 <= k < blocks.len() implies (#[trigger] blocks[k]).target_addr
            == (target_addr + crate::file::data_len_sum(blocks, k)) as u32 by {
            lemma_data_len_sum_is_chunk_sum(blocks, plans, k);
        }
    }
}


proof fn lemma_overwrite_keeps(s: Seq<u8>, at: int, src: Seq<u8>, lo: int, hi: int)
    requires
        0 <= at,
        at + src.len() <= s.len(),
    ensures
        overwrite(s, at, src).len() == s.len(),
        overwrite(s, at, src).subrange(at, at + src.len()) == src,
        at + src.len() <= lo <= hi <= s.len() ==> overwrite(s, at, src).subrange(lo, hi)
            == s.subrange(lo, hi),
        0 <= lo <= hi <= at ==> overwrite(s, at, src).subrange(lo, hi) == s.subrange(lo, hi),
{
    let r = overwrite(s, at, src);
    assert(r.subrange(at, at + src.len()) =~= src);
    if at + src.len() <= lo <= hi <= s.len() {
        assert(r.subrange(lo, hi) =~= s.subrange(lo, hi));
    }
    if 0 <= lo <= hi <= at {
        assert(r.subrange(lo, hi) =~= s.subrange(lo, hi));
    }
}

/// The records of a block of a page: the checksum record in the last 24
/// bytes, and on the first block of the page the version record where it
/// fits.
proof fn lemma_page_block_records(
    b: Block,
    page: Seq<u8>,
    page_addr: int,
    page_offset: int,
    chunk: int,
    block_no: int,
    total: u32,
    family_id: Option<u32>,
    digits: Seq<u8>,
    semver: Seq<u8>,
    digest: Seq<u8>,
)
    requires
        is_page_block(
            b,
            page,
            page_addr,
            page_offset,
            chunk,
            block_no,
            total,
            family_id,
            digits,
            semver,
            digest,
        ),
        0 <= page_offset,
        page_offset + chunk <= page.len(),
        0 < chunk <= MAX_PAYLOAD_SIZE_WITH_CHECKSUM,
    ensures
        b.data@.subrange(452, 476) == page_checksum(page_addr, page.len() as int, digest),
        page_offset == 0 && ext_fits(semver_ext(chunk, digits.len() as int, semver.len() as int))
            ==> ({
            let e2 = semver_ext(chunk, digits.len() as int, semver.len() as int);
            b.data@.subrange(e2.0, e2.0 + e2.1) == extension_record(
                e2.1,
                ExtensionTag::SemverString,
                semver,
            )
        }),
{
    let cs = page_checksum(page_addr, page.len() as int, digest);
    crate::block::lemma_auto_le32_len();
    assert(cs.len() == 24);
    let d0 = page.subrange(page_offset, page_offset + chunk) + zeros(MAX_PAYLOAD_SIZE - chunk);
    let d1 = overwrite(d0, 452, cs);
    lemma_overwrite_keeps(d0, 452, cs, 452, 476);
    assert(d1.subrange(452, 476) == cs);
    if page_offset == 0 {
        let e1 = page_size_ext(chunk, digits.len() as int);
        let r1 = extension_record(e1.1, ExtensionTag::TargetPageSize, digits);
        let d2 = if ext_fits(e1) {
            overwrite(d1, e1.0, r1)
        } else {
            d1
        };
        assert(round_up(chunk, 4) >= 0);
        if ext_fits(e1) {
            assert(r1.len() == e1.1);
            lemma_overwrite_keeps(d1, e1.0, r1, 452, 476);
        }
        assert(d2.len() == 476 && d2.subrange(452, 476) == cs);
        let e2 = semver_ext(chunk, digits.len() as int, semver.len() as int);
        let r2 = extension_record(e2.1, ExtensionTag::SemverString, semver);
        if ext_fits(e2) {
            assert(r2.len() == e2.1);
            assert(e2.0 >= 0);
            lemma_overwrite_keeps(d2, e2.0, r2, 452, 476);
        }
    }
}


/// The block at offset 0 of a page takes at most the first block's room.
proof fn lemma_page_plans_first_room(
    start: int,
    page_len: int,
    page_size: int,
    first_room: int,
    page_offset: int,
)
    requires
        0 <= first_room <= MAX_PAYLOAD_SIZE_WITH_CHECKSUM,
        0 <= page_offset <= page_len,
    ensures
        forall|k: int|
            0 <= k < page_plans(start, page_len, page_size, first_room, page_offset).len()
                ==> (#[trigger] page_plans(start, page_len, page_size, first_room, page_offset)[k]).page_offset
                >= page_offset && (page_plans(
                start,
                page_len,
                page_size,
                first_room,
                page_offset,
            )[k].page_offset == 0 ==> page_plans(
                start,
                page_len,
                page_size,
                first_room,
                page_offset,
            )[k].chunk <= first_room),
    decreases page_len - page_offset,
{
    let plans = page_plans(start, page_len, page_size, first_room, page_offset);
    if page_offset < page_len {
        let room = if page_offset == 0 {
            first_room
        } else {
            MAX_PAYLOAD_SIZE_WITH_CHECKSUM as int
        };
        let c = binary_chunk_len(page_size, room, page_len - page_offset);
        lemma_chunk_at_most_room(page_size, room, page_len - page_offset);
        if c > 0 {
            let rest = page_plans(start, page_len, page_size, first_room, page_offset + c);
            lemma_page_plans_first_room(start, page_len, page_size, first_room, page_offset + c);
            assert forall|k: int| 0 <= k < plans.len() implies (#[trigger] plans[k]).page_offset
                >= page_offset && (plans[k].page_offset == 0 ==> plans[k].chunk <= first_room) by {
                if k > 0 {
                    assert(plans[k] == rest[k - 1]);
                }
            }
        }
    }
}

/// The block at offset 0 of a page of a binary takes at most the first
/// block's room.
proof fn lemma_binary_plans_first_room(
    n: int,
    target_addr: int,
    page_size: int,
    first_room: int,
    offset: int,
)
    requires
        0 <= first_room <= MAX_PAYLOAD_SIZE_WITH_CHECKSUM,
        page_size > 0,
        0 <= offset <= n,
    ensures
        forall|k: int|
            0 <= k < binary_plans(n, target_addr, page_size, first_room, offset).len() && (
            #[trigger] binary_plans(n, target_addr, page_size, first_room, offset)[k]).page_offset
                == 0 ==> binary_plans(n, target_addr, page_size, first_room, offset)[k].chunk
                <= first_room,
    decreases n - offset,
{
    let plans = binary_plans(n, target_addr, page_size, first_room, offset);
    if offset < n {
        let addr = target_addr + offset;
        assert(0 <= addr % page_size < page_size) by (nonlinear_arith)
            requires
                page_size > 0,
        ;
        let pl = page_len_at(addr, page_size, n - offset);
        let here = page_plans(offset, pl, page_size, first_room, 0);
        let rest = binary_plans(n, target_addr, page_size, first_room, offset + pl);
        lemma_page_plans_first_room(offset, pl, page_size, first_room, 0);
        lemma_binary_plans_first_room(n, target_addr, page_size, first_room, offset + pl);
        assert(plans == here + rest);
        assert forall|k: int|
            0 <= k < plans.len() && (#[trigger] plans[k]).page_offset == 0 implies plans[k].chunk
            <= first_room by {
            if k < here.len() {
                assert(plans[k] == here[k]);
            } else {
                assert(plans[k] == rest[k - here.len()]);
            }
        }
    }
}

/// When both extension records fit in a block with room for payload, the
/// first block of every page of `add_binary` carries the version record, right
/// after the page-size record's slot, and its payload leaves room for both
/// records.
pub proof fn lemma_add_binary_first_blocks_carry_version(
    blocks: Seq<Block>,
    binary: Seq<u8>,
    target_addr: u32,
    family_id: Option<u32>,
    page_size: usize,
    semver: Seq<u8>,
)
    requires
        binary.len() > 0 ==> page_size > 0,
        ({
            let plans = binary_plans(
                binary.len() as int,
                target_addr as int,
                page_size as int,
                first_block_room(decimal(page_size as nat).len() as int, semver.len() as int),
                0,
            );
            &&& blocks.len() == plans.len()
            &&& forall|k: int|
                0 <= k < plans.len() ==> is_binary_block(
                    #[trigger] blocks[k],
                    binary,
                    target_addr as int,
                    plans[k],
                    k,
                    plans.len() as u32,
                    family_id,
                    decimal(page_size as nat),
                    semver,
                )
        }),
    ensures
        ({
            let digits = decimal(page_size as nat);
            let reserved = (4 + (digits.len() + 3) / 4 * 4) + (4 + (semver.len() + 3) / 4 * 4);
            let plans = binary_plans(
                binary.len() as int,
                target_addr as int,
                page_size as int,
                first_block_room(digits.len() as int, semver.len() as int),
                0,
            );
            reserved < 452 ==> forall|k: int|
                0 <= k < blocks.len() && (#[trigger] plans[k]).page_offset == 0 ==> {
                    let c = blocks[k].data_len as int;
                    let at = (c + 4 + digits.len() + 3) / 4 * 4;
                    &&& c + reserved <= 452
                    &&& blocks[k].has_flag(Flags::ExtensionTags)
                    &&& blocks[k].data@.subrange(at, at + 4 + semver.len()) == seq![
                        (4 + semver.len()) as u8,
                        0xBCu8,
                        0xC7u8,
                        0x9Fu8,
                    ] + semver
                }
        }),
{
    let digits = decimal(page_size as nat);
    let fr = first_block_room(digits.len() as int, semver.len() as int);
    let plans = binary_plans(binary.len() as int, target_addr as int, page_size as int, fr, 0);
    let reserved = (4 + (digits.len() + 3) / 4 * 4) + (4 + (semver.len() + 3) / 4 * 4);
    lemma_first_block_room(digits.len() as int, semver.len() as int);
    if binary.len() > 0 && reserved < 452 {
        lemma_binary_plans_cover(binary, target_addr as int, page_size as int, fr, 0);
        lemma_binary_plans_first_room(
            binary.len() as int,
            target_addr as int,
            page_size as int,
            fr,
            0,
        );
        assert forall|k: int|
            0 <= k < blocks.len() && (#[trigger] plans[k]).page_offset == 0 implies {
            let c = blocks[k].data_len as int;
            let at = (c + 4 + digits.len() + 3) / 4 * 4;
            &&& c + reserved <= 452
            &&& blocks[k].has_flag(Flags::ExtensionTags)
            &&& blocks[k].data@.subrange(at, at + 4 + semver.len()) == seq![
                (4 + semver.len()) as u8,
                0xBCu8,
                0xC7u8,
                0x9Fu8,
            ] + semver
        } by {
            let p = plans[k];
            assert(plan_in_bounds(p, binary.len() as int));
            let c = p.chunk;
            assert(blocks[k].data_len == c);
            assert(c <= fr);
            assert(fr == 452 - reserved);
            let e2 = semver_ext(c, digits.len() as int, semver.len() as int);
            let dl = digits.len() as int;
            let sl = semver.len() as int;
            assert(e2.0 + e2.1 <= 452) by (nonlinear_arith)
                requires
                    e2.0 == (c + 4 + dl + 3) / 4 * 4,
                    e2.1 == 4 + sl,
                    c <= 452 - ((4 + (dl + 3) / 4 * 4) + (4 + (sl + 3) / 4 * 4)),
                    (452 - ((4 + (dl + 3) / 4 * 4) + (4 + (sl + 3) / 4 * 4))) % 4 == 0,
                    c >= 0,
                    dl >= 0,
                    sl >= 0,
            ;
            lemma_page_block_records(
                blocks[k],
                plan_page(binary, p),
                target_addr + p.page_start,
                p.page_offset,
                p.chunk,
                k,
                plans.len() as u32,
                family_id,
                digits,
                semver,
                md5_digest(plan_page(binary, p)),
            );
            lemma_binary_block_facts(
                blocks[k],
                binary,
                target_addr as int,
                p,
                k,
                plans.len() as u32,
                family_id,
                digits,
                semver,
            );
            assert(extension_record(e2.1, ExtensionTag::SemverString, semver) =~= seq![
                (4 + semver.len()) as u8,
                0xBCu8,
                0xC7u8,
                0x9Fu8,
            ] + semver);
        }
    }
}

/// Every block `add_binary` makes names, in its checksum record, the whole
/// page it belongs to: the page's start address and length, and the MD5
/// digest of all the page's bytes. Blocks of the same page carry the same
/// record, wherever they sit in the page.
#[verifier::spinoff_prover]
pub proof fn lemma_add_binary_checksum_records(
    blocks: Seq<Block>,
    binary: Seq<u8>,
    target_addr: u32,
    family_id: Option<u32>,
    page_size: usize,
    semver: Seq<u8>,
)
    requires
        binary.len() > 0 ==> page_size > 0,
        ({
            let plans = binary_plans(
                binary.len() as int,
                target_addr as int,
                page_size as int,
                first_block_room(decimal(page_size as nat).len() as int, semver.len() as int),
                0,
            );
            &&& blocks.len() == plans.len()
            &&& forall|k: int|
                0 <= k < plans.len() ==> is_binary_block(
                    #[trigger] blocks[k],
                    binary,
                    target_addr as int,
                    plans[k],
                    k,
                    plans.len() as u32,
                    family_id,
                    decimal(page_size as nat),
                    semver,
                )
        }),
    ensures
        ({
            let plans = binary_plans(
                binary.len() as int,
                target_addr as int,
                page_size as int,
                first_block_room(decimal(page_size as nat).len() as int, semver.len() as int),
                0,
            );
            &&& forall|k: int|
                0 <= k < blocks.len() ==> {
                    let p = #[trigger] plans[k];
                    &&& 0 <= p.page_start
                    &&& p.page_offset + blocks[k].data_len <= p.page_len
                    &&& p.page_start + p.page_len <= binary.len()
                    &&& blocks[k].target_addr == (target_addr + p.page_start + p.page_offset) as u32
                    &&& blocks[k].data@.subrange(452, 456) == le32(
                        (target_addr + p.page_start) as u32,
                    )
                    &&& blocks[k].data@.subrange(456, 460) == le32(p.page_len as u32)
                    &&& blocks[k].data@.subrange(460, 476) == md5_digest(
                        binary.subrange(p.page_start, p.page_start + p.page_len),
                    )
                }
            &&& forall|k1: int, k2: int|
                0 <= k1 < blocks.len() && 0 <= k2 < blocks.len() && plans[k1].page_start
                    == plans[k2].page_start && plans[k1].page_len == plans[k2].page_len
                    ==> (#[trigger] blocks[k1]).data@.subrange(452, 476) == (
                #[trigger] blocks[k2]).data@.subrange(452, 476)
        }),
{
    let digits = decimal(page_size as nat);
    let fr = first_block_room(digits.len() as int, semver.len() as int);
    let plans = binary_plans(binary.len() as int, target_addr as int, page_size as int, fr, 0);
    lemma_first_block_room(digits.len() as int, semver.len() as int);
    if binary.len() > 0 {
        lemma_binary_plans_cover(binary, target_addr as int, page_size as int, fr, 0);
    }
    assert forall|k: int| 0 <= k < blocks.len() implies {
        let p = #[trigger] plans[k];
        &&& 0 <= p.page_start
        &&& p.page_offset + blocks[k].data_len <= p.page_len
        &&& p.page_start + p.page_len <= binary.len()
        &&& blocks[k].target_addr == (target_addr + p.page_start + p.page_offset) as u32
        &&& blocks[k].data@.subrange(452, 456) == le32((target_addr + p.page_start) as u32)
        &&& blocks[k].data@.subrange(456, 460) == le32(p.page_len as u32)
        &&& blocks[k].data@.subrange(460, 476) == md5_digest(
            binary.subrange(p.page_start, p.page_start + p.page_len),
        )
    } by {
        assert(plan_in_bounds(plans[k], binary.len() as int));
        lemma_binary_block_checksum(
            blocks[k],
            binary,
            target_addr as int,
            plans[k],
            k,
            plans.len() as u32,
            family_id,
            digits,
            semver,
        );
    }
    assert forall|k1: int, k2: int|
        0 <= k1 < blocks.len() && 0 <= k2 < blocks.len() && plans[k1].page_start
            == plans[k2].page_start && plans[k1].page_len == plans[k2].page_len implies (
    #[trigger] blocks[k1]).data@.subrange(452, 476) == (#[trigger] blocks[k2]).data@.subrange(
        452,
        476,
    ) by {
        let r1 = blocks[k1].data@.subrange(452, 476);
        let r2 = blocks[k2].data@.subrange(452, 476);
        assert(plans[k1] == plans[k1] && plans[k2] == plans[k2]);
        assert(r1 =~= blocks[k1].data@.subrange(452, 456) + blocks[k1].data@.subrange(456, 460)
            + blocks[k1].data@.subrange(460, 476));
        assert(r2 =~= blocks[k2].data@.subrange(452, 456) + blocks[k2].data@.subrange(456, 460)
            + blocks[k2].data@.subrange(460, 476));
    }
}

/// The checksum record of one block of `add_binary`, field by field.
#[verifier::spinoff_prover]
proof fn lemma_binary_block_checksum(
    b: Block,
    binary: Seq<u8>,
    target_addr: int,
    p: BlockPlan,
    block_no: int,
    total: u32,
    family_id: Option<u32>,
    digits: Seq<u8>,
    semver: Seq<u8>,
)
    requires
        is_binary_block(b, binary, target_addr, p, block_no, total, family_id, digits, semver),
        plan_in_bounds(p, binary.len() as int),
    ensures
        b.data_len == p.chunk,
        b.data@.subrange(452, 456) == le32((target_addr + p.page_start) as u32),
        b.data@.subrange(456, 460) == le32(p.page_len as u32),
        b.data@.subrange(460, 476) == md5_digest(
            binary.subrange(p.page_start, p.page_start + p.page_len),
        ),
{
    crate::block::lemma_auto_le32_len();
    let page = plan_page(binary, p);
    lemma_page_block_records(
        b,
        page,
        target_addr + p.page_start,
        p.page_offset,
        p.chunk,
        block_no,
        total,
        family_id,
        digits,
        semver,
        md5_digest(page),
    );
    let cs = page_checksum(target_addr + p.page_start, page.len() as int, md5_digest(page));
    let rec = b.data@.subrange(452, 476);
    assert(rec.subrange(0, 4) =~= b.data@.subrange(452, 456));
    assert(rec.subrange(4, 8) =~= b.data@.subrange(456, 460));
    assert(rec.subrange(8, 24) =~= b.data@.subrange(460, 476));
    assert(cs.subrange(0, 4) =~= le32((target_addr + p.page_start) as u32));
    assert(cs.subrange(4, 8) =~= le32(p.page_len as u32));
    assert(cs.subrange(8, 24) =~= md5_digest(page));
}

} // verus!
