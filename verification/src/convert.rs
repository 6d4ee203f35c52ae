//! The computations behind the command-line converter: binary to UF2 and
//! UF2 to binary. Reading and writing the files is left to the caller.

use crate::block::{Block, BLOCK_SIZE};
use crate::file::{blocks_to_bytes, data_len_sum, payload_of, with_target_addr, Uf2File};
use crate::reader::{chunk, first_block_error, from_bytes, ReaderError};
use crate::writer::{is_payload_block, payload_block_count};
use vstd::prelude::*;
use vstd::string::StringExecFns;

verus! {

/// Error of a UF2 to binary conversion.
#[derive(Debug, PartialEq, Eq)]
pub enum ConvertError {
    /// The input could not be read as UF2 data.
    Read(ReaderError),
    /// The input holds no payload.
    NoPayload,
    /// The input file name has no extension to tell its kind.
    MissingExtension,
}

impl ConvertError {
    pub open spec fn spec_message(&self) -> Seq<char> {
        match self {
            ConvertError::Read(e) => e.spec_message(),
            ConvertError::NoPayload => "No payload found"@,
            ConvertError::MissingExtension => "Input file missing extension."@,
        }
    }

    /// Human readable description of the error.
    pub fn to_string(&self) -> (r: String)
        ensures
            r@ == self.spec_message(),
    {
        match self {
            ConvertError::Read(e) => e.to_string(),
            ConvertError::NoPayload => "No payload found".to_owned(),
            ConvertError::MissingExtension => "Input file missing extension.".to_owned(),
        }
    }
}

/// Whether a file extension names UF2 input: `uf2` or `UF2`.
pub open spec fn spec_is_uf2_extension(ext: Seq<u8>) -> bool {
    ext == seq![0x75u8, 0x66u8, 0x32u8] || ext == seq![0x55u8, 0x46u8, 0x32u8]
}

/// Whether a file extension names UF2 input (`uf2` or `UF2`); any other
/// input is taken as a raw binary.
pub fn is_uf2_extension(ext: &[u8]) -> (r: bool)
    ensures
        r == spec_is_uf2_extension(ext@),
{
    if ext.len() != 3 {
        return false;
    }
    let lower = ext[0] == 0x75u8 && ext[1] == 0x66u8 && ext[2] == 0x32u8;
    let upper = ext[0] == 0x55u8 && ext[1] == 0x46u8 && ext[2] == 0x32u8;
    proof {
        if lower {
            assert(ext@ =~= seq![0x75u8, 0x66u8, 0x32u8]);
        }
        if upper {
            assert(ext@ =~= seq![0x55u8, 0x46u8, 0x32u8]);
        }
    }
    lower || upper
}

/// Which way a conversion goes.
#[derive(Debug, Clone, Copy, PartialEq, Eq)]
pub enum Conversion {
    /// UF2 input, binary output.
    Uf2ToBin,
    /// Binary input, UF2 output.
    BinToUf2,
}

impl Conversion {
    /// The extension given to the output file when none is named.
    pub fn output_extension(&self) -> (r: &'static str)
        ensures
            r@ == (match self {
                Conversion::Uf2ToBin => "bin"@,
                Conversion::BinToUf2 => "uf2"@,
            }),
    {
        match self {
            Conversion::Uf2ToBin => "bin",
            Conversion::BinToUf2 => "uf2",
        }
    }
}

/// Which way to convert an input file, from its extension: UF2 input for
/// `uf2` or `UF2`, binary input for any other.
///
/// # Errors
/// - [`ConvertError::MissingExtension`] if the input has no extension.
pub fn plan_conversion(input_extension: Option<&[u8]>) -> (r: Result<Conversion, ConvertError>)
    ensures
        r == (match input_extension {
            None => Err(ConvertError::MissingExtension),
            Some(ext) => Ok(
                if spec_is_uf2_extension(ext@) {
                    Conversion::Uf2ToBin
                } else {
                    Conversion::BinToUf2
                },
            ),
        }),
{
    match input_extension {
        None => Err(ConvertError::MissingExtension),
        Some(ext) => {
            if is_uf2_extension(ext) {
                Ok(Conversion::Uf2ToBin)
            } else {
                Ok(Conversion::BinToUf2)
            }
        },
    }
}

/// The blocks a binary is converted to: those `add_payload` makes of it, with
/// target addresses laid out consecutively from `target_addr`.
pub open spec fn is_converted_binary(
    blocks: Seq<Block>,
    binary: Seq<u8>,
    target_addr: u32,
    family_id: Option<u32>,
) -> bool {
    &&& blocks.len() == payload_block_count(binary.len() as int)
    &&& forall|i: int|
        0 <= i < blocks.len() ==> is_payload_block(
            with_target_addr(#[trigger] blocks[i], (crate::block::MAX_PAYLOAD_SIZE * i) as u32),
            binary,
            family_id,
            i,
        )
    &&& forall|i: int|
        0 <= i < blocks.len() ==> (#[trigger] blocks[i]).target_addr == ((target_addr
            + data_len_sum(blocks, i)) % 0x1_0000_0000) as u32
}

proof fn lemma_data_len_sum_same(a: Seq<Block>, b: Seq<Block>, n: int)
    requires
        0 <= n <= a.len(),
        a.len() == b.len(),
        forall|i: int| 0 <= i < a.len() ==> (#[trigger] a[i]).data_len == b[i].data_len,
    ensures
        data_len_sum(a, n) == data_len_sum(b, n),
    decreases n,
{
    if n > 0 {
        lemma_data_len_sum_same(a, b, n - 1);
    }
}

/// Convert a binary into a UF2 file: its payload cut into blocks, placed at
/// consecutive addresses from `target_addr`.
pub fn bin_to_uf2(binary: &[u8], target_addr: u32, family_id: Option<u32>) -> (r: Uf2File)
    ensures
        is_converted_binary(r@, binary@, target_addr, family_id),
{
    let mut uf2_file = Uf2File::new();
    let _ = uf2_file.add_payload(binary, family_id);
    let ghost made = uf2_file@;
    uf2_file.set_target_addresses(target_addr);
    proof {
        let r = uf2_file@;
        assert forall|i: int| 0 <= i < r.len() implies (#[trigger] r[i]).data_len
            == made[i].data_len by {}
        assert forall|i: int| 0 <= i < r.len() implies (#[trigger] r[i]).target_addr == ((
        target_addr + data_len_sum(r, i)) % 0x1_0000_0000) as u32 by {
            lemma_data_len_sum_same(r, made, i);
        }
        assert forall|i: int| 0 <= i < r.len() implies is_payload_block(
            with_target_addr(#[trigger] r[i], (crate::block::MAX_PAYLOAD_SIZE * i) as u32),
            binary@,
            family_id,
            i,
        ) by {
            assert(made[0 + i] == made[i]);
            assert(is_payload_block(made[i], binary@, family_id, i));
            assert(with_target_addr(r[i], (crate::block::MAX_PAYLOAD_SIZE * i) as u32) == made[i]);
        }
    }
    uf2_file
}

/// Convert UF2 data into the binary it holds: the payload of all its blocks,
/// with the number of blocks read.
///
/// # Errors
/// - [`ConvertError::Read`] if the data cannot be read as UF2 blocks.
/// - [`ConvertError::NoPayload`] if the blocks hold no payload.
pub fn uf2_to_bin(bytes: &[u8]) -> (r: Result<(Vec<u8>, usize), ConvertError>)
    ensures
        bytes@.len() % (BLOCK_SIZE as nat) != 0 ==> r == Err::<(Vec<u8>, usize), ConvertError>(
            ConvertError::Read(ReaderError::FileSizeMismatch),
        ),
        bytes@.len() % (BLOCK_SIZE as nat) == 0 ==> {
            let n = (bytes@.len() / (BLOCK_SIZE as nat)) as nat;
            match first_block_error(bytes@, n) {
                Some(be) => r == Err::<(Vec<u8>, usize), ConvertError>(
                    ConvertError::Read(ReaderError::BlockCorruption(be)),
                ),
                None => forall|parsed: Seq<Block>|
                    parsed.len() == n && (forall|i: int|
                        0 <= i < n ==> (#[trigger] parsed[i]).spec_to_bytes() == chunk(bytes@, i))
                        ==> match r {
                        Ok((payload, count)) => payload@ == payload_of(parsed, None) && count == n
                            && payload@.len() > 0,
                        Err(e) => e == ConvertError::NoPayload && payload_of(parsed, None).len()
                            == 0,
                    },
            }
        },
{
    let uf2_file = match from_bytes(bytes) {
        Ok(f) => f,
        Err(e) => {
            return Err(ConvertError::Read(e));
        },
    };
    let ghost n = (bytes@.len() / (BLOCK_SIZE as nat)) as nat;
    proof {
        assert forall|parsed: Seq<Block>|
            parsed.len() == n && (forall|i: int|
                0 <= i < n ==> (#[trigger] parsed[i]).spec_to_bytes() == chunk(bytes@, i))
                implies parsed == uf2_file@ by {
            assert forall|i: int| 0 <= i < n implies parsed[i] == uf2_file@[i] by {
                crate::block::lemma_bytes_determine_block(parsed[i], uf2_file@[i]);
            }
            assert(parsed =~= uf2_file@);
        }
    }
    match uf2_file.get_payload(None) {
        Some(payload) => Ok((payload, uf2_file.len())),
        None => Err(ConvertError::NoPayload),
    }
}

/// Converting a binary to UF2 and back gives the binary again, for every
/// non-empty binary: the UF2 bytes read without error, and the payload read
/// from them is the binary.
pub proof fn lemma_convert_roundtrip(
    blocks: Seq<Block>,
    binary: Seq<u8>,
    target_addr: u32,
    family_id: Option<u32>,
)
    requires
        is_converted_binary(blocks, binary, target_addr, family_id),
    ensures
        ({
            let s = blocks_to_bytes(blocks);
            &&& s.len() % (BLOCK_SIZE as nat) == 0
            &&& s.len() / (BLOCK_SIZE as nat) == blocks.len()
            &&& first_block_error(s, blocks.len()) is None
            &&& forall|parsed: Seq<Block>|
                parsed.len() == blocks.len() && (forall|i: int|
                    0 <= i < blocks.len() ==> (#[trigger] parsed[i]).spec_to_bytes() == chunk(s, i))
                    ==> payload_of(parsed, None) == binary
        }),
{
    let n = binary.len() as int;
    let made = Seq::new(
        blocks.len(),
        |i: int| with_target_addr(blocks[i], (crate::block::MAX_PAYLOAD_SIZE * i) as u32),
    );
    assert forall|i: int| 0 <= i < blocks.len() implies (#[trigger] blocks[i]).well_formed()
        && crate::file::block_selected(made[i], family_id) && blocks[i].spec_data()
        == made[i].spec_data() by {
        crate::writer::lemma_payload_block_facts(made[i], binary, family_id, i);
    }
    crate::reader::lemma_file_bytes_read_back(blocks);
    assert forall|i: int|
        0 <= i < payload_block_count(n) implies is_payload_block(
            #[trigger] made[0 + i],
            binary,
            family_id,
            i,
        ) by {
        assert(made[0 + i] == made[i]);
    }
    crate::writer::lemma_add_payload_reads_back(Seq::empty(), made, binary, family_id);
    assert(payload_of(Seq::<Block>::empty(), family_id) =~= Seq::<u8>::empty());
    lemma_payload_of_same(blocks, None, made, family_id);
}

/// Two block sequences that select the same blocks and hold the same payload
/// in each have the same payload.
proof fn lemma_payload_of_same(
    a: Seq<Block>,
    fa: Option<u32>,
    b: Seq<Block>,
    fb: Option<u32>,
)
    requires
        a.len() == b.len(),
        forall|i: int|
            0 <= i < a.len() ==> crate::file::block_selected(#[trigger] a[i], fa)
                == crate::file::block_selected(b[i], fb) && a[i].spec_data() == b[i].spec_data(),
    ensures
        payload_of(a, fa) == payload_of(b, fb),
    decreases a.len(),
{
    if a.len() > 0 {
        let a1 = a.drop_last();
        let b1 = b.drop_last();
        assert forall|i: int| 0 <= i < a1.len() implies crate::file::block_selected(
            #[trigger] a1[i],
            fa,
        ) == crate::file::block_selected(b1[i], fb) && a1[i].spec_data() == b1[i].spec_data() by {
            assert(a1[i] == a[i]);
            assert(b1[i] == b[i]);
        }
        lemma_payload_of_same(a1, fa, b1, fb);
        assert(crate::file::block_selected(a[a.len() - 1], fa) == crate::file::block_selected(
            b[b.len() - 1],
            fb,
        ));
    }
}

} // verus!
