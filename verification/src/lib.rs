//! Working with the UF2 file format: blocks, files made of blocks, reading
//! them from bytes, writing payloads and flash images into them, and the
//! conversions of the command-line tool.

pub mod binary;
pub mod block;
pub mod convert;
pub mod file;
pub mod reader;
pub mod writer;

pub use block::{
    Block, BlockError, Checksum, Extension, ExtensionTag, Flags, ALIGN, BLOCK_SIZE, MAGIC_END,
    MAGIC_NUMBER, MAGIC_START_0, MAGIC_START_1, MAX_PAYLOAD_SIZE, MAX_PAYLOAD_SIZE_WITH_CHECKSUM,
};
pub use file::Uf2File;
pub use reader::{is_uf2_buffer, ReaderError};
pub use writer::WriterError;
