//! An adaptive dictionary compressor (LZW) whose token stream is framed as
//! self-delimiting LEB128 variable-length integers, together with the small
//! stateless codecs around it: CRC32 checksums, run-length and delta coding,
//! byte/bit conversion, and bit-flag sets.

pub mod error;
pub mod tools;
pub mod utils;
