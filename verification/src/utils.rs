pub mod crc32;
pub mod lzw;
pub mod run_length;
pub mod traits;
