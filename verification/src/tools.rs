pub mod bit_flags;
pub mod bitreader;
pub mod byte_bit;
pub mod crc32;
pub mod delta;
pub mod leb128;
pub mod run_length;
pub mod u32_flag;
pub mod u8_flag;
