//! CRC32 checksum over owned byte vectors; the computation itself lives in
//! `crate::utils::crc32`.

use vstd::prelude::*;
use crate::utils::crc32::{Crc32Table, crc32_spec, crc_fold_tbl, is_crc_table};

verus! {

/// Computes the CRC32 checksum of `data`, generating the table first.
pub fn crc32(data: &Vec<u8>) -> (r: u32)
    ensures
        r == crc32_spec(data@),
{
    crate::utils::crc32::crc32(data.as_slice())
}

/// Computes the CRC32 checksum of `data` through the given lookup table.
pub fn crc32_with_table(data: &Vec<u8>, table: &Crc32Table) -> (r: u32)
    ensures
        r == !crc_fold_tbl(table@, 0xffffffffu32, data@),
        is_crc_table(table@) ==> r == crc32_spec(data@),
{
    crate::utils::crc32::crc32_with_table(data.as_slice(), table)
}

/// Builds the lookup table of the CRC32 ISO-HDLC polynomial.
pub fn generate_crc32_lookuptable() -> (r: Crc32Table)
    ensures
        is_crc_table(r@),
{
    crate::utils::crc32::generate_crc32_lookuptable()
}

} // verus!
