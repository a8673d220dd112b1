//! Run-length coding over plain bytes; the algorithm itself lives in
//! `crate::tools::run_length`.

use vstd::prelude::*;
use crate::tools::run_length::{rle_spec, rl_decode};

verus! {

/// Returns the run length encoded version of the given data, as
/// `(count, value)` pairs with every count at least one.
pub fn run_length_encoder(data: &[u8]) -> (r: Vec<(usize, u8)>)
    requires
        data@.len() >= 1,
    ensures
        r@.map_values(|p: (usize, u8)| (p.0 as int, p.1)) == rle_spec(data@),
{
    crate::tools::run_length::run_length_encoder(data)
}

/// Returns the run length decoded version of the given data: each value
/// repeated `count` times, a count of zero behaving as a count of one.
pub fn run_length_decoder(data: &[(usize, u8)]) -> (r: Vec<u8>)
    ensures
        r@ == rl_decode(data@.map_values(|p: (usize, u8)| (p.0 as int, p.1))),
{
    crate::tools::run_length::run_length_decoder(data)
}

} // verus!
