//! Reads the bits of a byte into a vector, least significant bit first.

use vstd::prelude::*;
use crate::tools::byte_bit::bit01;

verus! {

/// Reads the bits from a byte.
///
/// The bits are in the order of least significant bit to most
/// significant bit.
pub fn bitreader(byte: u8) -> (r: Vec<u8>)
    ensures
        r@.len() == 8,
        forall|i: int| 0 <= i < 8 ==> #[trigger] r@[i] == bit01(byte, i as nat),
{
    let mut out: Vec<u8> = Vec::new();
    let mut i: usize = 0;
    while i < 8
        invariant
            i <= 8,
            out@.len() == i,
            forall|j: int| 0 <= j < i ==> #[trigger] out@[j] == bit01(byte, j as nat),
        decreases 8 - i,
    {
        let b = (byte >> (i as u8)) & 1;
        proof {
            let iu = i as u64;
            assert(((byte >> (iu as u8)) & 1) == (if ((byte as u64) >> iu) & 1 == 1 {
                1u8
            } else {
                0u8
            })) by (bit_vector)
                requires
                    iu < 8,
            ;
        }
        out.push(b);
        i = i + 1;
    }
    out
}

} // verus!
