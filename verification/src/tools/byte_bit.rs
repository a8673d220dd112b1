//! Byte to bit-array conversion and back, with buffer-level readers and
//! writers built on top. Bits are ordered from the least significant to the
//! most significant.

use vstd::prelude::*;
use crate::error::AthenaError;

verus! {

/// Bit `i` of a byte, as 0 or 1.
pub open spec fn bit01(b: u8, i: nat) -> u8 {
    if i < 8 && ((b as u64) >> (i as u64)) & 1 == 1 {
        1
    } else {
        0
    }
}

/// The eight bits of a byte, least significant first.
pub open spec fn bits_of(b: u8) -> Seq<u8> {
    seq![
        bit01(b, 0),
        bit01(b, 1),
        bit01(b, 2),
        bit01(b, 3),
        bit01(b, 4),
        bit01(b, 5),
        bit01(b, 6),
        bit01(b, 7),
    ]
}

/// The byte assembled from eight bit values, each 0 or 1.
pub open spec fn weighted(bits: Seq<u8>) -> int {
    bits[0] + 2 * bits[1] + 4 * bits[2] + 8 * bits[3] + 16 * bits[4] + 32 * bits[5] + 64 * bits[6]
        + 128 * bits[7]
}

/// Decodes a byte into its bits.
///
/// The bits are in the order of least significant bit to most
/// significant bit.
pub fn byte_bit_decoder(byte: u8) -> (r: [u8; 8])
    ensures
        r@ == bits_of(byte),
{
    let r: [u8; 8] = [
        byte & 1,
        (byte >> 1u8) & 1,
        (byte >> 2u8) & 1,
        (byte >> 3u8) & 1,
        (byte >> 4u8) & 1,
        (byte >> 5u8) & 1,
        (byte >> 6u8) & 1,
        (byte >> 7u8) & 1,
    ];
    proof {
        assert((byte & 1) == bit01(byte, 0) && ((byte >> 1u8) & 1) == bit01(byte, 1) && ((byte
            >> 2u8) & 1) == bit01(byte, 2) && ((byte >> 3u8) & 1) == bit01(byte, 3) && ((byte
            >> 4u8) & 1) == bit01(byte, 4) && ((byte >> 5u8) & 1) == bit01(byte, 5) && ((byte
            >> 6u8) & 1) == bit01(byte, 6) && ((byte >> 7u8) & 1) == bit01(byte, 7)) by (bit_vector);
        assert(r@ =~= bits_of(byte));
    }
    r
}

/// Encodes eight bits into a byte.
///
/// The bits are in the order of least significant bit to most
/// significant bit.
pub fn byte_bit_encoder(bits: &[u8; 8]) -> (r: u8)
    requires
        forall|i: int| 0 <= i < 8 ==> #[trigger] bits@[i] <= 1,
    ensures
        r as int == weighted(bits@),
{
    bits[0] + bits[1] * 2 + bits[2] * 4 + bits[3] * 8 + bits[4] * 16 + bits[5] * 32 + bits[6] * 64
        + bits[7] * 128
}

/// Round trip: encoding the bits of a byte yields the byte back, and each
/// bit of the decoding is 0 or 1.
pub proof fn lemma_byte_bit_round_trip(b: u8)
    ensures
        weighted(bits_of(b)) == b as int,
        forall|i: int| 0 <= i < 8 ==> #[trigger] bits_of(b)[i] <= 1,
{
    assert(bit01(b, 0) + 2 * bit01(b, 1) + 4 * bit01(b, 2) + 8 * bit01(b, 3) + 16 * bit01(b, 4)
        + 32 * bit01(b, 5) + 64 * bit01(b, 6) + 128 * bit01(b, 7) == b) by (bit_vector);
    assert forall|i: int| 0 <= i < 8 implies #[trigger] bits_of(b)[i] <= 1 by {
        assert(bits_of(b)[i] == bit01(b, i as nat));
    }
}

/// Reads a buffer of bytes into their bit arrays.
///
/// The bits are in the order of least significant bit to most
/// significant bit.
pub fn byte_bit_reader(reader: &[u8]) -> (r: Result<Vec<Vec<u8>>, AthenaError>)
    ensures
        match r {
            Ok(v) => v@.len() == reader@.len() && forall|i: int|
                0 <= i < reader@.len() ==> #[trigger] v@[i]@ == bits_of(reader@[i]),
            Err(_) => false,
        },
{
    let mut out: Vec<Vec<u8>> = Vec::new();
    let mut i: usize = 0;
    while i < reader.len()
        invariant
            i <= reader@.len(),
            out@.len() == i,
            forall|j: int| 0 <= j < i ==> #[trigger] out@[j]@ == bits_of(reader@[j]),
        decreases reader@.len() - i,
    {
        let bits = byte_bit_decoder(reader[i]);
        let mut v: Vec<u8> = Vec::new();
        let mut k: usize = 0;
        while k < 8
            invariant
                k <= 8,
                bits@ == bits_of(reader@[i as int]),
                i < reader@.len(),
                v@ == bits@.take(k as int),
            decreases 8 - k,
        {
            v.push(bits[k]);
            proof {
                assert(v@ =~= bits@.take(k + 1));
            }
            k = k + 1;
        }
        proof {
            assert(bits@.take(8) =~= bits@);
        }
        out.push(v);
        i = i + 1;
    }
    Ok(out)
}

/// Writes bit arrays to a byte buffer, one byte per array.
///
/// The bits are in the order of least significant bit to most
/// significant bit.
pub fn byte_bit_writer(writer: &mut Vec<u8>, bytes: Vec<[u8; 8]>) -> (r: Result<(), AthenaError>)
    requires
        forall|i: int, j: int|
            0 <= i < bytes@.len() && 0 <= j < 8 ==> #[trigger] bytes@[i]@[j] <= 1,
    ensures
        r is Ok,
        final(writer)@ == old(writer)@ + Seq::new(
            bytes@.len(),
            |i: int| weighted(bytes@[i]@) as u8,
        ),
{
    let mut i: usize = 0;
    while i < bytes.len()
        invariant
            i <= bytes@.len(),
            forall|k: int, j: int|
                0 <= k < bytes@.len() && 0 <= j < 8 ==> #[trigger] bytes@[k]@[j] <= 1,
            writer@ == old(writer)@ + Seq::new(i as nat, |k: int| weighted(bytes@[k]@) as u8),
        decreases bytes@.len() - i,
    {
        let byte = byte_bit_encoder(&bytes[i]);
        writer.push(byte);
        proof {
            assert(writer@ =~= old(writer)@ + Seq::new(
                (i + 1) as nat,
                |k: int| weighted(bytes@[k]@) as u8,
            ));
        }
        i = i + 1;
    }
    proof {
        assert(writer@ =~= old(writer)@ + Seq::new(
            bytes@.len(),
            |k: int| weighted(bytes@[k]@) as u8,
        ));
    }
    Ok(())
}

} // verus!
