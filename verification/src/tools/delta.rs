//! Fixed-window delta coding: the first value is kept, every later value is
//! replaced by its predecessor minus itself.

use vstd::prelude::*;

verus! {

/// The delta encoding of a non-empty byte sequence.
pub open spec fn delta_enc(data: Seq<u8>) -> Seq<i16> {
    Seq::new(
        data.len(),
        |i: int|
            if i == 0 {
                data[0] as i16
            } else {
                (data[i - 1] - data[i]) as i16
            },
    )
}

/// The value at position `i` of a decoded delta stream: the running
/// difference of the entries so far.
pub open spec fn delta_val(data: Seq<i16>, i: int) -> int
    decreases i,
{
    if i <= 0 {
        data[0] as int
    } else {
        delta_val(data, i - 1) - data[i]
    }
}

/// A delta stream decodes to bytes: every running difference is one.
pub open spec fn delta_valid(data: Seq<i16>) -> bool {
    forall|i: int| 0 <= i < data.len() ==> 0 <= #[trigger] delta_val(data, i) <= 255
}

/// Returns the delta encoded version of the given data.
pub fn delta_encoder(data: &[u8]) -> (r: Vec<i16>)
    requires
        data@.len() >= 1,
    ensures
        r@ == delta_enc(data@),
{
    let mut out: Vec<i16> = Vec::new();
    out.push(data[0] as i16);
    let mut last: u8 = data[0];
    let mut i: usize = 1;
    while i < data.len()
        invariant
            1 <= i <= data@.len(),
            last == data@[i - 1],
            out@ == delta_enc(data@).take(i as int),
        decreases data@.len() - i,
    {
        let entry = data[i];
        out.push(last as i16 - entry as i16);
        last = entry;
        proof {
            assert(out@ =~= delta_enc(data@).take(i + 1));
        }
        i = i + 1;
    }
    proof {
        assert(delta_enc(data@).take(data@.len() as int) =~= delta_enc(data@));
    }
    out
}

/// Returns the delta decoded version of the given data.
///
/// The stream must decode to bytes: the first entry and every running
/// difference lie in `0..=255`.
pub fn delta_decoder(data: &[i16]) -> (r: Vec<u8>)
    requires
        data@.len() >= 1,
        delta_valid(data@),
    ensures
        r@.len() == data@.len(),
        forall|i: int| 0 <= i < data@.len() ==> #[trigger] r@[i] == delta_val(data@, i),
{
    let mut out: Vec<u8> = Vec::new();
    proof {
        assert(delta_val(data@, 0) == data@[0]);
    }
    out.push(data[0] as u8);
    let mut last: i16 = data[0];
    let mut i: usize = 1;
    while i < data.len()
        invariant
            1 <= i <= data@.len(),
            delta_valid(data@),
            data@.len() >= 1,
            last == delta_val(data@, i - 1),
            out@.len() == i,
            forall|j: int| 0 <= j < i ==> #[trigger] out@[j] == delta_val(data@, j),
        decreases data@.len() - i,
    {
        let entry = data[i];
        proof {
            assert(delta_val(data@, i as int) == delta_val(data@, i - 1) - data@[i as int]);
            assert(0 <= delta_val(data@, i as int) <= 255);
        }
        let decoded = last - entry;
        out.push(decoded as u8);
        last = decoded;
        i = i + 1;
    }
    out
}

/// Round trip: decoding the delta encoding of any non-empty byte sequence
/// yields each original byte, and the encoding is always a valid stream.
pub proof fn lemma_delta_round_trip(data: Seq<u8>, i: int)
    requires
        data.len() >= 1,
        0 <= i < data.len(),
    ensures
        delta_val(delta_enc(data), i) == data[i],
        0 <= delta_val(delta_enc(data), i) <= 255,
    decreases i,
{
    if i > 0 {
        lemma_delta_round_trip(data, i - 1);
    }
}

/// The delta encoding of a non-empty byte sequence is a valid stream.
pub proof fn lemma_delta_enc_valid(data: Seq<u8>)
    requires
        data.len() >= 1,
    ensures
        delta_valid(delta_enc(data)),
{
    assert forall|i: int| 0 <= i < delta_enc(data).len() implies 0 <= #[trigger] delta_val(
        delta_enc(data),
        i,
    ) <= 255 by {
        lemma_delta_round_trip(data, i);
    }
}

} // verus!
