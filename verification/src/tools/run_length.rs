//! Run-length coding over any unsigned machine integer: maximal runs of
//! equal values become `(count, value)` pairs.

use vstd::prelude::*;
use crate::utils::traits::Unsigned;

verus! {

/// The length of the initial run of equal values.
pub open spec fn run_len<T>(data: Seq<T>) -> int
    decreases data.len(),
{
    if data.len() == 0 {
        0
    } else if data.len() >= 2 && data[1] == data[0] {
        1 + run_len(data.drop_first())
    } else {
        1
    }
}

/// The initial run covers positions `0..run_len`, all holding the first
/// value, and stops right before a different value.
pub proof fn lemma_run_len_props<T>(data: Seq<T>)
    requires
        data.len() > 0,
    ensures
        1 <= run_len(data) <= data.len(),
        forall|j: int| 0 <= j < run_len(data) ==> #[trigger] data[j] == data[0],
        run_len(data) < data.len() ==> data[run_len(data)] != data[0],
    decreases data.len(),
{
    if data.len() >= 2 && data[1] == data[0] {
        lemma_run_len_props(data.drop_first());
        let t = data.drop_first();
        assert(forall|j: int| 0 <= j < t.len() ==> t[j] == data[j + 1]);
        assert forall|j: int| 0 <= j < run_len(data) implies #[trigger] data[j] == data[0] by {
            if j > 0 {
                assert(t[j - 1] == t[0]);
            }
        }
        if run_len(data) < data.len() {
            assert(t[run_len(t)] != t[0]);
        }
    }
}

/// `run_len` is exactly the length of a maximal prefix of equal values.
pub proof fn lemma_run_len_exact<T>(data: Seq<T>, n: int)
    requires
        1 <= n <= data.len(),
        forall|j: int| 0 <= j < n ==> #[trigger] data[j] == data[0],
        n < data.len() ==> data[n] != data[0],
    ensures
        run_len(data) == n,
    decreases data.len(),
{
    let t = data.drop_first();
    assert(forall|j: int| 0 <= j < t.len() ==> t[j] == data[j + 1]);
    if n == 1 {
        if data.len() >= 2 {
            assert(data[1] != data[0]);
        }
    } else {
        assert(data[1] == data[0]);
        assert(forall|j: int| 0 <= j < n - 1 ==> t[j] == data[j + 1]);
        assert forall|j: int| 0 <= j < n - 1 implies #[trigger] t[j] == t[0] by {
            assert(t[j] == data[j + 1]);
            assert(t[0] == data[1]);
        }
        if n - 1 < t.len() {
            assert(t[n - 1] == data[n]);
            assert(t[0] == data[1]);
        }
        lemma_run_len_exact(t, n - 1);
    }
}

/// The run-length encoding: one `(count, value)` pair per maximal run.
pub open spec fn rle_spec<T>(data: Seq<T>) -> Seq<(int, T)>
    decreases data.len(),
    via rle_spec_dec::<T>
{
    if data.len() == 0 {
        seq![]
    } else {
        seq![(run_len(data), data[0])] + rle_spec(data.skip(run_len(data)))
    }
}

#[via_fn]
proof fn rle_spec_dec<T>(data: Seq<T>) {
    if data.len() > 0 {
        lemma_run_len_props(data);
    }
}

/// The decoding of `(count, value)` pairs: each value repeated `count`
/// times, where a count of zero behaves as a count of one.
pub open spec fn rl_decode<T>(pairs: Seq<(int, T)>) -> Seq<T>
    decreases pairs.len(),
{
    if pairs.len() == 0 {
        seq![]
    } else {
        let n = if pairs[0].0 <= 0 {
            1
        } else {
            pairs[0].0
        };
        Seq::new(n as nat, |k: int| pairs[0].1) + rl_decode(pairs.drop_first())
    }
}

/// Returns the run length encoded version of the given data, as
/// `(count, value)` pairs with every count at least one.
pub fn run_length_encoder<D: Unsigned>(data: &[D]) -> (r: Vec<(usize, D)>)
    requires
        data@.len() >= 1,
    ensures
        r@.map_values(|p: (usize, D)| (p.0 as int, p.1)) == rle_spec(data@),
{
    let mut out: Vec<(usize, D)> = Vec::new();
    let mut last: D = data[0];
    let mut count: usize = 1;
    let mut i: usize = 1;
    proof {
        assert(data@.skip(0) =~= data@);
        assert(out@.map_values(|p: (usize, D)| (p.0 as int, p.1)) =~= Seq::<(int, D)>::empty());
        assert(Seq::<(int, D)>::empty() + rle_spec(data@) =~= rle_spec(data@));
    }
    while i < data.len()
        invariant
            1 <= i <= data@.len(),
            1 <= count <= i,
            last == data@[i - count],
            forall|j: int| i - count <= j < i ==> #[trigger] data@[j] == data@[i - count],
            rle_spec(data@) == out@.map_values(|p: (usize, D)| (p.0 as int, p.1)) + rle_spec(
                data@.skip(i - count),
            ),
        decreases data@.len() - i,
    {
        let entry = data[i];
        if entry.eq_val(last) {
            count = count + 1;
        } else {
            let ghost s = i - count;
            let ghost rem = data@.skip(s);
            proof {
                assert(forall|j: int| 0 <= j < rem.len() ==> rem[j] == data@[s + j]);
                assert forall|j: int| 0 <= j < count implies #[trigger] rem[j] == rem[0] by {
                    assert(rem[j] == data@[s + j]);
                }
                assert(rem[count as int] == data@[i as int]);
                assert(rem[0] == data@[s]);
                lemma_run_len_exact(rem, count as int);
                assert(rem.skip(count as int) =~= data@.skip(i as int));
            }
            let ghost prev_out = out@;
            out.push((count, last));
            proof {
                assert(out@.map_values(|p: (usize, D)| (p.0 as int, p.1)) =~= prev_out.map_values(
                    |p: (usize, D)| (p.0 as int, p.1),
                ).push((count as int, last)));
                assert(rle_spec(rem) == seq![(count as int, last)] + rle_spec(
                    data@.skip(i as int),
                ));
                assert(prev_out.map_values(|p: (usize, D)| (p.0 as int, p.1)) + (seq![
                    (count as int, last),
                ] + rle_spec(data@.skip(i as int))) =~= out@.map_values(
                    |p: (usize, D)| (p.0 as int, p.1),
                ) + rle_spec(data@.skip(i as int)));
            }
            last = entry;
            count = 1;
        }
        i = i + 1;
    }
    let ghost s = i - count;
    let ghost rem = data@.skip(s);
    proof {
        assert(forall|j: int| 0 <= j < rem.len() ==> rem[j] == data@[s + j]);
        assert forall|j: int| 0 <= j < count implies #[trigger] rem[j] == rem[0] by {
            assert(rem[j] == data@[s + j]);
        }
        assert(rem.len() == count);
        lemma_run_len_exact(rem, count as int);
        assert(rem.skip(count as int) =~= Seq::<D>::empty());
        assert(rle_spec(rem.skip(count as int)) =~= Seq::<(int, D)>::empty());
        assert(rem[0] == data@[s]);
        assert(rle_spec(rem) == seq![(count as int, last)] + rle_spec(rem.skip(count as int)));
        assert(seq![(count as int, last)] + rle_spec(rem.skip(count as int)) =~= seq![
            (count as int, last),
        ]);
    }
    let ghost prev_out = out@;
    out.push((count, last));
    proof {
        assert(out@.map_values(|p: (usize, D)| (p.0 as int, p.1)) =~= prev_out.map_values(
            |p: (usize, D)| (p.0 as int, p.1),
        ).push((count as int, last)));
        assert(rle_spec(rem) =~= seq![(count as int, last)]);
        assert(prev_out.map_values(|p: (usize, D)| (p.0 as int, p.1)) + seq![(count as int, last)]
            =~= out@.map_values(|p: (usize, D)| (p.0 as int, p.1)));
    }
    out
}

/// Returns the run length decoded version of the given data: each value
/// repeated `count` times, a count of zero behaving as a count of one.
pub fn run_length_decoder<D: Unsigned>(data: &[(usize, D)]) -> (r: Vec<D>)
    ensures
        r@ == rl_decode(data@.map_values(|p: (usize, D)| (p.0 as int, p.1))),
{
    let ghost pairs = data@.map_values(|p: (usize, D)| (p.0 as int, p.1));
    let mut out: Vec<D> = Vec::new();
    let mut i: usize = 0;
    proof {
        assert(pairs.skip(0) =~= pairs);
        assert(out@ + rl_decode(pairs) =~= rl_decode(pairs));
    }
    while i < data.len()
        invariant
            i <= data@.len(),
            pairs == data@.map_values(|p: (usize, D)| (p.0 as int, p.1)),
            pairs.len() == data@.len(),
            rl_decode(pairs) == out@ + rl_decode(pairs.skip(i as int)),
        decreases data@.len() - i,
    {
        let ghost rem = pairs.skip(i as int);
        proof {
            assert(rem[0] == pairs[i as int]);
            assert(rem.drop_first() =~= pairs.skip(i + 1));
        }
        let (count, value) = data[i];
        let reps: usize = if count == 0 {
            1
        } else {
            count
        };
        let ghost base = out@;
        let mut k: usize = 0;
        while k < reps
            invariant
                k <= reps,
                out@ == base + Seq::new(k as nat, |j: int| value),
            decreases reps - k,
        {
            out.push(value);
            proof {
                assert(out@ =~= base + Seq::new((k + 1) as nat, |j: int| value));
            }
            k = k + 1;
        }
        proof {
            assert(rl_decode(rem) == Seq::new(reps as nat, |j: int| rem[0].1) + rl_decode(
                rem.drop_first(),
            ));
            assert(Seq::new(reps as nat, |j: int| rem[0].1) =~= Seq::new(
                reps as nat,
                |j: int| value,
            ));
            assert(base + (Seq::new(reps as nat, |j: int| value) + rl_decode(pairs.skip(i + 1)))
                =~= out@ + rl_decode(pairs.skip(i + 1)));
        }
        i = i + 1;
    }
    proof {
        assert(pairs.skip(pairs.len() as int) =~= Seq::<(int, D)>::empty());
        assert(out@ + Seq::<D>::empty() =~= out@);
    }
    out
}

/// Round trip: decoding the run-length encoding of any non-empty sequence
/// yields the sequence back.
pub proof fn lemma_run_length_round_trip<T>(data: Seq<T>)
    ensures
        rl_decode(rle_spec(data)) == data,
    decreases data.len(),
{
    if data.len() == 0 {
        assert(rle_spec(data) =~= Seq::<(int, T)>::empty());
        assert(rl_decode(rle_spec(data)) =~= data);
    } else {
        lemma_run_len_props(data);
        let n = run_len(data);
        let pairs = rle_spec(data);
        assert(pairs == seq![(n, data[0])] + rle_spec(data.skip(n)));
        assert(pairs[0] == (n, data[0]));
        assert(pairs.drop_first() =~= rle_spec(data.skip(n)));
        lemma_run_length_round_trip(data.skip(n));
        assert(rl_decode(pairs) == Seq::new(n as nat, |k: int| data[0]) + data.skip(n));
        assert(Seq::new(n as nat, |k: int| data[0]) + data.skip(n) =~= data);
    }
}

} // verus!
