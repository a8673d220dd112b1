//! LEB128 variable-length integer codec.
//!
//! Each encoded byte carries seven data bits; the high bit of a byte is the
//! continuation bit and is set exactly on the bytes that are followed by
//! another byte of the same value. The signed variant uses the second-highest
//! bit of the final byte as a sign flag and sign-extends on decode.

use vstd::prelude::*;
use vstd::arithmetic::div_mod::{
    lemma_fundamental_div_mod,
    lemma_fundamental_div_mod_converse,
};
use crate::error::AthenaError;

verus! {

/// True when the continuation bit (the high bit) of a byte is set.
pub open spec fn has_cont(b: u8) -> bool {
    b >= 128
}

/// The seven data bits of a byte.
pub open spec fn low7(b: u8) -> nat {
    (b % 128) as nat
}

/// 128 raised to the power `n`: the weight of the `n`-th seven-bit group.
pub open spec fn pow128(n: nat) -> nat
    decreases n,
{
    if n == 0 {
        1
    } else {
        128 * pow128((n - 1) as nat)
    }
}

/// The unsigned value carried by a sequence of seven-bit groups,
/// least significant group first.
pub open spec fn raw_value(s: Seq<u8>) -> nat
    decreases s.len(),
{
    if s.len() == 0 {
        0
    } else {
        low7(s[0]) + 128 * raw_value(s.drop_first())
    }
}

/// The canonical (minimal) unsigned LEB128 encoding of `v`.
pub open spec fn leb128_unsigned(v: nat) -> Seq<u8>
    decreases v,
{
    if v < 128 {
        seq![v as u8]
    } else {
        seq![(v % 128 + 128) as u8] + leb128_unsigned(v / 128)
    }
}

/// The canonical signed LEB128 encoding of `v`.
///
/// A value terminates once it fits the seven data bits of the final byte
/// together with that byte's sign flag, and the remaining arithmetic shift
/// is all zero (non-negative) or all one (negative).
pub open spec fn leb128_signed(v: int) -> Seq<u8>
    decreases (if v < 0 { -v } else { v }),
{
    if -64 <= v < 64 {
        seq![(v % 128) as u8]
    } else {
        seq![(v % 128 + 128) as u8] + leb128_signed(v / 128)
    }
}

/// The index of the first byte without a continuation bit,
/// or `s.len()` when every byte has one.
pub open spec fn first_clear(s: Seq<u8>) -> int
    decreases s.len(),
{
    if s.len() == 0 {
        0
    } else if !has_cont(s[0]) {
        0
    } else {
        1 + first_clear(s.drop_first())
    }
}

/// The buffer ends before any byte terminates the value.
pub open spec fn truncated(data: Seq<u8>) -> bool {
    data.len() <= 9 && first_clear(data) >= data.len()
}

/// The number of bytes a decode of `data` consumes when it succeeds.
pub open spec fn value_len(data: Seq<u8>) -> int {
    first_clear(data) + 1
}

/// The value needs more significant bits than a 64-bit unsigned integer has:
/// nine continuation bytes are followed by a tenth byte other than 0 or 1.
pub open spec fn overflows_unsigned(data: Seq<u8>) -> bool {
    data.len() >= 10 && first_clear(data) >= 9 && data[9] > 1
}

/// An unsigned decode of `data` finds a complete, 64-bit-representable value.
pub open spec fn unsigned_ok(data: Seq<u8>) -> bool {
    !truncated(data) && !overflows_unsigned(data)
}

/// The value an unsigned decode of `data` returns.
pub open spec fn unsigned_value(data: Seq<u8>) -> nat {
    raw_value(data.take(value_len(data)))
}

/// The value needs more significant bits than a 64-bit signed integer has:
/// nine continuation bytes are followed by a tenth byte other than
/// 0x00 or 0x7f.
pub open spec fn overflows_signed(data: Seq<u8>) -> bool {
    data.len() >= 10 && first_clear(data) >= 9 && !(data[9] == 0 || data[9] == 0x7f)
}

/// A signed decode of `data` finds a complete, 64-bit-representable value.
pub open spec fn signed_ok(data: Seq<u8>) -> bool {
    !truncated(data) && !overflows_signed(data)
}

/// The signed value carried by a non-empty sequence of groups: the raw
/// value, sign-extended when the sign flag of the final byte is set.
/// A tenth group contributes only its lowest bit, at weight `2^63`.
pub open spec fn signed_groups_value(s: Seq<u8>) -> int {
    if s.len() <= 9 {
        if low7(s.last()) >= 64 {
            raw_value(s) - pow128(s.len())
        } else {
            raw_value(s) as int
        }
    } else {
        if s[9] == 0x7f {
            raw_value(s.take(9)) - pow128(9)
        } else {
            raw_value(s.take(9)) as int
        }
    }
}

/// The value a signed decode of `data` returns.
pub open spec fn signed_value(data: Seq<u8>) -> int {
    signed_groups_value(data.take(value_len(data)))
}

/// Appending a group adds its value at the weight of its position.
pub proof fn lemma_raw_value_push(s: Seq<u8>, b: u8)
    ensures
        raw_value(s.push(b)) == raw_value(s) + low7(b) * pow128(s.len()),
    decreases s.len(),
{
    if s.len() == 0 {
        assert(s.push(b)[0] == b);
        assert(s.push(b).drop_first() =~= Seq::<u8>::empty());
        assert(raw_value(Seq::<u8>::empty()) == 0);
        assert(pow128(0) == 1);
    } else {
        assert(s.push(b).drop_first() =~= s.drop_first().push(b));
        lemma_raw_value_push(s.drop_first(), b);
        assert(raw_value(s.push(b)) == low7(s[0]) + 128 * (raw_value(s.drop_first()) + low7(b)
            * pow128((s.len() - 1) as nat)));
        assert(128 * (raw_value(s.drop_first()) + low7(b) * pow128((s.len() - 1) as nat))
            == 128 * raw_value(s.drop_first()) + low7(b) * (128 * pow128((s.len() - 1) as nat)))
            by (nonlinear_arith);
        assert(pow128(s.len()) == 128 * pow128((s.len() - 1) as nat));
    }
}

/// `first_clear` returns the position of the first terminating byte.
pub proof fn lemma_first_clear_at(s: Seq<u8>, k: int)
    requires
        0 <= k < s.len(),
        forall|j: int| 0 <= j < k ==> has_cont(s[j]),
        !has_cont(s[k]),
    ensures
        first_clear(s) == k,
    decreases s.len(),
{
    if k == 0 {
    } else {
        assert(forall|j: int| 0 <= j < k - 1 ==> has_cont(s.drop_first()[j]) == has_cont(
            s[j + 1],
        ));
        lemma_first_clear_at(s.drop_first(), k - 1);
    }
}

/// When every byte has a continuation bit, no terminator exists.
pub proof fn lemma_first_clear_all_cont(s: Seq<u8>)
    requires
        forall|j: int| 0 <= j < s.len() ==> has_cont(s[j]),
    ensures
        first_clear(s) == s.len(),
    decreases s.len(),
{
    if s.len() == 0 {
    } else {
        assert(forall|j: int| 0 <= j < s.len() - 1 ==> has_cont(s.drop_first()[j]) == has_cont(
            s[j + 1],
        ));
        lemma_first_clear_all_cont(s.drop_first());
    }
}

/// A buffer whose first `k` bytes all carry the continuation bit has no
/// terminator before position `k`.
pub proof fn lemma_first_clear_ge(s: Seq<u8>, k: int)
    requires
        0 <= k <= s.len(),
        forall|j: int| 0 <= j < k ==> has_cont(s[j]),
    ensures
        first_clear(s) >= k,
    decreases k,
{
    if k > 0 {
        assert(has_cont(s[0]));
        assert(forall|j: int| 0 <= j < k - 1 ==> has_cont(s.drop_first()[j]) == has_cont(
            s[j + 1],
        ));
        lemma_first_clear_ge(s.drop_first(), k - 1);
        assert(first_clear(s) == 1 + first_clear(s.drop_first()));
    } else {
        lemma_first_clear_nonneg(s);
    }
}

/// The first terminator position is never negative.
pub proof fn lemma_first_clear_nonneg(s: Seq<u8>)
    ensures
        first_clear(s) >= 0,
    decreases s.len(),
{
    if s.len() > 0 && has_cont(s[0]) {
        lemma_first_clear_nonneg(s.drop_first());
    }
}

/// The characterization of the first terminator: every byte before it has
/// a continuation bit, and the byte at it (when in range) has none.
pub proof fn lemma_first_clear_props(s: Seq<u8>)
    ensures
        0 <= first_clear(s) <= s.len(),
        forall|j: int| 0 <= j < first_clear(s) ==> has_cont(s[j]),
        first_clear(s) < s.len() ==> !has_cont(s[first_clear(s)]),
    decreases s.len(),
{
    if s.len() == 0 {
    } else if !has_cont(s[0]) {
    } else {
        lemma_first_clear_props(s.drop_first());
        assert forall|j: int| 0 <= j < first_clear(s) implies has_cont(s[j]) by {
            if j > 0 {
                assert(s.drop_first()[j - 1] == s[j]);
                assert(has_cont(s.drop_first()[j - 1]));
            }
        }
        if first_clear(s) < s.len() {
            assert(s.drop_first()[first_clear(s.drop_first())] == s[first_clear(s)]);
        }
    }
}

/// `pow128` grows with its exponent.
pub proof fn lemma_pow128_increases(a: nat, b: nat)
    requires
        a <= b,
    ensures
        pow128(a) <= pow128(b),
    decreases b,
{
    if a < b {
        lemma_pow128_increases(a, (b - 1) as nat);
        assert(pow128(b) == 128 * pow128((b - 1) as nat));
        assert(128 * pow128((b - 1) as nat) >= pow128((b - 1) as nat)) by (nonlinear_arith)
            requires
                pow128((b - 1) as nat) >= 0,
        ;
    }
}

/// Dividing by `c` and then by `d` divides by `c * d`, for any dividend.
pub proof fn lemma_div_twice(x: int, c: int, d: int)
    requires
        c > 0,
        d > 0,
    ensures
        (x / c) / d == x / (c * d),
{
    let q = (x / c) / d;
    let r1 = x % c;
    let r2 = (x / c) % d;
    lemma_fundamental_div_mod(x, c);
    lemma_fundamental_div_mod(x / c, d);
    assert(x == c * (d * q + r2) + r1);
    assert(c * (d * q + r2) == (c * d) * q + c * r2) by (nonlinear_arith);
    assert(c * r2 + r1 < c * d) by (nonlinear_arith)
        requires
            0 <= r1 < c,
            0 <= r2 < d,
    ;
    assert(c * r2 + r1 >= 0) by (nonlinear_arith)
        requires
            0 <= r1,
            0 <= r2,
            c > 0,
    ;
    assert(c * d > 0) by (nonlinear_arith)
        requires
            c > 0,
            d > 0,
    ;
    lemma_fundamental_div_mod_converse(x, c * d, q, c * r2 + r1);
}

/// Serializes an unsigned integer to its minimal LEB128 byte sequence.
///
/// Zero encodes as the single byte `0x00`; every other value uses exactly
/// as many bytes as it needs seven-bit groups.
pub fn serialize_leb128_unsigned(value: usize) -> (r: Vec<u8>)
    ensures
        r@ == leb128_unsigned(value as nat),
{
    let mut out: Vec<u8> = Vec::new();
    let mut val: usize = value;
    proof {
        assert(out@ + leb128_unsigned(val as nat) =~= leb128_unsigned(value as nat));
    }
    loop
        invariant
            leb128_unsigned(value as nat) == out@ + leb128_unsigned(val as nat),
        decreases val,
    {
        let byte: u8 = (val % 128) as u8;
        let ghost prev = val as nat;
        val = val / 128;
        if val == 0 {
            out.push(byte);
            proof {
                assert(prev < 128);
                assert(leb128_unsigned(prev) =~= seq![byte]);
                assert(out@ =~= leb128_unsigned(value as nat));
            }
            return out;
        } else {
            out.push(byte + 128);
            proof {
                assert(prev >= 128);
                assert(leb128_unsigned(prev) == seq![(prev % 128 + 128) as u8] + leb128_unsigned(
                    prev / 128,
                ));
                assert(leb128_unsigned(value as nat) =~= out@ + leb128_unsigned(val as nat));
            }
        }
    }
}

/// Deserializes an unsigned integer from the front of a LEB128 buffer.
///
/// Returns the value and the number of bytes consumed. Fails with
/// `ContinuationBitInLastByte` when the buffer ends while the continuation
/// bit is still set, and with `Overflow` when the value does not fit the
/// machine word.
pub fn deserialize_leb128_unsigned(data: &[u8]) -> (r: Result<(usize, u8), AthenaError>)
    ensures
        match r {
            Ok((v, n)) => unsigned_ok(data@) && v as nat == unsigned_value(data@)
                && unsigned_value(data@) <= usize::MAX && n as int == value_len(data@) && 1 <= n
                <= 10 && n as int <= data@.len(),
            Err(e) => (e == AthenaError::ContinuationBitInLastByte ==> truncated(data@)) && (e
                == AthenaError::Overflow ==> (overflows_unsigned(data@) || (unsigned_ok(data@)
                && unsigned_value(data@) > usize::MAX))) && (e
                == AthenaError::ContinuationBitInLastByte || e == AthenaError::Overflow),
        },
{
    let mut result: u64 = 0;
    let mut pw: u64 = 1;
    let mut i: usize = 0;
    proof {
        reveal_with_fuel(pow128, 11);
    }
    loop
        invariant
            i <= 9,
            i as int <= data@.len(),
            pw == pow128(i as nat),
            result as nat == raw_value(data@.take(i as int)),
            result < pw,
            forall|j: int| 0 <= j < i ==> has_cont(data@[j]),
            pow128(9) == 0x8000000000000000,
        decreases data@.len() - i,
    {
        if i >= data.len() {
            proof {
                lemma_first_clear_all_cont(data@);
            }
            return Err(AthenaError::ContinuationBitInLastByte);
        }
        let byte = data[i];
        if i == 9 && byte > 1 {
            proof {
                lemma_first_clear_ge(data@, 9);
            }
            return Err(AthenaError::Overflow);
        }
        proof {
            assert(data@.take(i + 1) =~= data@.take(i as int).push(data@[i as int]));
            lemma_raw_value_push(data@.take(i as int), byte);
            if i == 9 {
                assert(low7(byte) <= 1);
                assert(low7(byte) * pow128(9) <= pow128(9)) by (nonlinear_arith)
                    requires
                        low7(byte) <= 1,
                ;
            } else {
                assert(low7(byte) * pow128(i as nat) <= 127 * pow128(i as nat))
                    by (nonlinear_arith)
                    requires
                        low7(byte) <= 127,
                ;
                assert(result + 127 * pw < 128 * pw) by (nonlinear_arith)
                    requires
                        result < pw,
                        pw >= 1,
                ;
                assert(128 * pow128(i as nat) == pow128((i + 1) as nat));
                lemma_pow128_increases((i + 1) as nat, 9);
            }
        }
        result = result + (byte % 128) as u64 * pw;
        i = i + 1;
        if byte < 128 {
            proof {
                lemma_first_clear_at(data@, i - 1);
                assert(data@.take(value_len(data@)) == data@.take(i as int));
            }
            if result <= usize::MAX as u64 {
                return Ok((result as usize, i as u8));
            } else {
                return Err(AthenaError::Overflow);
            }
        }
        proof {
            assert(i <= 9);
            assert(128 * pow128((i - 1) as nat) == pow128(i as nat));
            lemma_pow128_increases(i as nat, 9);
        }
        pw = pw * 128;
    }
}

/// Serializes a signed integer to its minimal signed LEB128 byte sequence.
///
/// The encoding shifts arithmetically, so the minimum representable value
/// terminates through the all-ones rule; `-1` encodes as the single byte
/// `0x7f` and zero as `0x00`.
pub fn serialize_leb128_signed(value: i64) -> (r: Vec<u8>)
    ensures
        r@ == leb128_signed(value as int),
{
    let mut out: Vec<u8> = Vec::new();
    if value >= 0 {
        let mut uval: u64 = value as u64;
        proof {
            assert(out@ + leb128_signed(uval as int) =~= leb128_signed(value as int));
        }
        loop
            invariant
                leb128_signed(value as int) == out@ + leb128_signed(uval as int),
            decreases uval,
        {
            let ghost prev = uval as int;
            if uval < 64 {
                out.push(uval as u8);
                proof {
                    assert(prev % 128 == prev);
                    assert(leb128_signed(prev) =~= seq![uval as u8]);
                    assert(out@ =~= leb128_signed(value as int));
                }
                return out;
            } else {
                let byte: u8 = (uval % 128) as u8 + 128;
                out.push(byte);
                uval = uval / 128;
                proof {
                    assert(!(-64 <= prev < 64));
                    assert(byte == (prev % 128 + 128) as u8);
                    assert(uval as int == prev / 128);
                    assert(leb128_signed(prev) == seq![byte] + leb128_signed(prev / 128));
                    assert(leb128_signed(value as int) =~= out@ + leb128_signed(uval as int));
                }
            }
        }
    } else {
        // Track the ones'-complement magnitude: the pending value is -w - 1.
        let mut w: u64 = (-(value + 1)) as u64;
        proof {
            assert(-(w as int) - 1 == value as int);
            assert(out@ + leb128_signed(value as int) =~= leb128_signed(value as int));
        }
        loop
            invariant
                leb128_signed(value as int) == out@ + leb128_signed(-(w as int) - 1),
            decreases w,
        {
            let ghost v = -(w as int) - 1;
            if w < 64 {
                let byte: u8 = 127 - (w as u8);
                out.push(byte);
                proof {
                    lemma_fundamental_div_mod_converse(v, 128, -1, 127 - w as int);
                    assert(v % 128 == 127 - w as int);
                    assert(-64 <= v < 64);
                    assert(leb128_signed(v) =~= seq![byte]);
                    assert(out@ =~= leb128_signed(value as int));
                }
                return out;
            } else {
                let byte: u8 = 255 - (w % 128) as u8;
                let ghost q = w as int / 128;
                let ghost r0 = w as int % 128;
                out.push(byte);
                w = w / 128;
                proof {
                    assert(v == 128 * (-q - 1) + (127 - r0)) by {
                        lemma_fundamental_div_mod(-(v + 1), 128);
                    }
                    lemma_fundamental_div_mod_converse(v, 128, -q - 1, 127 - r0);
                    assert(v % 128 == 127 - r0);
                    assert(v / 128 == -q - 1);
                    assert(!(-64 <= v < 64));
                    assert(byte == (v % 128 + 128) as u8);
                    assert(-(w as int) - 1 == v / 128);
                    assert(leb128_signed(v) == seq![byte] + leb128_signed(v / 128));
                    assert(leb128_signed(value as int) =~= out@ + leb128_signed(
                        -(w as int) - 1,
                    ));
                }
            }
        }
    }
}

/// Deserializes a signed integer from the front of a signed LEB128 buffer.
///
/// Returns the value and the number of bytes consumed. Fails with
/// `ContinuationBitInLastByte` when the buffer ends while the continuation
/// bit is still set, and with `Overflow` when the value does not fit in a
/// 64-bit signed integer.
pub fn deserialize_leb128_signed(data: &[u8]) -> (r: Result<(i64, u8), AthenaError>)
    ensures
        match r {
            Ok((v, n)) => signed_ok(data@) && v as int == signed_value(data@) && n as int
                == value_len(data@) && 1 <= n <= 10 && n as int <= data@.len(),
            Err(e) => (e == AthenaError::ContinuationBitInLastByte ==> truncated(data@)) && (e
                == AthenaError::Overflow ==> overflows_signed(data@)) && (e
                == AthenaError::ContinuationBitInLastByte || e == AthenaError::Overflow),
        },
{
    let mut raw: u64 = 0;
    let mut pw: u64 = 1;
    let mut i: usize = 0;
    proof {
        reveal_with_fuel(pow128, 11);
    }
    loop
        invariant
            i <= 9,
            i as int <= data@.len(),
            pw == pow128(i as nat),
            raw as nat == raw_value(data@.take(i as int)),
            raw < pw,
            forall|j: int| 0 <= j < i ==> has_cont(data@[j]),
            pow128(9) == 0x8000000000000000,
        decreases data@.len() - i,
    {
        if i >= data.len() {
            proof {
                lemma_first_clear_all_cont(data@);
            }
            return Err(AthenaError::ContinuationBitInLastByte);
        }
        let byte = data[i];
        if i == 9 {
            proof {
                lemma_first_clear_ge(data@, 9);
            }
            if byte != 0x00 && byte != 0x7f {
                return Err(AthenaError::Overflow);
            }
            proof {
                lemma_first_clear_at(data@, 9);
                assert(data@.take(10).take(9) =~= data@.take(9));
                assert(data@.take(10)[9] == data@[9]);
                assert(data@.take(value_len(data@)) == data@.take(10));
            }
            let v: i64 = if byte == 0x7f {
                (raw as i64) + i64::MIN
            } else {
                raw as i64
            };
            return Ok((v, 10));
        }
        proof {
            assert(data@.take(i + 1) =~= data@.take(i as int).push(data@[i as int]));
            lemma_raw_value_push(data@.take(i as int), byte);
            assert(low7(byte) * pow128(i as nat) <= 127 * pow128(i as nat)) by (nonlinear_arith)
                requires
                    low7(byte) <= 127,
            ;
            assert(raw + 127 * pw < 128 * pw) by (nonlinear_arith)
                requires
                    raw < pw,
                    pw >= 1,
            ;
            assert(128 * pow128(i as nat) == pow128((i + 1) as nat));
            lemma_pow128_increases((i + 1) as nat, 9);
        }
        raw = raw + (byte % 128) as u64 * pw;
        i = i + 1;
        if byte < 128 {
            proof {
                lemma_first_clear_at(data@, i - 1);
                assert(data@.take(value_len(data@)) == data@.take(i as int));
                assert(data@.take(i as int).last() == byte);
            }
            let v: i64 = if byte >= 64 {
                let p: u64 = pw * 128;
                let bits: u64 = raw + (u64::MAX - p + 1);
                proof {
                    assert(bits as i64 == bits - 0x10000000000000000) by (bit_vector)
                        requires
                            bits >= 0x8000000000000000u64,
                    ;
                }
                #[verifier::truncate] (bits as i64)
            } else {
                raw as i64
            };
            return Ok((v, i as u8));
        }
        proof {
            assert(i <= 9);
            assert(128 * pow128((i - 1) as nat) == pow128(i as nat));
            lemma_pow128_increases(i as nat, 9);
        }
        pw = pw * 128;
    }
}

/// The shape of a canonical unsigned encoding: every byte but the last
/// carries the continuation bit, the groups reassemble to the encoded value,
/// and the length is the least number of seven-bit groups that fits it.
pub proof fn lemma_leb128_unsigned_structure(v: nat)
    ensures
        leb128_unsigned(v).len() >= 1,
        forall|j: int|
            0 <= j < leb128_unsigned(v).len() - 1 ==> has_cont(#[trigger] leb128_unsigned(v)[j]),
        !has_cont(leb128_unsigned(v).last()),
        raw_value(leb128_unsigned(v)) == v,
        v < pow128(leb128_unsigned(v).len()),
        leb128_unsigned(v).len() > 1 ==> pow128((leb128_unsigned(v).len() - 1) as nat) <= v,
        leb128_unsigned(v).last() as nat == v / pow128((leb128_unsigned(v).len() - 1) as nat),
    decreases v,
{
    let e = leb128_unsigned(v);
    if v < 128 {
        assert(e =~= seq![v as u8]);
        assert(e.last() == v as u8);
        assert(e.drop_first() =~= Seq::<u8>::empty());
        assert(raw_value(Seq::<u8>::empty()) == 0);
        assert(raw_value(e) == low7(v as u8) + 128 * 0);
        assert(pow128(0) == 1);
        assert(pow128(1) == 128);
        assert(v as int / 1 == v as int);
    } else {
        lemma_leb128_unsigned_structure(v / 128);
        let t = leb128_unsigned(v / 128);
        let b0 = (v % 128 + 128) as u8;
        assert(e == seq![b0] + t);
        assert(e[0] == b0);
        assert(e.drop_first() =~= t);
        assert(has_cont(b0));
        assert(e.len() == 1 + t.len());
        assert(forall|j: int| 1 <= j < e.len() ==> e[j] == t[j - 1]);
        assert(e.last() == t.last());
        assert(raw_value(e) == low7(b0) + 128 * raw_value(t));
        assert(low7(b0) == v % 128);
        lemma_fundamental_div_mod(v as int, 128);
        assert(raw_value(e) == v);
        // upper bound
        assert(raw_value(t) < pow128(t.len()));
        assert(128 * raw_value(t) <= 128 * (pow128(t.len()) - 1)) by (nonlinear_arith)
            requires
                raw_value(t) <= pow128(t.len()) - 1,
        ;
        assert(pow128(e.len()) == 128 * pow128(t.len()));
        // lower bound
        if t.len() > 1 {
            assert(pow128((t.len() - 1) as nat) <= v / 128);
            assert(128 * pow128((t.len() - 1) as nat) <= 128 * (v / 128)) by (nonlinear_arith)
                requires
                    pow128((t.len() - 1) as nat) <= v / 128,
            ;
            assert(pow128(t.len()) == 128 * pow128((t.len() - 1) as nat));
        } else {
            assert(pow128(1) == 128);
        }
        // most significant group
        lemma_div_twice(v as int, 128, pow128((t.len() - 1) as nat) as int);
        assert(128 * pow128((t.len() - 1) as nat) == pow128(t.len()));
    }
}

/// Varint round trip: the canonical encoding of any 64-bit value decodes
/// successfully, back to the same value, consuming the whole encoding.
pub proof fn lemma_varint_round_trip(v: nat)
    requires
        v <= 0xffffffffffffffff,
    ensures
        unsigned_ok(leb128_unsigned(v)),
        unsigned_value(leb128_unsigned(v)) == v,
        value_len(leb128_unsigned(v)) == leb128_unsigned(v).len(),
        1 <= leb128_unsigned(v).len() <= 10,
{
    let e = leb128_unsigned(v);
    lemma_leb128_unsigned_structure(v);
    reveal_with_fuel(pow128, 12);
    assert(pow128(9) == 0x8000000000000000);
    assert(pow128(10) == 128 * pow128(9));
    if e.len() > 10 {
        lemma_pow128_increases(10, (e.len() - 1) as nat);
        assert(false);
    }
    lemma_first_clear_at(e, e.len() - 1);
    assert(e.take(e.len() as int) =~= e);
    if e.len() == 10 {
        assert(e[9] == e.last());
        assert(e.last() as nat == v / pow128(9));
        assert(v / pow128(9) <= 0xffffffffffffffffnat / 0x8000000000000000nat);
    }
}

/// Varint minimality: an encoding has at least one byte, its length `n`
/// satisfies `v < 128^n`, and no shorter group count could represent `v`.
pub proof fn lemma_varint_minimal(v: nat)
    ensures
        leb128_unsigned(v).len() >= 1,
        v < pow128(leb128_unsigned(v).len()),
        leb128_unsigned(v).len() > 1 ==> pow128((leb128_unsigned(v).len() - 1) as nat) <= v,
{
    lemma_leb128_unsigned_structure(v);
}

/// The shape of a canonical signed encoding: continuation bits as in the
/// unsigned form; the raw group value equals `v` for non-negative values and
/// `v + 128^n` for negative ones, with the sign flag of the final byte set
/// exactly on negative values.
pub proof fn lemma_leb128_signed_structure(v: int)
    ensures
        leb128_signed(v).len() >= 1,
        forall|j: int|
            0 <= j < leb128_signed(v).len() - 1 ==> has_cont(#[trigger] leb128_signed(v)[j]),
        !has_cont(leb128_signed(v).last()),
        v >= 0 ==> low7(leb128_signed(v).last()) < 64 && raw_value(leb128_signed(v)) == v,
        v < 0 ==> low7(leb128_signed(v).last()) >= 64 && raw_value(leb128_signed(v)) == v
            + pow128(leb128_signed(v).len()),
        v >= 0 ==> v < 64 * pow128((leb128_signed(v).len() - 1) as nat),
        v < 0 ==> v >= -64 * pow128((leb128_signed(v).len() - 1) as nat),
        leb128_signed(v).len() > 1 ==> (64 * pow128((leb128_signed(v).len() - 2) as nat) <= v
            || v < -64 * pow128((leb128_signed(v).len() - 2) as nat)),
        leb128_signed(v).last() as int == (v / (pow128((leb128_signed(v).len() - 1) as nat)
            as int)) % 128,
    decreases (if v < 0 { -v } else { v }),
{
    let e = leb128_signed(v);
    if -64 <= v < 64 {
        assert(e =~= seq![(v % 128) as u8]);
        assert(e.drop_first() =~= Seq::<u8>::empty());
        assert(raw_value(Seq::<u8>::empty()) == 0);
        if v >= 0 {
            assert(v % 128 == v);
        } else {
            lemma_fundamental_div_mod_converse(v, 128, -1, v + 128);
            assert(v % 128 == v + 128);
            assert(pow128(0) == 1);
            assert(pow128(1) == 128);
        }
        assert(e.last() == (v % 128) as u8);
        assert(raw_value(e) == low7(e[0]) + 128 * 0);
        assert(v as int / 1 == v as int);
    } else {
        let vd = v / 128;
        lemma_fundamental_div_mod(v, 128);
        if v >= 64 {
            assert(vd >= 0) by (nonlinear_arith)
                requires
                    v >= 64,
                    v == 128 * vd + v % 128,
                    0 <= v % 128 < 128,
            ;
            assert(vd < v);
        } else {
            assert(vd < 0) by (nonlinear_arith)
                requires
                    v <= -65,
                    v == 128 * vd + v % 128,
                    0 <= v % 128 < 128,
            ;
            assert(-vd < -v) by (nonlinear_arith)
                requires
                    v <= -65,
                    v == 128 * vd + v % 128,
                    0 <= v % 128 < 128,
            ;
        }
        lemma_leb128_signed_structure(vd);
        let t = leb128_signed(vd);
        let b0 = (v % 128 + 128) as u8;
        assert(e == seq![b0] + t);
        assert(e[0] == b0);
        assert(e.drop_first() =~= t);
        assert(has_cont(b0));
        assert(e.len() == 1 + t.len());
        assert(forall|j: int| 1 <= j < e.len() ==> e[j] == t[j - 1]);
        assert(e.last() == t.last());
        assert(raw_value(e) == low7(b0) + 128 * raw_value(t));
        assert(low7(b0) == v % 128);
        lemma_fundamental_div_mod(v, 128);
        assert(pow128(e.len()) == 128 * pow128(t.len()));
        if v >= 64 {
            assert(raw_value(t) == vd);
            assert(raw_value(e) == v % 128 + 128 * vd == v);
            // magnitude bound
            assert(vd < 64 * pow128((t.len() - 1) as nat));
            assert(128 * vd <= 128 * (64 * pow128((t.len() - 1) as nat) - 1)) by (nonlinear_arith)
                requires
                    vd <= 64 * pow128((t.len() - 1) as nat) - 1,
            ;
            assert(128 * (64 * pow128((t.len() - 1) as nat)) == 64 * (128 * pow128((t.len() - 1)
                as nat))) by (nonlinear_arith);
            assert(128 * pow128((t.len() - 1) as nat) == pow128(t.len()));
        } else {
            assert(raw_value(t) == vd + pow128(t.len()));
            assert(raw_value(e) == v % 128 + 128 * (vd + pow128(t.len())));
            assert(128 * (vd + pow128(t.len())) == 128 * vd + 128 * pow128(t.len()))
                by (nonlinear_arith);
            assert(raw_value(e) == v + pow128(e.len()));
            // magnitude bound
            assert(vd >= -64 * pow128((t.len() - 1) as nat));
            assert(128 * vd >= 128 * (-64 * pow128((t.len() - 1) as nat))) by (nonlinear_arith)
                requires
                    vd >= -64 * pow128((t.len() - 1) as nat),
            ;
            assert(128 * (-64 * pow128((t.len() - 1) as nat)) == -64 * (128 * pow128((t.len() - 1)
                as nat))) by (nonlinear_arith);
            assert(128 * pow128((t.len() - 1) as nat) == pow128(t.len()));
        }
        // minimality
        if t.len() == 1 {
            assert(pow128(0) == 1);
            assert(64 * pow128((e.len() - 2) as nat) <= v || v < -64 * pow128((e.len() - 2)
                as nat));
        } else {
            let b = pow128((t.len() - 2) as nat) as int;
            assert(64 * b <= vd || vd < -64 * b);
            if 64 * b <= vd {
                assert(v >= 128 * (64 * b)) by (nonlinear_arith)
                    requires
                        64 * b <= vd,
                        v == 128 * vd + v % 128,
                        v % 128 >= 0,
                ;
                assert(128 * (64 * b) == 64 * (128 * b)) by (nonlinear_arith);
            } else {
                assert(v < 128 * (-64 * b)) by (nonlinear_arith)
                    requires
                        vd < -64 * b,
                        v == 128 * vd + v % 128,
                        v % 128 < 128,
                ;
                assert(128 * (-64 * b) == -64 * (128 * b)) by (nonlinear_arith);
            }
            assert(128 * b == pow128((t.len() - 1) as nat));
        }
        // most significant group
        lemma_div_twice(v, 128, pow128((t.len() - 1) as nat) as int);
        assert(128 * pow128((t.len() - 1) as nat) == pow128(t.len()));
    }
}

/// Signed varint round trip: the canonical encoding of any 64-bit signed
/// value decodes successfully, back to the same value, consuming the whole
/// encoding.
pub proof fn lemma_signed_varint_round_trip(v: int)
    requires
        -0x8000000000000000 <= v < 0x8000000000000000,
    ensures
        signed_ok(leb128_signed(v)),
        signed_value(leb128_signed(v)) == v,
        value_len(leb128_signed(v)) == leb128_signed(v).len(),
        1 <= leb128_signed(v).len() <= 10,
{
    let e = leb128_signed(v);
    lemma_leb128_signed_structure(v);
    reveal_with_fuel(pow128, 12);
    assert(pow128(9) == 0x8000000000000000);
    assert(pow128(10) == 128 * pow128(9));
    if e.len() > 10 {
        lemma_pow128_increases(10, (e.len() - 2) as nat);
        assert(64 * pow128((e.len() - 2) as nat) >= 64 * pow128(10)) by (nonlinear_arith)
            requires
                pow128((e.len() - 2) as nat) >= pow128(10),
        ;
        assert(false);
    }
    lemma_first_clear_at(e, e.len() - 1);
    assert(e.take(e.len() as int) =~= e);
    if e.len() == 10 {
        let p = pow128(9) as int;
        assert(e[9] == e.last());
        assert(e.last() as int == (v / p) % 128);
        if v >= 0 {
            assert(v / p == 0) by {
                lemma_fundamental_div_mod_converse(v, p, 0, v);
            }
        } else {
            assert(v / p == -1) by {
                lemma_fundamental_div_mod_converse(v, p, -1, v + p);
            }
            lemma_fundamental_div_mod_converse(-1, 128, -1, 127);
        }
        // the tenth group of the encoding is 0x00 or 0x7f, so decode accepts
        assert(e[9] == 0 || e[9] == 0x7f);
        // relate the ten-group reading to the full raw value
        assert(e.take(9).push(e[9]) =~= e);
        lemma_raw_value_push(e.take(9), e[9]);
        if v >= 0 {
            assert(raw_value(e) == v);
            assert(low7(e[9]) == 0);
            assert(low7(e[9]) * pow128(9) == 0) by (nonlinear_arith)
                requires
                    low7(e[9]) == 0,
            ;
            assert(signed_groups_value(e) == raw_value(e.take(9)));
        } else {
            assert(raw_value(e) == v + pow128(10));
            assert(low7(e[9]) == 127);
            assert(raw_value(e.take(9)) == raw_value(e) - 127 * pow128(9));
            assert(127 * pow128(9) + pow128(9) == 128 * pow128(9)) by (nonlinear_arith);
            assert(signed_groups_value(e) == raw_value(e.take(9)) - pow128(9));
        }
    }
}

} // verus!
