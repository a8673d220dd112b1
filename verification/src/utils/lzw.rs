//! LZW adaptive dictionary compression over a LEB128-framed token stream.
//!
//! The dictionary starts with the 256 single-byte strings at codes
//! `0..255` and grows by one entry per emitted code, so the decoder can
//! rebuild it from the code stream alone. Codes are modelled as unbounded
//! integers in specifications; the executable code stores them as `u32`.

use vstd::prelude::*;
use crate::error::AthenaError;
use crate::tools::leb128::{
    leb128_unsigned, unsigned_ok, unsigned_value, value_len, truncated, overflows_unsigned,
    has_cont, raw_value, pow128, first_clear,
    serialize_leb128_unsigned, deserialize_leb128_unsigned,
    lemma_first_clear_props, lemma_first_clear_at, lemma_leb128_unsigned_structure,
    lemma_pow128_increases,
};

verus! {

/// The initial dictionary: code `i` maps to the one-byte string `[i]`.
pub open spec fn lzw_init_dict() -> Seq<Seq<u8>> {
    Seq::new(256, |i: int| seq![i as u8])
}

/// The first code bound to the string `w`, if any.
pub open spec fn find_code(dict: Seq<Seq<u8>>, w: Seq<u8>) -> Option<int>
    decreases dict.len(),
{
    if dict.len() == 0 {
        None
    } else if dict[0] == w {
        Some(0)
    } else {
        match find_code(dict.drop_first(), w) {
            Some(i) => Some(i + 1),
            None => None,
        }
    }
}

/// Whether the dictionary binds a code to the string `w`.
pub open spec fn dict_contains(dict: Seq<Seq<u8>>, w: Seq<u8>) -> bool {
    find_code(dict, w) is Some
}

/// The code stream the compressor emits while scanning `data` with the
/// current dictionary `dict` and accumulated prefix `w`.
pub open spec fn compress_codes(dict: Seq<Seq<u8>>, w: Seq<u8>, data: Seq<u8>) -> Seq<int>
    decreases data.len(),
{
    if data.len() == 0 {
        if w.len() == 0 {
            seq![]
        } else {
            seq![find_code(dict, w).unwrap()]
        }
    } else {
        let wb = w.push(data[0]);
        if dict_contains(dict, wb) {
            compress_codes(dict, wb, data.drop_first())
        } else {
            seq![find_code(dict, w).unwrap()] + compress_codes(
                dict.push(wb),
                seq![data[0]],
                data.drop_first(),
            )
        }
    }
}

/// The dictionary the compressor holds after scanning `data`.
pub open spec fn compress_dict(dict: Seq<Seq<u8>>, w: Seq<u8>, data: Seq<u8>) -> Seq<Seq<u8>>
    decreases data.len(),
{
    if data.len() == 0 {
        dict
    } else {
        let wb = w.push(data[0]);
        if dict_contains(dict, wb) {
            compress_dict(dict, wb, data.drop_first())
        } else {
            compress_dict(dict.push(wb), seq![data[0]], data.drop_first())
        }
    }
}

/// The code stream for `data`, starting from the initial dictionary.
pub open spec fn compress_spec(data: Seq<u8>) -> Seq<int> {
    compress_codes(lzw_init_dict(), seq![], data)
}

/// The final dictionary after compressing `data`.
pub open spec fn compress_dict_spec(data: Seq<u8>) -> Seq<Seq<u8>> {
    compress_dict(lzw_init_dict(), seq![], data)
}

/// The bytes the decompressor recovers from `codes`, given its dictionary
/// and the previously decoded string. A code equal to the dictionary size
/// is the self-referential case: it denotes the entry the encoder created
/// while emitting the previous code, which is `prev` followed by its own
/// first byte. Any larger code is a protocol violation.
pub open spec fn decompress_codes(dict: Seq<Seq<u8>>, prev: Seq<u8>, codes: Seq<int>) -> Result<
    Seq<u8>,
    AthenaError,
>
    decreases codes.len(),
{
    if codes.len() == 0 {
        Ok(seq![])
    } else {
        let c = codes[0];
        if 0 <= c < dict.len() {
            let entry = dict[c];
            match decompress_codes(dict.push(prev.push(entry[0])), entry, codes.drop_first()) {
                Ok(rest) => Ok(entry + rest),
                Err(e) => Err(e),
            }
        } else if c == dict.len() {
            let entry = prev.push(prev[0]);
            match decompress_codes(dict.push(entry), entry, codes.drop_first()) {
                Ok(rest) => Ok(entry + rest),
                Err(e) => Err(e),
            }
        } else {
            Err(AthenaError::InvalidData)
        }
    }
}

/// The bytes recovered from a full code stream: the first code must name an
/// initial single-byte entry; an empty stream yields empty output.
pub open spec fn decompress_spec(codes: Seq<int>) -> Result<Seq<u8>, AthenaError> {
    if codes.len() == 0 {
        Ok(seq![])
    } else if 0 <= codes[0] < 256 {
        let first = seq![codes[0] as u8];
        match decompress_codes(lzw_init_dict(), first, codes.drop_first()) {
            Ok(rest) => Ok(first + rest),
            Err(e) => Err(e),
        }
    } else {
        Err(AthenaError::InvalidData)
    }
}

/// What `find_code` returns: the first matching index, or a guarantee that
/// no entry matches.
pub proof fn lemma_find_code_props(dict: Seq<Seq<u8>>, w: Seq<u8>)
    ensures
        match find_code(dict, w) {
            Some(i) => 0 <= i < dict.len() && dict[i] == w && forall|j: int|
                0 <= j < i ==> dict[j] != w,
            None => forall|j: int| 0 <= j < dict.len() ==> dict[j] != w,
        },
    decreases dict.len(),
{
    if dict.len() == 0 {
    } else if dict[0] == w {
    } else {
        lemma_find_code_props(dict.drop_first(), w);
        let t = dict.drop_first();
        assert(forall|j: int| 0 <= j < dict.len() - 1 ==> t[j] == dict[j + 1]);
        match find_code(t, w) {
            Some(i) => {
                assert(dict[i + 1] == t[i]);
                assert forall|j: int| 0 <= j < i + 1 implies dict[j] != w by {
                    if j > 0 {
                        assert(t[j - 1] != w);
                        assert(dict[j] == t[j - 1]);
                    }
                }
            },
            None => {
                assert forall|j: int| 0 <= j < dict.len() implies dict[j] != w by {
                    if j > 0 {
                        assert(t[j - 1] != w);
                        assert(dict[j] == t[j - 1]);
                    }
                }
            },
        }
    }
}

/// `find_code` finds the first match.
pub proof fn lemma_find_code_at(dict: Seq<Seq<u8>>, w: Seq<u8>, i: int)
    requires
        0 <= i < dict.len(),
        dict[i] == w,
        forall|j: int| 0 <= j < i ==> dict[j] != w,
    ensures
        find_code(dict, w) == Some(i),
    decreases dict.len(),
{
    if i == 0 {
    } else {
        assert(forall|j: int| 0 <= j < dict.len() - 1 ==> dict.drop_first()[j] == dict[j + 1]);
        lemma_find_code_at(dict.drop_first(), w, i - 1);
    }
}

/// Appending an entry never unbinds an existing string.
pub proof fn lemma_find_code_push(dict: Seq<Seq<u8>>, w: Seq<u8>, x: Seq<u8>)
    requires
        dict_contains(dict, w),
    ensures
        find_code(dict.push(x), w) == find_code(dict, w),
{
    lemma_find_code_props(dict, w);
    let i = find_code(dict, w).unwrap();
    assert(dict.push(x)[i] == w);
    assert(forall|j: int| 0 <= j < i ==> dict.push(x)[j] == dict[j]);
    lemma_find_code_at(dict.push(x), w, i);
}

/// In the initial dictionary, the one-byte string `[b]` has code `b`.
pub proof fn lemma_init_dict_code(b: u8)
    ensures
        find_code(lzw_init_dict(), seq![b]) == Some(b as int),
{
    let init = lzw_init_dict();
    assert(init[b as int] == seq![b]);
    assert forall|j: int| 0 <= j < b as int implies init[j] != seq![b] by {
        assert(init[j] == seq![j as u8]);
        assert(init[j][0] == j as u8);
        assert(j as u8 != b);
    }
    lemma_find_code_at(init, seq![b], b as int);
}

/// A cloned byte vector has the same contents.
fn clone_bytes(v: &Vec<u8>) -> (r: Vec<u8>)
    ensures
        r@ == v@,
{
    let mut out: Vec<u8> = Vec::new();
    let mut i: usize = 0;
    while i < v.len()
        invariant
            i <= v@.len(),
            out@ == v@.take(i as int),
        decreases v@.len() - i,
    {
        out.push(v[i]);
        proof {
            assert(out@ =~= v@.take(i + 1));
        }
        i = i + 1;
    }
    proof {
        assert(v@.take(v@.len() as int) =~= v@);
    }
    out
}

/// Appends the contents of `src` to `dst`.
fn push_all(dst: &mut Vec<u8>, src: &Vec<u8>)
    ensures
        final(dst)@ == old(dst)@ + src@,
{
    let mut i: usize = 0;
    while i < src.len()
        invariant
            i <= src@.len(),
            dst@ == old(dst)@ + src@.take(i as int),
        decreases src@.len() - i,
    {
        dst.push(src[i]);
        proof {
            assert(old(dst)@ + src@.take(i + 1) =~= (old(dst)@ + src@.take(i as int)).push(
                src@[i as int],
            ));
        }
        i = i + 1;
    }
    proof {
        assert(old(dst)@ + src@.take(src@.len() as int) =~= old(dst)@ + src@);
    }
}

/// Whether two byte vectors hold the same bytes.
fn bytes_eq(a: &Vec<u8>, b: &Vec<u8>) -> (r: bool)
    ensures
        r == (a@ == b@),
{
    if a.len() != b.len() {
        return false;
    }
    let mut i: usize = 0;
    while i < a.len()
        invariant
            i <= a@.len(),
            a@.len() == b@.len(),
            forall|j: int| 0 <= j < i ==> a@[j] == b@[j],
        decreases a@.len() - i,
    {
        if a[i] != b[i] {
            return false;
        }
        i = i + 1;
    }
    proof {
        assert(a@ =~= b@);
    }
    true
}

/// The deep view of a vector of byte vectors, element by element.
proof fn lemma_deep_view_is(dict: &Vec<Vec<u8>>)
    ensures
        dict.deep_view().len() == dict@.len(),
        forall|j: int| 0 <= j < dict@.len() ==> dict.deep_view()[j] == dict@[j]@,
{
    assert forall|j: int| 0 <= j < dict@.len() implies dict.deep_view()[j] == dict@[j]@ by {
        assert(dict@[j].deep_view() =~= dict@[j]@);
    }
}

/// The first code bound to `w`, scanning from the lowest code.
fn find_entry(dict: &Vec<Vec<u8>>, w: &Vec<u8>) -> (r: Option<usize>)
    ensures
        match r {
            Some(i) => find_code(dict.deep_view(), w@) == Some(i as int),
            None => find_code(dict.deep_view(), w@) == None::<int>,
        },
{
    let ghost dv = dict.deep_view();
    proof {
        lemma_deep_view_is(dict);
    }
    let mut i: usize = 0;
    while i < dict.len()
        invariant
            i <= dict@.len(),
            dv == dict.deep_view(),
            dv.len() == dict@.len(),
            forall|j: int| 0 <= j < dict@.len() ==> dv[j] == dict@[j]@,
            forall|j: int| 0 <= j < i ==> dv[j] != w@,
        decreases dict@.len() - i,
    {
        if bytes_eq(&dict[i], w) {
            proof {
                lemma_find_code_at(dv, w@, i as int);
            }
            return Some(i);
        }
        i = i + 1;
    }
    proof {
        lemma_find_code_props(dv, w@);
        if find_code(dv, w@) is Some {
            let k = find_code(dv, w@).unwrap();
            assert(dv[k] != w@);
        }
    }
    None
}

/// Builds the 256 single-byte entries of the initial dictionary.
fn make_init_dict() -> (r: Vec<Vec<u8>>)
    ensures
        r.deep_view() == lzw_init_dict(),
        r@.len() == 256,
{
    let mut dict: Vec<Vec<u8>> = Vec::new();
    let mut k: usize = 0;
    while k < 256
        invariant
            k <= 256,
            dict@.len() == k,
            forall|j: int| 0 <= j < k ==> dict@[j]@ == seq![j as u8],
        decreases 256 - k,
    {
        let mut e: Vec<u8> = Vec::new();
        e.push(k as u8);
        proof {
            assert(e@ =~= seq![k as u8]);
        }
        dict.push(e);
        k = k + 1;
    }
    proof {
        lemma_deep_view_is(&dict);
        assert(dict.deep_view() =~= lzw_init_dict());
    }
    dict
}

/// Compresses `data` with the LZW algorithm, returning the code stream.
///
/// The length bound keeps every dictionary code within `u32`.
pub fn compress_lzw(data: &[u8]) -> (r: Vec<u32>)
    requires
        data@.len() <= 0xffffff00,
    ensures
        r@.map_values(|c: u32| c as int) == compress_spec(data@),
{
    let dict_init = make_init_dict();
    let mut dict: Vec<Vec<u8>> = dict_init;
    let mut tmp: Vec<u8> = Vec::new();
    let mut comp: Vec<u32> = Vec::new();
    let mut idx: usize = 0;
    proof {
        assert forall|b: u8| #[trigger] dict_contains(dict.deep_view(), seq![b]) by {
            lemma_init_dict_code(b);
        }
        assert(data@.skip(0) =~= data@);
        assert(comp@.map_values(|c: u32| c as int) =~= Seq::<int>::empty());
        assert(Seq::<int>::empty() + compress_codes(dict.deep_view(), tmp@, data@)
            =~= compress_codes(dict.deep_view(), tmp@, data@));
    }
    while idx < data.len()
        invariant
            idx <= data@.len(),
            data@.len() <= 0xffffff00,
            256 <= dict@.len() <= 256 + idx,
            forall|b: u8| #[trigger] dict_contains(dict.deep_view(), seq![b]),
            tmp@.len() == 0 ==> idx == 0,
            tmp@.len() > 0 ==> dict_contains(dict.deep_view(), tmp@),
            compress_spec(data@) == comp@.map_values(|c: u32| c as int) + compress_codes(
                dict.deep_view(),
                tmp@,
                data@.skip(idx as int),
            ),
        decreases data@.len() - idx,
    {
        let byte = data[idx];
        let ghost dv = dict.deep_view();
        let ghost rem = data@.skip(idx as int);
        proof {
            lemma_deep_view_is(&dict);
            assert(rem[0] == data@[idx as int]);
            assert(rem.drop_first() =~= data@.skip(idx + 1));
        }
        let mut work = clone_bytes(&tmp);
        work.push(byte);
        match find_entry(&dict, &work) {
            Some(_) => {
                proof {
                    assert(work@ == tmp@.push(byte));
                    assert(dict_contains(dv, work@));
                    assert(compress_codes(dv, tmp@, rem) == compress_codes(
                        dv,
                        work@,
                        rem.drop_first(),
                    ));
                }
                tmp = work;
            },
            None => {
                proof {
                    // a single byte is always in the dictionary, so the
                    // accumulated prefix cannot be empty here
                    if tmp@.len() == 0 {
                        assert(work@ =~= seq![byte]);
                        assert(dict_contains(dv, seq![byte]));
                        assert(false);
                    }
                }
                let code = match find_entry(&dict, &tmp) {
                    Some(c) => c,
                    None => {
                        proof {
                            assert(false);
                        }
                        0
                    },
                };
                proof {
                    lemma_find_code_props(dv, tmp@);
                    assert(code < dict@.len());
                }
                let ghost workv = work@;
                let ghost tmpv = tmp@;
                let ghost prev_dict = dict@;
                let ghost prev_comp = comp@;
                comp.push(code as u32);
                dict.push(work);
                let mut nt: Vec<u8> = Vec::new();
                nt.push(byte);
                tmp = nt;
                proof {
                    lemma_deep_view_is(&dict);
                    assert forall|j: int| 0 <= j < prev_dict.len() implies dict.deep_view()[j]
                        == dv[j] by {
                        assert(dict@[j] == prev_dict[j]);
                        assert(prev_dict[j].deep_view() =~= prev_dict[j]@);
                    }
                    assert(dict.deep_view() =~= dv.push(workv));
                    assert(tmp@ =~= seq![byte]);
                    // the emitted code and the new scan state continue the
                    // specification stream
                    assert(workv == tmpv.push(byte));
                    assert(compress_codes(dv, tmpv, rem) == seq![find_code(dv, tmpv).unwrap()]
                        + compress_codes(dv.push(workv), seq![byte], rem.drop_first()));
                    assert(find_code(dv, tmpv).unwrap() == code as int);
                    assert(comp@.map_values(|c: u32| c as int) =~= prev_comp.map_values(
                        |c: u32| c as int,
                    ).push(code as int));
                    assert(prev_comp.map_values(|c: u32| c as int) + (seq![code as int]
                        + compress_codes(dict.deep_view(), tmp@, data@.skip(idx + 1)))
                        =~= comp@.map_values(|c: u32| c as int) + compress_codes(
                        dict.deep_view(),
                        tmp@,
                        data@.skip(idx + 1),
                    ));
                    assert(compress_spec(data@) == comp@.map_values(|c: u32| c as int)
                        + compress_codes(dict.deep_view(), tmp@, data@.skip(idx + 1)));
                    // every single byte stays in the grown dictionary
                    assert forall|b: u8| #[trigger] dict_contains(dict.deep_view(), seq![b]) by {
                        assert(dict_contains(dv, seq![b]));
                        lemma_find_code_push(dv, seq![b], workv);
                        assert(find_code(dict.deep_view(), seq![b]) == find_code(dv, seq![b]));
                    }
                }
            },
        }
        idx = idx + 1;
    }
    proof {
        assert(data@.skip(data@.len() as int) =~= Seq::<u8>::empty());
    }
    if tmp.len() > 0 {
        let ghost prev_comp = comp@;
        let code = match find_entry(&dict, &tmp) {
            Some(c) => c,
            None => {
                proof {
                    assert(false);
                }
                0
            },
        };
        proof {
            lemma_find_code_props(dict.deep_view(), tmp@);
        }
        comp.push(code as u32);
        proof {
            assert(comp@.map_values(|c: u32| c as int) =~= prev_comp.map_values(
                |c: u32| c as int,
            ).push(code as int));
            assert(comp@.map_values(|c: u32| c as int) =~= compress_spec(data@));
        }
    } else {
        proof {
            assert(comp@.map_values(|c: u32| c as int) + Seq::<int>::empty() =~= comp@.map_values(
                |c: u32| c as int,
            ));
        }
    }
    comp
}


/// Decompresses an LZW code stream, rebuilding the dictionary the encoder
/// grew. Fails with `InvalidData` when a code lies more than one past the
/// current dictionary size, or when the first code is no initial entry.
pub fn decompress_lzw(data: &[u32]) -> (r: Result<Vec<u8>, AthenaError>)
    ensures
        match r {
            Ok(out) => decompress_spec(data@.map_values(|c: u32| c as int)) == Ok::<_, AthenaError>(
                out@,
            ),
            Err(e) => decompress_spec(data@.map_values(|c: u32| c as int)) == Err::<Seq<u8>, _>(e),
        },
{
    let ghost codes = data@.map_values(|c: u32| c as int);
    if data.len() == 0 {
        let out: Vec<u8> = Vec::new();
        proof {
            assert(out@ =~= Seq::<u8>::empty());
        }
        return Ok(out);
    }
    let c0 = data[0];
    if c0 >= 256 {
        return Err(AthenaError::InvalidData);
    }
    let mut dict: Vec<Vec<u8>> = make_init_dict();
    let mut prev: Vec<u8> = Vec::new();
    prev.push(c0 as u8);
    let mut out: Vec<u8> = Vec::new();
    out.push(c0 as u8);
    let mut idx: usize = 1;
    proof {
        lemma_deep_view_is(&dict);
        assert(prev@ =~= seq![codes[0] as u8]);
        assert(out@ =~= seq![codes[0] as u8]);
        assert(codes.drop_first() =~= codes.skip(1));
        assert forall|j: int| 0 <= j < dict.deep_view().len() implies (#[trigger] dict.deep_view()[
            j
        ]).len() >= 1 by {
            assert(lzw_init_dict()[j] == seq![j as u8]);
        }
        assert(seq![codes[0] as u8] + decompress_codes(
            dict.deep_view(),
            prev@,
            codes.skip(1),
        ).unwrap() == seq![codes[0] as u8] + decompress_codes(
            dict.deep_view(),
            prev@,
            codes.skip(1),
        ).unwrap());
    }
    while idx < data.len()
        invariant
            1 <= idx <= data@.len(),
            codes == data@.map_values(|c: u32| c as int),
            codes.len() == data@.len(),
            dict@.len() == 255 + idx,
            dict.deep_view().len() == dict@.len(),
            prev@.len() >= 1,
            out@.len() >= 1,
            forall|j: int| 0 <= j < dict@.len() ==> (#[trigger] dict.deep_view()[j]).len() >= 1,
            decompress_spec(codes) == match decompress_codes(
                dict.deep_view(),
                prev@,
                codes.skip(idx as int),
            ) {
                Ok(rest) => Ok::<Seq<u8>, AthenaError>(out@ + rest),
                Err(e) => Err::<Seq<u8>, AthenaError>(e),
            },
        decreases data@.len() - idx,
    {
        let ghost dv = dict.deep_view();
        let ghost rem = codes.skip(idx as int);
        let ghost prevv_old = prev@;
        let ghost outv_old = out@;
        proof {
            lemma_deep_view_is(&dict);
            assert(rem[0] == codes[idx as int]);
            assert(rem.drop_first() =~= codes.skip(idx + 1));
        }
        let c = data[idx];
        let cu = c as usize;
        let entry: Vec<u8> = if cu < dict.len() {
            proof {
                assert(dv[cu as int] == dict@[cu as int]@);
            }
            clone_bytes(&dict[cu])
        } else if cu == dict.len() {
            let mut e = clone_bytes(&prev);
            e.push(prev[0]);
            proof {
                assert(e@ =~= prev@.push(prev@[0]));
            }
            e
        } else {
            proof {
                assert(rem[0] > dv.len());
            }
            return Err(AthenaError::InvalidData);
        };
        let ghost entryv = entry@;
        proof {
            assert(entryv.len() >= 1);
        }
        push_all(&mut out, &entry);
        let mut ins = prev;
        ins.push(entry[0]);
        let ghost insv = ins@;
        let ghost prev_dict = dict@;
        dict.push(ins);
        prev = entry;
        proof {
            lemma_deep_view_is(&dict);
            assert forall|j: int| 0 <= j < prev_dict.len() implies dict.deep_view()[j] == dv[j] by {
                assert(dict@[j] == prev_dict[j]);
                assert(prev_dict[j].deep_view() =~= prev_dict[j]@);
            }
            assert(dict.deep_view() =~= dv.push(insv));
            assert(insv == prevv_old.push(entryv[0]));
            let cc = rem[0];
            let ndv = dict.deep_view();
            let m = decompress_codes(ndv, entryv, codes.skip(idx + 1));
            if (cu as int) < dv.len() {
                assert(0 <= cc < dv.len());
                assert(entryv == dv[cc]);
                assert(ndv == dv.push(prevv_old.push(dv[cc][0])));
                assert(decompress_codes(dv, prevv_old, rem) == match m {
                    Ok(rest) => Ok::<Seq<u8>, AthenaError>(entryv + rest),
                    Err(e) => Err::<Seq<u8>, AthenaError>(e),
                });
            } else {
                assert(cc == dv.len());
                assert(entryv == prevv_old.push(prevv_old[0]));
                assert(entryv[0] == prevv_old[0]);
                assert(insv =~= entryv);
                assert(ndv == dv.push(entryv));
                assert(decompress_codes(dv, prevv_old, rem) == match m {
                    Ok(rest) => Ok::<Seq<u8>, AthenaError>(entryv + rest),
                    Err(e) => Err::<Seq<u8>, AthenaError>(e),
                });
            }
            match m {
                Ok(rest) => {
                    assert(outv_old + (entryv + rest) =~= out@ + rest);
                },
                Err(e) => {},
            }
        }
        idx = idx + 1;
    }
    proof {
        assert(codes.skip(codes.len() as int) =~= Seq::<int>::empty());
        assert(out@ + Seq::<u8>::empty() =~= out@);
    }
    Ok(out)
}

/// The byte frame of a code stream: the unsigned LEB128 encodings of the
/// codes, concatenated with no separators.
pub open spec fn frame_codes(codes: Seq<int>) -> Seq<u8>
    decreases codes.len(),
{
    if codes.len() == 0 {
        seq![]
    } else {
        leb128_unsigned(codes[0] as nat) + frame_codes(codes.drop_first())
    }
}

/// The code stream read back from a byte frame: unsigned LEB128 values,
/// one after the other, until the buffer is exhausted. A truncated value or
/// one beyond 32 bits fails.
pub open spec fn unframe_codes(data: Seq<u8>) -> Result<Seq<int>, AthenaError>
    decreases data.len(),
    via unframe_codes_decreases
{
    if data.len() == 0 {
        Ok(seq![])
    } else if unsigned_ok(data) && unsigned_value(data) <= 0xffffffff {
        match unframe_codes(data.skip(value_len(data))) {
            Ok(rest) => Ok(seq![unsigned_value(data) as int] + rest),
            Err(e) => Err(e),
        }
    } else if truncated(data) {
        Err(AthenaError::ContinuationBitInLastByte)
    } else {
        Err(AthenaError::Overflow)
    }
}

#[via_fn]
proof fn unframe_codes_decreases(data: Seq<u8>) {
    if data.len() > 0 && unsigned_ok(data) && unsigned_value(data) <= 0xffffffff {
        lemma_value_len_in_range(data);
    }
}

/// A successful decode consumes between one byte and the whole buffer.
pub proof fn lemma_value_len_in_range(data: Seq<u8>)
    requires
        data.len() > 0,
        unsigned_ok(data),
    ensures
        1 <= value_len(data) <= data.len(),
{
    lemma_first_clear_props(data);
    if first_clear(data) >= data.len() {
        if data.len() > 9 {
            assert(has_cont(data[9]));
            assert(overflows_unsigned(data));
        }
        assert(false);
    }
}

/// The staged result of unframing a byte stream and decompressing the codes.
pub open spec fn unframe_and_decompress_spec(data: Seq<u8>) -> Result<Seq<u8>, AthenaError> {
    match unframe_codes(data) {
        Ok(codes) => decompress_spec(codes),
        Err(e) => Err(e),
    }
}

/// Compresses `data` and frames each code as an unsigned LEB128 value,
/// yielding one self-delimiting byte stream.
pub fn compress_lzw_encode_leb128(data: &[u8]) -> (r: Vec<u8>)
    requires
        data@.len() <= 0xffffff00,
    ensures
        r@ == frame_codes(compress_spec(data@)),
{
    let compressed = compress_lzw(data);
    let ghost codes = compressed@.map_values(|c: u32| c as int);
    let mut out: Vec<u8> = Vec::new();
    let mut i: usize = 0;
    proof {
        assert(codes.skip(0) =~= codes);
        assert(Seq::<u8>::empty() + frame_codes(codes) =~= frame_codes(codes));
    }
    while i < compressed.len()
        invariant
            i <= compressed@.len(),
            codes == compressed@.map_values(|c: u32| c as int),
            codes.len() == compressed@.len(),
            frame_codes(codes) == out@ + frame_codes(codes.skip(i as int)),
        decreases compressed@.len() - i,
    {
        let ghost rem = codes.skip(i as int);
        proof {
            assert(rem[0] == codes[i as int]);
            assert(rem.drop_first() =~= codes.skip(i + 1));
        }
        let mut enc = serialize_leb128_unsigned(compressed[i] as usize);
        proof {
            assert(enc@ == leb128_unsigned(rem[0] as nat));
        }
        let ghost prev_out = out@;
        push_all(&mut out, &enc);
        proof {
            assert(prev_out + (enc@ + frame_codes(codes.skip(i + 1))) =~= out@ + frame_codes(
                codes.skip(i + 1),
            ));
        }
        i = i + 1;
    }
    proof {
        assert(codes.skip(codes.len() as int) =~= Seq::<int>::empty());
        assert(out@ + Seq::<u8>::empty() =~= out@);
    }
    out
}

/// Reads a LEB128-framed code stream and decompresses it, reversing
/// `compress_lzw_encode_leb128`. Truncated frames fail with
/// `ContinuationBitInLastByte`; corrupted code streams with `InvalidData`.
pub fn decompress_lzw_decode_leb128(data: &[u8]) -> (r: Result<Vec<u8>, AthenaError>)
    ensures
        match r {
            Ok(out) => unframe_and_decompress_spec(data@) == Ok::<_, AthenaError>(out@),
            Err(e) => unframe_and_decompress_spec(data@) == Err::<Seq<u8>, _>(e),
        },
{
    let mut codes: Vec<u32> = Vec::new();
    let mut index: usize = 0;
    proof {
        assert(data@.skip(0) =~= data@);
        assert(codes@.map_values(|c: u32| c as int) =~= Seq::<int>::empty());
    }
    while index < data.len()
        invariant
            index <= data@.len(),
            unframe_codes(data@) == match unframe_codes(data@.skip(index as int)) {
                Ok(rest) => Ok::<Seq<int>, AthenaError>(
                    codes@.map_values(|c: u32| c as int) + rest,
                ),
                Err(e) => Err::<Seq<int>, AthenaError>(e),
            },
        decreases data@.len() - index,
    {
        let ghost rem = data@.skip(index as int);
        let piece = slice_suffix(data, index);
        let (num, bytes_read) = match deserialize_leb128_unsigned(piece) {
            Ok(p) => p,
            Err(e) => {
                proof {
                    if e == AthenaError::ContinuationBitInLastByte {
                        assert(unframe_codes(rem) == Err::<Seq<int>, AthenaError>(e));
                    } else {
                        assert(!unsigned_ok(rem) || unsigned_value(rem) > usize::MAX);
                        assert(unframe_codes(rem) == Err::<Seq<int>, AthenaError>(
                            AthenaError::Overflow,
                        ));
                    }
                }
                return Err(e);
            },
        };
        if num > 0xffffffffusize {
            proof {
                assert(unframe_codes(rem) == Err::<Seq<int>, AthenaError>(AthenaError::Overflow));
            }
            return Err(AthenaError::Overflow);
        }
        let ghost prev_codes = codes@;
        codes.push(num as u32);
        proof {
            lemma_value_len_in_range(rem);
            assert(rem.skip(value_len(rem)) =~= data@.skip(index + value_len(rem)));
            assert(codes@.map_values(|c: u32| c as int) =~= prev_codes.map_values(
                |c: u32| c as int,
            ).push(num as int));
        }
        index = index + bytes_read as usize;
        proof {
            if unframe_codes(data@.skip(index as int)) is Ok {
                let rest = unframe_codes(data@.skip(index as int)).unwrap();
                assert(prev_codes.map_values(|c: u32| c as int) + (seq![num as int] + rest)
                    =~= codes@.map_values(|c: u32| c as int) + rest);
            }
        }
    }
    proof {
        assert(data@.skip(data@.len() as int) =~= Seq::<u8>::empty());
        assert(codes@.map_values(|c: u32| c as int) + Seq::<int>::empty() =~= codes@.map_values(
            |c: u32| c as int,
        ));
    }
    match decompress_lzw(codes.as_slice()) {
        Ok(out) => Ok(out),
        Err(e) => Err(e),
    }
}

/// The suffix of a byte slice from `start` on.
fn slice_suffix(data: &[u8], start: usize) -> (r: &[u8])
    requires
        start <= data@.len(),
    ensures
        r@ == data@.skip(start as int),
{
    let r = vstd::slice::slice_subrange(data, start, data.len());
    proof {
        assert(r@ =~= data@.skip(start as int));
    }
    r
}


/// One scanning phase of the round trip: if the encoder holds dictionary
/// `ed` and accumulated prefix `w`, and the decoder holds dictionary `dd`
/// one insertion behind (`ed` is `dd` plus the entry made of the previous
/// emission `p` and the byte that follows it), then decoding what the
/// encoder emits for the remaining `data` yields exactly `w + data`.
proof fn lemma_lzw_step(ed: Seq<Seq<u8>>, w: Seq<u8>, data: Seq<u8>, dd: Seq<Seq<u8>>, p: Seq<u8>)
    requires
        w.len() >= 1,
        p.len() >= 1,
        ed == dd.push(p.push(w[0])),
        dict_contains(ed, w),
        forall|b: u8| #[trigger] dict_contains(ed, seq![b]),
        forall|j: int| 0 <= j < dd.len() ==> (#[trigger] dd[j]).len() >= 1,
    ensures
        decompress_codes(dd, p, compress_codes(ed, w, data)) == Ok::<Seq<u8>, AthenaError>(
            w + data,
        ),
    decreases data.len(),
{
    lemma_find_code_props(ed, w);
    let c = find_code(ed, w).unwrap();
    assert(0 <= c < ed.len());
    assert(ed.len() == dd.len() + 1);
    // resolving the code for `w` at the decoder gives back `w`, whether the
    // code is already in `dd` or is the just-created entry
    let entry = if c < dd.len() {
        dd[c]
    } else {
        p.push(p[0])
    };
    if c < dd.len() {
        assert(ed[c] == dd[c]);
        assert(entry == w);
    } else {
        assert(c == dd.len());
        assert(ed[c] == p.push(w[0]));
        assert(w == p.push(w[0]));
        assert(w[0] == p.push(w[0])[0]);
        assert(w[0] == p[0]);
        assert(entry =~= w);
    }
    assert(entry[0] == w[0]);
    if data.len() == 0 {
        let codes = compress_codes(ed, w, data);
        assert(codes == seq![c]);
        assert(codes.drop_first() =~= Seq::<int>::empty());
        let dd2 = dd.push(p.push(entry[0]));
        assert(decompress_codes(dd2, entry, codes.drop_first()) == Ok::<Seq<u8>, AthenaError>(
            Seq::<u8>::empty(),
        ));
        assert(decompress_codes(dd, p, codes) == Ok::<Seq<u8>, AthenaError>(
            entry + Seq::<u8>::empty(),
        ));
        assert(entry + Seq::<u8>::empty() =~= w + data);
    } else {
        let b = data[0];
        let wb = w.push(b);
        assert(wb[0] == w[0]);
        if dict_contains(ed, wb) {
            lemma_lzw_step(ed, wb, data.drop_first(), dd, p);
            assert(compress_codes(ed, w, data) == compress_codes(ed, wb, data.drop_first()));
            assert(w + data =~= wb + data.drop_first());
        } else {
            let ed2 = ed.push(wb);
            let tail = compress_codes(ed2, seq![b], data.drop_first());
            assert(compress_codes(ed, w, data) == seq![c] + tail);
            let codes = seq![c] + tail;
            assert(codes[0] == c);
            assert(codes.drop_first() =~= tail);
            // the decoder's insertion recreates the encoder's: its
            // dictionary catches up to `ed`
            let dd2 = dd.push(p.push(entry[0]));
            assert(dd2 =~= ed);
            assert(ed2 == ed.push(w.push(seq![b][0])));
            assert forall|bb: u8| #[trigger] dict_contains(ed2, seq![bb]) by {
                lemma_find_code_push(ed, seq![bb], wb);
            }
            assert forall|j: int| 0 <= j < ed.len() implies (#[trigger] ed[j]).len() >= 1 by {
                if j < dd.len() {
                    assert(ed[j] == dd[j]);
                } else {
                    assert(ed[j] == p.push(w[0]));
                }
            }
            lemma_lzw_step(ed2, seq![b], data.drop_first(), ed, w);
            assert(decompress_codes(ed, w, tail) == Ok::<Seq<u8>, AthenaError>(
                seq![b] + data.drop_first(),
            ));
            assert(decompress_codes(dd, p, codes) == Ok::<Seq<u8>, AthenaError>(
                entry + (seq![b] + data.drop_first()),
            ));
            assert(entry + (seq![b] + data.drop_first()) =~= w + data);
        }
    }
}

/// Round trip: decompressing the code stream of any byte sequence yields
/// that sequence back, even for the empty input.
pub proof fn lemma_lzw_round_trip(data: Seq<u8>)
    ensures
        decompress_spec(compress_spec(data)) == Ok::<Seq<u8>, AthenaError>(data),
{
    let init = lzw_init_dict();
    if data.len() == 0 {
        assert(compress_spec(data) == Seq::<int>::empty());
        assert(decompress_spec(compress_spec(data)) == Ok::<Seq<u8>, AthenaError>(
            Seq::<u8>::empty(),
        ));
        assert(data =~= Seq::<u8>::empty());
    } else {
        let d0 = data[0];
        assert(Seq::<u8>::empty().push(d0) =~= seq![d0]);
        lemma_init_dict_code(d0);
        assert(dict_contains(init, seq![d0]));
        assert(compress_spec(data) == compress_codes(init, seq![d0], data.drop_first()));
        let c0 = find_code(init, seq![d0]).unwrap();
        assert(c0 == d0 as int);
        if data.len() == 1 {
            assert(data.drop_first() =~= Seq::<u8>::empty());
            assert(compress_spec(data) == seq![c0]);
            let codes = seq![c0];
            assert(0 <= codes[0] < 256);
            assert(seq![codes[0] as u8] =~= seq![d0]);
            assert(codes.drop_first() =~= Seq::<int>::empty());
            assert(decompress_codes(init, seq![d0], codes.drop_first()) == Ok::<
                Seq<u8>,
                AthenaError,
            >(Seq::<u8>::empty()));
            assert(seq![d0] + Seq::<u8>::empty() =~= data);
        } else {
            let rest = data.drop_first();
            let d1 = rest[0];
            let wb = seq![d0].push(d1);
            lemma_find_code_props(init, wb);
            if dict_contains(init, wb) {
                let i = find_code(init, wb).unwrap();
                assert(init[i] == seq![i as u8]);
                assert(false);
            }
            let ed = init.push(wb);
            let tail = compress_codes(ed, seq![d1], rest.drop_first());
            assert(compress_codes(init, seq![d0], rest) == seq![c0] + tail);
            let codes = seq![c0] + tail;
            assert(codes[0] == d0 as int);
            assert(0 <= codes[0] < 256);
            assert(seq![codes[0] as u8] =~= seq![d0]);
            assert(codes.drop_first() =~= tail);
            assert(ed == init.push(seq![d0].push(seq![d1][0])));
            assert forall|bb: u8| #[trigger] dict_contains(ed, seq![bb]) by {
                lemma_init_dict_code(bb);
                lemma_find_code_push(init, seq![bb], wb);
            }
            assert forall|j: int| 0 <= j < init.len() implies (#[trigger] init[j]).len() >= 1 by {
                assert(init[j] == seq![j as u8]);
            }
            assert(dict_contains(ed, seq![d1])) by {
                lemma_init_dict_code(d1);
                lemma_find_code_push(init, seq![d1], wb);
            }
            lemma_lzw_step(ed, seq![d1], rest.drop_first(), init, seq![d0]);
            assert(decompress_codes(init, seq![d0], tail) == Ok::<Seq<u8>, AthenaError>(
                seq![d1] + rest.drop_first(),
            ));
            assert(seq![d1] + rest.drop_first() =~= rest);
            assert(seq![d0] + rest =~= data);
        }
    }
}


/// A canonical encoding at the front of a longer buffer decodes to its own
/// value, consuming exactly its own bytes.
proof fn lemma_frame_prefix(v: nat, rest: Seq<u8>)
    requires
        v <= 0xffffffff,
    ensures
        ({
            let e = leb128_unsigned(v);
            let d = e + rest;
            &&& e.len() >= 1
            &&& unsigned_ok(d)
            &&& unsigned_value(d) == v
            &&& value_len(d) == e.len()
        }),
{
    let e = leb128_unsigned(v);
    let d = e + rest;
    lemma_leb128_unsigned_structure(v);
    assert(forall|j: int| 0 <= j < e.len() ==> d[j] == e[j]);
    // a 32-bit value needs at most five groups
    assert(pow128(0) == 1);
    assert(pow128(1) == 128);
    assert(pow128(2) == 16384);
    assert(pow128(3) == 2097152);
    assert(pow128(4) == 268435456);
    assert(pow128(5) == 34359738368);
    if e.len() > 5 {
        lemma_pow128_increases(5, (e.len() - 1) as nat);
        assert(false);
    }
    lemma_first_clear_at(d, e.len() - 1);
    assert(value_len(d) == e.len());
    assert(d.take(e.len() as int) =~= e);
}

/// Unframing the frame of any in-range code stream yields it back.
pub proof fn lemma_frame_round_trip(codes: Seq<int>)
    requires
        forall|k: int| 0 <= k < codes.len() ==> 0 <= #[trigger] codes[k] <= 0xffffffff,
    ensures
        unframe_codes(frame_codes(codes)) == Ok::<Seq<int>, AthenaError>(codes),
    decreases codes.len(),
{
    if codes.len() == 0 {
        assert(frame_codes(codes) =~= Seq::<u8>::empty());
        assert(codes =~= Seq::<int>::empty());
    } else {
        let c = codes[0];
        assert(0 <= c <= 0xffffffff);
        let e = leb128_unsigned(c as nat);
        let t = frame_codes(codes.drop_first());
        let d = frame_codes(codes);
        assert(d == e + t);
        lemma_frame_prefix(c as nat, t);
        assert(d.len() > 0);
        assert(unsigned_value(d) == c as nat);
        assert(d.skip(value_len(d)) =~= t);
        assert(forall|k: int|
            0 <= k < codes.drop_first().len() ==> codes.drop_first()[k] == codes[k + 1]);
        lemma_frame_round_trip(codes.drop_first());
        assert(unframe_codes(d.skip(value_len(d))) == Ok::<Seq<int>, AthenaError>(
            codes.drop_first(),
        ));
        assert(unframe_codes(d) == Ok::<Seq<int>, AthenaError>(
            seq![unsigned_value(d) as int] + codes.drop_first(),
        ));
        assert(seq![unsigned_value(d) as int] + codes.drop_first() =~= codes);
    }
}

/// The dictionary never shrinks while scanning, grows by at most one entry
/// per input byte, and keeps its existing entries in place.
proof fn lemma_compress_dict_len(dict: Seq<Seq<u8>>, w: Seq<u8>, data: Seq<u8>)
    ensures
        dict.len() <= compress_dict(dict, w, data).len() <= dict.len() + data.len(),
        forall|j: int| 0 <= j < dict.len() ==> #[trigger] compress_dict(dict, w, data)[j]
            == dict[j],
    decreases data.len(),
{
    if data.len() == 0 {
    } else {
        let wb = w.push(data[0]);
        if dict_contains(dict, wb) {
            lemma_compress_dict_len(dict, wb, data.drop_first());
        } else {
            lemma_compress_dict_len(dict.push(wb), seq![data[0]], data.drop_first());
            assert(forall|j: int| 0 <= j < dict.len() ==> dict.push(wb)[j] == dict[j]);
        }
    }
}

/// Every emitted code names an entry of the final dictionary.
proof fn lemma_codes_bounded(dict: Seq<Seq<u8>>, w: Seq<u8>, data: Seq<u8>)
    requires
        forall|b: u8| #[trigger] dict_contains(dict, seq![b]),
        w.len() > 0 ==> dict_contains(dict, w),
    ensures
        forall|k: int|
            0 <= k < compress_codes(dict, w, data).len() ==> 0 <= #[trigger] compress_codes(
                dict,
                w,
                data,
            )[k] < compress_dict(dict, w, data).len(),
    decreases data.len(),
{
    if data.len() == 0 {
        if w.len() > 0 {
            lemma_find_code_props(dict, w);
            let codes = compress_codes(dict, w, data);
            assert(codes == seq![find_code(dict, w).unwrap()]);
            assert forall|k: int| 0 <= k < codes.len() implies 0 <= #[trigger] codes[k]
                < compress_dict(dict, w, data).len() by {
                assert(codes[k] == find_code(dict, w).unwrap());
            }
        }
    } else {
        let wb = w.push(data[0]);
        if dict_contains(dict, wb) {
            lemma_codes_bounded(dict, wb, data.drop_first());
            assert(compress_codes(dict, w, data) == compress_codes(dict, wb, data.drop_first()));
            assert(compress_dict(dict, w, data) == compress_dict(dict, wb, data.drop_first()));
        } else {
            let b = data[0];
            // the prefix cannot be empty: single bytes are always present
            assert(w.len() > 0) by {
                if w.len() == 0 {
                    assert(wb =~= seq![b]);
                    assert(dict_contains(dict, seq![b]));
                }
            }
            lemma_find_code_props(dict, w);
            let c = find_code(dict, w).unwrap();
            assert forall|bb: u8| #[trigger] dict_contains(dict.push(wb), seq![bb]) by {
                lemma_find_code_push(dict, seq![bb], wb);
            }
            lemma_codes_bounded(dict.push(wb), seq![b], data.drop_first());
            lemma_compress_dict_len(dict.push(wb), seq![b], data.drop_first());
            let codes = compress_codes(dict, w, data);
            let codes2 = compress_codes(dict.push(wb), seq![b], data.drop_first());
            assert(codes == seq![c] + codes2);
            assert(compress_dict(dict, w, data) == compress_dict(
                dict.push(wb),
                seq![b],
                data.drop_first(),
            ));
            assert forall|k: int| 0 <= k < codes.len() implies 0 <= #[trigger] codes[k]
                < compress_dict(dict, w, data).len() by {
                if k == 0 {
                    assert(codes[0] == c);
                } else {
                    assert(codes[k] == codes2[k - 1]);
                }
            }
        }
    }
}

/// During one scan, each emitted code except the final flush inserts exactly
/// one dictionary entry.
proof fn lemma_dict_growth_rec(dict: Seq<Seq<u8>>, w: Seq<u8>, data: Seq<u8>)
    requires
        w.len() >= 1,
    ensures
        compress_dict(dict, w, data).len() + 1 == dict.len() + compress_codes(
            dict,
            w,
            data,
        ).len(),
    decreases data.len(),
{
    if data.len() == 0 {
    } else {
        let wb = w.push(data[0]);
        if dict_contains(dict, wb) {
            lemma_dict_growth_rec(dict, wb, data.drop_first());
        } else {
            lemma_dict_growth_rec(dict.push(wb), seq![data[0]], data.drop_first());
        }
    }
}

/// Monotonic dictionary growth: compression leaves the 256 initial entries
/// in place and adds exactly one entry per emitted code, except for the
/// final flush, so the inserted entries take the consecutive codes
/// 256, 257, ... in emission order, with no gaps and no reuse.
pub proof fn lemma_dict_growth(data: Seq<u8>)
    ensures
        compress_dict_spec(data).len() >= 256,
        forall|j: int| 0 <= j < 256 ==> #[trigger] compress_dict_spec(data)[j]
            == lzw_init_dict()[j],
        data.len() == 0 ==> compress_dict_spec(data) == lzw_init_dict() && compress_spec(
            data,
        ).len() == 0,
        data.len() > 0 ==> compress_dict_spec(data).len() == 255 + compress_spec(data).len(),
        compress_dict_spec(data).len() <= 256 + data.len(),
{
    let init = lzw_init_dict();
    lemma_compress_dict_len(init, seq![], data);
    if data.len() == 0 {
        assert(compress_spec(data) == Seq::<int>::empty());
    } else {
        let d0 = data[0];
        assert(Seq::<u8>::empty().push(d0) =~= seq![d0]);
        lemma_init_dict_code(d0);
        assert(compress_spec(data) == compress_codes(init, seq![d0], data.drop_first()));
        assert(compress_dict_spec(data) == compress_dict(init, seq![d0], data.drop_first()));
        lemma_dict_growth_rec(init, seq![d0], data.drop_first());
    }
}

/// Full round trip through the byte frame: unframing and decompressing the
/// framed compression of any byte sequence yields that sequence back. The
/// length bound keeps every code within the 32-bit framing width.
pub proof fn lemma_framed_round_trip(data: Seq<u8>)
    requires
        data.len() <= 0xffffff00,
    ensures
        unframe_and_decompress_spec(frame_codes(compress_spec(data))) == Ok::<
            Seq<u8>,
            AthenaError,
        >(data),
{
    lemma_lzw_round_trip(data);
    let init = lzw_init_dict();
    assert forall|b: u8| #[trigger] dict_contains(init, seq![b]) by {
        lemma_init_dict_code(b);
    }
    lemma_codes_bounded(init, seq![], data);
    lemma_compress_dict_len(init, seq![], data);
    let codes = compress_spec(data);
    assert forall|k: int| 0 <= k < codes.len() implies 0 <= #[trigger] codes[k]
        <= 0xffffffff by {
        assert(codes[k] < compress_dict_spec(data).len());
    }
    lemma_frame_round_trip(codes);
}

} // verus!
