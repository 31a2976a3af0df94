//! The RESP decoder: a specification-level decoding function over byte
//! sequences, the executable decoder proved to match it, and the streaming
//! entry points used by the connection layer.
//!
//! Decoding is resumable: an incomplete frame reports "more bytes needed" and
//! consumes nothing, so a connection can retry once more bytes arrive. A
//! malformed prefix is a decode failure, fatal to the session that sent it.

use vstd::prelude::*;

verus! {

use vstd::utf8::{valid_utf8, decode_utf8};
use crate::resp::{Resp, RespData, enc};

/// The index of the first CR at or after `i`, or the length if there is none.
pub open spec fn find_cr(bytes: Seq<u8>, i: int) -> int
    recommends
        0 <= i <= bytes.len(),
    decreases bytes.len() - i when 0 <= i <= bytes.len()
{
    if i >= bytes.len() {
        bytes.len() as int
    } else if bytes[i] == 13 {
        i
    } else {
        find_cr(bytes, i + 1)
    }
}

/// `find_cr` returns the first CR position: nothing before it is a CR, and it
/// is a CR unless the end of the buffer was reached.
pub proof fn lemma_find_cr(bytes: Seq<u8>, i: int)
    requires
        0 <= i <= bytes.len(),
    ensures
        i <= find_cr(bytes, i) <= bytes.len(),
        forall|k: int| i <= k < find_cr(bytes, i) ==> bytes[k] != 13,
        find_cr(bytes, i) < bytes.len() ==> bytes[find_cr(bytes, i)] == 13,
    decreases bytes.len() - i,
{
    if i < bytes.len() && bytes[i] != 13 {
        lemma_find_cr(bytes, i + 1);
    }
}

/// A position with no CR before it (starting from `i`) that holds a CR, or
/// the end of a CR-free buffer, is exactly `find_cr`.
pub proof fn lemma_find_cr_is(bytes: Seq<u8>, i: int, j: int)
    requires
        0 <= i <= j <= bytes.len(),
        forall|k: int| i <= k < j ==> bytes[k] != 13,
        j == bytes.len() || bytes[j] == 13,
    ensures
        find_cr(bytes, i) == j,
    decreases j - i,
{
    if i < j {
        lemma_find_cr_is(bytes, i + 1, j);
    }
}

/// An ASCII decimal digit.
pub open spec fn is_digit(b: u8) -> bool {
    48 <= b <= 57
}

/// Every byte of the sequence is a decimal digit.
pub open spec fn all_digits(s: Seq<u8>) -> bool {
    forall|i: int| 0 <= i < s.len() ==> is_digit(s[i])
}

/// The number denoted by a sequence of decimal digits, most significant
/// first.
pub open spec fn digits_val(s: Seq<u8>) -> int
    decreases s.len(),
{
    if s.len() == 0 {
        0
    } else {
        digits_val(s.subrange(0, s.len() - 1)) * 10 + (s[s.len() - 1] - 48)
    }
}

/// The integer denoted by a header token: an optional sign, then at least
/// one digit, with the value confined to the signed 64-bit range. `None`
/// when the token is malformed or out of range.
pub open spec fn int_token(s: Seq<u8>) -> Option<int> {
    let signed = s.len() > 0 && (s[0] == 45 || s[0] == 43);
    let ds = if signed {
        s.subrange(1, s.len() as int)
    } else {
        s
    };
    if ds.len() > 0 && all_digits(ds) {
        let magnitude = digits_val(ds);
        let v = if s.len() > 0 && s[0] == 45 {
            -magnitude
        } else {
            magnitude
        };
        if i64::MIN <= v <= i64::MAX {
            Some(v)
        } else {
            None
        }
    } else {
        None
    }
}

/// Whether the range `[lo, hi)` holds an LF byte.
pub open spec fn has_lf(bytes: Seq<u8>, lo: int, hi: int) -> bool {
    exists|k: int| lo <= k < hi && bytes[k] == 10
}

/// The outcome of decoding one frame at a position: a value and the position
/// just past its encoding, a request for more bytes, or a malformed prefix.
pub enum FrameStep {
    Found(RespData, int),
    More,
    Bad,
}

/// The outcome of decoding a run of array elements.
pub enum ElemsStep {
    Found(Seq<RespData>, int),
    More,
    Bad,
}

/// Decodes one frame of `bytes` starting at `i`.
///
/// The position clamps exist only so the recursion visibly decreases; they
/// never change the result, since `find_cr` and frame decoding always move
/// forward (`lemma_find_cr`, `lemma_dec_progress`).
pub open spec fn dec_frame(bytes: Seq<u8>, i: int) -> FrameStep
    recommends
        0 <= i <= bytes.len(),
    decreases bytes.len() - i, 0int, 0int when 0 <= i <= bytes.len()
{
    if i >= bytes.len() {
        FrameStep::More
    } else {
        let tag = bytes[i];
        let cr0 = find_cr(bytes, i + 1);
        let cr = if cr0 < i + 1 { i + 1 } else { cr0 };
        if tag == 43 || tag == 45 {
            if cr >= bytes.len() {
                FrameStep::More
            } else if cr + 1 >= bytes.len() {
                FrameStep::More
            } else if bytes[cr + 1] != 10 {
                FrameStep::Bad
            } else {
                let content = bytes.subrange(i + 1, cr);
                if has_lf(bytes, i + 1, cr) || !valid_utf8(content) {
                    FrameStep::Bad
                } else if tag == 43 {
                    FrameStep::Found(RespData::SimpleString(decode_utf8(content)), cr + 2)
                } else {
                    FrameStep::Found(RespData::SimpleError(decode_utf8(content)), cr + 2)
                }
            }
        } else if tag == 58 {
            if cr >= bytes.len() {
                FrameStep::More
            } else if cr + 1 >= bytes.len() {
                FrameStep::More
            } else if bytes[cr + 1] != 10 {
                FrameStep::Bad
            } else {
                match int_token(bytes.subrange(i + 1, cr)) {
                    Option::Some(v) => FrameStep::Found(RespData::Integer(v), cr + 2),
                    Option::None => FrameStep::Bad,
                }
            }
        } else if tag == 36 || tag == 42 {
            if cr >= bytes.len() {
                FrameStep::More
            } else if cr + 1 >= bytes.len() {
                FrameStep::More
            } else if bytes[cr + 1] != 10 {
                FrameStep::Bad
            } else {
                let line = bytes.subrange(i + 1, cr);
                match int_token(line) {
                    Option::None => FrameStep::Bad,
                    Option::Some(n) => if n == -1 {
                        if line =~= seq![45u8, 49u8] {
                            FrameStep::Found(RespData::Null, cr + 2)
                        } else {
                            FrameStep::Bad
                        }
                    } else if n < 0 {
                        FrameStep::Bad
                    } else if tag == 36 {
                        if cr + 2 + n + 2 > bytes.len() {
                            FrameStep::More
                        } else if bytes[cr + 2 + n] != 13 || bytes[cr + 2 + n + 1] != 10 {
                            FrameStep::Bad
                        } else {
                            let content = bytes.subrange(cr + 2, cr + 2 + n);
                            if !valid_utf8(content) {
                                FrameStep::Bad
                            } else {
                                FrameStep::Found(
                                    RespData::BulkString(decode_utf8(content)),
                                    cr + 2 + n + 2,
                                )
                            }
                        }
                    } else {
                        match dec_elems(bytes, cr + 2, n) {
                            ElemsStep::Found(vs, end) => FrameStep::Found(
                                RespData::Array(vs),
                                end,
                            ),
                            ElemsStep::More => FrameStep::More,
                            ElemsStep::Bad => FrameStep::Bad,
                        }
                    },
                }
            }
        } else {
            FrameStep::Bad
        }
    }
}

/// Decodes `n` consecutive frames starting at `i`.
pub open spec fn dec_elems(bytes: Seq<u8>, i: int, n: int) -> ElemsStep
    recommends
        0 <= i <= bytes.len(),
        n >= 0,
    decreases bytes.len() - i, 1int, n when 0 <= i <= bytes.len() && n >= 0
{
    if n <= 0 {
        ElemsStep::Found(Seq::empty(), i)
    } else if i >= bytes.len() {
        ElemsStep::More
    } else {
        match dec_frame(bytes, i) {
            FrameStep::Found(v, j0) => {
                let j = if j0 <= i {
                    i + 1
                } else if j0 > bytes.len() {
                    bytes.len() as int
                } else {
                    j0
                };
                match dec_elems(bytes, j, n - 1) {
                    ElemsStep::Found(vs, end) => ElemsStep::Found(seq![v] + vs, end),
                    ElemsStep::More => ElemsStep::More,
                    ElemsStep::Bad => ElemsStep::Bad,
                }
            },
            FrameStep::More => ElemsStep::More,
            FrameStep::Bad => ElemsStep::Bad,
        }
    }
}

/// Decoding always moves forward: a decoded frame ends strictly past where it
/// began and within the buffer, and a decoded run of `n` elements ends at or
/// past where it began and yields exactly `n` values.
pub proof fn lemma_dec_progress(bytes: Seq<u8>, i: int, n: int)
    requires
        0 <= i <= bytes.len(),
        n >= 0,
    ensures
        dec_frame(bytes, i) matches FrameStep::Found(v, j) ==> i < j <= bytes.len(),
        dec_elems(bytes, i, n) matches ElemsStep::Found(vs, end) ==> i <= end <= bytes.len()
            && vs.len() == n,
    decreases bytes.len() - i,
{
    if i < bytes.len() {
        lemma_find_cr(bytes, i + 1);
        let cr = find_cr(bytes, i + 1);
        if cr + 2 <= bytes.len() && bytes[i] == 42 {
            let line = bytes.subrange(i + 1, cr);
            match int_token(line) {
                Option::Some(m) => {
                    if m >= 0 {
                        lemma_dec_progress(bytes, cr + 2, m);
                    }
                },
                Option::None => {},
            }
        }
    }
    if n > 0 && i < bytes.len() {
        match dec_frame(bytes, i) {
            FrameStep::Found(v, j) => {
                assert(i < j <= bytes.len());
                lemma_dec_progress(bytes, j, n - 1);
            },
            FrameStep::More => {},
            FrameStep::Bad => {},
        }
    }
}

/// The outcome of decoding a whole buffer: the longest run of complete frames
/// and the position just past them, or a malformed-prefix failure.
pub enum StreamStep {
    Done(Seq<RespData>, int),
    Bad,
}

/// Decodes frames from position `i` until the buffer runs out of complete
/// frames (stopping cleanly before an incomplete trailing frame) or a
/// malformed prefix is hit.
pub open spec fn dec_stream(bytes: Seq<u8>, i: int) -> StreamStep
    recommends
        0 <= i <= bytes.len(),
    decreases bytes.len() - i when 0 <= i <= bytes.len()
{
    if i >= bytes.len() {
        StreamStep::Done(Seq::empty(), i)
    } else {
        match dec_frame(bytes, i) {
            FrameStep::Found(v, j0) => {
                let j = if j0 <= i || j0 > bytes.len() {
                    i + 1
                } else {
                    j0
                };
                match dec_stream(bytes, j) {
                    StreamStep::Done(vs, end) => StreamStep::Done(seq![v] + vs, end),
                    StreamStep::Bad => StreamStep::Bad,
                }
            },
            FrameStep::More => StreamStep::Done(Seq::empty(), i),
            FrameStep::Bad => StreamStep::Bad,
        }
    }
}

/// A number written with digits only is never negative.
pub proof fn lemma_digits_val_nonneg(s: Seq<u8>)
    requires
        all_digits(s),
    ensures
        digits_val(s) >= 0,
    decreases s.len(),
{
    if s.len() > 0 {
        let head = s.subrange(0, s.len() - 1);
        assert(all_digits(head));
        lemma_digits_val_nonneg(head);
    }
}

/// Reading one more digit multiplies the value by ten and adds the digit.
pub proof fn lemma_digits_val_step(s: Seq<u8>, i: int)
    requires
        0 <= i < s.len(),
    ensures
        digits_val(s.subrange(0, i + 1)) == 10 * digits_val(s.subrange(0, i)) + (s[i] - 48),
{
    let t = s.subrange(0, i + 1);
    assert(t.subrange(0, i) =~= s.subrange(0, i));
    assert(t[i] == s[i]);
}

/// A digit string is worth at least any of its prefixes.
pub proof fn lemma_digits_val_mono(s: Seq<u8>, j: int)
    requires
        all_digits(s),
        0 <= j <= s.len(),
    ensures
        digits_val(s) >= digits_val(s.subrange(0, j)),
    decreases s.len() - j,
{
    if j < s.len() {
        lemma_digits_val_step(s, j);
        let pre = s.subrange(0, j);
        assert(all_digits(pre));
        lemma_digits_val_nonneg(pre);
        lemma_digits_val_mono(s, j + 1);
    } else {
        assert(s.subrange(0, j) =~= s);
    }
}

/// Relies on `String::from_utf8`: it succeeds exactly on valid UTF-8 input
/// and returns the string of those bytes, which `decode_utf8` models.
#[verifier::external_body]
fn string_from_utf8(bytes: Vec<u8>) -> (r: Option<String>)
    ensures
        r is Some <==> valid_utf8(bytes@),
        r is Some ==> r->0@ == decode_utf8(bytes@),
{
    match String::from_utf8(bytes) {
        Ok(s) => Some(s),
        Err(_) => None,
    }
}

/// Finds the first CR at or after `from`.
fn find_cr_exec(bytes: &[u8], from: usize) -> (r: usize)
    requires
        from <= bytes@.len(),
    ensures
        r == find_cr(bytes@, from as int),
{
    let n = bytes.len();
    let mut k = from;
    while k < n
        invariant
            from <= k <= n,
            n == bytes@.len(),
            forall|t: int| from <= t < k ==> bytes@[t] != 13,
        decreases n - k,
    {
        if bytes[k] == 13 {
            proof {
                lemma_find_cr_is(bytes@, from as int, k as int);
            }
            return k;
        }
        k = k + 1;
    }
    proof {
        lemma_find_cr_is(bytes@, from as int, n as int);
    }
    n
}

/// Whether the range `[lo, hi)` holds an LF byte.
fn has_lf_exec(bytes: &[u8], lo: usize, hi: usize) -> (r: bool)
    requires
        lo <= hi <= bytes@.len(),
    ensures
        r == has_lf(bytes@, lo as int, hi as int),
{
    let mut k = lo;
    while k < hi
        invariant
            lo <= k <= hi <= bytes@.len(),
            forall|t: int| lo <= t < k ==> bytes@[t] != 10,
        decreases hi - k,
    {
        if bytes[k] == 10 {
            return true;
        }
        k = k + 1;
    }
    false
}

/// Parses the header token in `[lo, hi)` as a signed 64-bit decimal integer,
/// exactly as `int_token` describes: `None` on a malformed or out-of-range
/// token.
fn parse_int_range(bytes: &[u8], lo: usize, hi: usize) -> (r: Option<i64>)
    requires
        lo <= hi <= bytes@.len(),
    ensures
        match r {
            Option::Some(v) => int_token(bytes@.subrange(lo as int, hi as int)) == Option::Some(
                v as int,
            ),
            Option::None => int_token(bytes@.subrange(lo as int, hi as int)) is None,
        },
{
    let ghost tok = bytes@.subrange(lo as int, hi as int);
    if lo == hi {
        return None;
    }
    let first = bytes[lo];
    let neg = first == 45;
    let signed = first == 45 || first == 43;
    let dlo = if signed {
        lo + 1
    } else {
        lo
    };
    let ghost ds = bytes@.subrange(dlo as int, hi as int);
    proof {
        if signed {
            assert(tok.subrange(1, tok.len() as int) =~= ds);
        } else {
            assert(tok =~= ds);
        }
    }
    if dlo == hi {
        return None;
    }
    let limit: u64 = if neg {
        9223372036854775808
    } else {
        9223372036854775807
    };
    let mut acc: u64 = 0;
    let mut k = dlo;
    while k < hi
        invariant
            lo <= dlo <= k <= hi <= bytes@.len(),
            dlo < hi,
            tok == bytes@.subrange(lo as int, hi as int),
            ds == bytes@.subrange(dlo as int, hi as int),
            tok.len() > 0,
            signed == (tok[0] == 45 || tok[0] == 43),
            neg == (tok[0] == 45),
            dlo == if signed {
                lo + 1
            } else {
                lo as int
            },
            ds == if signed {
                tok.subrange(1, tok.len() as int)
            } else {
                tok
            },
            forall|t: int| 0 <= t < k - dlo ==> is_digit(ds[t]),
            acc == digits_val(ds.subrange(0, k - dlo)),
            acc <= limit,
            limit == if neg {
                9223372036854775808u64
            } else {
                9223372036854775807u64
            },
        decreases hi - k,
    {
        let b = bytes[k];
        assert(b == ds[k - dlo]);
        if b < 48 || b > 57 {
            assert(!all_digits(ds));
            return None;
        }
        let dv: u64 = (b - 48) as u64;
        proof {
            lemma_digits_val_step(ds, k - dlo);
        }
        if acc > (limit - dv) / 10 {
            proof {
                vstd::arithmetic::div_mod::lemma_fundamental_div_mod(
                    limit as int - dv as int,
                    10,
                );
                assert(10 * (acc as int) + dv as int > limit as int);
                assert(digits_val(ds.subrange(0, k - dlo + 1)) > limit as int);
                assert forall|t: int| 0 <= t < ds.len() implies is_digit(ds[t]) || !all_digits(
                    ds,
                ) by {}
                if all_digits(ds) {
                    lemma_digits_val_mono(ds, k - dlo + 1);
                    assert(digits_val(ds) > limit as int);
                }
            }
            return None;
        }
        proof {
            vstd::arithmetic::div_mod::lemma_fundamental_div_mod(limit as int - dv as int, 10);
        }
        acc = acc * 10 + dv;
        k = k + 1;
    }
    proof {
        assert(ds.subrange(0, ds.len() as int) =~= ds);
        assert(all_digits(ds));
        assert(acc == digits_val(ds));
    }
    if neg {
        if acc == 9223372036854775808 {
            Some(i64::MIN)
        } else {
            Some(-(acc as i64))
        }
    } else {
        Some(acc as i64)
    }
}

/// The outcome of one executable decode step: a value and the position just
/// past its frame, a request for more bytes, or a malformed prefix.
pub enum DecodeStep {
    Found(Resp, usize),
    More,
    Bad,
}

enum ElemsDecoded {
    Found(Vec<Resp>, usize),
    More,
    Bad,
}

/// Decodes one frame of `bytes` starting at `i`, exactly as the
/// specification-level `dec_frame` describes.
pub fn decode_at(bytes: &[u8], i: usize) -> (r: DecodeStep)
    requires
        i <= bytes@.len(),
    ensures
        match r {
            DecodeStep::Found(v, j) => dec_frame(bytes@, i as int) == FrameStep::Found(
                v@,
                j as int,
            ) && j <= bytes@.len(),
            DecodeStep::More => dec_frame(bytes@, i as int) is More,
            DecodeStep::Bad => dec_frame(bytes@, i as int) is Bad,
        },
    decreases bytes@.len() - i, 0int, 0int,
{
    let n = bytes.len();
    if i >= n {
        return DecodeStep::More;
    }
    let tag = bytes[i];
    if tag != 43 && tag != 45 && tag != 58 && tag != 36 && tag != 42 {
        return DecodeStep::Bad;
    }
    let cr = find_cr_exec(bytes, i + 1);
    proof {
        lemma_find_cr(bytes@, i as int + 1);
    }
    if cr >= n || cr + 1 >= n {
        return DecodeStep::More;
    }
    if bytes[cr + 1] != 10 {
        return DecodeStep::Bad;
    }
    if tag == 43 || tag == 45 {
        if has_lf_exec(bytes, i + 1, cr) {
            return DecodeStep::Bad;
        }
        let content = vstd::slice::slice_subrange(bytes, i + 1, cr);
        match string_from_utf8(vstd::slice::slice_to_vec(content)) {
            Option::Some(s) => {
                if tag == 43 {
                    DecodeStep::Found(Resp::SimpleString(s), cr + 2)
                } else {
                    DecodeStep::Found(Resp::SimpleError(s), cr + 2)
                }
            },
            Option::None => DecodeStep::Bad,
        }
    } else if tag == 58 {
        match parse_int_range(bytes, i + 1, cr) {
            Option::Some(v) => DecodeStep::Found(Resp::Integer(v), cr + 2),
            Option::None => DecodeStep::Bad,
        }
    } else {
        let ghost line = bytes@.subrange(i as int + 1, cr as int);
        match parse_int_range(bytes, i + 1, cr) {
            Option::None => DecodeStep::Bad,
            Option::Some(m) => {
                if m == -1 {
                    if cr == i + 3 && bytes[i + 1] == 45 && bytes[i + 2] == 49 {
                        proof {
                            assert(line =~= seq![45u8, 49u8]);
                        }
                        DecodeStep::Found(Resp::Null, cr + 2)
                    } else {
                        proof {
                            if line =~= seq![45u8, 49u8] {
                                assert(cr == i + 3 && bytes@[i as int + 1] == 45
                                    && bytes@[i as int + 2] == 49);
                            }
                        }
                        DecodeStep::Bad
                    }
                } else if m < 0 {
                    DecodeStep::Bad
                } else if tag == 36 {
                    let start = cr + 2;
                    let avail = n - start;
                    if (m as u64) + 2 > (avail as u64) {
                        return DecodeStep::More;
                    }
                    let mlen = m as usize;
                    if bytes[start + mlen] != 13 || bytes[start + mlen + 1] != 10 {
                        return DecodeStep::Bad;
                    }
                    let content = vstd::slice::slice_subrange(bytes, start, start + mlen);
                    match string_from_utf8(vstd::slice::slice_to_vec(content)) {
                        Option::Some(s) => DecodeStep::Found(
                            Resp::BulkString(s),
                            start + mlen + 2,
                        ),
                        Option::None => DecodeStep::Bad,
                    }
                } else {
                    match decode_elems_at(bytes, cr + 2, m) {
                        ElemsDecoded::Found(items, end) => DecodeStep::Found(
                            Resp::Array(items),
                            end,
                        ),
                        ElemsDecoded::More => DecodeStep::More,
                        ElemsDecoded::Bad => DecodeStep::Bad,
                    }
                }
            },
        }
    }
}

/// The stream decoder continued from `pos`, with `done` already decoded:
/// what the whole-buffer decoding amounts to once `done` is prepended.
pub open spec fn stream_from(bytes: Seq<u8>, done: Seq<RespData>, pos: int) -> StreamStep {
    match dec_stream(bytes, pos) {
        StreamStep::Done(vs, end) => StreamStep::Done(done + vs, end),
        StreamStep::Bad => StreamStep::Bad,
    }
}

/// Decodes every complete frame of the buffer, exactly as `dec_stream`
/// describes: the decoded values and the count of bytes consumed, stopping
/// cleanly before an incomplete trailing frame, or `None` on a malformed
/// prefix.
pub fn decode(bytes: &[u8]) -> (r: Option<(Vec<Resp>, usize)>)
    ensures
        match r {
            Option::Some(pair) => dec_stream(bytes@, 0) == StreamStep::Done(
                crate::resp::model_seq(pair.0@),
                pair.1 as int,
            ) && pair.1 <= bytes@.len(),
            Option::None => dec_stream(bytes@, 0) is Bad,
        },
{
    let n = bytes.len();
    let mut acc: Vec<Resp> = Vec::new();
    let mut pos: usize = 0;
    proof {
        assert(crate::resp::model_seq(acc@) =~= Seq::<RespData>::empty());
        match dec_stream(bytes@, 0) {
            StreamStep::Done(vs, end) => {
                assert(Seq::<RespData>::empty() + vs =~= vs);
            },
            StreamStep::Bad => {},
        }
    }
    loop
        invariant
            pos <= n,
            n == bytes@.len(),
            stream_from(bytes@, crate::resp::model_seq(acc@), pos as int) == dec_stream(
                bytes@,
                0,
            ),
        decreases bytes@.len() - pos,
    {
        match decode_at(bytes, pos) {
            DecodeStep::Found(v, j) => {
                proof {
                    lemma_dec_progress(bytes@, pos as int, 0);
                    crate::resp::lemma_model_seq_push(acc@, v);
                    match dec_stream(bytes@, j as int) {
                        StreamStep::Done(vs, end) => {
                            assert(dec_stream(bytes@, pos as int) == StreamStep::Done(
                                seq![v@] + vs,
                                end,
                            ));
                            assert((crate::resp::model_seq(acc@) + seq![v@]) + vs
                                =~= crate::resp::model_seq(acc@) + (seq![v@] + vs));
                        },
                        StreamStep::Bad => {},
                    }
                }
                acc.push(v);
                pos = j;
            },
            DecodeStep::More => {
                proof {
                    assert(dec_stream(bytes@, pos as int) == StreamStep::Done(
                        Seq::<RespData>::empty(),
                        pos as int,
                    ));
                    assert(crate::resp::model_seq(acc@) + Seq::<RespData>::empty()
                        =~= crate::resp::model_seq(acc@));
                }
                return Some((acc, pos));
            },
            DecodeStep::Bad => {
                return None;
            },
        }
    }
}

/// The fixed reply for a buffer this connection cannot parse.
fn protocol_error() -> (r: Resp)
    ensures
        r@ == RespData::SimpleError("ERR protocol error"@),
{
    Resp::SimpleError(String::from_str("ERR protocol error"))
}

impl Resp {
    /// Parses a buffer that must hold exactly a whole number of frames:
    /// the decoded values, or a protocol-error reply when the buffer is
    /// malformed or ends in an incomplete frame.
    pub fn parse(bytes: &[u8]) -> (r: Result<Vec<Resp>, Resp>)
        ensures
            match r {
                Result::Ok(vs) => dec_stream(bytes@, 0) == StreamStep::Done(
                    crate::resp::model_seq(vs@),
                    bytes@.len() as int,
                ),
                Result::Err(e) => e@ == RespData::SimpleError("ERR protocol error"@) && match
                    dec_stream(bytes@, 0) {
                    StreamStep::Done(vs, end) => end < bytes@.len(),
                    StreamStep::Bad => true,
                },
            },
    {
        match decode(bytes) {
            Option::Some((vs, consumed)) => {
                if consumed == bytes.len() {
                    Ok(vs)
                } else {
                    Err(protocol_error())
                }
            },
            Option::None => Err(protocol_error()),
        }
    }
}

impl Resp {
    /// The wire encoding as text: every encoding is valid UTF-8, so the
    /// encoded bytes read back as a string.
    pub fn encode_to_string(&self) -> (r: String)
        ensures
            r@ == decode_utf8(enc(self@)),
    {
        let bytes = self.encode();
        proof {
            crate::laws::lemma_enc_valid(self@);
        }
        match string_from_utf8(bytes) {
            Option::Some(s) => s,
            Option::None => {
                proof {
                    assert(false);
                }
                String::new()
            },
        }
    }
}

/// Decodes the first frame of the buffer: the value and the unread rest, or
/// `None` with the whole buffer when no complete frame starts it.
pub fn parse_resp<'a>(bytes: &'a [u8]) -> (r: (Option<Resp>, &'a [u8]))
    ensures
        match r.0 {
            Option::Some(v) => dec_frame(bytes@, 0) == FrameStep::Found(
                v@,
                bytes@.len() - r.1@.len(),
            ) && r.1@ == bytes@.subrange(bytes@.len() - r.1@.len(), bytes@.len() as int),
            Option::None => !(dec_frame(bytes@, 0) is Found) && r.1@ == bytes@,
        },
{
    match decode_at(bytes, 0) {
        DecodeStep::Found(v, j) => {
            let rest = vstd::slice::slice_subrange(bytes, j, bytes.len());
            (Some(v), rest)
        },
        DecodeStep::More => (None, bytes),
        DecodeStep::Bad => (None, bytes),
    }
}

/// A resumable decoder: buffers bytes across calls so that a frame may
/// arrive in arbitrary pieces.
pub struct Codec {
    buffer: Vec<u8>,
}

impl View for Codec {
    type V = Seq<u8>;

    closed spec fn view(&self) -> Seq<u8> {
        self.buffer@
    }
}

impl Codec {
    /// An empty decoder.
    pub fn new() -> (c: Codec)
        ensures
            c@ == Seq::<u8>::empty(),
    {
        Codec { buffer: Vec::new() }
    }

    /// Appends newly arrived bytes and decodes every frame now complete,
    /// keeping the incomplete tail buffered for the next call. On a
    /// malformed prefix the buffer is dropped and a protocol-error reply is
    /// returned.
    pub fn feed(&mut self, data: &[u8]) -> (r: Result<Vec<Resp>, Resp>)
        ensures
            match r {
                Result::Ok(vs) => dec_stream(old(self)@ + data@, 0) == StreamStep::Done(
                    crate::resp::model_seq(vs@),
                    old(self)@.len() + data@.len() - final(self)@.len(),
                ) && final(self)@ == (old(self)@ + data@).subrange(
                    old(self)@.len() + data@.len() - final(self)@.len(),
                    (old(self)@.len() + data@.len()) as int,
                ),
                Result::Err(e) => dec_stream(old(self)@ + data@, 0) is Bad && final(self)@
                    == Seq::<u8>::empty() && e@ == RespData::SimpleError("ERR protocol error"@),
            },
    {
        let ghost all = old(self)@ + data@;
        self.buffer.extend_from_slice(data);
        assert(self.buffer@ == all);
        let n = self.buffer.len();
        match decode(self.buffer.as_slice()) {
            Option::Some((vs, consumed)) => {
                let tail = vstd::slice::slice_to_vec(
                    vstd::slice::slice_subrange(self.buffer.as_slice(), consumed, n),
                );
                self.buffer = tail;
                proof {
                    assert(self.buffer@ == all.subrange(consumed as int, all.len() as int));
                    assert(all.len() - self.buffer@.len() == consumed);
                }
                Ok(vs)
            },
            Option::None => {
                self.buffer = Vec::new();
                Err(protocol_error())
            },
        }
    }
}

/// Decodes `n` consecutive frames starting at `i`, exactly as `dec_elems`
/// describes.
fn decode_elems_at(bytes: &[u8], i: usize, n: i64) -> (r: ElemsDecoded)
    requires
        i <= bytes@.len(),
        n >= 0,
    ensures
        match r {
            ElemsDecoded::Found(items, end) => dec_elems(bytes@, i as int, n as int)
                == ElemsStep::Found(crate::resp::model_seq(items@), end as int) && end
                <= bytes@.len(),
            ElemsDecoded::More => dec_elems(bytes@, i as int, n as int) is More,
            ElemsDecoded::Bad => dec_elems(bytes@, i as int, n as int) is Bad,
        },
    decreases bytes@.len() - i, 1int, n as int,
{
    if n <= 0 {
        return ElemsDecoded::Found(Vec::new(), i);
    }
    if i >= bytes.len() {
        return ElemsDecoded::More;
    }
    match decode_at(bytes, i) {
        DecodeStep::Found(v, j) => {
            proof {
                lemma_dec_progress(bytes@, i as int, 0);
            }
            match decode_elems_at(bytes, j, n - 1) {
                ElemsDecoded::Found(mut items, end) => {
                    let ghost items0 = items@;
                    items.insert(0, v);
                    proof {
                        assert(items@.subrange(1, items@.len() as int) =~= items0);
                        assert(items@[0] == v);
                        assert(crate::resp::model_seq(items@) == seq![v@]
                            + crate::resp::model_seq(items0));
                    }
                    ElemsDecoded::Found(items, end)
                },
                ElemsDecoded::More => ElemsDecoded::More,
                ElemsDecoded::Bad => ElemsDecoded::Bad,
            }
        },
        DecodeStep::More => ElemsDecoded::More,
        DecodeStep::Bad => ElemsDecoded::Bad,
    }
}

} // verus!
