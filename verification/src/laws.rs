//! The codec's laws: encoding a well-formed value and decoding it back is
//! the identity, consuming exactly the encoded bytes, and any strict prefix
//! of an encoding decodes to "more bytes needed" with nothing consumed.

use vstd::prelude::*;

verus! {

use vstd::utf8::{
    encode_scalar, encode_utf8, char_is_scalar, char_u32_cast, encode_utf8_valid_utf8,
    encode_utf8_decode_utf8, valid_utf8, partial_valid_utf8, is_leading_byte_width_1,
    partial_valid_utf8_extend_ascii_block, valid_utf8_concat,
};
use crate::resp::{
    RespData, no_crlf, wf_data, wf_seq, dec_digits, dec_int, enc, enc_seq, crlf,
};
use crate::codec::{
    find_cr, lemma_find_cr, lemma_find_cr_is, lemma_dec_progress, is_digit, all_digits,
    digits_val, int_token, has_lf, FrameStep, ElemsStep, StreamStep, dec_frame, dec_elems,
    dec_stream,
};

/// The UTF-8 encoding of a character other than CR and LF contains neither a
/// CR byte nor an LF byte: one-byte encodings are the character itself, and
/// every byte of a longer encoding has its high bit set.
proof fn lemma_scalar_no_crlf(c: char)
    requires
        c != '\r',
        c != '\n',
    ensures
        forall|t: int|
            0 <= t < encode_scalar(c as u32).len() ==> #[trigger] encode_scalar(c as u32)[t]
                != 13 && encode_scalar(c as u32)[t] != 10,
{
    let u = c as u32;
    char_is_scalar(c);
    char_u32_cast(c, u);
    char_u32_cast('\r', '\r' as u32);
    char_u32_cast('\n', '\n' as u32);
    assert(('\r' as u32) == 13);
    assert(('\n' as u32) == 10);
    assert(u != 13 && u != 10);
    assert(u < 0x80 ==> ((u & 0x7F) as u8) == u) by (bit_vector);
    assert(forall|b: u32| ((0xC0u8 | ((b >> 6) & 0x1F) as u8) != 13) && ((0xC0u8 | ((b >> 6)
        & 0x1F) as u8) != 10)) by (bit_vector);
    assert(forall|b: u32| ((0xE0u8 | ((b >> 12) & 0x0F) as u8) != 13) && ((0xE0u8 | ((b >> 12)
        & 0x0F) as u8) != 10)) by (bit_vector);
    assert(forall|b: u32| ((0xF0u8 | ((b >> 18) & 0x7) as u8) != 13) && ((0xF0u8 | ((b >> 18)
        & 0x7) as u8) != 10)) by (bit_vector);
    assert(forall|b: u32| ((0x80u8 | (b & 0x3F) as u8) != 13) && ((0x80u8 | (b & 0x3F) as u8)
        != 10)) by (bit_vector);
    assert(forall|b: u32| ((0x80u8 | ((b >> 6) & 0x3F) as u8) != 13) && ((0x80u8 | ((b >> 6)
        & 0x3F) as u8) != 10)) by (bit_vector);
    assert(forall|b: u32| ((0x80u8 | ((b >> 12) & 0x3F) as u8) != 13) && ((0x80u8 | ((b >> 12)
        & 0x3F) as u8) != 10)) by (bit_vector);
}

/// The UTF-8 encoding of CR-LF-free text contains no CR byte and no LF byte.
pub proof fn lemma_encode_utf8_no_crlf(s: Seq<char>)
    requires
        no_crlf(s),
    ensures
        forall|t: int|
            0 <= t < encode_utf8(s).len() ==> #[trigger] encode_utf8(s)[t] != 13 && encode_utf8(
                s,
            )[t] != 10,
    decreases s.len(),
{
    if s.len() > 0 {
        lemma_scalar_no_crlf(s[0]);
        let head = encode_scalar(s[0] as u32);
        let rest = s.drop_first();
        assert(no_crlf(rest)) by {
            assert(forall|i: int| 0 <= i < rest.len() ==> rest[i] == s[i + 1]);
        }
        lemma_encode_utf8_no_crlf(rest);
        assert forall|t: int| 0 <= t < encode_utf8(s).len() implies #[trigger] encode_utf8(s)[t]
            != 13 && encode_utf8(s)[t] != 10 by {
            if t < head.len() {
                assert(encode_utf8(s)[t] == head[t]);
            } else {
                assert(encode_utf8(s)[t] == encode_utf8(rest)[t - head.len()]);
            }
        }
    }
}

/// The decimal rendering of a number consists of digits, is never empty, and
/// denotes the number itself.
pub proof fn lemma_dec_digits(n: nat)
    ensures
        dec_digits(n).len() >= 1,
        all_digits(dec_digits(n)),
        digits_val(dec_digits(n)) == n,
    decreases n,
{
    if n < 10 {
        let s = dec_digits(n);
        assert(s =~= seq![(48 + n) as u8]);
        assert(s.subrange(0, 0) =~= Seq::<u8>::empty());
        assert(digits_val(Seq::<u8>::empty()) == 0);
        assert(digits_val(s) == digits_val(s.subrange(0, s.len() - 1)) * 10 + (s[s.len() - 1]
            - 48));
        assert(digits_val(s) == n);
    } else {
        lemma_dec_digits(n / 10);
        let s = dec_digits(n);
        assert(s =~= dec_digits(n / 10) + seq![(48 + n % 10) as u8]);
        assert(s.subrange(0, s.len() - 1) =~= dec_digits(n / 10));
        assert(s[s.len() - 1] == (48 + n % 10) as u8);
        vstd::arithmetic::div_mod::lemma_fundamental_div_mod(n as int, 10);
        assert(digits_val(s) == (n / 10) * 10 + n % 10);
    }
}

/// The header token of a canonically rendered in-range integer parses back
/// to that integer.
pub proof fn lemma_int_token_dec_int(i: int)
    requires
        i64::MIN <= i <= i64::MAX,
    ensures
        int_token(dec_int(i)) == Option::Some(i),
{
    if i < 0 {
        lemma_dec_digits((-i) as nat);
        let s = dec_int(i);
        let ds = dec_digits((-i) as nat);
        assert(s[0] == 45);
        assert(s.subrange(1, s.len() as int) =~= ds);
    } else {
        lemma_dec_digits(i as nat);
        let s = dec_int(i);
        assert(is_digit(s[0]));
        assert(s[0] != 45 && s[0] != 43);
    }
}

/// No byte of a canonically rendered integer is CR or LF.
pub proof fn lemma_dec_int_no_crlf(i: int)
    ensures
        forall|t: int|
            0 <= t < dec_int(i).len() ==> #[trigger] dec_int(i)[t] != 13 && dec_int(i)[t] != 10,
{
    if i < 0 {
        lemma_dec_digits((-i) as nat);
        assert forall|t: int| 0 <= t < dec_int(i).len() implies #[trigger] dec_int(i)[t] != 13
            && dec_int(i)[t] != 10 by {
            if t > 0 {
                assert(dec_int(i)[t] == dec_digits((-i) as nat)[t - 1]);
                assert(is_digit(dec_digits((-i) as nat)[t - 1]));
            }
        }
    } else {
        lemma_dec_digits(i as nat);
        assert forall|t: int| 0 <= t < dec_int(i).len() implies #[trigger] dec_int(i)[t] != 13
            && dec_int(i)[t] != 10 by {
            assert(is_digit(dec_digits(i as nat)[t]));
        }
    }
}

/// Pointwise view of a subrange equality.
proof fn lemma_embed_index(bytes: Seq<u8>, i: int, pat: Seq<u8>)
    requires
        0 <= i,
        i + pat.len() <= bytes.len(),
        bytes.subrange(i, i + pat.len()) == pat,
    ensures
        forall|t: int| 0 <= t < pat.len() ==> bytes[i + t] == pat[t],
{
    assert forall|t: int| 0 <= t < pat.len() implies bytes[i + t] == pat[t] by {
        assert(bytes.subrange(i, i + pat.len())[t] == bytes[i + t]);
    }
}

/// Every encoding is at least three bytes: a tag, then at least CR LF.
proof fn lemma_enc_len(v: RespData)
    ensures
        enc(v).len() >= 3,
{
    match v {
        RespData::SimpleString(_) => {},
        RespData::SimpleError(_) => {},
        RespData::Integer(_) => {},
        RespData::BulkString(_) => {},
        RespData::Array(vs) => {
            lemma_dec_digits(vs.len());
        },
        RespData::Null => {},
    }
}

/// A CR-LF-terminated header whose token holds no CR is delimited exactly at
/// the token's end.
proof fn lemma_header(bytes: Seq<u8>, i: int, tok: Seq<u8>)
    requires
        0 <= i,
        i + 1 + tok.len() + 2 <= bytes.len(),
        forall|t: int| 0 <= t < tok.len() ==> bytes[i + 1 + t] == tok[t],
        forall|t: int| 0 <= t < tok.len() ==> tok[t] != 13,
        bytes[i + 1 + tok.len()] == 13,
    ensures
        find_cr(bytes, i + 1) == i + 1 + tok.len(),
        bytes.subrange(i + 1, i + 1 + tok.len()) == tok,
{
    assert forall|k: int| i + 1 <= k < i + 1 + tok.len() implies bytes[k] != 13 by {
        assert(bytes[i + 1 + (k - i - 1)] == tok[k - i - 1]);
    }
    lemma_find_cr_is(bytes, i + 1, i + 1 + tok.len());
    assert forall|t: int| 0 <= t < tok.len() implies bytes.subrange(i + 1, i + 1 + tok.len())[t]
        == tok[t] by {
        assert(bytes[i + 1 + t] == tok[t]);
    }
    assert(bytes.subrange(i + 1, i + 1 + tok.len()) =~= tok);
}

/// Decoding finds a well-formed value's encoding wherever it is embedded:
/// the frame decoded at the encoding's start is exactly that value, ending
/// exactly at the encoding's end. Together with `lemma_dec_elems_of_enc`
/// this is the round-trip law's engine.
#[verifier::rlimit(100)]
pub proof fn lemma_dec_frame_of_enc(v: RespData, bytes: Seq<u8>, i: int)
    requires
        wf_data(v),
        0 <= i,
        i + enc(v).len() <= bytes.len(),
        bytes.subrange(i, i + enc(v).len()) == enc(v),
    ensures
        dec_frame(bytes, i) == FrameStep::Found(v, i + enc(v).len()),
    decreases v,
{
    let e = enc(v);
    lemma_embed_index(bytes, i, e);
    match v {
        RespData::SimpleString(s) => {
            let eu = encode_utf8(s);
            assert(e =~= seq![43u8] + eu + crlf());
            lemma_encode_utf8_no_crlf(s);
            assert(bytes[i] == e[0] && e[0] == 43);
            assert forall|t: int| 0 <= t < eu.len() implies bytes[i + 1 + t] == eu[t] by {
                assert(e[1 + t] == eu[t]);
            }
            assert(e[1 + eu.len() as int] == 13 && e[2 + eu.len() as int] == 10);
            lemma_header(bytes, i, eu.subrange(0, eu.len() as int));
            assert(eu.subrange(0, eu.len() as int) =~= eu);
            let cr = find_cr(bytes, i + 1);
            assert(cr == i + 1 + eu.len());
            assert(bytes[cr + 1] == 10);
            assert forall|k: int| i + 1 <= k < cr implies bytes[k] != 10 by {
                assert(bytes[i + 1 + (k - i - 1)] == eu[k - i - 1]);
            }
            assert(!has_lf(bytes, i + 1, cr));
            encode_utf8_valid_utf8(s);
            encode_utf8_decode_utf8(s);
        },
        RespData::SimpleError(s) => {
            let eu = encode_utf8(s);
            assert(e =~= seq![45u8] + eu + crlf());
            lemma_encode_utf8_no_crlf(s);
            assert(bytes[i] == e[0] && e[0] == 45);
            assert forall|t: int| 0 <= t < eu.len() implies bytes[i + 1 + t] == eu[t] by {
                assert(e[1 + t] == eu[t]);
            }
            assert(e[1 + eu.len() as int] == 13 && e[2 + eu.len() as int] == 10);
            lemma_header(bytes, i, eu.subrange(0, eu.len() as int));
            assert(eu.subrange(0, eu.len() as int) =~= eu);
            let cr = find_cr(bytes, i + 1);
            assert(cr == i + 1 + eu.len());
            assert(bytes[cr + 1] == 10);
            assert forall|k: int| i + 1 <= k < cr implies bytes[k] != 10 by {
                assert(bytes[i + 1 + (k - i - 1)] == eu[k - i - 1]);
            }
            assert(!has_lf(bytes, i + 1, cr));
            encode_utf8_valid_utf8(s);
            encode_utf8_decode_utf8(s);
        },
        RespData::Integer(n) => {
            let tok = dec_int(n);
            assert(e =~= seq![58u8] + tok + crlf());
            lemma_dec_int_no_crlf(n);
            assert(bytes[i] == e[0] && e[0] == 58);
            assert forall|t: int| 0 <= t < tok.len() implies bytes[i + 1 + t] == tok[t] by {
                assert(e[1 + t] == tok[t]);
            }
            assert(e[1 + tok.len() as int] == 13 && e[2 + tok.len() as int] == 10);
            lemma_header(bytes, i, tok);
            let cr = find_cr(bytes, i + 1);
            assert(cr == i + 1 + tok.len());
            assert(bytes[cr + 1] == 10);
            lemma_int_token_dec_int(n);
        },
        RespData::BulkString(s) => {
            let eu = encode_utf8(s);
            let dd = dec_digits(eu.len());
            lemma_dec_digits(eu.len());
            let dlen = dd.len() as int;
            assert(e =~= seq![36u8] + dd + crlf() + eu + crlf());
            assert(bytes[i] == e[0] && e[0] == 36);
            assert forall|t: int| 0 <= t < dlen implies bytes[i + 1 + t] == dd[t] && dd[t]
                != 13 by {
                assert(e[1 + t] == dd[t]);
                assert(is_digit(dd[t]));
            }
            assert(e[1 + dlen] == 13 && e[2 + dlen] == 10);
            lemma_header(bytes, i, dd);
            let cr = find_cr(bytes, i + 1);
            assert(cr == i + 1 + dlen);
            assert(bytes[cr + 1] == 10);
            let line = bytes.subrange(i + 1, cr);
            assert(line == dd);
            assert(line.len() > 0 && is_digit(line[0]));
            assert(int_token(line) == Option::Some(eu.len() as int));
            let n = eu.len() as int;
            assert(cr + 2 + n + 2 == i + e.len());
            assert forall|t: int| 0 <= t < n implies bytes[cr + 2 + t] == eu[t] by {
                assert(e[3 + dlen + t] == eu[t]);
            }
            assert(e[3 + dlen + n] == 13 && e[4 + dlen + n] == 10);
            assert(bytes[cr + 2 + n] == 13 && bytes[cr + 2 + n + 1] == 10);
            assert(bytes.subrange(cr + 2, cr + 2 + n) =~= eu);
            encode_utf8_valid_utf8(s);
            encode_utf8_decode_utf8(s);
            assert(dec_frame(bytes, i) == FrameStep::Found(v, i + e.len()));
        },
        RespData::Array(vs) => {
            let dd = dec_digits(vs.len());
            lemma_dec_digits(vs.len());
            let dlen = dd.len() as int;
            assert(e =~= seq![42u8] + dd + crlf() + enc_seq(vs));
            assert(bytes[i] == e[0] && e[0] == 42);
            assert forall|t: int| 0 <= t < dlen implies bytes[i + 1 + t] == dd[t] && dd[t]
                != 13 by {
                assert(e[1 + t] == dd[t]);
                assert(is_digit(dd[t]));
            }
            assert(e[1 + dlen] == 13 && e[2 + dlen] == 10);
            lemma_header(bytes, i, dd);
            let cr = find_cr(bytes, i + 1);
            assert(cr == i + 1 + dlen);
            assert(bytes[cr + 1] == 10);
            let line = bytes.subrange(i + 1, cr);
            assert(line == dd);
            assert(line.len() > 0 && is_digit(line[0]));
            assert(int_token(line) == Option::Some(vs.len() as int));
            assert forall|t: int| 0 <= t < enc_seq(vs).len() implies bytes[cr + 2 + t]
                == enc_seq(vs)[t] by {
                assert(e[3 + dlen + t] == enc_seq(vs)[t]);
            }
            assert(bytes.subrange(cr + 2, cr + 2 + enc_seq(vs).len()) =~= enc_seq(vs));
            lemma_dec_elems_of_enc(vs, bytes, cr + 2);
            assert(dec_elems(bytes, cr + 2, vs.len() as int) == ElemsStep::Found(
                vs,
                cr + 2 + enc_seq(vs).len(),
            ));
            assert(cr + 2 + enc_seq(vs).len() == i + e.len());
            assert(dec_frame(bytes, i) == FrameStep::Found(v, i + e.len()));
        },
        RespData::Null => {
            assert(e =~= seq![42u8, 45u8, 49u8] + crlf());
            assert(bytes[i + 0] == e[0] && bytes[i + 1] == e[1] && bytes[i + 2] == e[2]
                && bytes[i + 3] == e[3] && bytes[i + 4] == e[4]);
            assert(bytes[i] == 42 && bytes[i + 1] == 45 && bytes[i + 2] == 49 && bytes[i + 3]
                == 13 && bytes[i + 4] == 10);
            lemma_find_cr_is(bytes, i + 1, i + 3);
            let cr = find_cr(bytes, i + 1);
            assert(cr == i + 3);
            let line = bytes.subrange(i + 1, cr);
            assert(line =~= seq![45u8, 49u8]);
            let ds = line.subrange(1, 2);
            let one = seq![49u8];
            assert(ds =~= one);
            assert(one.subrange(0, 0) =~= Seq::<u8>::empty());
            assert(digits_val(Seq::<u8>::empty()) == 0);
            assert(digits_val(one) == (49 - 48) as int);
            assert(digits_val(ds) == 1);
            assert(int_token(line) == Option::Some(-1int));
            assert(dec_frame(bytes, i) == FrameStep::Found(v, i + e.len()));
        },
    }
}

/// Decoding a strict prefix of a well-formed value's encoding, lying at the
/// end of the buffer, asks for more bytes: it never errs and never yields a
/// value.
#[verifier::rlimit(100)]
pub proof fn lemma_dec_frame_of_prefix(v: RespData, bytes: Seq<u8>, i: int)
    requires
        wf_data(v),
        0 <= i <= bytes.len(),
        bytes.len() - i < enc(v).len(),
        bytes.subrange(i, bytes.len() as int) == enc(v).subrange(0, bytes.len() - i),
    ensures
        dec_frame(bytes, i) is More,
    decreases v,
{
    let e = enc(v);
    let avail = bytes.len() - i;
    assert forall|t: int| 0 <= t < avail implies bytes[i + t] == e[t] by {
        assert(bytes.subrange(i, bytes.len() as int)[t] == bytes[i + t]);
        assert(e.subrange(0, avail)[t] == e[t]);
    }
    if avail == 0 {
    } else {
        let ghost tok: Seq<u8> = match v {
            RespData::SimpleString(s) => encode_utf8(s),
            RespData::SimpleError(s) => encode_utf8(s),
            RespData::Integer(n) => dec_int(n),
            RespData::BulkString(s) => dec_digits(encode_utf8(s).len()),
            RespData::Array(vs) => dec_digits(vs.len()),
            RespData::Null => seq![45u8, 49u8],
        };
        match v {
            RespData::SimpleString(s) => {
                lemma_encode_utf8_no_crlf(s);
                assert(e =~= seq![43u8] + tok + crlf());
            },
            RespData::SimpleError(s) => {
                lemma_encode_utf8_no_crlf(s);
                assert(e =~= seq![45u8] + tok + crlf());
            },
            RespData::Integer(n) => {
                lemma_dec_int_no_crlf(n);
                assert(e =~= seq![58u8] + tok + crlf());
            },
            RespData::BulkString(s) => {
                lemma_dec_digits(encode_utf8(s).len());
                assert(e =~= seq![36u8] + tok + crlf() + encode_utf8(s) + crlf());
            },
            RespData::Array(vs) => {
                lemma_dec_digits(vs.len());
                assert(e =~= seq![42u8] + tok + crlf() + enc_seq(vs));
            },
            RespData::Null => {
                assert(e =~= seq![42u8] + tok + crlf());
            },
        }
        let hl = 1 + tok.len() as int;
        assert(bytes[i + 0] == e[0]);
        assert(forall|t: int| 0 <= t < tok.len() ==> e[1 + t] == tok[t]);
        assert(forall|t: int| 0 <= t < tok.len() ==> tok[t] != 13 && tok[t] != 10);
        assert(e[hl] == 13 && e[hl + 1] == 10);
        if avail <= hl {
            assert forall|k: int| i + 1 <= k < bytes.len() implies bytes[k] != 13 by {
                assert(bytes[i + (k - i)] == e[k - i]);
                assert(e[k - i] == tok[k - i - 1]);
            }
            lemma_find_cr_is(bytes, i + 1, bytes.len() as int);
            assert(dec_frame(bytes, i) is More);
        } else if avail == hl + 1 {
            assert forall|k: int| i + 1 <= k < i + hl implies bytes[k] != 13 by {
                assert(bytes[i + (k - i)] == e[k - i]);
                assert(e[k - i] == tok[k - i - 1]);
            }
            assert(bytes[i + hl] == e[hl]);
            lemma_find_cr_is(bytes, i + 1, i + hl);
            assert(find_cr(bytes, i + 1) + 1 >= bytes.len());
            assert(dec_frame(bytes, i) is More);
        } else {
            assert(avail >= hl + 2);
            assert forall|k: int| i + 1 <= k < i + hl implies bytes[k] != 13 by {
                assert(bytes[i + (k - i)] == e[k - i]);
                assert(e[k - i] == tok[k - i - 1]);
            }
            assert(bytes[i + hl] == e[hl]);
            lemma_find_cr_is(bytes, i + 1, i + hl);
            let cr = find_cr(bytes, i + 1);
            assert(cr == i + hl);
            assert(bytes[cr + 1] == e[hl + 1] && e[hl + 1] == 10);
            let line = bytes.subrange(i + 1, cr);
            assert forall|t: int| 0 <= t < tok.len() implies line[t] == tok[t] by {
                assert(bytes[i + 1 + t] == e[1 + t]);
            }
            assert(line =~= tok);
            match v {
                RespData::SimpleString(s) => {
                    assert(avail < e.len() && e.len() == hl + 2);
                },
                RespData::SimpleError(s) => {
                    assert(avail < e.len() && e.len() == hl + 2);
                },
                RespData::Integer(n) => {
                    assert(avail < e.len() && e.len() == hl + 2);
                },
                RespData::Null => {
                    assert(avail < e.len() && e.len() == hl + 2);
                },
                RespData::BulkString(s) => {
                    let n = encode_utf8(s).len() as int;
                    assert(int_token(line) == Option::Some(n));
                    assert(cr + 2 + n + 2 == i + e.len());
                    assert(cr + 2 + n + 2 > bytes.len());
                    assert(dec_frame(bytes, i) is More);
                },
                RespData::Array(vs) => {
                    let n = vs.len() as int;
                    assert(int_token(line) == Option::Some(n));
                    let j = cr + 2;
                    assert(j <= bytes.len());
                    assert forall|t: int| 0 <= t < bytes.len() - j implies bytes.subrange(
                        j,
                        bytes.len() as int,
                    )[t] == enc_seq(vs).subrange(0, bytes.len() - j)[t] by {
                        assert(bytes[j + t] == e[hl + 2 + t]);
                        assert(e[hl + 2 + t] == enc_seq(vs)[t]);
                    }
                    assert(bytes.subrange(j, bytes.len() as int) =~= enc_seq(vs).subrange(
                        0,
                        bytes.len() - j,
                    ));
                    assert(bytes.len() - j < enc_seq(vs).len());
                    lemma_dec_elems_of_prefix(vs, bytes, j);
                    assert(dec_frame(bytes, i) is More);
                },
            }
        }
    }
}

/// Decoding a run of values whose concatenated encodings are cut short at
/// the buffer's end asks for more bytes.
pub proof fn lemma_dec_elems_of_prefix(vs: Seq<RespData>, bytes: Seq<u8>, i: int)
    requires
        wf_seq(vs),
        0 <= i <= bytes.len(),
        bytes.len() - i < enc_seq(vs).len(),
        bytes.subrange(i, bytes.len() as int) == enc_seq(vs).subrange(0, bytes.len() - i),
    ensures
        dec_elems(bytes, i, vs.len() as int) is More,
    decreases vs,
{
    let avail = bytes.len() - i;
    assert(vs.len() > 0);
    let head = vs[0];
    let rest = vs.subrange(1, vs.len() as int);
    let e0 = enc(head);
    let erest = enc_seq(rest);
    assert(enc_seq(vs) == e0 + erest);
    assert forall|t: int| 0 <= t < avail implies bytes[i + t] == enc_seq(vs)[t] by {
        assert(bytes.subrange(i, bytes.len() as int)[t] == bytes[i + t]);
        assert(enc_seq(vs).subrange(0, avail)[t] == enc_seq(vs)[t]);
    }
    if avail == 0 {
        assert(dec_elems(bytes, i, vs.len() as int) is More);
    } else if avail < e0.len() {
        assert forall|t: int| 0 <= t < avail implies bytes.subrange(i, bytes.len() as int)[t]
            == e0.subrange(0, avail)[t] by {
            assert(bytes[i + t] == enc_seq(vs)[t]);
            assert(enc_seq(vs)[t] == e0[t]);
        }
        assert(bytes.subrange(i, bytes.len() as int) =~= e0.subrange(0, avail));
        lemma_dec_frame_of_prefix(head, bytes, i);
        assert(dec_elems(bytes, i, vs.len() as int) is More);
    } else {
        assert forall|t: int| 0 <= t < e0.len() implies bytes.subrange(i, i + e0.len())[t]
            == e0[t] by {
            assert(bytes[i + t] == enc_seq(vs)[t]);
            assert(enc_seq(vs)[t] == e0[t]);
        }
        assert(bytes.subrange(i, i + e0.len()) =~= e0);
        lemma_dec_frame_of_enc(head, bytes, i);
        let j = i + e0.len() as int;
        assert forall|t: int| 0 <= t < bytes.len() - j implies bytes.subrange(
            j,
            bytes.len() as int,
        )[t] == erest.subrange(0, bytes.len() - j)[t] by {
            assert(bytes[j + t] == enc_seq(vs)[e0.len() + t]);
            assert(enc_seq(vs)[e0.len() + t] == erest[t]);
        }
        assert(bytes.subrange(j, bytes.len() as int) =~= erest.subrange(0, bytes.len() - j));
        assert(bytes.len() - j < erest.len());
        lemma_dec_elems_of_prefix(rest, bytes, j);
        assert(dec_elems(bytes, i, vs.len() as int) is More);
    }
}

/// Decoding finds a run of well-formed values' encodings wherever they are
/// embedded, yielding exactly those values.
pub proof fn lemma_dec_elems_of_enc(vs: Seq<RespData>, bytes: Seq<u8>, i: int)
    requires
        wf_seq(vs),
        0 <= i,
        i + enc_seq(vs).len() <= bytes.len(),
        bytes.subrange(i, i + enc_seq(vs).len()) == enc_seq(vs),
    ensures
        dec_elems(bytes, i, vs.len() as int) == ElemsStep::Found(vs, i + enc_seq(vs).len()),
    decreases vs,
{
    if vs.len() == 0 {
        assert(enc_seq(vs).len() == 0);
        assert(vs =~= Seq::<RespData>::empty());
    } else {
        let head = vs[0];
        let rest = vs.subrange(1, vs.len() as int);
        let e0 = enc(head);
        let erest = enc_seq(rest);
        assert(enc_seq(vs) == e0 + erest);
        lemma_embed_index(bytes, i, enc_seq(vs));
        lemma_enc_len(head);
        assert forall|t: int| 0 <= t < e0.len() implies bytes[i + t] == e0[t] by {
            assert(enc_seq(vs)[t] == e0[t]);
        }
        assert(bytes.subrange(i, i + e0.len()) =~= e0);
        lemma_dec_frame_of_enc(head, bytes, i);
        let j = i + e0.len();
        assert forall|t: int| 0 <= t < erest.len() implies bytes[j + t] == erest[t] by {
            assert(enc_seq(vs)[e0.len() + t] == erest[t]);
        }
        assert(bytes.subrange(j, j + erest.len()) =~= erest);
        lemma_dec_elems_of_enc(rest, bytes, j);
        assert(seq![head] + rest =~= vs);
        assert(dec_elems(bytes, i, vs.len() as int) == ElemsStep::Found(
            vs,
            i + enc_seq(vs).len(),
        ));
    }
}

/// Round-trip: decoding the encoding of any well-formed value yields exactly
/// that value, consuming all of its bytes — both for a single frame and for
/// the stream decoder, which yields exactly the one value.
pub proof fn lemma_round_trip(v: RespData)
    requires
        wf_data(v),
    ensures
        dec_frame(enc(v), 0) == FrameStep::Found(v, enc(v).len() as int),
        dec_stream(enc(v), 0) == StreamStep::Done(seq![v], enc(v).len() as int),
{
    let e = enc(v);
    assert(e.subrange(0, e.len() as int) =~= e);
    lemma_dec_frame_of_enc(v, e, 0);
    lemma_enc_len(v);
    assert(dec_stream(e, e.len() as int) == StreamStep::Done(Seq::empty(), e.len() as int));
    assert(seq![v] + Seq::<RespData>::empty() =~= seq![v]);
}

/// Partial-frame resumability: a strict prefix of a well-formed value's
/// encoding, cut at any point, decodes to zero values and zero consumed
/// bytes; appending the remaining suffix restores the whole encoding, which
/// decodes to exactly the value.
pub proof fn lemma_partial_frame(v: RespData, k: int)
    requires
        wf_data(v),
        0 <= k < enc(v).len(),
    ensures
        dec_stream(enc(v).subrange(0, k), 0) == StreamStep::Done(Seq::empty(), 0),
        enc(v).subrange(0, k) + enc(v).subrange(k, enc(v).len() as int) == enc(v),
        dec_stream(enc(v), 0) == StreamStep::Done(seq![v], enc(v).len() as int),
{
    let p = enc(v).subrange(0, k);
    assert(p.subrange(0, p.len() as int) =~= enc(v).subrange(0, p.len() as int));
    lemma_dec_frame_of_prefix(v, p, 0);
    assert(p + enc(v).subrange(k, enc(v).len() as int) =~= enc(v));
    lemma_round_trip(v);
}

/// A CR or LF character in text puts the corresponding byte into the text's
/// UTF-8 encoding.
proof fn lemma_crlf_char_byte(s: Seq<char>, i: int)
    requires
        0 <= i < s.len(),
        s[i] == '\r' || s[i] == '\n',
    ensures
        exists|t: int|
            0 <= t < encode_utf8(s).len() && encode_utf8(s)[t] == (if s[i] == '\r' {
                13u8
            } else {
                10u8
            }),
    decreases i,
{
    let b: u8 = if s[i] == '\r' {
        13
    } else {
        10
    };
    let head = encode_scalar(s[0] as u32);
    let rest = s.drop_first();
    if i == 0 {
        char_is_scalar(s[0]);
        let u = s[0] as u32;
        assert(('\r' as u32) == 13 && ('\n' as u32) == 10);
        assert(u == 13 || u == 10);
        assert(((13u32 & 0x7F) as u8) == 13 && ((10u32 & 0x7F) as u8) == 10) by (bit_vector);
        assert(head[0] == b);
        assert(encode_utf8(s)[0] == b);
    } else {
        assert(rest[i - 1] == s[i]);
        lemma_crlf_char_byte(rest, i - 1);
        let t0 = choose|t0: int|
            0 <= t0 < encode_utf8(rest).len() && encode_utf8(rest)[t0] == b;
        assert(encode_utf8(s)[head.len() + t0] == encode_utf8(rest)[t0]);
    }
}

/// Valid UTF-8 content holding neither a CR byte nor an LF byte decodes to
/// text with neither character.
proof fn lemma_decoded_no_crlf(content: Seq<u8>)
    requires
        vstd::utf8::valid_utf8(content),
        forall|t: int| 0 <= t < content.len() ==> content[t] != 13 && content[t] != 10,
    ensures
        no_crlf(vstd::utf8::decode_utf8(content)),
{
    vstd::utf8::decode_utf8_encode_utf8(content);
    let s = vstd::utf8::decode_utf8(content);
    assert forall|i: int| 0 <= i < s.len() implies s[i] != '\r' && s[i] != '\n' by {
        if s[i] == '\r' || s[i] == '\n' {
            lemma_crlf_char_byte(s, i);
        }
    }
}

/// Every value the decoder yields satisfies the data-model invariant: no
/// line terminators inside simple strings or errors, and every size within
/// the header's range. Decoded values can therefore always be re-encoded.
pub proof fn lemma_dec_frame_wf(bytes: Seq<u8>, i: int)
    requires
        0 <= i <= bytes.len(),
    ensures
        dec_frame(bytes, i) matches FrameStep::Found(v, j) ==> wf_data(v),
    decreases bytes.len() - i, 0int,
{
    if i < bytes.len() {
        lemma_find_cr(bytes, i + 1);
        let cr = find_cr(bytes, i + 1);
        let tag = bytes[i];
        if cr + 1 < bytes.len() && bytes[cr + 1] == 10 {
            if tag == 43 || tag == 45 {
                let content = bytes.subrange(i + 1, cr);
                if !has_lf(bytes, i + 1, cr) && vstd::utf8::valid_utf8(content) {
                    assert forall|t: int| 0 <= t < content.len() implies content[t] != 13
                        && content[t] != 10 by {
                        assert(content[t] == bytes[i + 1 + t]);
                        assert(bytes[i + 1 + t] != 13);
                        assert(bytes[i + 1 + t] != 10) by {
                            if bytes[i + 1 + t] == 10 {
                                assert(has_lf(bytes, i + 1, cr));
                            }
                        }
                    }
                    lemma_decoded_no_crlf(content);
                }
            } else if tag == 36 {
                let line = bytes.subrange(i + 1, cr);
                match int_token(line) {
                    Option::Some(n) => {
                        if 0 <= n && cr + 2 + n + 2 <= bytes.len() {
                            let content = bytes.subrange(cr + 2, cr + 2 + n);
                            if vstd::utf8::valid_utf8(content) {
                                vstd::utf8::decode_utf8_encode_utf8(content);
                            }
                        }
                    },
                    Option::None => {},
                }
            } else if tag == 42 {
                let line = bytes.subrange(i + 1, cr);
                match int_token(line) {
                    Option::Some(n) => {
                        if n >= 0 {
                            lemma_dec_elems_wf(bytes, cr + 2, n);
                            lemma_dec_progress(bytes, cr + 2, n);
                        }
                    },
                    Option::None => {},
                }
            }
        }
    }
}

/// Every run of values the decoder yields is well-formed element-wise.
pub proof fn lemma_dec_elems_wf(bytes: Seq<u8>, i: int, n: int)
    requires
        0 <= i <= bytes.len(),
        n >= 0,
    ensures
        dec_elems(bytes, i, n) matches ElemsStep::Found(vs, end) ==> wf_seq(vs),
    decreases bytes.len() - i, 1int,
{
    if n > 0 && i < bytes.len() {
        match dec_frame(bytes, i) {
            FrameStep::Found(v, j) => {
                lemma_dec_frame_wf(bytes, i);
                lemma_dec_progress(bytes, i, 0);
                lemma_dec_elems_wf(bytes, j, n - 1);
                match dec_elems(bytes, j, n - 1) {
                    ElemsStep::Found(vs, end) => {
                        assert((seq![v] + vs).subrange(1, (seq![v] + vs).len() as int)
                            =~= vs);
                    },
                    ElemsStep::More => {},
                    ElemsStep::Bad => {},
                }
            },
            FrameStep::More => {},
            FrameStep::Bad => {},
        }
    }
}

/// A run of ASCII bytes is valid UTF-8.
proof fn lemma_ascii_valid(s: Seq<u8>)
    requires
        forall|i: int| 0 <= i < s.len() ==> s[i] < 0x80,
    ensures
        valid_utf8(s),
{
    assert(s.subrange(0, 0) =~= Seq::<u8>::empty());
    assert(partial_valid_utf8(s, 0));
    assert forall|i: int| 0 <= i < s.len() implies is_leading_byte_width_1(s[i]) by {
        let b = s[i];
        assert(b < 0x80 ==> (b >> 7) == 0) by (bit_vector);
    }
    partial_valid_utf8_extend_ascii_block(s, 0, s.len() as int);
    assert(s.subrange(0, s.len() as int) =~= s);
}

/// Every wire encoding is valid UTF-8: the frame structure is ASCII and the
/// payloads are UTF-8 themselves.
pub proof fn lemma_enc_valid(v: RespData)
    ensures
        valid_utf8(enc(v)),
    decreases v,
{
    match v {
        RespData::SimpleString(s) => {
            lemma_tagged_text_valid(43, s);
        },
        RespData::SimpleError(s) => {
            lemma_tagged_text_valid(45, s);
        },
        RespData::Integer(n) => {
            lemma_dec_int_no_crlf(n);
            lemma_int_ascii(n);
            lemma_ascii_valid(seq![58u8] + dec_int(n) + crlf());
        },
        RespData::BulkString(s) => {
            let eu = encode_utf8(s);
            let header = seq![36u8] + dec_digits(eu.len()) + crlf();
            lemma_dec_digits(eu.len());
            assert forall|i: int| 0 <= i < header.len() implies header[i] < 0x80 by {
                if 1 <= i < 1 + dec_digits(eu.len()).len() {
                    assert(is_digit(dec_digits(eu.len())[i - 1]));
                }
            }
            lemma_ascii_valid(header);
            encode_utf8_valid_utf8(s);
            lemma_ascii_valid(crlf());
            valid_utf8_concat(header, eu);
            valid_utf8_concat(header + eu, crlf());
            assert(enc(v) =~= (header + eu) + crlf());
        },
        RespData::Array(vs) => {
            let header = seq![42u8] + dec_digits(vs.len()) + crlf();
            lemma_dec_digits(vs.len());
            assert forall|i: int| 0 <= i < header.len() implies header[i] < 0x80 by {
                if 1 <= i < 1 + dec_digits(vs.len()).len() {
                    assert(is_digit(dec_digits(vs.len())[i - 1]));
                }
            }
            lemma_ascii_valid(header);
            lemma_enc_seq_valid(vs);
            valid_utf8_concat(header, enc_seq(vs));
            assert(enc(v) =~= header + enc_seq(vs));
        },
        RespData::Null => {
            lemma_ascii_valid(seq![42u8, 45u8, 49u8] + crlf());
            assert(enc(v) =~= seq![42u8, 45u8, 49u8] + crlf());
        },
    }
}

/// A concatenation of wire encodings is valid UTF-8.
pub proof fn lemma_enc_seq_valid(vs: Seq<RespData>)
    ensures
        valid_utf8(enc_seq(vs)),
    decreases vs,
{
    if vs.len() == 0 {
        assert(enc_seq(vs).subrange(0, 0) =~= Seq::<u8>::empty());
        lemma_ascii_valid(enc_seq(vs));
    } else {
        let tail = vs.subrange(1, vs.len() as int);
        lemma_enc_valid(vs[0]);
        lemma_enc_seq_valid(tail);
        valid_utf8_concat(enc(vs[0]), enc_seq(tail));
    }
}

/// The ASCII frame of a simple string or error around its UTF-8 text is
/// valid UTF-8.
proof fn lemma_tagged_text_valid(tag: u8, s: Seq<char>)
    requires
        tag < 0x80,
    ensures
        valid_utf8(seq![tag] + encode_utf8(s) + crlf()),
{
    let eu = encode_utf8(s);
    lemma_ascii_valid(seq![tag]);
    encode_utf8_valid_utf8(s);
    lemma_ascii_valid(crlf());
    valid_utf8_concat(seq![tag], eu);
    valid_utf8_concat(seq![tag] + eu, crlf());
}

/// Every byte of a rendered integer is ASCII.
proof fn lemma_int_ascii(n: int)
    ensures
        forall|i: int| 0 <= i < (seq![58u8] + dec_int(n) + crlf()).len() ==> (seq![58u8]
            + dec_int(n) + crlf())[i] < 0x80,
{
    if n < 0 {
        lemma_dec_digits((-n) as nat);
    } else {
        lemma_dec_digits(n as nat);
    }
    let e = seq![58u8] + dec_int(n) + crlf();
    assert forall|i: int| 0 <= i < e.len() implies e[i] < 0x80 by {
        if 1 <= i < 1 + dec_int(n).len() {
            let t = dec_int(n)[i - 1];
            if n < 0 {
                if i - 1 > 0 {
                    assert(t == dec_digits((-n) as nat)[i - 2]);
                    assert(is_digit(t));
                }
            } else {
                assert(is_digit(t));
            }
        }
    }
}

} // verus!
