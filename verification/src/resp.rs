//! The RESP value model: the tagged union of wire value kinds, its
//! mathematical model, the well-formedness invariant, and the encoder.

use vstd::prelude::*;

verus! {

use vstd::utf8::encode_utf8;

/// A RESP wire value.
///
/// `Null` has the single canonical wire encoding `*-1\r\n`; the decoder also
/// accepts the bulk-string form `$-1\r\n` but the encoder never emits it.
#[derive(Debug, PartialEq, Eq)]
pub enum Resp {
    SimpleString(String),
    SimpleError(String),
    Integer(i64),
    BulkString(String),
    Array(Vec<Resp>),
    Null,
}

/// The mathematical model of a RESP value: text as character sequences,
/// integers unbounded, arrays as sequences of models.
pub enum RespData {
    SimpleString(Seq<char>),
    SimpleError(Seq<char>),
    Integer(int),
    BulkString(Seq<char>),
    Array(Seq<RespData>),
    Null,
}

/// The models of a sequence of values, element by element.
pub open spec fn model_seq(s: Seq<Resp>) -> Seq<RespData>
    decreases s,
{
    if s.len() == 0 {
        Seq::empty()
    } else {
        seq![s[0]@] + model_seq(s.subrange(1, s.len() as int))
    }
}

impl View for Resp {
    type V = RespData;

    open spec fn view(&self) -> RespData
        decreases self,
    {
        match self {
            Resp::SimpleString(s) => RespData::SimpleString(s@),
            Resp::SimpleError(s) => RespData::SimpleError(s@),
            Resp::Integer(i) => RespData::Integer(*i as int),
            Resp::BulkString(s) => RespData::BulkString(s@),
            Resp::Array(items) => RespData::Array(model_seq(items@)),
            Resp::Null => RespData::Null,
        }
    }
}

/// The two-byte line terminator CR LF.
pub open spec fn crlf() -> Seq<u8> {
    seq![13u8, 10u8]
}

/// Holds when the text contains neither CR nor LF. Simple strings and simple
/// errors use CR LF as their delimiter, so their payload must satisfy this.
pub open spec fn no_crlf(s: Seq<char>) -> bool {
    forall|i: int| 0 <= i < s.len() ==> s[i] != '\r' && s[i] != '\n'
}

/// Well-formedness of each element of a sequence of models.
pub open spec fn wf_seq(vs: Seq<RespData>) -> bool
    decreases vs,
{
    if vs.len() == 0 {
        true
    } else {
        wf_data(vs[0]) && wf_seq(vs.subrange(1, vs.len() as int))
    }
}

/// The data-model invariant: simple strings and simple errors carry no line
/// terminators, integers fit the wire's 64-bit signed range, declared sizes
/// fit the header's 64-bit signed range, and arrays are well-formed
/// element-wise.
pub open spec fn wf_data(v: RespData) -> bool
    decreases v,
{
    match v {
        RespData::SimpleString(s) => no_crlf(s),
        RespData::SimpleError(s) => no_crlf(s),
        RespData::Integer(i) => i64::MIN <= i <= i64::MAX,
        RespData::BulkString(s) => encode_utf8(s).len() <= i64::MAX,
        RespData::Array(vs) => vs.len() <= i64::MAX && wf_seq(vs),
        RespData::Null => true,
    }
}

/// The decimal digits of `n`, most significant first, as ASCII bytes.
pub open spec fn dec_digits(n: nat) -> Seq<u8>
    decreases n,
{
    if n < 10 {
        seq![(48 + n) as u8]
    } else {
        dec_digits(n / 10) + seq![(48 + n % 10) as u8]
    }
}

/// The canonical decimal rendering of a signed integer as ASCII bytes.
pub open spec fn dec_int(i: int) -> Seq<u8> {
    if i < 0 {
        seq![45u8] + dec_digits((-i) as nat)
    } else {
        dec_digits(i as nat)
    }
}

/// The wire encodings of a sequence of values, concatenated in order.
pub open spec fn enc_seq(vs: Seq<RespData>) -> Seq<u8>
    decreases vs,
{
    if vs.len() == 0 {
        Seq::empty()
    } else {
        enc(vs[0]) + enc_seq(vs.subrange(1, vs.len() as int))
    }
}

/// The wire encoding of a value, per the RESP grammar: a one-byte type tag,
/// CR-LF-terminated header, and, for bulk strings and arrays, a payload whose
/// size the header declares. `Null` encodes canonically as `*-1\r\n`.
pub open spec fn enc(v: RespData) -> Seq<u8>
    decreases v,
{
    match v {
        RespData::SimpleString(s) => seq![43u8] + encode_utf8(s) + crlf(),
        RespData::SimpleError(s) => seq![45u8] + encode_utf8(s) + crlf(),
        RespData::Integer(i) => seq![58u8] + dec_int(i) + crlf(),
        RespData::BulkString(s) => seq![36u8] + dec_digits(encode_utf8(s).len())
            + crlf() + encode_utf8(s) + crlf(),
        RespData::Array(vs) => seq![42u8] + dec_digits(vs.len()) + crlf() + enc_seq(vs),
        RespData::Null => seq![42u8, 45u8, 49u8] + crlf(),
    }
}

/// The models of a sequence line up with the models of its elements.
pub proof fn lemma_model_seq(s: Seq<Resp>)
    ensures
        model_seq(s).len() == s.len(),
        forall|i: int| 0 <= i < s.len() ==> model_seq(s)[i] == s[i]@,
    decreases s,
{
    if s.len() > 0 {
        let tail = s.subrange(1, s.len() as int);
        lemma_model_seq(tail);
        assert(model_seq(s) == seq![s[0]@] + model_seq(tail));
        assert(model_seq(s).len() == s.len());
        assert forall|i: int| 0 <= i < s.len() implies model_seq(s)[i] == s[i]@ by {
            if i > 0 {
                assert(tail[i - 1] == s[i]);
                assert(model_seq(s)[i] == model_seq(tail)[i - 1]);
            } else {
                assert(model_seq(s)[0] == s[0]@);
            }
        }
    }
}

/// Appending one value appends its model.
pub proof fn lemma_model_seq_push(s: Seq<Resp>, v: Resp)
    ensures
        model_seq(s.push(v)) == model_seq(s) + seq![v@],
{
    lemma_model_seq(s);
    lemma_model_seq(s.push(v));
    assert(model_seq(s.push(v)) =~= model_seq(s) + seq![v@]);
}

/// Element-wise well-formedness is the same as the recursive definition.
pub proof fn lemma_wf_seq_index(vs: Seq<RespData>)
    ensures
        wf_seq(vs) <==> (forall|i: int| 0 <= i < vs.len() ==> wf_data(vs[i])),
    decreases vs,
{
    if vs.len() > 0 {
        let tail = vs.subrange(1, vs.len() as int);
        lemma_wf_seq_index(tail);
        if wf_seq(vs) {
            assert forall|i: int| 0 <= i < vs.len() implies wf_data(vs[i]) by {
                if i > 0 {
                    assert(tail[i - 1] == vs[i]);
                }
            }
        }
        if forall|i: int| 0 <= i < vs.len() ==> wf_data(vs[i]) {
            assert forall|i: int| 0 <= i < tail.len() implies wf_data(tail[i]) by {
                assert(tail[i] == vs[i + 1]);
            }
        }
    }
}

/// The encoding of a concatenation is the concatenation of the encodings.
pub proof fn lemma_enc_seq_concat(a: Seq<RespData>, b: Seq<RespData>)
    ensures
        enc_seq(a + b) == enc_seq(a) + enc_seq(b),
    decreases a,
{
    if a.len() == 0 {
        assert(a + b =~= b);
        assert(enc_seq(a) + enc_seq(b) =~= enc_seq(b));
    } else {
        let tail = a.subrange(1, a.len() as int);
        lemma_enc_seq_concat(tail, b);
        assert((a + b).subrange(1, (a + b).len() as int) =~= tail + b);
        assert((a + b)[0] == a[0]);
        assert(enc_seq(a + b) == enc(a[0]) + (enc_seq(tail) + enc_seq(b)));
        assert(enc(a[0]) + (enc_seq(tail) + enc_seq(b)) =~= (enc(a[0]) + enc_seq(tail))
            + enc_seq(b));
    }
}

/// The encoding of a singleton sequence is the element's encoding.
pub proof fn lemma_enc_seq_singleton(v: RespData)
    ensures
        enc_seq(seq![v]) == enc(v),
{
    assert(seq![v].subrange(1, 1) =~= Seq::<RespData>::empty());
    assert(enc_seq(seq![v]) == enc(v) + enc_seq(Seq::<RespData>::empty()));
    assert(enc(v) + Seq::<u8>::empty() =~= enc(v));
}

/// Extending a prefix by one element extends the concatenated encoding by
/// that element's encoding.
pub proof fn lemma_enc_seq_take_succ(vs: Seq<RespData>, i: int)
    requires
        0 <= i < vs.len(),
    ensures
        enc_seq(vs.subrange(0, i + 1)) == enc_seq(vs.subrange(0, i)) + enc(vs[i]),
{
    assert(vs.subrange(0, i + 1) =~= vs.subrange(0, i) + seq![vs[i]]);
    lemma_enc_seq_concat(vs.subrange(0, i), seq![vs[i]]);
    lemma_enc_seq_singleton(vs[i]);
}

impl Resp {
    /// The fixed success reply `+OK\r\n` in value form.
    pub fn ok() -> (r: Resp)
        ensures
            r@ == RespData::SimpleString("OK"@),
    {
        Resp::SimpleString(String::from_str("OK"))
    }

    /// The error reply for a command verb the server does not know.
    pub fn unkown_command(command: &str) -> (r: Resp)
        ensures
            r@ == RespData::SimpleError("unknown command '"@ + command@ + "'"@),
    {
        let text = String::from_str("unknown command '").concat(command).concat("'");
        Resp::SimpleError(text)
    }

    /// The error reply for a command with the wrong number of arguments.
    pub fn wrong_number_of_arguments() -> (r: Resp)
        ensures
            r@ == RespData::SimpleError("ERR wrong number of arguments for command"@),
    {
        Resp::SimpleError(String::from_str("ERR wrong number of arguments for command"))
    }

    /// The error reply for arguments of the wrong shape or type.
    pub fn invalid_arguments() -> (r: Resp)
        ensures
            r@ == RespData::SimpleError("ERR wrong number of arguments for command"@),
    {
        Resp::SimpleError(String::from_str("ERR wrong number of arguments for command"))
    }

    /// Encodes this value to its wire bytes.
    pub fn encode(&self) -> (out: Vec<u8>)
        ensures
            out@ == enc(self@),
    {
        let mut out: Vec<u8> = Vec::new();
        encode_into(self, &mut out);
        out
    }
}

/// Appends CR LF.
fn push_crlf(out: &mut Vec<u8>)
    ensures
        final(out)@ == old(out)@ + crlf(),
{
    out.push(13);
    out.push(10);
    assert(final(out)@ =~= old(out)@ + crlf());
}

/// Appends the decimal digits of `n`.
fn push_digits(out: &mut Vec<u8>, n: u64)
    ensures
        final(out)@ == old(out)@ + dec_digits(n as nat),
    decreases n,
{
    if n < 10 {
        out.push(48 + n as u8);
        assert(final(out)@ =~= old(out)@ + dec_digits(n as nat));
    } else {
        push_digits(out, n / 10);
        out.push(48 + (n % 10) as u8);
        assert(final(out)@ =~= old(out)@ + dec_digits(n as nat));
    }
}

/// Appends the canonical decimal rendering of `i`, sign included.
fn push_int(out: &mut Vec<u8>, i: i64)
    ensures
        final(out)@ == old(out)@ + dec_int(i as int),
{
    if i < 0 {
        out.push(45);
        let neg: i128 = -(i as i128);
        assert(neg == -(i as int));
        let m: u64 = neg as u64;
        assert(m == -(i as int));
        push_digits(out, m);
        assert(final(out)@ =~= old(out)@ + dec_int(i as int));
    } else {
        push_digits(out, i as u64);
    }
}

/// Appends the UTF-8 bytes of `s`.
fn push_str_bytes(out: &mut Vec<u8>, s: &str)
    ensures
        final(out)@ == old(out)@ + encode_utf8(s@),
{
    let bytes: &[u8] = s.as_bytes();
    out.extend_from_slice(bytes);
}

/// Appends the wire encoding of `v`.
fn encode_into(v: &Resp, out: &mut Vec<u8>)
    ensures
        final(out)@ == old(out)@ + enc(v@),
    decreases v,
{
    match v {
        Resp::SimpleString(s) => {
            out.push(43);
            push_str_bytes(out, s.as_str());
            push_crlf(out);
            assert(final(out)@ =~= old(out)@ + enc(v@));
        },
        Resp::SimpleError(s) => {
            out.push(45);
            push_str_bytes(out, s.as_str());
            push_crlf(out);
            assert(final(out)@ =~= old(out)@ + enc(v@));
        },
        Resp::Integer(i) => {
            out.push(58);
            push_int(out, *i);
            push_crlf(out);
            assert(final(out)@ =~= old(out)@ + enc(v@));
        },
        Resp::BulkString(s) => {
            out.push(36);
            let bytes: &[u8] = s.as_str().as_bytes();
            let n: usize = bytes.len();
            push_digits(out, n as u64);
            push_crlf(out);
            out.extend_from_slice(bytes);
            push_crlf(out);
            assert(final(out)@ =~= old(out)@ + enc(v@));
        },
        Resp::Array(items) => {
            out.push(42);
            push_digits(out, items.len() as u64);
            push_crlf(out);
            let ghost models = model_seq(items@);
            proof {
                lemma_model_seq(items@);
            }
            let ghost header = old(out)@ + seq![42u8] + dec_digits(items@.len() as nat)
                + crlf();
            let mut idx: usize = 0;
            while idx < items.len()
                invariant
                    *v is Array,
                    (*v)->Array_0 == *items,
                    idx <= items.len(),
                    models == model_seq(items@),
                    models.len() == items@.len(),
                    forall|j: int| 0 <= j < items@.len() ==> models[j] == items@[j]@,
                    header == old(out)@ + seq![42u8] + dec_digits(items@.len() as nat)
                        + crlf(),
                    out@ == header + enc_seq(models.subrange(0, idx as int)),
                decreases items.len() - idx,
            {
                proof {
                    lemma_enc_seq_take_succ(models, idx as int);
                    assert(decreases_to!(*v => (*v)->Array_0));
                    assert((*v)->Array_0 == *items);
                    assert(decreases_to!(*items => items@));
                    assert(decreases_to!(items@ => items@[idx as int]));
                    assert(decreases_to!(*v => items@[idx as int]));
                }
                encode_into(&items[idx], out);
                idx = idx + 1;
            }
            proof {
                assert(models.subrange(0, models.len() as int) =~= models);
                assert(out@ =~= old(out)@ + enc(v@));
            }
        },
        Resp::Null => {
            out.push(42);
            out.push(45);
            out.push(49);
            push_crlf(out);
            assert(final(out)@ =~= old(out)@ + enc(v@));
        },
    }
}

} // verus!
