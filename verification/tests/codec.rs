use redis_rust::codec::{decode, parse_resp, Codec};
use redis_rust::resp::Resp;

fn sample_values() -> Vec<Resp> {
    vec![
        Resp::SimpleString(String::from("OK")),
        Resp::SimpleError(String::from("ERR something went wrong")),
        Resp::Integer(0),
        Resp::Integer(-42),
        Resp::Integer(i64::MAX),
        Resp::Integer(i64::MIN),
        Resp::BulkString(String::from("")),
        Resp::BulkString(String::from("hello world")),
        Resp::BulkString(String::from("héllo wörld")),
        Resp::Null,
        Resp::Array(vec![]),
        Resp::Array(vec![
            Resp::BulkString(String::from("SET")),
            Resp::BulkString(String::from("foo")),
            Resp::Integer(7),
            Resp::Array(vec![Resp::Null, Resp::SimpleString(String::from("deep"))]),
        ]),
    ]
}

#[test]
fn encode_exact_bytes() {
    assert_eq!(
        Resp::SimpleString(String::from("OK")).encode(),
        b"+OK\r\n".to_vec()
    );
    assert_eq!(Resp::Integer(-42).encode(), b":-42\r\n".to_vec());
    assert_eq!(Resp::Integer(100).encode(), b":100\r\n".to_vec());
    assert_eq!(
        Resp::BulkString(String::from("bar")).encode(),
        b"$3\r\nbar\r\n".to_vec()
    );
    assert_eq!(Resp::Null.encode(), b"*-1\r\n".to_vec());
    assert_eq!(
        Resp::Array(vec![Resp::BulkString(String::from("ping"))]).encode(),
        b"*1\r\n$4\r\nping\r\n".to_vec()
    );
    assert_eq!(
        Resp::SimpleError(String::from("boom")).encode(),
        b"-boom\r\n".to_vec()
    );
}

#[test]
fn round_trip_consumes_everything() {
    for value in sample_values() {
        let bytes = value.encode();
        let (decoded, rest) = parse_resp(&bytes);
        assert!(rest.is_empty());
        assert_eq!(decoded.unwrap(), value);
    }
}

#[test]
fn partial_frames_consume_nothing() {
    for value in sample_values() {
        let bytes = value.encode();
        for cut in 0..bytes.len() {
            let (frames, consumed) = decode(&bytes[..cut]).unwrap();
            assert!(frames.is_empty());
            assert_eq!(consumed, 0);
        }
    }
}

#[test]
fn resumes_after_the_rest_arrives() {
    for value in sample_values() {
        let bytes = value.encode();
        for cut in 0..bytes.len() {
            let mut codec = Codec::new();
            let first = codec.feed(&bytes[..cut]).unwrap();
            assert!(first.is_empty());
            let second = codec.feed(&bytes[cut..]).unwrap();
            assert_eq!(second.len(), 1);
            assert_eq!(&second[0], &value);
        }
    }
}

#[test]
fn decodes_pipelined_frames() {
    let mut bytes = Vec::new();
    bytes.extend_from_slice(b"+one\r\n:2\r\n$5\r\nthree\r\n");
    // a trailing incomplete frame stays unconsumed
    bytes.extend_from_slice(b"$10\r\nfour");
    let (frames, consumed) = decode(&bytes).unwrap();
    assert_eq!(
        frames,
        vec![
            Resp::SimpleString(String::from("one")),
            Resp::Integer(2),
            Resp::BulkString(String::from("three")),
        ]
    );
    assert_eq!(consumed, bytes.len() - b"$10\r\nfour".len());
}

#[test]
fn malformed_prefixes_fail() {
    // unknown tag byte, non-numeric length, bad terminator, negative length,
    // declared length not matching the terminator, bare LF in a simple string
    for bad in [
        b"!oops\r\n".to_vec(),
        b"$abc\r\n".to_vec(),
        b":12\rX".to_vec(),
        b"$-2\r\nxx\r\n".to_vec(),
        b"$3\r\nabcd\r\n".to_vec(),
        b"+a\nb\r\n".to_vec(),
        b"*-01\r\n".to_vec(),
    ] {
        assert!(decode(&bad).is_none(), "should fail: {:?}", bad);
    }
}

#[test]
fn parse_rejects_leftovers() {
    let ok = Resp::parse(b"+PONG\r\n:1\r\n").unwrap();
    assert_eq!(
        ok,
        vec![
            Resp::SimpleString(String::from("PONG")),
            Resp::Integer(1)
        ]
    );
    let err = Resp::parse(b"+PONG\r\n:1").unwrap_err();
    assert_eq!(err, Resp::SimpleError(String::from("ERR protocol error")));
    let err = Resp::parse(b"!nope\r\n").unwrap_err();
    assert_eq!(err, Resp::SimpleError(String::from("ERR protocol error")));
}

#[test]
fn integer_tokens_accept_signs_and_reject_overflow() {
    let (v, rest) = parse_resp(b":+7\r\n");
    assert!(rest.is_empty());
    assert_eq!(v.unwrap(), Resp::Integer(7));
    let (v, _) = parse_resp(b":-9223372036854775808\r\n");
    assert_eq!(v.unwrap(), Resp::Integer(i64::MIN));
    let (v, _) = parse_resp(b":9223372036854775807\r\n");
    assert_eq!(v.unwrap(), Resp::Integer(i64::MAX));
    assert!(decode(b":9223372036854775808\r\n").is_none());
    assert!(decode(b":-9223372036854775809\r\n").is_none());
    assert!(decode(b":+\r\n").is_none());
    assert!(decode(b":\r\n").is_none());
}

#[test]
fn bulk_strings_reject_invalid_utf8() {
    let mut bytes = b"$2\r\n".to_vec();
    bytes.extend_from_slice(&[0xFF, 0xFE]);
    bytes.extend_from_slice(b"\r\n");
    assert!(decode(&bytes).is_none());
}

#[test]
fn deeply_nested_arrays_round_trip() {
    let mut value = Resp::BulkString(String::from("kernel"));
    for _ in 0..19 {
        value = Resp::Array(vec![value]);
    }
    let bytes = value.encode();
    let (decoded, rest) = parse_resp(&bytes);
    assert!(rest.is_empty());
    assert_eq!(decoded.unwrap(), value);
}

#[test]
fn encode_to_string_matches_bytes() {
    let value = Resp::Array(vec![
        Resp::SimpleString(String::from("a")),
        Resp::Integer(-1),
    ]);
    assert_eq!(value.encode_to_string(), "*2\r\n+a\r\n:-1\r\n");
    assert_eq!(value.encode_to_string().into_bytes(), value.encode());
}

#[test]
fn null_has_one_canonical_encoding() {
    // both null spellings decode to the same value; only `*-1` is emitted
    let (v, _) = parse_resp(b"$-1\r\n");
    assert_eq!(v.unwrap(), Resp::Null);
    let (v, _) = parse_resp(b"*-1\r\n");
    assert_eq!(v.unwrap(), Resp::Null);
    assert_eq!(Resp::Null.encode(), b"*-1\r\n".to_vec());
}
