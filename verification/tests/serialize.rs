use redis_rust::codec::parse_resp;
use redis_rust::resp::Resp;

#[test]
fn serialize_parse_null() -> Result<(), &'static str> {
    let input = "$-1\r\n";
    match parse_resp(input.as_bytes()) {
        (Some(Resp::Null), r) => {
            assert!(r.is_empty());
            Ok(())
        }
        _ => Err("Should be null"),
    }
}

#[test]
fn serialize_parse_array() -> Result<(), &'static str> {
    let input = "*1\r\n$4\r\nping\r\n";
    match parse_resp(input.as_bytes()) {
        (Some(Resp::Array(arr)), r) => {
            assert!(r.is_empty());
            assert_eq!(arr.len(), 1);
            match &arr[0] {
                Resp::BulkString(s) => assert_eq!(s, "ping"),
                _ => return Err("Array should contain a simple string"),
            }
            Ok(())
        }
        _ => Err("Should be of type array"),
    }
}

#[test]
fn serialize_parse_array2() -> Result<(), &'static str> {
    let input = "*2\r\n$4\r\necho\r\n$11\r\nhello world\r\n";
    match parse_resp(input.as_bytes()) {
        (Some(Resp::Array(arr)), r) => {
            assert!(r.is_empty());
            assert_eq!(arr.len(), 2);
            match &arr[0] {
                Resp::BulkString(s) => assert_eq!(s, "echo"),
                _ => return Err("Array should contain a simple string"),
            }
            match &arr[1] {
                Resp::BulkString(s) => assert_eq!(s, "hello world"),
                _ => return Err("Array should contain a simple string"),
            }
            Ok(())
        }
        _ => Err("Should be of type array"),
    }
}

#[test]
fn serialize_parse_array3() -> Result<(), &'static str> {
    let input = "*2\r\n$3\r\nget\r\n$3\r\nkey\r\n";
    match parse_resp(input.as_bytes()) {
        (Some(Resp::Array(arr)), r) => {
            assert!(r.is_empty());
            assert_eq!(arr.len(), 2);
            match &arr[0] {
                Resp::BulkString(s) => assert_eq!(s, "get"),
                _ => return Err("Array should contain a simple string"),
            }
            match &arr[1] {
                Resp::BulkString(s) => assert_eq!(s, "key"),
                _ => return Err("Array should contain a simple string"),
            }
            Ok(())
        }
        _ => Err("Should be of type array"),
    }
}

#[test]
fn serialize_parse_simple_string() -> Result<(), &'static str> {
    let input = "+OK\r\n";
    match parse_resp(input.as_bytes()) {
        (Some(Resp::SimpleString(s)), _) => {
            assert_eq!(s, "OK");
            Ok(())
        }
        _ => Err("Should be of type simple string"),
    }
}

#[test]
fn serialize_parse_simple_error() -> Result<(), &'static str> {
    let input = "-ERROR message\r\n";
    match parse_resp(input.as_bytes()) {
        (Some(Resp::SimpleError(s)), _) => {
            assert_eq!(s, "ERROR message");
            Ok(())
        }
        _ => Err("Should be of type simple error"),
    }
}

#[test]
fn serialize_parse_empty_bulk_string() -> Result<(), &'static str> {
    let input = "$0\r\n\r\n";
    match parse_resp(input.as_bytes()) {
        (Some(Resp::BulkString(s)), _) => {
            assert_eq!(s, "");
            Ok(())
        }
        _ => Err("Should be of type bulk string"),
    }
}

#[test]
fn serialize_parse_simple_string2() -> Result<(), &'static str> {
    let input = "+hello world\r\n";
    match parse_resp(input.as_bytes()) {
        (Some(Resp::SimpleString(s)), _) => {
            assert_eq!(s, "hello world");
            Ok(())
        }
        _ => Err("Should be of type simple string"),
    }
}
