use redis_rust::request::Request;
use redis_rust::resp::Resp;

#[test]
fn minimal_decoder_accepts_exact_ping() {
    let value = Resp::Array(vec![Resp::BulkString(String::from("PING"))]);
    let req = Request::try_from(value).unwrap();
    assert!(matches!(req, Request::Ping));
}

#[test]
fn minimal_decoder_rejects_everything_else() {
    let value = Resp::Array(vec![Resp::BulkString(String::from("ping"))]);
    assert_eq!(Request::try_from(value).unwrap_err(), "Unkown command");
    let value = Resp::Array(vec![Resp::Integer(1)]);
    assert_eq!(
        Request::try_from(value).unwrap_err(),
        "First argument should be of type bulkstring"
    );
    let value = Resp::SimpleString(String::from("PING"));
    assert_eq!(
        Request::try_from(value).unwrap_err(),
        "Should be of type  array"
    );
}
