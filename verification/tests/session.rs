use redis_rust::command::Command;
use redis_rust::dictionary::Dictionary;
use redis_rust::resp::Resp;
use redis_rust::session::{encode_all, Session};
use redis_rust::worker::Worker;

fn fresh_worker() -> Worker {
    Worker::new(Dictionary::new())
}

#[test]
fn ping_replies_pong() {
    let mut worker = fresh_worker();
    let reply = worker.handle_command_at(Command::Ping, 0);
    assert_eq!(reply, Resp::SimpleString(String::from("PONG")));
}

#[test]
fn echo_replies_the_text() {
    let mut worker = fresh_worker();
    let reply = worker.handle_command_at(Command::Echo(String::from("test")), 0);
    assert_eq!(reply, Resp::BulkString(String::from("test")));
}

#[test]
fn get_and_set_through_the_worker() {
    let mut worker = fresh_worker();
    let reply = worker.handle_command_at(Command::Get(String::from("foo")), 0);
    assert_eq!(reply, Resp::Null);
    let reply = worker.handle_command_at(
        Command::SetValue {
            key: String::from("foo"),
            value: String::from("bar"),
            remove_rule: None,
            expire_rule: None,
            get_flag: false,
        },
        0,
    );
    assert_eq!(reply, Resp::SimpleString(String::from("OK")));
    let reply = worker.handle_command_at(Command::Get(String::from("foo")), 0);
    assert_eq!(reply, Resp::BulkString(String::from("bar")));
}

#[test]
fn set_with_get_flag_replies_the_old_value() {
    let mut worker = fresh_worker();
    let set = |value: &str, get_flag: bool| Command::SetValue {
        key: String::from("k"),
        value: String::from(value),
        remove_rule: None,
        expire_rule: None,
        get_flag,
    };
    let reply = worker.handle_command_at(set("v1", true), 0);
    assert_eq!(reply, Resp::Null);
    let reply = worker.handle_command_at(set("v2", true), 0);
    assert_eq!(reply, Resp::BulkString(String::from("v1")));
}

#[test]
fn stub_replies() {
    let mut worker = fresh_worker();
    let reply = worker.handle_command_at(Command::ConfigGet, 0);
    assert_eq!(reply, Resp::Integer(0));
    let reply = worker.handle_command_at(Command::Client, 0);
    assert_eq!(reply, Resp::SimpleString(String::from("OK")));
}

#[test]
fn end_to_end_scenario() {
    let mut worker = fresh_worker();
    let mut session = Session::new();

    let replies = session.on_bytes(&mut worker, b"*1\r\n$4\r\nPING\r\n", 0).unwrap();
    assert_eq!(encode_all(&replies), b"+PONG\r\n".to_vec());

    let replies = session
        .on_bytes(&mut worker, b"*3\r\n$3\r\nSET\r\n$3\r\nfoo\r\n$3\r\nbar\r\n", 0)
        .unwrap();
    assert_eq!(encode_all(&replies), b"+OK\r\n".to_vec());

    let replies = session
        .on_bytes(&mut worker, b"*2\r\n$3\r\nGET\r\n$3\r\nfoo\r\n", 0)
        .unwrap();
    assert_eq!(encode_all(&replies), b"$3\r\nbar\r\n".to_vec());

    let replies = session
        .on_bytes(&mut worker, b"*2\r\n$3\r\nGET\r\n$7\r\nmissing\r\n", 0)
        .unwrap();
    assert_eq!(encode_all(&replies), b"*-1\r\n".to_vec());
}

#[test]
fn a_frame_may_arrive_in_pieces() {
    let mut worker = fresh_worker();
    let mut session = Session::new();
    let frame = b"*1\r\n$4\r\nPING\r\n";
    let (head, tail) = frame.split_at(7);
    let replies = session.on_bytes(&mut worker, head, 0).unwrap();
    assert!(replies.is_empty());
    let replies = session.on_bytes(&mut worker, tail, 0).unwrap();
    assert_eq!(encode_all(&replies), b"+PONG\r\n".to_vec());
}

#[test]
fn command_errors_keep_the_session_alive() {
    let mut worker = fresh_worker();
    let mut session = Session::new();
    let replies = session
        .on_bytes(&mut worker, b"*1\r\n$7\r\nNOTHING\r\n*1\r\n$4\r\nPING\r\n", 0)
        .unwrap();
    assert_eq!(replies.len(), 2);
    assert_eq!(
        replies[0],
        Resp::SimpleError(String::from("unknown command 'NOTHING'"))
    );
    assert_eq!(replies[1], Resp::SimpleString(String::from("PONG")));
}

#[test]
fn a_malformed_prefix_is_fatal_to_the_session() {
    let mut worker = fresh_worker();
    let mut session = Session::new();
    let err = session.on_bytes(&mut worker, b"!garbage\r\n", 0).unwrap_err();
    assert_eq!(err, Resp::SimpleError(String::from("ERR protocol error")));
}

#[test]
fn interleaved_connections_on_disjoint_keys() {
    let mut worker = fresh_worker();
    let mut first = Session::new();
    let mut second = Session::new();
    first
        .on_bytes(&mut worker, b"*3\r\n$3\r\nSET\r\n$1\r\na\r\n$1\r\n1\r\n", 0)
        .unwrap();
    second
        .on_bytes(&mut worker, b"*3\r\n$3\r\nSET\r\n$1\r\nb\r\n$1\r\n2\r\n", 0)
        .unwrap();
    let replies = first
        .on_bytes(&mut worker, b"*2\r\n$3\r\nGET\r\n$1\r\na\r\n", 0)
        .unwrap();
    assert_eq!(encode_all(&replies), b"$1\r\n1\r\n".to_vec());
    let replies = second
        .on_bytes(&mut worker, b"*2\r\n$3\r\nGET\r\n$1\r\nb\r\n", 0)
        .unwrap();
    assert_eq!(encode_all(&replies), b"$1\r\n2\r\n".to_vec());
}
