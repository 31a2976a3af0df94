use redis_rust::command::Command;
use redis_rust::dictionary::{ExpireRule, RemoveRule};
use redis_rust::resp::Resp;

#[test]
fn parse_ping() -> Result<(), String> {
    let name = String::from("PING");
    let resp = vec![Resp::BulkString(name)];
    let command = Command::try_from(resp).map_err(|err| err.encode_to_string())?;
    assert_eq!(Command::Ping, command);
    Ok(())
}

#[test]
fn parse_echo() -> Result<(), String> {
    let name = String::from("ECHO");
    let arg = String::from("test");
    let resp = vec![Resp::BulkString(name), Resp::BulkString(arg.clone())];
    let command = Command::try_from(resp).map_err(|err| err.encode_to_string())?;
    assert_eq!(Command::Echo(arg), command);
    Ok(())
}

#[test]
fn parse_get_and_set() {
    let frame = vec![
        Resp::BulkString(String::from("get")),
        Resp::BulkString(String::from("key")),
    ];
    let command = Command::try_from(frame).unwrap();
    assert_eq!(Command::Get(String::from("key")), command);

    let frame = vec![
        Resp::BulkString(String::from("SET")),
        Resp::BulkString(String::from("key")),
        Resp::BulkString(String::from("value")),
    ];
    let command = Command::try_from(frame).unwrap();
    assert_eq!(
        Command::SetValue {
            key: String::from("key"),
            value: String::from("value"),
            remove_rule: None,
            expire_rule: None,
            get_flag: false,
        },
        command
    );
}

#[test]
fn parse_set_modifiers() {
    let frame = vec![
        Resp::BulkString(String::from("set")),
        Resp::BulkString(String::from("k")),
        Resp::BulkString(String::from("v")),
        Resp::BulkString(String::from("nx")),
        Resp::BulkString(String::from("Px")),
        Resp::BulkString(String::from("1500")),
        Resp::BulkString(String::from("GET")),
    ];
    let command = Command::try_from(frame).unwrap();
    assert_eq!(
        Command::SetValue {
            key: String::from("k"),
            value: String::from("v"),
            remove_rule: Some(RemoveRule::NX),
            expire_rule: Some(ExpireRule::PX(1500)),
            get_flag: true,
        },
        command
    );
}

#[test]
fn parse_set_keepttl_and_xx() {
    let frame = vec![
        Resp::BulkString(String::from("SET")),
        Resp::BulkString(String::from("k")),
        Resp::BulkString(String::from("v")),
        Resp::BulkString(String::from("XX")),
        Resp::BulkString(String::from("KEEPTTL")),
    ];
    let command = Command::try_from(frame).unwrap();
    assert_eq!(
        Command::SetValue {
            key: String::from("k"),
            value: String::from("v"),
            remove_rule: Some(RemoveRule::XX),
            expire_rule: Some(ExpireRule::KEEPTTL),
            get_flag: false,
        },
        command
    );
}

#[test]
fn reject_unknown_command() {
    let frame = vec![Resp::BulkString(String::from("FLUSHALL"))];
    let err = Command::try_from(frame).unwrap_err();
    assert_eq!(
        err,
        Resp::SimpleError(String::from("unknown command 'FLUSHALL'"))
    );
}

#[test]
fn reject_wrong_arity() {
    let frame = vec![Resp::BulkString(String::from("ECHO"))];
    let err = Command::try_from(frame).unwrap_err();
    assert_eq!(
        err,
        Resp::SimpleError(String::from("ERR wrong number of arguments for command"))
    );

    let frame = vec![
        Resp::BulkString(String::from("SET")),
        Resp::BulkString(String::from("k")),
    ];
    let err = Command::try_from(frame).unwrap_err();
    assert_eq!(
        err,
        Resp::SimpleError(String::from("ERR wrong number of arguments for command"))
    );
}

#[test]
fn reject_bad_modifiers() {
    // an unrecognized token, a duplicated rule, and a malformed count
    for tail in [
        vec![Resp::BulkString(String::from("BOGUS"))],
        vec![
            Resp::BulkString(String::from("NX")),
            Resp::BulkString(String::from("XX")),
        ],
        vec![
            Resp::BulkString(String::from("EX")),
            Resp::BulkString(String::from("ten")),
        ],
        vec![Resp::BulkString(String::from("EX"))],
        vec![
            Resp::BulkString(String::from("PX")),
            Resp::BulkString(String::from("18446744073709551616")),
        ],
    ] {
        let mut frame = vec![
            Resp::BulkString(String::from("SET")),
            Resp::BulkString(String::from("k")),
            Resp::BulkString(String::from("v")),
        ];
        frame.extend(tail);
        let err = Command::try_from(frame).unwrap_err();
        assert_eq!(
            err,
            Resp::SimpleError(String::from("ERR wrong number of arguments for command"))
        );
    }
}

#[test]
fn stubs_accept_anything() {
    let frame = vec![
        Resp::BulkString(String::from("CONFIG")),
        Resp::BulkString(String::from("GET")),
        Resp::BulkString(String::from("save")),
    ];
    assert_eq!(Command::ConfigGet, Command::try_from(frame).unwrap());
    let frame = vec![Resp::BulkString(String::from("client"))];
    assert_eq!(Command::Client, Command::try_from(frame).unwrap());
}

#[test]
fn reject_non_array_frame() {
    let err = Command::from_resp(Resp::Integer(7)).unwrap_err();
    assert_eq!(err, Resp::SimpleError(String::from("unknown command ''")));
}
