//! The typed request layer: one decoded RESP array becomes one command.
//! Only an array of bulk strings is a valid command frame; the first element
//! selects the verb case-insensitively, the rest are positional arguments
//! and SET modifier tokens, validated here.

use vstd::prelude::*;

verus! {

use vstd::utf8::encode_utf8;
use crate::resp::{Resp, RespData, model_seq, lemma_model_seq};
use crate::codec::{all_digits, digits_val};
use crate::dictionary::{RemoveRule, ExpireRule};

/// A typed request, decoded from one wire value.
#[derive(Debug, PartialEq)]
pub enum Command {
    Ping,
    Echo(String),
    Get(String),
    SetValue {
        key: String,
        value: String,
        remove_rule: Option<RemoveRule>,
        expire_rule: Option<ExpireRule>,
        get_flag: bool,
    },
    ConfigGet,
    Client,
}

/// The mathematical model of a command: text as character sequences.
pub enum CommandData {
    Ping,
    Echo(Seq<char>),
    Get(Seq<char>),
    SetValue {
        key: Seq<char>,
        value: Seq<char>,
        remove_rule: Option<RemoveRule>,
        expire_rule: Option<ExpireRule>,
        get_flag: bool,
    },
    ConfigGet,
    Client,
}

impl View for Command {
    type V = CommandData;

    open spec fn view(&self) -> CommandData {
        match self {
            Command::Ping => CommandData::Ping,
            Command::Echo(s) => CommandData::Echo(s@),
            Command::Get(s) => CommandData::Get(s@),
            Command::SetValue { key, value, remove_rule, expire_rule, get_flag } => CommandData::SetValue {
                key: key@,
                value: value@,
                remove_rule: *remove_rule,
                expire_rule: *expire_rule,
                get_flag: *get_flag,
            },
            Command::ConfigGet => CommandData::ConfigGet,
            Command::Client => CommandData::Client,
        }
    }
}

/// A byte uppercased if it is an ASCII lowercase letter.
pub open spec fn upper_byte(b: u8) -> u8 {
    if 97 <= b <= 122 {
        (b - 32) as u8
    } else {
        b
    }
}

/// Byte sequences equal up to ASCII case.
pub open spec fn ieq_bytes(a: Seq<u8>, b: Seq<u8>) -> bool {
    a.len() == b.len() && forall|i: int|
        0 <= i < a.len() ==> upper_byte(a[i]) == upper_byte(b[i])
}

/// Whether `name` spells `verb` up to ASCII case, compared byte-wise on the
/// UTF-8 encodings.
pub open spec fn is_verb(name: Seq<char>, verb: Seq<char>) -> bool {
    ieq_bytes(encode_utf8(name), encode_utf8(verb))
}

/// The number a SET modifier's count token denotes: unsigned decimal digits
/// only, within the unsigned 64-bit range.
pub open spec fn u64_of_text(s: Seq<char>) -> Option<int> {
    let b = encode_utf8(s);
    if b.len() > 0 && all_digits(b) && digits_val(b) <= u64::MAX {
        Some(digits_val(b))
    } else {
        None
    }
}

/// The error reply for an unknown command verb.
pub open spec fn unknown_reply(name: Seq<char>) -> RespData {
    RespData::SimpleError("unknown command '"@ + name + "'"@)
}

/// The error reply for a request with the wrong number or shape of
/// arguments, modifier tokens included.
pub open spec fn arity_reply() -> RespData {
    RespData::SimpleError("ERR wrong number of arguments for command"@)
}

/// The SET modifier fold: reads the tokens of `items` from position `i`,
/// accumulating the conditional-write rule, the expiration rule and the GET
/// flag. A token repeating a rule already set, a missing or malformed count,
/// or an unrecognized token is a validation error.
pub open spec fn set_opts(
    items: Seq<RespData>,
    i: int,
    acc: (Option<RemoveRule>, Option<ExpireRule>, bool),
) -> Result<(Option<RemoveRule>, Option<ExpireRule>, bool), RespData>
    decreases items.len() - i,
{
    if i >= items.len() {
        Ok(acc)
    } else {
        match items[i] {
            RespData::BulkString(tok) => {
                if is_verb(tok, "NX"@) {
                    if acc.0 is Some {
                        Err(arity_reply())
                    } else {
                        set_opts(items, i + 1, (Some(RemoveRule::NX), acc.1, acc.2))
                    }
                } else if is_verb(tok, "XX"@) {
                    if acc.0 is Some {
                        Err(arity_reply())
                    } else {
                        set_opts(items, i + 1, (Some(RemoveRule::XX), acc.1, acc.2))
                    }
                } else if is_verb(tok, "GET"@) {
                    if acc.2 {
                        Err(arity_reply())
                    } else {
                        set_opts(items, i + 1, (acc.0, acc.1, true))
                    }
                } else if is_verb(tok, "KEEPTTL"@) {
                    if acc.1 is Some {
                        Err(arity_reply())
                    } else {
                        set_opts(items, i + 1, (acc.0, Some(ExpireRule::KEEPTTL), acc.2))
                    }
                } else if is_verb(tok, "EX"@) || is_verb(tok, "PX"@) || is_verb(tok, "EXAT"@)
                    || is_verb(tok, "PXAT"@) {
                    if acc.1 is Some || i + 1 >= items.len() {
                        Err(arity_reply())
                    } else {
                        match items[i + 1] {
                            RespData::BulkString(count) => match u64_of_text(count) {
                                Some(n) => {
                                    let rule = if is_verb(tok, "EX"@) {
                                        ExpireRule::EX(n as u64)
                                    } else if is_verb(tok, "PX"@) {
                                        ExpireRule::PX(n as u64)
                                    } else if is_verb(tok, "EXAT"@) {
                                        ExpireRule::EXAT(n as u64)
                                    } else {
                                        ExpireRule::PXAT(n as u64)
                                    };
                                    set_opts(items, i + 2, (acc.0, Some(rule), acc.2))
                                },
                                None => Err(arity_reply()),
                            },
                            _ => Err(arity_reply()),
                        }
                    }
                } else {
                    Err(arity_reply())
                }
            },
            _ => Err(arity_reply()),
        }
    }
}

/// What one frame's elements decode to: the typed command, or the error
/// reply the request earns.
pub open spec fn spec_command_items(items: Seq<RespData>) -> Result<CommandData, RespData> {
    if items.len() == 0 {
        Err(unknown_reply(Seq::empty()))
    } else {
        match items[0] {
            RespData::BulkString(name) => {
                if is_verb(name, "PING"@) {
                    if items.len() == 1 {
                        Ok(CommandData::Ping)
                    } else {
                        Err(arity_reply())
                    }
                } else if is_verb(name, "ECHO"@) {
                    if items.len() == 2 && items[1] is BulkString {
                        Ok(CommandData::Echo(items[1]->BulkString_0))
                    } else {
                        Err(arity_reply())
                    }
                } else if is_verb(name, "GET"@) {
                    if items.len() == 2 && items[1] is BulkString {
                        Ok(CommandData::Get(items[1]->BulkString_0))
                    } else {
                        Err(arity_reply())
                    }
                } else if is_verb(name, "SET"@) {
                    if items.len() >= 3 && items[1] is BulkString && items[2] is BulkString {
                        match set_opts(items, 3, (None, None, false)) {
                            Ok(acc) => Ok(
                                CommandData::SetValue {
                                    key: items[1]->BulkString_0,
                                    value: items[2]->BulkString_0,
                                    remove_rule: acc.0,
                                    expire_rule: acc.1,
                                    get_flag: acc.2,
                                },
                            ),
                            Err(e) => Err(e),
                        }
                    } else {
                        Err(arity_reply())
                    }
                } else if is_verb(name, "CONFIG"@) {
                    Ok(CommandData::ConfigGet)
                } else if is_verb(name, "CLIENT"@) {
                    Ok(CommandData::Client)
                } else {
                    Err(unknown_reply(name))
                }
            },
            _ => Err(arity_reply()),
        }
    }
}

/// What one whole frame decodes to: only an array is a command frame.
pub open spec fn spec_command(v: RespData) -> Result<CommandData, RespData> {
    match v {
        RespData::Array(items) => spec_command_items(items),
        _ => Err(unknown_reply(Seq::empty())),
    }
}

/// Compares two strings byte-wise up to ASCII case.
fn ieq(a: &str, b: &str) -> (r: bool)
    ensures
        r == ieq_bytes(encode_utf8(a@), encode_utf8(b@)),
{
    let ab: &[u8] = a.as_bytes();
    let bb: &[u8] = b.as_bytes();
    let n = ab.len();
    if n != bb.len() {
        return false;
    }
    let mut i: usize = 0;
    while i < n
        invariant
            i <= n,
            n == ab@.len() == bb@.len(),
            ab@ == encode_utf8(a@),
            bb@ == encode_utf8(b@),
            forall|t: int| 0 <= t < i ==> upper_byte(ab@[t]) == upper_byte(bb@[t]),
        decreases n - i,
    {
        let x = ab[i];
        let y = bb[i];
        let xu = if 97 <= x && x <= 122 {
            x - 32
        } else {
            x
        };
        let yu = if 97 <= y && y <= 122 {
            y - 32
        } else {
            y
        };
        if xu != yu {
            return false;
        }
        i = i + 1;
    }
    true
}

/// Parses an unsigned decimal count token.
fn parse_u64_str(s: &str) -> (r: Option<u64>)
    ensures
        match r {
            Option::Some(v) => u64_of_text(s@) == Some(v as int),
            Option::None => u64_of_text(s@) is None,
        },
{
    let b: &[u8] = s.as_bytes();
    let n = b.len();
    if n == 0 {
        return None;
    }
    let mut acc: u64 = 0;
    let mut i: usize = 0;
    while i < n
        invariant
            i <= n,
            n == b@.len(),
            b@ == encode_utf8(s@),
            forall|t: int| 0 <= t < i ==> crate::codec::is_digit(b@[t]),
            acc == digits_val(b@.subrange(0, i as int)),
            acc <= u64::MAX,
        decreases n - i,
    {
        let d = b[i];
        if d < 48 || d > 57 {
            assert(!all_digits(b@));
            return None;
        }
        let dv: u64 = (d - 48) as u64;
        proof {
            crate::codec::lemma_digits_val_step(b@, i as int);
        }
        if acc > (u64::MAX - dv) / 10 {
            proof {
                vstd::arithmetic::div_mod::lemma_fundamental_div_mod(
                    u64::MAX as int - dv as int,
                    10,
                );
                assert(digits_val(b@.subrange(0, i as int + 1)) > u64::MAX);
                if all_digits(b@) {
                    crate::codec::lemma_digits_val_mono(b@, i as int + 1);
                }
            }
            return None;
        }
        proof {
            vstd::arithmetic::div_mod::lemma_fundamental_div_mod(u64::MAX as int - dv as int, 10);
        }
        acc = acc * 10 + dv;
        i = i + 1;
    }
    proof {
        assert(b@.subrange(0, n as int) =~= b@);
    }
    Some(acc)
}

impl Command {
    /// Decodes one wire value into a command: only an array frame is
    /// accepted.
    pub fn from_resp(value: Resp) -> (r: Result<Command, Resp>)
        ensures
            match r {
                Result::Ok(c) => spec_command(value@) == Ok::<CommandData, RespData>(c@),
                Result::Err(e) => spec_command(value@) == Err::<CommandData, RespData>(e@),
            },
    {
        match value {
            Resp::Array(items) => Command::try_from(items),
            _ => {
                proof {
                    reveal_strlit("");
                    assert(""@ =~= Seq::<char>::empty());
                }
                Err(Resp::unkown_command(""))
            },
        }
    }

    /// Decodes a command frame's elements into a command, validating the
    /// verb, the arity and the SET modifier tokens.
    pub fn try_from(arr: Vec<Resp>) -> (r: Result<Command, Resp>)
        ensures
            match r {
                Result::Ok(c) => spec_command_items(model_seq(arr@)) == Ok::<
                    CommandData,
                    RespData,
                >(c@),
                Result::Err(e) => spec_command_items(model_seq(arr@)) == Err::<
                    CommandData,
                    RespData,
                >(e@),
            },
    {
        let ghost items = model_seq(arr@);
        proof {
            lemma_model_seq(arr@);
        }
        if arr.len() == 0 {
            proof {
                reveal_strlit("");
                assert(""@ =~= Seq::<char>::empty());
            }
            return Err(Resp::unkown_command(""));
        }
        let name: String = match &arr[0] {
            Resp::BulkString(s) => s.clone(),
            _ => {
                return Err(Resp::wrong_number_of_arguments());
            },
        };
        if ieq(name.as_str(), "PING") {
            if arr.len() == 1 {
                Ok(Command::Ping)
            } else {
                Err(Resp::wrong_number_of_arguments())
            }
        } else if ieq(name.as_str(), "ECHO") {
            create_echo(arr)
        } else if ieq(name.as_str(), "GET") {
            create_get(arr)
        } else if ieq(name.as_str(), "SET") {
            create_set(arr)
        } else if ieq(name.as_str(), "CONFIG") {
            Ok(Command::ConfigGet)
        } else if ieq(name.as_str(), "CLIENT") {
            Ok(Command::Client)
        } else {
            Err(Resp::unkown_command(name.as_str()))
        }
    }
}

/// The single text argument of an ECHO.
fn create_echo(arr: Vec<Resp>) -> (r: Result<Command, Resp>)
    requires
        arr@.len() >= 1,
        model_seq(arr@)[0] is BulkString,
        is_verb(model_seq(arr@)[0]->BulkString_0, "ECHO"@),
        !is_verb(model_seq(arr@)[0]->BulkString_0, "PING"@),
    ensures
        match r {
            Result::Ok(c) => spec_command_items(model_seq(arr@)) == Ok::<CommandData, RespData>(
                c@,
            ),
            Result::Err(e) => spec_command_items(model_seq(arr@)) == Err::<
                CommandData,
                RespData,
            >(e@),
        },
{
    proof {
        lemma_model_seq(arr@);
    }
    if arr.len() != 2 {
        return Err(Resp::wrong_number_of_arguments());
    }
    let mut arr = arr;
    match arr.remove(1) {
        Resp::BulkString(s) => Ok(Command::Echo(s)),
        _ => Err(Resp::wrong_number_of_arguments()),
    }
}

/// The single key argument of a GET.
fn create_get(arr: Vec<Resp>) -> (r: Result<Command, Resp>)
    requires
        arr@.len() >= 1,
        model_seq(arr@)[0] is BulkString,
        is_verb(model_seq(arr@)[0]->BulkString_0, "GET"@),
        !is_verb(model_seq(arr@)[0]->BulkString_0, "PING"@),
        !is_verb(model_seq(arr@)[0]->BulkString_0, "ECHO"@),
    ensures
        match r {
            Result::Ok(c) => spec_command_items(model_seq(arr@)) == Ok::<CommandData, RespData>(
                c@,
            ),
            Result::Err(e) => spec_command_items(model_seq(arr@)) == Err::<
                CommandData,
                RespData,
            >(e@),
        },
{
    proof {
        lemma_model_seq(arr@);
    }
    if arr.len() != 2 {
        return Err(Resp::wrong_number_of_arguments());
    }
    let mut arr = arr;
    match arr.remove(1) {
        Resp::BulkString(s) => Ok(Command::Get(s)),
        _ => Err(Resp::wrong_number_of_arguments()),
    }
}

/// The key, value and modifier tokens of a SET.
fn create_set(arr: Vec<Resp>) -> (r: Result<Command, Resp>)
    requires
        arr@.len() >= 1,
        model_seq(arr@)[0] is BulkString,
        is_verb(model_seq(arr@)[0]->BulkString_0, "SET"@),
        !is_verb(model_seq(arr@)[0]->BulkString_0, "PING"@),
        !is_verb(model_seq(arr@)[0]->BulkString_0, "ECHO"@),
        !is_verb(model_seq(arr@)[0]->BulkString_0, "GET"@),
    ensures
        match r {
            Result::Ok(c) => spec_command_items(model_seq(arr@)) == Ok::<CommandData, RespData>(
                c@,
            ),
            Result::Err(e) => spec_command_items(model_seq(arr@)) == Err::<
                CommandData,
                RespData,
            >(e@),
        },
{
    let ghost items = model_seq(arr@);
    proof {
        lemma_model_seq(arr@);
    }
    if arr.len() < 3 {
        return Err(Resp::wrong_number_of_arguments());
    }
    let key: String = match &arr[1] {
        Resp::BulkString(s) => s.clone(),
        _ => {
            return Err(Resp::invalid_arguments());
        },
    };
    let value: String = match &arr[2] {
        Resp::BulkString(s) => s.clone(),
        _ => {
            return Err(Resp::invalid_arguments());
        },
    };
    let mut remove_rule: Option<RemoveRule> = None;
    let mut expire_rule: Option<ExpireRule> = None;
    let mut get_flag: bool = false;
    let mut i: usize = 3;
    let n = arr.len();
    while i < n
        invariant
            3 <= i <= n,
            n == arr@.len(),
            items == model_seq(arr@),
            items.len() == arr@.len(),
            forall|j: int| 0 <= j < arr@.len() ==> items[j] == arr@[j]@,
            items[0] is BulkString,
            is_verb(items[0]->BulkString_0, "SET"@),
            !is_verb(items[0]->BulkString_0, "PING"@),
            !is_verb(items[0]->BulkString_0, "ECHO"@),
            !is_verb(items[0]->BulkString_0, "GET"@),
            items[1] is BulkString,
            items[2] is BulkString,
            key@ == items[1]->BulkString_0,
            value@ == items[2]->BulkString_0,
            set_opts(items, 3, (None, None, false)) == set_opts(
                items,
                i as int,
                (remove_rule, expire_rule, get_flag),
            ),
        decreases n - i,
    {
        let tok: String = match &arr[i] {
            Resp::BulkString(s) => s.clone(),
            _ => {
                return Err(Resp::invalid_arguments());
            },
        };
        if ieq(tok.as_str(), "NX") {
            if remove_rule.is_some() {
                return Err(Resp::invalid_arguments());
            }
            remove_rule = Some(RemoveRule::NX);
            i = i + 1;
        } else if ieq(tok.as_str(), "XX") {
            if remove_rule.is_some() {
                return Err(Resp::invalid_arguments());
            }
            remove_rule = Some(RemoveRule::XX);
            i = i + 1;
        } else if ieq(tok.as_str(), "GET") {
            if get_flag {
                return Err(Resp::invalid_arguments());
            }
            get_flag = true;
            i = i + 1;
        } else if ieq(tok.as_str(), "KEEPTTL") {
            if expire_rule.is_some() {
                return Err(Resp::invalid_arguments());
            }
            expire_rule = Some(ExpireRule::KEEPTTL);
            i = i + 1;
        } else if ieq(tok.as_str(), "EX") || ieq(tok.as_str(), "PX") || ieq(tok.as_str(), "EXAT")
            || ieq(tok.as_str(), "PXAT") {
            if expire_rule.is_some() || i + 1 >= n {
                return Err(Resp::invalid_arguments());
            }
            let count: u64 = match &arr[i + 1] {
                Resp::BulkString(s) => match parse_u64_str(s.as_str()) {
                    Option::Some(v) => v,
                    Option::None => {
                        return Err(Resp::invalid_arguments());
                    },
                },
                _ => {
                    return Err(Resp::invalid_arguments());
                },
            };
            let rule = if ieq(tok.as_str(), "EX") {
                ExpireRule::EX(count)
            } else if ieq(tok.as_str(), "PX") {
                ExpireRule::PX(count)
            } else if ieq(tok.as_str(), "EXAT") {
                ExpireRule::EXAT(count)
            } else {
                ExpireRule::PXAT(count)
            };
            expire_rule = Some(rule);
            i = i + 2;
        } else {
            return Err(Resp::invalid_arguments());
        }
    }
    Ok(Command::SetValue { key, value, remove_rule, expire_rule, get_flag })
}

} // verus!
