//! A minimal request decoder that recognises only a literal `PING`; the
//! `command` module is the full decoder.

use vstd::prelude::*;

verus! {

use crate::resp::{Resp, RespData};
use crate::dictionary::str_eq;

/// A typed request of the minimal decoder.
#[derive(Debug)]
pub enum Request {
    Ping,
    Echo(String),
    Get(String),
    SetValue(String),
}

/// What the minimal decoder makes of a value: only an array whose first
/// element is the bulk string `PING` (case-sensitively) is accepted.
pub open spec fn request_outcome(v: RespData) -> Result<(), Seq<char>> {
    match v {
        RespData::Array(items) => match items[0] {
            RespData::BulkString(s) => if s == "PING"@ {
                Ok(())
            } else {
                Err("Unkown command"@)
            },
            _ => Err("First argument should be of type bulkstring"@),
        },
        _ => Err("Should be of type  array"@),
    }
}

impl Request {
    /// Decodes a value into a request. The array must not be empty: the
    /// decoder reads its first element unconditionally.
    pub fn try_from(value: Resp) -> (r: Result<Request, &'static str>)
        requires
            value@ matches RespData::Array(items) ==> items.len() > 0,
        ensures
            match r {
                Result::Ok(req) => request_outcome(value@) == Ok::<(), Seq<char>>(()) && req
                    is Ping,
                Result::Err(m) => request_outcome(value@) == Err::<(), Seq<char>>(m@),
            },
    {
        match value {
            Resp::Array(arr) => {
                proof {
                    crate::resp::lemma_model_seq(arr@);
                }
                match &arr[0] {
                    Resp::BulkString(s) => {
                        if str_eq(s.as_str(), "PING") {
                            Ok(Request::Ping)
                        } else {
                            Err("Unkown command")
                        }
                    },
                    _ => Err("First argument should be of type bulkstring"),
                }
            },
            _ => Err("Should be of type  array"),
        }
    }
}

} // verus!
