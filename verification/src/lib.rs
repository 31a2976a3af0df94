//! A miniature key-value server library speaking a Redis-like wire protocol:
//! a RESP value model with a verified streaming codec, a typed command layer,
//! a keyed store with expiration, and the per-connection session logic.

pub mod clock;
pub mod codec;
pub mod command;
pub mod dictionary;
pub mod laws;
pub mod request;
pub mod resp;
pub mod session;
pub mod worker;
