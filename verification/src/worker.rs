//! The command handler: applies one typed command to the shared store and
//! produces the reply value. Its whole behaviour is the `step` function on
//! the store's model; the store-level laws (conditional writes, KEEPTTL,
//! expiration, key independence) are proved of `step`.

use vstd::prelude::*;

verus! {

use crate::resp::{Resp, RespData};
use crate::command::{Command, CommandData};
use crate::dictionary::{Dictionary, RemoveRule, ExpireRule, expire_time_of, live_at};

/// The store's model: key text to (value text, expiration instant).
pub type StoreModel = Map<Seq<char>, (Seq<char>, Option<u64>)>;

/// What a read of `k` at instant `now_ms` yields on the model.
pub open spec fn store_get(m: StoreModel, k: Seq<char>, now_ms: u64) -> Option<Seq<char>> {
    if m.contains_key(k) && live_at(m[k].1, now_ms) {
        Some(m[k].0)
    } else {
        None
    }
}

/// The store after a conditional write, and whether the write proceeded.
pub open spec fn store_set(
    m: StoreModel,
    key: Seq<char>,
    value: Seq<char>,
    remove_rule: Option<RemoveRule>,
    expire_rule: Option<ExpireRule>,
    now_ms: u64,
) -> (bool, StoreModel) {
    let present = m.contains_key(key);
    let can_set = match remove_rule {
        Option::Some(RemoveRule::NX) => !present,
        Option::Some(RemoveRule::XX) => present,
        Option::None => true,
    };
    let new_expiry = match expire_rule {
        Option::Some(ExpireRule::KEEPTTL) => if present {
            m[key].1
        } else {
            None
        },
        Option::Some(rule) => expire_time_of(rule, now_ms),
        Option::None => None,
    };
    if can_set {
        (true, m.insert(key, (value, new_expiry)))
    } else {
        (false, m)
    }
}

/// One step of the server: the reply to a command at instant `now_ms`, and
/// the store it leaves behind. PING and the CONFIG/CLIENT stubs read
/// nothing; GET reads; SET writes under its rules and replies `OK` — or,
/// with the GET flag, the replaced value or null.
pub open spec fn step(m: StoreModel, c: CommandData, now_ms: u64) -> (RespData, StoreModel) {
    match c {
        CommandData::Ping => (RespData::SimpleString("PONG"@), m),
        CommandData::Echo(s) => (RespData::BulkString(s), m),
        CommandData::Get(k) => (
            match store_get(m, k, now_ms) {
                Option::Some(v) => RespData::BulkString(v),
                Option::None => RespData::Null,
            },
            m,
        ),
        CommandData::SetValue { key, value, remove_rule, expire_rule, get_flag } => {
            let present = m.contains_key(key);
            let (wrote, m2) = store_set(m, key, value, remove_rule, expire_rule, now_ms);
            let reply = if get_flag {
                if wrote && present {
                    RespData::BulkString(m[key].0)
                } else {
                    RespData::Null
                }
            } else {
                RespData::SimpleString("OK"@)
            };
            (reply, m2)
        },
        CommandData::ConfigGet => (RespData::Integer(0), m),
        CommandData::Client => (RespData::SimpleString("OK"@), m),
    }
}

/// Conditional writes: after `SET k v1`, a `SET k v2 NX` is refused and the
/// store still reads `v1`; a `SET k v2 XX` overwrites to `v2`; and a
/// `SET miss v2 XX` on an absent key leaves the store untouched.
pub proof fn lemma_set_nx_xx(
    m: StoreModel,
    k: Seq<char>,
    v1: Seq<char>,
    v2: Seq<char>,
    now1: u64,
    now2: u64,
    miss: Seq<char>,
)
    requires
        !m.contains_key(miss),
    ensures
        ({
            let m1 = step(
                m,
                CommandData::SetValue {
                    key: k,
                    value: v1,
                    remove_rule: None,
                    expire_rule: None,
                    get_flag: false,
                },
                now1,
            ).1;
            let m_nx = step(
                m1,
                CommandData::SetValue {
                    key: k,
                    value: v2,
                    remove_rule: Some(RemoveRule::NX),
                    expire_rule: None,
                    get_flag: false,
                },
                now2,
            ).1;
            let m_xx = step(
                m1,
                CommandData::SetValue {
                    key: k,
                    value: v2,
                    remove_rule: Some(RemoveRule::XX),
                    expire_rule: None,
                    get_flag: false,
                },
                now2,
            ).1;
            let m_miss = step(
                m,
                CommandData::SetValue {
                    key: miss,
                    value: v2,
                    remove_rule: Some(RemoveRule::XX),
                    expire_rule: None,
                    get_flag: false,
                },
                now2,
            ).1;
            &&& m_nx == m1
            &&& m_nx[k].0 == v1
            &&& m_xx[k].0 == v2
            &&& m_miss == m
        }),
{
}

/// KEEPTTL: overwriting an entry with `KEEPTTL` updates the value and keeps
/// the expiration the entry had, whatever rule first set it.
pub proof fn lemma_keepttl(
    m: StoreModel,
    k: Seq<char>,
    v1: Seq<char>,
    v2: Seq<char>,
    first_rule: ExpireRule,
    now1: u64,
    now2: u64,
)
    ensures
        ({
            let m1 = step(
                m,
                CommandData::SetValue {
                    key: k,
                    value: v1,
                    remove_rule: None,
                    expire_rule: Some(first_rule),
                    get_flag: false,
                },
                now1,
            ).1;
            let m2 = step(
                m1,
                CommandData::SetValue {
                    key: k,
                    value: v2,
                    remove_rule: None,
                    expire_rule: Some(ExpireRule::KEEPTTL),
                    get_flag: false,
                },
                now2,
            ).1;
            m2[k].0 == v2 && m2[k].1 == m1[k].1
        }),
{
}

/// Expiration: a key set with `PX 0`, or with a `PXAT` instant already
/// passed, is absent on every read from that instant on.
pub proof fn lemma_expiration(
    m: StoreModel,
    k: Seq<char>,
    v: Seq<char>,
    now1: u64,
    now2: u64,
    t: u64,
)
    requires
        now1 <= now2,
        t <= now2,
    ensures
        ({
            let m1 = step(
                m,
                CommandData::SetValue {
                    key: k,
                    value: v,
                    remove_rule: None,
                    expire_rule: Some(ExpireRule::PX(0)),
                    get_flag: false,
                },
                now1,
            ).1;
            store_get(m1, k, now2) is None
        }),
        ({
            let m2 = step(
                m,
                CommandData::SetValue {
                    key: k,
                    value: v,
                    remove_rule: None,
                    expire_rule: Some(ExpireRule::PXAT(t)),
                    get_flag: false,
                },
                now1,
            ).1;
            store_get(m2, k, now2) is None
        }),
{
}

/// Key independence: a step whose command is not a write to `k` leaves every
/// read of `k` unchanged, so connections working on disjoint keys observe
/// only their own writes.
pub proof fn lemma_key_isolation(
    m: StoreModel,
    c: CommandData,
    now1: u64,
    k: Seq<char>,
    now2: u64,
)
    requires
        !(c matches CommandData::SetValue { key, .. } && key == k),
    ensures
        store_get(step(m, c, now1).1, k, now2) == store_get(m, k, now2),
{
}

/// The command handler: a store and the rule for answering one command.
pub struct Worker {
    dictionary: Dictionary<String>,
}

impl View for Worker {
    type V = StoreModel;

    closed spec fn view(&self) -> StoreModel {
        self.dictionary@.map_values(|p: (String, Option<u64>)| (p.0@, p.1))
    }
}

impl Worker {
    /// The worker's internal invariant: the store's.
    pub closed spec fn wf(&self) -> bool {
        self.dictionary.wf()
    }

    /// A worker around the given store.
    pub fn new(dictionary: Dictionary<String>) -> (w: Worker)
        requires
            dictionary.wf(),
        ensures
            w.wf(),
            w@ == dictionary@.map_values(|p: (String, Option<u64>)| (p.0@, p.1)),
    {
        Worker { dictionary }
    }

    /// Applies one command to the store at instant `now_ms` and returns the
    /// reply: exactly one `step` of the server.
    pub fn handle_command_at(&mut self, command: Command, now_ms: u64) -> (r: Resp)
        requires
            old(self).wf(),
        ensures
            final(self).wf(),
            (r@, final(self)@) == step(old(self)@, command@, now_ms),
    {
        match command {
            Command::Ping => Resp::SimpleString(String::from_str("PONG")),
            Command::Echo(s) => Resp::BulkString(s),
            Command::Get(key) => {
                match self.dictionary.get(key.as_str(), now_ms) {
                    Option::Some(value) => Resp::BulkString(value.clone()),
                    Option::None => Resp::Null,
                }
            },
            Command::SetValue { key, value, remove_rule, expire_rule, get_flag } => {
                let ghost key_view = key@;
                let ghost pre = self.dictionary@;
                let ghost f = |p: (String, Option<u64>)| (p.0@, p.1);
                let replaced = self.dictionary.set(
                    key,
                    value,
                    remove_rule,
                    get_flag,
                    expire_rule,
                    now_ms,
                );
                proof {
                    let present = pre.contains_key(key_view);
                    assert(pre.map_values(f).contains_key(key_view) == present);
                    if present {
                        assert(pre.map_values(f)[key_view] == f(pre[key_view]));
                    }
                    let can_set = match remove_rule {
                        Option::Some(RemoveRule::NX) => !present,
                        Option::Some(RemoveRule::XX) => present,
                        Option::None => true,
                    };
                    if can_set {
                        assert(self.dictionary@.contains_key(key_view));
                        assert(self.dictionary@.map_values(f) =~= pre.map_values(f).insert(
                            key_view,
                            f(self.dictionary@[key_view]),
                        ));
                    }
                }
                if get_flag {
                    match replaced {
                        Option::Some(v) => Resp::BulkString(v),
                        Option::None => Resp::Null,
                    }
                } else {
                    Resp::ok()
                }
            },
            Command::ConfigGet => Resp::Integer(0),
            Command::Client => Resp::SimpleString(String::from_str("OK")),
        }
    }

    /// Applies one command at the clock's current instant: one `step` at
    /// whatever instant the clock read.
    pub fn handle_command(&mut self, command: Command) -> (r: Resp)
        requires
            old(self).wf(),
        ensures
            final(self).wf(),
            exists|now_ms: u64| (r@, final(self)@) == step(old(self)@, command@, now_ms),
    {
        let now_ms = crate::clock::now_millis();
        self.handle_command_at(command, now_ms)
    }
}

} // verus!
