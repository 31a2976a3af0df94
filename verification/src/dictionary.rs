//! The keyed store: a mapping from string keys to values with optional
//! absolute expiration instants and conditional-write rules. An entry whose
//! instant has passed behaves as absent on every read; physical removal is
//! lazy. Time enters as an explicit instant in milliseconds, supplied by the
//! caller.

use vstd::prelude::*;

verus! {

use vstd::utf8::{encode_utf8_decode_utf8, decode_utf8_encode_utf8};
use vstd::string::StringSliceAdditionalSpecFns;

/// The guard a conditional SET evaluates against the key's current presence:
/// `NX` writes only an absent key, `XX` only a present one.
#[derive(Clone, Copy, Debug, PartialEq, Eq, Structural)]
pub enum RemoveRule {
    NX,
    XX,
}

/// How a SET determines the new entry's expiration: `EX`/`PX` are relative
/// to the write instant (seconds / milliseconds), `EXAT`/`PXAT` absolute
/// instants (seconds / milliseconds since the epoch), and `KEEPTTL` keeps
/// the expiration of the entry being overwritten.
#[derive(Clone, Copy, Debug, PartialEq, Eq, Structural)]
pub enum ExpireRule {
    EX(u64),
    PX(u64),
    EXAT(u64),
    PXAT(u64),
    KEEPTTL,
}

/// The absolute expiration instant a rule denotes at the write instant
/// `now_ms`, in milliseconds since the epoch. An instant that would overflow
/// the clock's range means no expiration; `KEEPTTL` contributes none
/// itself.
pub open spec fn expire_time_of(rule: ExpireRule, now_ms: u64) -> Option<u64> {
    match rule {
        ExpireRule::EX(s) => if s * 1000 + now_ms <= u64::MAX {
            Some((s * 1000 + now_ms) as u64)
        } else {
            None
        },
        ExpireRule::PX(ms) => if ms + now_ms <= u64::MAX {
            Some((ms + now_ms) as u64)
        } else {
            None
        },
        ExpireRule::EXAT(s) => if s * 1000 <= u64::MAX {
            Some((s * 1000) as u64)
        } else {
            None
        },
        ExpireRule::PXAT(ms) => Some(ms),
        ExpireRule::KEEPTTL => None,
    }
}

impl ExpireRule {
    /// Computes the absolute expiration instant this rule denotes at `now_ms`.
    pub fn calculate_expire_time(&self, now_ms: u64) -> (r: Option<u64>)
        ensures
            r == expire_time_of(*self, now_ms),
    {
        match self {
            ExpireRule::EX(s) => match s.checked_mul(1000) {
                Option::Some(ms) => ms.checked_add(now_ms),
                Option::None => None,
            },
            ExpireRule::PX(ms) => ms.checked_add(now_ms),
            ExpireRule::EXAT(s) => s.checked_mul(1000),
            ExpireRule::PXAT(ms) => Some(*ms),
            ExpireRule::KEEPTTL => None,
        }
    }
}

/// Whether an entry with this expiration is visible at instant `now_ms`: it
/// is until its instant, exclusive, or forever without one.
pub open spec fn live_at(expires_at: Option<u64>, now_ms: u64) -> bool {
    match expires_at {
        Option::Some(t) => t > now_ms,
        Option::None => true,
    }
}

struct Entry<V> {
    value: V,
    expires_at: Option<u64>,
}

/// The store: string keys mapped to values with optional expiration
/// instants. Its model is the map from key text to (value, expiration).
pub struct Dictionary<V> {
    entries: Vec<(String, Entry<V>)>,
}

/// Looks a key up in the association list, front first.
spec fn find_entry<V>(s: Seq<(String, Entry<V>)>, k: Seq<char>) -> Option<(V, Option<u64>)>
    decreases s.len(),
{
    if s.len() == 0 {
        None
    } else if s[0].0@ == k {
        Some((s[0].1.value, s[0].1.expires_at))
    } else {
        find_entry(s.subrange(1, s.len() as int), k)
    }
}

/// No two entries share a key.
spec fn uniq_keys<V>(s: Seq<(String, Entry<V>)>) -> bool {
    forall|i: int, j: int| 0 <= i < j < s.len() ==> s[i].0@ != s[j].0@
}

/// A key absent from every entry is not found.
proof fn lemma_find_entry_none<V>(s: Seq<(String, Entry<V>)>, k: Seq<char>)
    requires
        forall|i: int| 0 <= i < s.len() ==> s[i].0@ != k,
    ensures
        find_entry(s, k) is None,
    decreases s.len(),
{
    if s.len() > 0 {
        let tail = s.subrange(1, s.len() as int);
        assert(forall|i: int| 0 <= i < tail.len() ==> tail[i] == s[i + 1]);
        lemma_find_entry_none(tail, k);
    }
}

/// With unique keys, the entry at any index is what its key finds.
proof fn lemma_find_entry_at<V>(s: Seq<(String, Entry<V>)>, i: int)
    requires
        uniq_keys(s),
        0 <= i < s.len(),
    ensures
        find_entry(s, s[i].0@) == Some((s[i].1.value, s[i].1.expires_at)),
    decreases i,
{
    if i > 0 {
        let tail = s.subrange(1, s.len() as int);
        assert(forall|t: int| 0 <= t < tail.len() ==> tail[t] == s[t + 1]);
        assert(uniq_keys(tail));
        lemma_find_entry_at(tail, i - 1);
        assert(s[0].0@ != s[i].0@);
    }
}

/// Removing the entry at an index unbinds exactly its key.
proof fn lemma_find_entry_remove<V>(s: Seq<(String, Entry<V>)>, i: int, k: Seq<char>)
    requires
        uniq_keys(s),
        0 <= i < s.len(),
    ensures
        find_entry(s.remove(i), k) == if k == s[i].0@ {
            None::<(V, Option<u64>)>
        } else {
            find_entry(s, k)
        },
        uniq_keys(s.remove(i)),
        forall|j: int| 0 <= j < s.remove(i).len() ==> s.remove(i)[j].0@ != s[i].0@,
    decreases i,
{
    let r = s.remove(i);
    assert(forall|j: int| 0 <= j < i ==> r[j] == s[j]);
    assert(forall|j: int| i <= j < r.len() ==> r[j] == s[j + 1]);
    if i == 0 {
        assert(r =~= s.subrange(1, s.len() as int));
        if k == s[0].0@ {
            assert(forall|j: int| 0 <= j < r.len() ==> r[j].0@ != k);
            lemma_find_entry_none(r, k);
        }
    } else {
        let tail = s.subrange(1, s.len() as int);
        assert(forall|t: int| 0 <= t < tail.len() ==> tail[t] == s[t + 1]);
        assert(uniq_keys(tail));
        lemma_find_entry_remove(tail, i - 1, k);
        assert(r.subrange(1, r.len() as int) =~= tail.remove(i - 1));
        assert(r[0] == s[0]);
        if k == s[i].0@ {
            assert(s[0].0@ != s[i].0@);
        }
    }
}

/// Appending an entry whose key is absent binds exactly that key.
proof fn lemma_find_entry_push<V>(
    s: Seq<(String, Entry<V>)>,
    p: (String, Entry<V>),
    k: Seq<char>,
)
    requires
        forall|j: int| 0 <= j < s.len() ==> s[j].0@ != p.0@,
    ensures
        find_entry(s.push(p), k) == if k == p.0@ {
            Some((p.1.value, p.1.expires_at))
        } else {
            find_entry(s, k)
        },
        uniq_keys(s) ==> uniq_keys(s.push(p)),
    decreases s.len(),
{
    let r = s.push(p);
    if s.len() == 0 {
        assert(r[0] == p);
        if k != p.0@ {
            assert(forall|j: int| 0 <= j < r.len() ==> r[j].0@ != k);
            lemma_find_entry_none(r, k);
        }
    } else {
        assert(r[0] == s[0]);
        let tail = s.subrange(1, s.len() as int);
        assert(forall|t: int| 0 <= t < tail.len() ==> tail[t] == s[t + 1]);
        lemma_find_entry_push(tail, p, k);
        assert(r.subrange(1, r.len() as int) =~= tail.push(p));
        if uniq_keys(s) {
            assert(uniq_keys(tail));
            assert forall|i: int, j: int| 0 <= i < j < r.len() implies r[i].0@ != r[j].0@ by {
                if j < s.len() {
                } else {
                    assert(r[i] == s[i] && r[j] == p);
                }
            }
        }
    }
}

/// Compares two strings by their UTF-8 bytes; equal bytes mean equal text.
pub(crate) fn str_eq(a: &str, b: &str) -> (r: bool)
    ensures
        r == (a@ == b@),
{
    let ab: &[u8] = a.as_bytes();
    let bb: &[u8] = b.as_bytes();
    if ab.len() != bb.len() {
        proof {
            if a@ == b@ {
                assert(a.spec_bytes() == b.spec_bytes());
            }
        }
        return false;
    }
    let n = ab.len();
    let mut i: usize = 0;
    while i < n
        invariant
            i <= n,
            n == ab@.len() == bb@.len(),
            ab@ == a.spec_bytes(),
            bb@ == b.spec_bytes(),
            forall|t: int| 0 <= t < i ==> ab@[t] == bb@[t],
        decreases n - i,
    {
        if ab[i] != bb[i] {
            proof {
                if a@ == b@ {
                    assert(a.spec_bytes() == b.spec_bytes());
                }
            }
            return false;
        }
        i = i + 1;
    }
    proof {
        assert(a.spec_bytes() =~= b.spec_bytes());
        encode_utf8_decode_utf8(a@);
        encode_utf8_decode_utf8(b@);
    }
    true
}

impl<V> View for Dictionary<V> {
    type V = Map<Seq<char>, (V, Option<u64>)>;

    closed spec fn view(&self) -> Map<Seq<char>, (V, Option<u64>)> {
        Map::new(
            |k: Seq<char>| find_entry(self.entries@, k) is Some,
            |k: Seq<char>| find_entry(self.entries@, k)->0,
        )
    }
}

impl<V> Dictionary<V> {
    /// The store's internal invariant: one entry per key.
    pub closed spec fn wf(&self) -> bool {
        uniq_keys(self.entries@)
    }

    /// What a read of `k` at instant `now_ms` yields: the value while the
    /// entry is live, absence otherwise.
    pub open spec fn spec_get(&self, k: Seq<char>, now_ms: u64) -> Option<V> {
        if self@.contains_key(k) && live_at(self@[k].1, now_ms) {
            Some(self@[k].0)
        } else {
            None
        }
    }

    /// An empty store.
    pub fn new() -> (d: Self)
        ensures
            d.wf(),
            d@ == Map::<Seq<char>, (V, Option<u64>)>::empty(),
    {
        let d = Dictionary { entries: Vec::new() };
        proof {
            assert forall|k: Seq<char>| !d@.contains_key(k) by {
                lemma_find_entry_none(d.entries@, k);
            }
            assert(d@ =~= Map::<Seq<char>, (V, Option<u64>)>::empty());
        }
        d
    }

    /// The position of the key's entry, if it has one.
    fn find_index(&self, key: &str) -> (r: Option<usize>)
        requires
            self.wf(),
        ensures
            match r {
                Option::Some(i) => i < self.entries@.len() && self.entries@[i as int].0@ == key@
                    && self@.contains_key(key@) && self@[key@] == (
                    self.entries@[i as int].1.value,
                    self.entries@[i as int].1.expires_at,
                ),
                Option::None => !self@.contains_key(key@) && forall|j: int|
                    0 <= j < self.entries@.len() ==> self.entries@[j].0@ != key@,
            },
    {
        let n = self.entries.len();
        let mut i: usize = 0;
        while i < n
            invariant
                i <= n,
                n == self.entries@.len(),
                self.wf(),
                forall|j: int| 0 <= j < i ==> self.entries@[j].0@ != key@,
            decreases n - i,
        {
            if str_eq(self.entries[i].0.as_str(), key) {
                proof {
                    lemma_find_entry_at(self.entries@, i as int);
                }
                return Some(i);
            }
            i = i + 1;
        }
        proof {
            lemma_find_entry_none(self.entries@, key@);
        }
        None
    }

    /// Reads `key` at instant `now_ms`: the value unless the entry is absent
    /// or its expiration instant has passed.
    pub fn get(&self, key: &str, now_ms: u64) -> (r: Option<&V>)
        requires
            self.wf(),
        ensures
            match r {
                Option::Some(v) => self.spec_get(key@, now_ms) == Some(*v),
                Option::None => self.spec_get(key@, now_ms) is None,
            },
    {
        match self.find_index(key) {
            Option::Some(i) => {
                let entry = &self.entries[i].1;
                match entry.expires_at {
                    Option::Some(t) => {
                        if t > now_ms {
                            Some(&entry.value)
                        } else {
                            None
                        }
                    },
                    Option::None => Some(&entry.value),
                }
            },
            Option::None => None,
        }
    }

    /// Writes `key` at instant `now_ms`, guarded by `remove_rule` against
    /// the key's current presence (lazy expiration: an expired entry still
    /// counts as present until overwritten). When the write proceeds, the new
    /// expiration comes from `expire_rule` — `KEEPTTL` inheriting the
    /// replaced entry's — and the replaced value is returned exactly when
    /// `get` is set and the key was present. A refused write leaves the
    /// store unchanged and returns nothing.
    pub fn set(
        &mut self,
        key: String,
        value: V,
        remove_rule: Option<RemoveRule>,
        get: bool,
        expire_rule: Option<ExpireRule>,
        now_ms: u64,
    ) -> (r: Option<V>)
        requires
            old(self).wf(),
        ensures
            final(self).wf(),
            ({
                let present = old(self)@.contains_key(key@);
                let can_set = match remove_rule {
                    Option::Some(RemoveRule::NX) => !present,
                    Option::Some(RemoveRule::XX) => present,
                    Option::None => true,
                };
                let new_expiry = match expire_rule {
                    Option::Some(ExpireRule::KEEPTTL) => if present {
                        old(self)@[key@].1
                    } else {
                        None
                    },
                    Option::Some(rule) => expire_time_of(rule, now_ms),
                    Option::None => None,
                };
                &&& (!can_set ==> final(self)@ == old(self)@ && r is None)
                &&& (can_set ==> final(self)@ == old(self)@.insert(key@, (value, new_expiry)))
                &&& (can_set ==> r == (if get && present {
                    Some(old(self)@[key@].0)
                } else {
                    None::<V>
                }))
            }),
    {
        let ghost key_view = key@;
        let ghost entries0 = self.entries@;
        let idx = self.find_index(key.as_str());
        let can_set = match remove_rule {
            Option::Some(RemoveRule::NX) => idx.is_none(),
            Option::Some(RemoveRule::XX) => idx.is_some(),
            Option::None => true,
        };
        if !can_set {
            return None;
        }
        let computed = match &expire_rule {
            Option::Some(rule) => rule.calculate_expire_time(now_ms),
            Option::None => None,
        };
        let old_entry: Option<Entry<V>> = match idx {
            Option::Some(i) => {
                let (_, e) = self.entries.remove(i);
                Some(e)
            },
            Option::None => None,
        };
        let expires_at: Option<u64> = match (&expire_rule, &old_entry) {
            (Option::Some(ExpireRule::KEEPTTL), Option::Some(e)) => e.expires_at,
            _ => computed,
        };
        let ghost entries1 = self.entries@;
        proof {
            match idx {
                Option::Some(i) => {
                    lemma_find_entry_remove(entries0, i as int, key_view);
                },
                Option::None => {},
            }
            assert(forall|j: int| 0 <= j < entries1.len() ==> entries1[j].0@ != key_view);
        }
        self.entries.push((key, Entry { value, expires_at }));
        proof {
            let p = self.entries@.last();
            assert(self.entries@ == entries1.push(p));
            assert(p.0@ == key_view);
            lemma_find_entry_push(entries1, p, key_view);
            assert(uniq_keys(self.entries@));
            assert forall|k: Seq<char>| #[trigger] find_entry(self.entries@, k) == (if k
                == key_view {
                Some((p.1.value, p.1.expires_at))
            } else {
                find_entry(entries0, k)
            }) by {
                lemma_find_entry_push(entries1, p, k);
                match idx {
                    Option::Some(i) => {
                        lemma_find_entry_remove(entries0, i as int, k);
                    },
                    Option::None => {},
                }
            }
            assert(final(self)@ =~= old(self)@.insert(key_view, (p.1.value, p.1.expires_at)));
        }
        if get {
            match old_entry {
                Option::Some(e) => Some(e.value),
                Option::None => None,
            }
        } else {
            None
        }
    }
}

} // verus!
