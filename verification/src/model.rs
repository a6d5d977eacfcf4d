//! The cache as a mathematical value: a bounded sequence of entries, most
//! recently touched first. Every executable cache in this crate is specified
//! by the operations defined here.

use vstd::prelude::*;

verus! {

/// One cached key/value pair and the instant from which it counts as expired.
pub struct Entry {
    pub key: Seq<char>,
    pub value: Seq<u8>,
    pub expires_at: nat,
}

/// The abstract state of a cache.
///
/// `entries` is the recency order: index 0 is the most recently touched entry
/// and the last index is the next eviction candidate. An entry is touched when
/// it is inserted, updated or successfully read.
#[verifier::ext_equal]
pub struct CacheState {
    /// Largest number of entries the cache may hold.
    pub capacity: nat,
    /// Lifetime given to every inserted entry, in clock ticks.
    pub ttl: nat,
    pub entries: Seq<Entry>,
}

impl CacheState {
    /// The cache right after construction.
    pub open spec fn empty(capacity: nat, ttl: nat) -> CacheState {
        CacheState { capacity, ttl, entries: Seq::empty() }
    }

    /// Number of entries held, expired-but-unobserved ones included.
    pub open spec fn len(self) -> nat {
        self.entries.len()
    }

    /// No key occurs twice and the capacity bound holds.
    pub open spec fn wf(self) -> bool {
        &&& self.entries.len() <= self.capacity
        &&& forall|i: int, j: int|
            0 <= i < self.entries.len() && 0 <= j < self.entries.len() && i != j
                ==> self.entries[i].key != self.entries[j].key
    }

    /// `key` is held, expired or not.
    pub open spec fn contains(self, key: Seq<char>) -> bool {
        exists|i: int| 0 <= i < self.entries.len() && self.entries[i].key == key
    }

    /// Where `key` stands in the recency order; meaningful when the key is held.
    pub open spec fn position(self, key: Seq<char>) -> int {
        choose|i: int| 0 <= i < self.entries.len() && self.entries[i].key == key
    }

    /// The entry stored under `key`; meaningful when the key is held.
    pub open spec fn entry(self, key: Seq<char>) -> Entry {
        self.entries[self.position(key)]
    }

    /// The same cache holding `entries` instead.
    pub open spec fn with_entries(self, entries: Seq<Entry>) -> CacheState {
        CacheState { capacity: self.capacity, ttl: self.ttl, entries }
    }

    /// `key` is held and has not reached its expiry at time `now`.
    pub open spec fn is_live(self, key: Seq<char>, now: nat) -> bool {
        self.contains(key) && now < self.entry(key).expires_at
    }

    /// What a lookup of `key` at time `now` returns: the stored value exactly
    /// when the key is held and unexpired.
    pub open spec fn lookup(self, key: Seq<char>, now: nat) -> Option<Seq<u8>> {
        if self.is_live(key, now) {
            Some(self.entry(key).value)
        } else {
            None
        }
    }

    /// The cache after a lookup of `key` at time `now`: unchanged on a miss of
    /// an absent key, without the entry when it was found expired, and with
    /// the entry moved to the front on a hit.
    pub open spec fn after_lookup(self, key: Seq<char>, now: nat) -> CacheState {
        if !self.contains(key) {
            self
        } else if now < self.entry(key).expires_at {
            self.with_entries(seq![self.entry(key)] + self.entries.remove(self.position(key)))
        } else {
            self.remove(key)
        }
    }

    /// The entry that an insert at time `now` creates.
    pub open spec fn fresh(self, key: Seq<char>, value: Seq<u8>, now: nat) -> Entry {
        Entry { key, value, expires_at: now + self.ttl }
    }

    /// The cache after inserting `key` at time `now`.
    ///
    /// An existing key is replaced and moved to the front without any
    /// eviction. A new key goes to the front, and if that takes the cache over
    /// its capacity the last entry of the recency order leaves.
    pub open spec fn insert(self, key: Seq<char>, value: Seq<u8>, now: nat) -> CacheState {
        let fresh = self.fresh(key, value, now);
        if self.contains(key) {
            self.with_entries(seq![fresh] + self.entries.remove(self.position(key)))
        } else if self.entries.len() + 1 > self.capacity {
            self.with_entries((seq![fresh] + self.entries).drop_last())
        } else {
            self.with_entries(seq![fresh] + self.entries)
        }
    }

    /// The key that inserting `key` pushes out, if any.
    pub open spec fn evicted_by_insert(self, key: Seq<char>) -> Option<Seq<char>> {
        if !self.contains(key) && self.entries.len() + 1 > self.capacity {
            if self.entries.len() == 0 {
                Some(key)
            } else {
                Some(self.entries.last().key)
            }
        } else {
            None
        }
    }

    /// The cache without `key`; unchanged when the key is not held.
    pub open spec fn remove(self, key: Seq<char>) -> CacheState {
        if self.contains(key) {
            self.with_entries(self.entries.remove(self.position(key)))
        } else {
            self
        }
    }
}

/// One operation on a cache, as it appears in a history.
pub enum Op {
    Insert { key: Seq<char>, value: Seq<u8>, now: nat },
    Lookup { key: Seq<char>, now: nat },
    Remove { key: Seq<char> },
}

impl CacheState {
    /// The cache after one operation.
    pub open spec fn apply(self, op: Op) -> CacheState {
        match op {
            Op::Insert { key, value, now } => self.insert(key, value, now),
            Op::Lookup { key, now } => self.after_lookup(key, now),
            Op::Remove { key } => self.remove(key),
        }
    }

    /// The cache after a history of operations, performed first to last.
    pub open spec fn run(self, ops: Seq<Op>) -> CacheState
        decreases ops.len(),
    {
        if ops.len() == 0 {
            self
        } else {
            self.run(ops.drop_last()).apply(ops.last())
        }
    }

    /// Performing `op` on this cache touches `key`: the operation inserts or
    /// updates the key, or reads it successfully.
    pub open spec fn touched_by(self, op: Op, key: Seq<char>) -> bool {
        match op {
            Op::Insert { key: k, value: _, now: _ } => k == key,
            Op::Lookup { key: k, now } => k == key && self.is_live(key, now),
            Op::Remove { key: _ } => false,
        }
    }

    /// When `key` was last touched in the history `ops` that starts at this
    /// cache: the number of the operation, counted from 1, or 0 if no
    /// operation touched the key.
    pub open spec fn last_touch(self, ops: Seq<Op>, key: Seq<char>) -> nat
        decreases ops.len(),
    {
        if ops.len() == 0 {
            0
        } else if self.run(ops.drop_last()).touched_by(ops.last(), key) {
            ops.len()
        } else {
            self.last_touch(ops.drop_last(), key)
        }
    }
}

/// In a well-formed cache the position of a held key is the one index that
/// carries it.
pub proof fn lemma_position_unique(s: CacheState, i: int)
    requires
        s.wf(),
        0 <= i < s.entries.len(),
    ensures
        s.contains(s.entries[i].key),
        s.position(s.entries[i].key) == i,
        s.entry(s.entries[i].key) == s.entries[i],
{
}

/// Inserting keeps a cache well-formed: keys stay distinct and the capacity
/// bound holds afterwards.
pub proof fn lemma_insert_wf(s: CacheState, key: Seq<char>, value: Seq<u8>, now: nat)
    requires
        s.wf(),
    ensures
        s.insert(key, value, now).wf(),
        s.insert(key, value, now).capacity == s.capacity,
        s.insert(key, value, now).ttl == s.ttl,
{
    let fresh = s.fresh(key, value, now);
    let t = s.insert(key, value, now);
    if s.contains(key) {
        let p = s.position(key);
        assert forall|i: int, j: int|
            0 <= i < t.entries.len() && 0 <= j < t.entries.len() && i != j implies t.entries[i].key
            != t.entries[j].key by {
            let oi = if i - 1 < p { i - 1 } else { i };
            let oj = if j - 1 < p { j - 1 } else { j };
            if i > 0 {
                assert(t.entries[i] == s.entries[oi]);
            }
            if j > 0 {
                assert(t.entries[j] == s.entries[oj]);
            }
        }
    } else {
        let grown = seq![fresh] + s.entries;
        assert forall|i: int, j: int|
            0 <= i < t.entries.len() && 0 <= j < t.entries.len() && i != j implies t.entries[i].key
            != t.entries[j].key by {
            assert(t.entries[i] == grown[i]);
            assert(t.entries[j] == grown[j]);
            if i > 0 {
                assert(grown[i] == s.entries[i - 1]);
            }
            if j > 0 {
                assert(grown[j] == s.entries[j - 1]);
            }
        }
    }
}

/// Removing a key keeps a cache well-formed, takes the key out and leaves
/// one entry fewer when the key was held.
pub proof fn lemma_remove_wf(s: CacheState, key: Seq<char>)
    requires
        s.wf(),
    ensures
        s.remove(key).wf(),
        s.remove(key).capacity == s.capacity,
        s.remove(key).ttl == s.ttl,
        !s.remove(key).contains(key),
        s.remove(key).len() == (if s.contains(key) {
            s.len() - 1
        } else {
            s.len() as int
        }),
{
    let t = s.remove(key);
    if s.contains(key) {
        let p = s.position(key);
        assert forall|i: int| 0 <= i < t.entries.len() implies t.entries[i] == s.entries[if i < p {
            i
        } else {
            i + 1
        }] by {}
        assert forall|i: int, j: int|
            0 <= i < t.entries.len() && 0 <= j < t.entries.len() && i != j implies t.entries[i].key
            != t.entries[j].key by {
            assert(t.entries[i] == s.entries[if i < p { i } else { i + 1 }]);
            assert(t.entries[j] == s.entries[if j < p { j } else { j + 1 }]);
        }
        if t.contains(key) {
            let i = t.position(key);
            assert(t.entries[i] == s.entries[if i < p { i } else { i + 1 }]);
        }
    }
}

/// A lookup keeps a cache well-formed and never adds an entry.
pub proof fn lemma_lookup_wf(s: CacheState, key: Seq<char>, now: nat)
    requires
        s.wf(),
    ensures
        s.after_lookup(key, now).wf(),
        s.after_lookup(key, now).capacity == s.capacity,
        s.after_lookup(key, now).ttl == s.ttl,
        s.after_lookup(key, now).len() <= s.len(),
{
    let t = s.after_lookup(key, now);
    if s.contains(key) {
        if now < s.entry(key).expires_at {
            let p = s.position(key);
            assert forall|i: int, j: int|
                0 <= i < t.entries.len() && 0 <= j < t.entries.len() && i != j implies t.entries[i].key
                != t.entries[j].key by {
                let oi = if i == 0 { p } else if i - 1 < p { i - 1 } else { i };
                let oj = if j == 0 { p } else if j - 1 < p { j - 1 } else { j };
                assert(t.entries[i] == s.entries[oi]);
                assert(t.entries[j] == s.entries[oj]);
            }
        } else {
            lemma_remove_wf(s, key);
        }
    }
}

/// After an insert into a cache that can hold anything at all, the new entry
/// is the first of the recency order.
pub proof fn lemma_inserted_is_first(s: CacheState, key: Seq<char>, value: Seq<u8>, now: nat)
    requires
        s.wf(),
        s.capacity >= 1,
    ensures
        s.insert(key, value, now).contains(key),
        s.insert(key, value, now).position(key) == 0,
        s.insert(key, value, now).entry(key) == s.fresh(key, value, now),
{
    let t = s.insert(key, value, now);
    lemma_insert_wf(s, key, value, now);
    assert(t.entries[0] == s.fresh(key, value, now));
    lemma_position_unique(t, 0);
}

/// Every operation keeps a cache well-formed and leaves its configuration
/// alone.
pub proof fn lemma_apply_wf(s: CacheState, op: Op)
    requires
        s.wf(),
    ensures
        s.apply(op).wf(),
        s.apply(op).capacity == s.capacity,
        s.apply(op).ttl == s.ttl,
{
    match op {
        Op::Insert { key, value, now } => lemma_insert_wf(s, key, value, now),
        Op::Lookup { key, now } => lemma_lookup_wf(s, key, now),
        Op::Remove { key } => lemma_remove_wf(s, key),
    }
}

} // verus!
