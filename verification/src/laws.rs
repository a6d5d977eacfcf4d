//! What holds of every cache: the capacity bound, least-recently-used
//! eviction, expiry by time-to-live, and the effect of re-inserting a key.
//!
//! Everything here is stated over `CacheState`, the value that the contracts
//! of the executable caches speak of.

use crate::model::{
    lemma_apply_wf, lemma_insert_wf, lemma_inserted_is_first, lemma_lookup_wf,
    lemma_position_unique, lemma_remove_wf, CacheState, Entry, Op,
};
use crate::proxy::{after_fetch, Fetched};
use vstd::prelude::*;

verus! {

/// Update is idempotent on the count: re-inserting a key that is held
/// changes neither the number of entries nor any other entry, evicts
/// nothing, replaces the value, resets the expiry to `now + ttl` and makes
/// the key the most recently touched one.
pub proof fn law_update_keeps_count(s: CacheState, key: Seq<char>, value: Seq<u8>, now: nat)
    requires
        s.wf(),
        s.contains(key),
    ensures
        s.insert(key, value, now).len() == s.len(),
        s.evicted_by_insert(key) is None,
        s.insert(key, value, now).entries[0] == (Entry { key, value, expires_at: now + s.ttl }),
        s.insert(key, value, now).contains(key),
        s.insert(key, value, now).position(key) == 0,
        s.insert(key, value, now).entry(key).expires_at == now + s.ttl,
        s.insert(key, value, now).entry(key).value == value,
        s.insert(key, value, now).entries.drop_first() == s.entries.remove(s.position(key)),
{
    let t = s.insert(key, value, now);
    lemma_insert_wf(s, key, value, now);
    assert(t.entries[0].key == key);
    assert(t.entries.drop_first() =~= s.entries.remove(s.position(key)));
}

/// A new key that arrives at a full cache pushes out exactly the entry at
/// the end of the recency order. The new key is admitted at the front and
/// every other entry stays, in its old order.
pub proof fn law_eviction_takes_least_recent(
    s: CacheState,
    key: Seq<char>,
    value: Seq<u8>,
    now: nat,
)
    requires
        s.wf(),
        !s.contains(key),
        s.len() == s.capacity,
        s.capacity >= 1,
    ensures
        s.evicted_by_insert(key) == Some(s.entries.last().key),
        s.insert(key, value, now).len() == s.capacity,
        s.insert(key, value, now).entries == seq![s.fresh(key, value, now)]
            + s.entries.drop_last(),
        s.insert(key, value, now).contains(key),
        !s.insert(key, value, now).contains(s.entries.last().key),
        forall|i: int|
            0 <= i < s.len() - 1 ==> s.insert(key, value, now).contains(
                (#[trigger] s.entries[i]).key,
            ),
{
    let t = s.insert(key, value, now);
    let fresh = s.fresh(key, value, now);
    let last = s.entries.len() - 1;
    assert(t.entries =~= seq![fresh] + s.entries.drop_last());
    assert(t.entries[0].key == key);
    assert forall|i: int| 0 <= i < s.len() - 1 implies t.contains((#[trigger] s.entries[i]).key) by {
        assert(t.entries[i + 1] == s.entries[i]);
    }
    if t.contains(s.entries.last().key) {
        let i = t.position(s.entries.last().key);
        if i > 0 {
            assert(t.entries[i] == s.entries[i - 1]);
            assert(s.entries[i - 1].key != s.entries[last].key);
        } else {
            assert(s.contains(key));
        }
    }
}

/// Below capacity nothing is evicted: a new key goes to the front and every
/// entry stays.
pub proof fn law_no_eviction_below_capacity(
    s: CacheState,
    key: Seq<char>,
    value: Seq<u8>,
    now: nat,
)
    requires
        s.wf(),
        !s.contains(key),
        s.len() < s.capacity,
    ensures
        s.evicted_by_insert(key) is None,
        s.insert(key, value, now).entries == seq![s.fresh(key, value, now)] + s.entries,
        s.insert(key, value, now).len() == s.len() + 1,
{
}

/// A touch moves one key to the front and leaves the order of all others as
/// it was: of two other keys that are held before and after a successful
/// lookup of `key`, the one that stood first still stands first.
pub proof fn law_hit_keeps_order_of_others(
    s: CacheState,
    key: Seq<char>,
    now: nat,
    a: Seq<char>,
    b: Seq<char>,
)
    requires
        s.wf(),
        s.is_live(key, now),
        s.contains(a),
        s.contains(b),
        a != key,
        b != key,
    ensures
        s.after_lookup(key, now).position(key) == 0,
        s.after_lookup(key, now).len() == s.len(),
        s.after_lookup(key, now).contains(a),
        s.after_lookup(key, now).contains(b),
        s.after_lookup(key, now).position(a) < s.after_lookup(key, now).position(b)
            <==> s.position(a) < s.position(b),
{
    let t = s.after_lookup(key, now);
    lemma_lookup_wf(s, key, now);
    let p = s.position(key);
    let pa = s.position(a);
    let pb = s.position(b);
    let ta = if pa < p { pa + 1 } else { pa };
    let tb = if pb < p { pb + 1 } else { pb };
    assert(t.entries[0] == s.entries[p]);
    assert(t.entries[ta] == s.entries[pa]);
    assert(t.entries[tb] == s.entries[pb]);
    lemma_position_unique(t, 0);
    lemma_position_unique(t, ta);
    lemma_position_unique(t, tb);
}

/// Time-to-live: an entry inserted at `now` is returned by every lookup
/// strictly before `now + ttl`, and a lookup at or after `now + ttl` misses
/// and removes it.
pub proof fn law_ttl(s: CacheState, key: Seq<char>, value: Seq<u8>, now: nat, later: nat)
    requires
        s.wf(),
        s.capacity >= 1,
    ensures
        later < now + s.ttl ==> s.insert(key, value, now).lookup(key, later) == Some(value),
        later >= now + s.ttl ==> {
            &&& s.insert(key, value, now).lookup(key, later) is None
            &&& !s.insert(key, value, now).after_lookup(key, later).contains(key)
            &&& s.insert(key, value, now).after_lookup(key, later).len() == s.insert(
                key,
                value,
                now,
            ).len() - 1
        },
{
    let t = s.insert(key, value, now);
    lemma_insert_wf(s, key, value, now);
    lemma_inserted_is_first(s, key, value, now);
    if later >= now + s.ttl {
        lemma_remove_wf(t, key);
    }
}

/// A read never extends a lifetime: a successful lookup leaves the key, the
/// value and the expiry of every entry as they were.
pub proof fn law_hit_keeps_entries(s: CacheState, key: Seq<char>, now: nat, other: Seq<char>)
    requires
        s.wf(),
        s.is_live(key, now),
        s.contains(other),
    ensures
        s.after_lookup(key, now).contains(other),
        s.after_lookup(key, now).entry(other) == s.entry(other),
{
    let t = s.after_lookup(key, now);
    lemma_lookup_wf(s, key, now);
    let p = s.position(key);
    let po = s.position(other);
    let to = if po == p { 0 } else if po < p { po + 1 } else { po };
    assert(t.entries[to] == s.entries[po]);
    lemma_position_unique(t, to);
}

/// An entry found expired is removed whole: the key is gone, and every other
/// entry stays where it was relative to the rest.
pub proof fn law_expired_entry_is_removed(s: CacheState, key: Seq<char>, now: nat)
    requires
        s.wf(),
        s.contains(key),
        now >= s.entry(key).expires_at,
    ensures
        s.lookup(key, now) is None,
        !s.after_lookup(key, now).contains(key),
        s.after_lookup(key, now).len() == s.len() - 1,
        s.after_lookup(key, now).entries == s.entries.remove(s.position(key)),
{
    lemma_remove_wf(s, key);
}

/// The capacity bound: whatever inserts, lookups and removals are performed
/// on a well-formed cache, and in whatever order, it never holds more than
/// `capacity` entries, and never one key twice.
pub proof fn law_capacity_bound(s: CacheState, ops: Seq<Op>)
    requires
        s.wf(),
    ensures
        s.run(ops).wf(),
        s.run(ops).len() <= s.capacity,
        s.run(ops).capacity == s.capacity,
        s.run(ops).ttl == s.ttl,
    decreases ops.len(),
{
    if ops.len() > 0 {
        law_capacity_bound(s, ops.drop_last());
        lemma_apply_wf(s.run(ops.drop_last()), ops.last());
    }
}

/// The recency order is the order of last touch: in a cache that started
/// empty, every entry has been touched, and of two entries the one that
/// stands nearer the front was touched later.
pub proof fn law_order_is_order_of_last_touch(capacity: nat, ttl: nat, ops: Seq<Op>)
    ensures
        ({
            let start = CacheState::empty(capacity, ttl);
            let s = start.run(ops);
            &&& forall|i: int|
                0 <= i < s.len() ==> 0 < start.last_touch(ops, (#[trigger] s.entries[i]).key)
                    <= ops.len()
            &&& forall|i: int, j: int|
                0 <= i < j < s.len() ==> start.last_touch(ops, (#[trigger] s.entries[i]).key)
                    > start.last_touch(ops, (#[trigger] s.entries[j]).key)
        }),
    decreases ops.len(),
{
    let start = CacheState::empty(capacity, ttl);
    let s = start.run(ops);
    if ops.len() > 0 {
        let prev = ops.drop_last();
        let op = ops.last();
        let before = start.run(prev);
        law_order_is_order_of_last_touch(capacity, ttl, prev);
        law_capacity_bound(start, prev);
        assert forall|i: int| 0 <= i < s.len() implies 0 < start.last_touch(
            ops,
            (#[trigger] s.entries[i]).key,
        ) <= ops.len() by {
            let key = s.entries[i].key;
            if !before.touched_by(op, key) {
                lemma_untouched_keep_order(before, op, i, i);
                assert(before.entries[before.position(key)].key == key);
            }
        }
        assert forall|i: int, j: int| 0 <= i < j < s.len() implies start.last_touch(
            ops,
            (#[trigger] s.entries[i]).key,
        ) > start.last_touch(ops, (#[trigger] s.entries[j]).key) by {
            let earlier = s.entries[i].key;
            let later = s.entries[j].key;
            lemma_untouched_keep_order(before, op, i, j);
            assert(before.entries[before.position(later)].key == later);
            if !before.touched_by(op, earlier) {
                assert(before.entries[before.position(earlier)].key == earlier);
            }
        }
    }
}

/// Eviction goes by last touch: when a new key arrives at a full cache, the
/// entry that leaves is the one whose last touch lies furthest back among
/// all the entries held at that moment.
pub proof fn law_evicted_is_least_recently_touched(
    capacity: nat,
    ttl: nat,
    ops: Seq<Op>,
    key: Seq<char>,
)
    requires
        capacity >= 1,
        !CacheState::empty(capacity, ttl).run(ops).contains(key),
        CacheState::empty(capacity, ttl).run(ops).len() == capacity,
    ensures
        ({
            let start = CacheState::empty(capacity, ttl);
            let s = start.run(ops);
            let evicted = s.entries.last().key;
            &&& s.evicted_by_insert(key) == Some(evicted)
            &&& forall|i: int|
                0 <= i < s.len() - 1 ==> start.last_touch(ops, evicted) < start.last_touch(
                    ops,
                    (#[trigger] s.entries[i]).key,
                )
        }),
{
    let start = CacheState::empty(capacity, ttl);
    let s = start.run(ops);
    let last = s.len() - 1;
    law_capacity_bound(start, ops);
    law_order_is_order_of_last_touch(capacity, ttl, ops);
    assert forall|i: int| 0 <= i < last implies start.last_touch(ops, s.entries.last().key)
        < start.last_touch(ops, (#[trigger] s.entries[i]).key) by {
        assert(start.last_touch(ops, s.entries[i].key) > start.last_touch(
            ops,
            s.entries[last].key,
        ));
    }
}

/// The operations that look `key` up once at each of `times`, in turn.
pub open spec fn lookups(key: Seq<char>, times: Seq<nat>) -> Seq<Op> {
    Seq::new(times.len(), |i: int| Op::Lookup { key, now: times[i] })
}

/// Negative results are not cached: a fetch that reports "not found" or a
/// failure leaves the cache exactly as it was.
pub proof fn law_failed_fetch_leaves_cache(
    s: CacheState,
    key: Seq<char>,
    fetched: Fetched,
    now: nat,
)
    requires
        !(fetched is Value),
    ensures
        after_fetch(s, key, fetched, now) == s,
{
}

/// Read-through caches once per fetch: after a fetch at time `now` has
/// brought a value in, every lookup of the same key before `now + ttl` is a
/// hit on that value, however many of them follow one another, so none of
/// them calls for another fetch.
pub proof fn law_fetched_value_is_served_from_cache(
    s: CacheState,
    key: Seq<char>,
    value: Seq<u8>,
    now: nat,
    times: Seq<nat>,
)
    requires
        s.wf(),
        s.capacity >= 1,
        forall|i: int| 0 <= i < times.len() ==> (#[trigger] times[i]) < now + s.ttl,
    ensures
        ({
            let filled = after_fetch(s, key, Fetched::Value(value), now);
            let served = filled.run(lookups(key, times));
            &&& served.wf()
            &&& served.len() == filled.len()
            &&& forall|i: int|
                0 <= i < times.len() ==> (#[trigger] filled.run(
                    lookups(key, times.take(i)),
                )).lookup(key, times[i]) == Some(value)
        }),
    decreases times.len(),
{
    let filled = after_fetch(s, key, Fetched::Value(value), now);
    lemma_served(s, key, value, now, times);
    assert forall|i: int| 0 <= i < times.len() implies (#[trigger] filled.run(
        lookups(key, times.take(i)),
    )).lookup(key, times[i]) == Some(value) by {
        lemma_served(s, key, value, now, times.take(i));
    }
}

/// After any number of lookups before the expiry, the fetched entry is still
/// there as it was inserted, at the front.
proof fn lemma_served(s: CacheState, key: Seq<char>, value: Seq<u8>, now: nat, times: Seq<nat>)
    requires
        s.wf(),
        s.capacity >= 1,
        forall|i: int| 0 <= i < times.len() ==> (#[trigger] times[i]) < now + s.ttl,
    ensures
        ({
            let filled = s.insert(key, value, now);
            let served = filled.run(lookups(key, times));
            &&& served.wf()
            &&& served.ttl == s.ttl
            &&& served.len() == filled.len()
            &&& served.contains(key)
            &&& served.position(key) == 0
            &&& served.entry(key) == s.fresh(key, value, now)
        }),
    decreases times.len(),
{
    let filled = s.insert(key, value, now);
    lemma_insert_wf(s, key, value, now);
    lemma_inserted_is_first(s, key, value, now);
    if times.len() > 0 {
        let ops = lookups(key, times);
        let shorter = times.drop_last();
        assert(ops.drop_last() =~= lookups(key, shorter));
        lemma_served(s, key, value, now, shorter);
        let before = filled.run(lookups(key, shorter));
        let served = before.after_lookup(key, times.last());
        assert(ops.last() == Op::Lookup { key, now: times.last() });
        assert(filled.run(ops) == served);
        assert(times[times.len() - 1] < now + s.ttl);
        lemma_lookup_wf(before, key, times.last());
        assert(served.entries[0] == before.entries[0]);
        lemma_position_unique(served, 0);
    }
}

/// An operation moves at most the key that it touched, and that one to the
/// front: every entry behind the front was held before, untouched, and two
/// entries that the operation did not touch stand in the order in which they
/// stood before.
proof fn lemma_untouched_keep_order(s: CacheState, op: Op, i: int, j: int)
    requires
        s.wf(),
        0 <= i <= j < s.apply(op).len(),
    ensures
        s.touched_by(op, s.apply(op).entries[i].key) ==> i == 0,
        i < j ==> !s.touched_by(op, s.apply(op).entries[j].key),
        !s.touched_by(op, s.apply(op).entries[i].key) ==> s.contains(s.apply(op).entries[i].key),
        !s.touched_by(op, s.apply(op).entries[j].key) ==> s.contains(s.apply(op).entries[j].key),
        i < j && !s.touched_by(op, s.apply(op).entries[i].key) ==> s.position(
            s.apply(op).entries[i].key,
        ) < s.position(s.apply(op).entries[j].key),
{
    let t = s.apply(op);
    lemma_apply_wf(s, op);
    match op {
        Op::Insert { key, value, now } => {
            if s.contains(key) {
                lemma_front_and_rest(s, t, s.fresh(key, value, now), key, i);
                lemma_front_and_rest(s, t, s.fresh(key, value, now), key, j);
            } else {
                let grown = seq![s.fresh(key, value, now)] + s.entries;
                assert(t.entries[i] == grown[i]);
                assert(t.entries[j] == grown[j]);
                if i > 0 {
                    assert(t.entries[i] == s.entries[i - 1]);
                    lemma_position_unique(s, i - 1);
                }
                if j > 0 {
                    assert(t.entries[j] == s.entries[j - 1]);
                    lemma_position_unique(s, j - 1);
                }
            }
        },
        Op::Lookup { key, now } => {
            if s.contains(key) {
                if now < s.entry(key).expires_at {
                    lemma_front_and_rest(s, t, s.entry(key), key, i);
                    lemma_front_and_rest(s, t, s.entry(key), key, j);
                } else {
                    lemma_rest(s, key, i);
                    lemma_rest(s, key, j);
                }
            } else {
                lemma_position_unique(s, i);
                lemma_position_unique(s, j);
            }
        },
        Op::Remove { key } => {
            if s.contains(key) {
                lemma_rest(s, key, i);
                lemma_rest(s, key, j);
            } else {
                lemma_position_unique(s, i);
                lemma_position_unique(s, j);
            }
        },
    }
}

/// Where the entries of a cache stand once `key` has been taken out: those
/// before it where they stood, those behind it one place further to the
/// front.
proof fn lemma_rest(s: CacheState, key: Seq<char>, i: int)
    requires
        s.wf(),
        s.contains(key),
        0 <= i < s.len() - 1,
    ensures
        s.remove(key).entries[i].key != key,
        s.contains(s.remove(key).entries[i].key),
        s.position(s.remove(key).entries[i].key) == (if i < s.position(key) {
            i
        } else {
            i + 1
        }),
{
    let p = s.position(key);
    let o = if i < p { i } else { i + 1 };
    assert(s.remove(key).entries[i] == s.entries[o]);
    lemma_position_unique(s, o);
}

/// Where the entries of a cache stand once `key` has been moved to the
/// front as `front`: the others keep their order behind it.
proof fn lemma_front_and_rest(s: CacheState, t: CacheState, front: Entry, key: Seq<char>, i: int)
    requires
        s.wf(),
        s.contains(key),
        front.key == key,
        t.entries == seq![front] + s.entries.remove(s.position(key)),
        0 <= i < s.len(),
    ensures
        t.entries[i].key == key <==> i == 0,
        i > 0 ==> s.contains(t.entries[i].key) && s.position(t.entries[i].key) == (if i - 1
            < s.position(key) {
            i - 1
        } else {
            i
        }),
{
    if i > 0 {
        lemma_rest(s, key, i - 1);
        assert(t.entries[i] == s.remove(key).entries[i - 1]);
    }
}

} // verus!
