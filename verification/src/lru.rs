//! The entry store: a fixed-capacity cache with least-recently-used eviction
//! and lazy time-to-live expiry.
//!
//! Entries live in an arena of slots. Each slot names its neighbours in the
//! recency list by slot number, an index maps every key to its slot, and
//! reclaimed slots wait on a free list. Lookup, insertion and removal unlink
//! and relink a constant number of slots.

use crate::model::{lemma_insert_wf, lemma_lookup_wf, lemma_remove_wf, CacheState, Entry};
use crate::value::{bytes_view, view_of};
use bytes::Bytes;
use vstd::hash_map::StringHashMap;
use vstd::prelude::*;

verus! {

/// One slot of the arena.
struct Node {
    key: String,
    value: Bytes,
    /// Clock reading at the insert or update that wrote this slot.
    inserted_at: u128,
    /// Neighbour towards the most recently touched end.
    prev: Option<usize>,
    /// Neighbour towards the eviction end.
    next: Option<usize>,
}

/// A bounded cache of byte values keyed by strings.
///
/// Time is supplied by the caller as a clock reading in ticks of the caller's
/// choosing; `ttl` is counted in the same ticks.
pub struct LRUCache {
    capacity: usize,
    ttl: u128,
    /// Key to slot.
    map: StringHashMap<usize>,
    nodes: Vec<Node>,
    head: Option<usize>,
    tail: Option<usize>,
    /// Slots that hold no live entry.
    free: Vec<usize>,
    /// The slots of the recency list, head first.
    order: Ghost<Seq<usize>>,
}

/// Two arenas hold the same keys, values and insertion times slot by slot.
spec fn same_payload(a: Seq<Node>, b: Seq<Node>) -> bool {
    &&& a.len() == b.len()
    &&& forall|j: int|
        0 <= j < a.len() ==> (#[trigger] a[j]).key == b[j].key && a[j].value == b[j].value
            && a[j].inserted_at == b[j].inserted_at
}

/// The entry that a slot stands for.
spec fn entry_of(node: Node, ttl: u128) -> Entry {
    Entry {
        key: node.key@,
        value: bytes_view(node.value),
        expires_at: (node.inserted_at + ttl) as nat,
    }
}

/// The entries that the slots of `order` stand for, in that order.
spec fn entries_of(nodes: Seq<Node>, order: Seq<usize>, ttl: u128) -> Seq<Entry> {
    Seq::new(order.len(), |i: int| entry_of(nodes[order[i] as int], ttl))
}

/// The slot before position `i` of `order`, if there is one.
spec fn before(order: Seq<usize>, i: int) -> Option<usize> {
    if i == 0 {
        None
    } else {
        Some(order[i - 1])
    }
}

/// The slot after position `i` of `order`, if there is one.
spec fn after(order: Seq<usize>, i: int) -> Option<usize> {
    if i == order.len() - 1 {
        None
    } else {
        Some(order[i + 1])
    }
}

/// The `prev`/`next` fields of `nodes`, `head` and `tail` spell out `order`.
spec fn links_ok(
    nodes: Seq<Node>,
    order: Seq<usize>,
    head: Option<usize>,
    tail: Option<usize>,
) -> bool {
    &&& order.no_duplicates()
    &&& forall|i: int| 0 <= i < order.len() ==> (#[trigger] order[i]) < nodes.len()
    &&& head == (if order.len() == 0 {
        None
    } else {
        Some(order[0])
    })
    &&& tail == (if order.len() == 0 {
        None
    } else {
        Some(order[order.len() - 1])
    })
    &&& forall|i: int|
        0 <= i < order.len() ==> nodes[(#[trigger] order[i]) as int].prev == before(order, i)
    &&& forall|i: int|
        0 <= i < order.len() ==> nodes[(#[trigger] order[i]) as int].next == after(order, i)
}

/// Taking the slot at position `k` out of a well-linked list, by pointing its
/// two neighbours (or `head` and `tail`) at each other, leaves a well-linked
/// list of the remaining slots.
proof fn lemma_unlink(
    nodes: Seq<Node>,
    order: Seq<usize>,
    head: Option<usize>,
    tail: Option<usize>,
    nodes2: Seq<Node>,
    head2: Option<usize>,
    tail2: Option<usize>,
    k: int,
)
    requires
        links_ok(nodes, order, head, tail),
        0 <= k < order.len(),
        nodes2.len() == nodes.len(),
        head2 == (if k == 0 {
            after(order, k)
        } else {
            head
        }),
        tail2 == (if k == order.len() - 1 {
            before(order, k)
        } else {
            tail
        }),
        forall|j: int|
            0 <= j < nodes.len() && j != order[k] ==> (#[trigger] nodes2[j]).prev == (if k + 1
                < order.len() && j == order[k + 1] {
                before(order, k)
            } else {
                nodes[j].prev
            }),
        forall|j: int|
            0 <= j < nodes.len() && j != order[k] ==> (#[trigger] nodes2[j]).next == (if k > 0 && j
                == order[k - 1] {
                after(order, k)
            } else {
                nodes[j].next
            }),
    ensures
        links_ok(nodes2, order.remove(k), head2, tail2),
{
    let rest = order.remove(k);
    assert forall|i: int| 0 <= i < rest.len() implies rest[i] == order[if i < k {
        i
    } else {
        i + 1
    }] by {}
    assert forall|i: int, j: int| 0 <= i < rest.len() && 0 <= j < rest.len() && i != j implies rest[i]
        != rest[j] by {
        let oi = if i < k { i } else { i + 1 };
        let oj = if j < k { j } else { j + 1 };
        assert(order[oi] != order[oj]);
    }
    assert forall|i: int| 0 <= i < rest.len() implies (#[trigger] rest[i]) < nodes2.len()
        && nodes2[rest[i] as int].prev == before(rest, i) && nodes2[rest[i] as int].next == after(
        rest,
        i,
    ) by {
        let oi = if i < k { i } else { i + 1 };
        assert(rest[i] == order[oi]);
        assert(order[oi] != order[k]);
        assert(nodes[order[oi] as int].prev == before(order, oi));
        assert(nodes[order[oi] as int].next == after(order, oi));
        if oi + 1 < order.len() {
            assert(order[oi + 1] != order[oi]);
        }
        if oi > 0 {
            assert(order[oi - 1] != order[oi]);
        }
        if k + 1 < order.len() {
            assert(oi != k + 1 ==> order[oi] != order[k + 1]);
        }
        if k > 0 {
            assert(oi != k - 1 ==> order[oi] != order[k - 1]);
        }
        if i > 0 {
            assert(rest[i - 1] == order[if i - 1 < k { i - 1 } else { i }]);
        }
        if i < rest.len() - 1 {
            assert(rest[i + 1] == order[if i + 1 < k { i + 1 } else { i + 2 }]);
        }
    }
}

/// Putting an unlisted slot in front of a well-linked list, by pointing it
/// and the old head (or `tail`) at each other, leaves a well-linked list.
proof fn lemma_link_front(
    nodes: Seq<Node>,
    order: Seq<usize>,
    head: Option<usize>,
    tail: Option<usize>,
    nodes2: Seq<Node>,
    tail2: Option<usize>,
    idx: usize,
)
    requires
        links_ok(nodes, order, head, tail),
        idx < nodes.len(),
        !order.contains(idx),
        nodes2.len() == nodes.len(),
        tail2 == (if order.len() == 0 {
            Some(idx)
        } else {
            tail
        }),
        nodes2[idx as int].prev == None::<usize>,
        nodes2[idx as int].next == head,
        forall|j: int|
            0 <= j < nodes.len() && j != idx ==> (#[trigger] nodes2[j]).prev == (if order.len() > 0
                && j == order[0] {
                Some(idx)
            } else {
                nodes[j].prev
            }),
        forall|j: int|
            0 <= j < nodes.len() && j != idx ==> (#[trigger] nodes2[j]).next == nodes[j].next,
    ensures
        links_ok(nodes2, seq![idx] + order, Some(idx), tail2),
{
    let grown = seq![idx] + order;
    assert(grown[0] == idx);
    assert forall|i: int| 1 <= i < grown.len() implies grown[i] == order[i - 1] by {}
    assert forall|i: int, j: int|
        0 <= i < grown.len() && 0 <= j < grown.len() && i != j implies grown[i] != grown[j] by {
        if i > 0 && j > 0 {
            assert(order[i - 1] != order[j - 1]);
        } else if i > 0 {
            assert(order[i - 1] != idx);
        } else {
            assert(order[j - 1] != idx);
        }
    }
    assert forall|i: int| 0 <= i < grown.len() implies (#[trigger] grown[i]) < nodes2.len()
        && nodes2[grown[i] as int].prev == before(grown, i) && nodes2[grown[i] as int].next
        == after(grown, i) by {
        if i > 0 {
            let oi = i - 1;
            assert(grown[i] == order[oi]);
            assert(order[oi] != idx);
            assert(nodes[order[oi] as int].prev == before(order, oi));
            assert(nodes[order[oi] as int].next == after(order, oi));
            if oi > 0 {
                assert(order[oi] != order[0]);
                assert(grown[i - 1] == order[oi - 1]);
            }
            if i < grown.len() - 1 {
                assert(grown[i + 1] == order[oi + 1]);
            }
        } else {
            if grown.len() > 1 {
                assert(grown[1] == order[0]);
            }
        }
    }
}

/// Dropping position `k` from the order drops the `k`-th entry.
proof fn lemma_entries_remove(
    nodes: Seq<Node>,
    nodes2: Seq<Node>,
    order: Seq<usize>,
    ttl: u128,
    k: int,
)
    requires
        same_payload(nodes2, nodes),
        0 <= k < order.len(),
        forall|i: int| 0 <= i < order.len() ==> (#[trigger] order[i]) < nodes.len(),
    ensures
        entries_of(nodes2, order.remove(k), ttl) =~= entries_of(nodes, order, ttl).remove(k),
{
    let rest = order.remove(k);
    assert forall|i: int| 0 <= i < rest.len() implies entries_of(nodes2, rest, ttl)[i]
        == entries_of(nodes, order, ttl).remove(k)[i] by {
        let oi = if i < k { i } else { i + 1 };
        assert(rest[i] == order[oi]);
        assert(nodes2[order[oi] as int].key == nodes[order[oi] as int].key);
    }
}

/// Putting a slot in front of the order puts its entry in front.
proof fn lemma_entries_front(
    nodes: Seq<Node>,
    nodes2: Seq<Node>,
    order: Seq<usize>,
    ttl: u128,
    idx: usize,
)
    requires
        same_payload(nodes2, nodes),
        idx < nodes.len(),
        forall|i: int| 0 <= i < order.len() ==> (#[trigger] order[i]) < nodes.len(),
    ensures
        entries_of(nodes2, seq![idx] + order, ttl) =~= seq![entry_of(nodes[idx as int], ttl)]
            + entries_of(nodes, order, ttl),
{
    let grown = seq![idx] + order;
    assert forall|i: int| 0 <= i < grown.len() implies entries_of(nodes2, grown, ttl)[i] == (
    seq![entry_of(nodes[idx as int], ttl)] + entries_of(nodes, order, ttl))[i] by {
        if i > 0 {
            assert(grown[i] == order[i - 1]);
            assert(nodes2[order[i - 1] as int].key == nodes[order[i - 1] as int].key);
        } else {
            assert(grown[0] == idx);
            assert(nodes2[idx as int].key == nodes[idx as int].key);
        }
    }
}

/// `map` holds exactly the keys of the slots of `order`, each with its slot.
spec fn index_ok(nodes: Seq<Node>, order: Seq<usize>, map: Map<Seq<char>, usize>) -> bool {
    &&& forall|i: int|
        0 <= i < order.len() ==> map.contains_key(nodes[(#[trigger] order[i]) as int].key@)
            && map[nodes[order[i] as int].key@] == order[i]
    &&& forall|q: Seq<char>| #[trigger]
        map.contains_key(q) ==> order.contains(map[q]) && nodes[map[q] as int].key@ == q
}

/// `free` names slots below `slots`, none of them twice and none of them in
/// `order`.
spec fn free_ok(slots: nat, order: Seq<usize>, free: Seq<usize>) -> bool {
    &&& free.no_duplicates()
    &&& forall|j: int|
        0 <= j < free.len() ==> (#[trigger] free[j]) < slots && !order.contains(free[j])
}

/// The slots on the free list hold no key and no bytes.
spec fn spare_ok(nodes: Seq<Node>, free: Seq<usize>) -> bool {
    forall|j: int|
        0 <= j < free.len() ==> nodes[(#[trigger] free[j]) as int].key@ == Seq::<char>::empty()
            && bytes_view(nodes[free[j] as int].value) == Seq::<u8>::empty()
}

/// Taking the slot at position `k` off the list, its key out of the index and
/// the slot onto the free list keeps index and free list in step with the list.
proof fn lemma_release(
    nodes: Seq<Node>,
    nodes2: Seq<Node>,
    order: Seq<usize>,
    map: Map<Seq<char>, usize>,
    free: Seq<usize>,
    k: int,
)
    requires
        order.no_duplicates(),
        forall|i: int| 0 <= i < order.len() ==> (#[trigger] order[i]) < nodes.len(),
        index_ok(nodes, order, map),
        free_ok(nodes.len(), order, free),
        same_payload(nodes2, nodes),
        0 <= k < order.len(),
    ensures
        index_ok(nodes2, order.remove(k), map.remove(nodes[order[k] as int].key@)),
        free_ok(nodes2.len(), order.remove(k), free.push(order[k])),
{
    let rest = order.remove(k);
    let idx = order[k];
    let key = nodes[idx as int].key@;
    let map2 = map.remove(key);
    let free2 = free.push(idx);
    assert forall|i: int| 0 <= i < rest.len() implies rest[i] == order[if i < k {
        i
    } else {
        i + 1
    }] by {}
    assert(map[key] == order[k]);
    assert forall|i: int| 0 <= i < rest.len() implies map2.contains_key(
        nodes2[(#[trigger] rest[i]) as int].key@,
    ) && map2[nodes2[rest[i] as int].key@] == rest[i] by {
        let oi = if i < k { i } else { i + 1 };
        assert(rest[i] == order[oi]);
        assert(nodes2[order[oi] as int].key == nodes[order[oi] as int].key);
        assert(map[nodes[order[oi] as int].key@] == order[oi]);
        assert(order[oi] != order[k]);
    }
    assert forall|q: Seq<char>| #[trigger] map2.contains_key(q) implies rest.contains(map2[q])
        && nodes2[map2[q] as int].key@ == q by {
        assert(map.contains_key(q));
        let oq = order.index_of(map[q]);
        assert(order[oq] == map[q]);
        assert(oq != k);
        let i = if oq < k { oq } else { oq - 1 };
        assert(rest[i] == map[q]);
        assert(nodes2[order[oq] as int].key == nodes[order[oq] as int].key);
    }
    assert forall|j: int| 0 <= j < free2.len() implies (#[trigger] free2[j]) < nodes2.len()
        && !rest.contains(free2[j]) by {
        let f = free2[j];
        if j < free.len() {
            assert(f == free[j]);
        }
        if rest.contains(f) {
            let i = rest.index_of(f);
            let oi = if i < k { i } else { i + 1 };
            assert(order[oi] == f);
            if j < free.len() {
                assert(order.contains(free[j]));
            }
        }
    }
    assert forall|a: int, b: int|
        0 <= a < free2.len() && 0 <= b < free2.len() && a != b implies free2[a] != free2[b] by {
        if a == free.len() {
            assert(order.contains(idx));
            assert(free[b] != idx);
        } else if b == free.len() {
            assert(order.contains(idx));
            assert(free[a] != idx);
        } else {
            assert(free[a] != free[b]);
        }
    }
}

/// Moving the slot at position `k` to the front of the list keeps index and
/// free list in step with the list.
proof fn lemma_promote(
    nodes: Seq<Node>,
    nodes2: Seq<Node>,
    order: Seq<usize>,
    map: Map<Seq<char>, usize>,
    free: Seq<usize>,
    k: int,
)
    requires
        forall|i: int| 0 <= i < order.len() ==> (#[trigger] order[i]) < nodes.len(),
        index_ok(nodes, order, map),
        free_ok(nodes.len(), order, free),
        nodes2.len() == nodes.len(),
        forall|j: int| 0 <= j < nodes.len() ==> (#[trigger] nodes2[j]).key == nodes[j].key,
        0 <= k < order.len(),
    ensures
        index_ok(nodes2, seq![order[k]] + order.remove(k), map),
        free_ok(nodes2.len(), seq![order[k]] + order.remove(k), free),
{
    let moved = seq![order[k]] + order.remove(k);
    assert(moved[0] == order[k]);
    assert forall|i: int| 1 <= i < moved.len() implies moved[i] == order[if i - 1 < k {
        i - 1
    } else {
        i
    }] by {}
    assert forall|i: int| 0 <= i < moved.len() implies map.contains_key(
        nodes2[(#[trigger] moved[i]) as int].key@,
    ) && map[nodes2[moved[i] as int].key@] == moved[i] by {
        let oi = if i == 0 { k } else if i - 1 < k { i - 1 } else { i };
        assert(moved[i] == order[oi]);
        assert(nodes2[order[oi] as int].key == nodes[order[oi] as int].key);
        assert(map[nodes[order[oi] as int].key@] == order[oi]);
    }
    assert forall|q: Seq<char>| #[trigger] map.contains_key(q) implies moved.contains(map[q])
        && nodes2[map[q] as int].key@ == q by {
        let oq = order.index_of(map[q]);
        assert(order[oq] == map[q]);
        let i = if oq == k { 0 } else if oq < k { oq + 1 } else { oq };
        assert(moved[i] == map[q]);
        assert(nodes2[order[oq] as int].key == nodes[order[oq] as int].key);
    }
    assert forall|j: int| 0 <= j < free.len() implies (#[trigger] free[j]) < nodes2.len()
        && !moved.contains(free[j]) by {
        let f = free[j];
        if moved.contains(f) {
            let i = moved.index_of(f);
            let oi = if i == 0 { k } else if i - 1 < k { i - 1 } else { i };
            assert(order[oi] == f);
            assert(order.contains(f));
        }
    }
}

/// Listing a fresh slot in front and entering its key, which the index did
/// not hold, keeps index and free list in step with the list.
proof fn lemma_admit(
    nodes: Seq<Node>,
    nodes2: Seq<Node>,
    order: Seq<usize>,
    map: Map<Seq<char>, usize>,
    free: Seq<usize>,
    idx: usize,
)
    requires
        forall|i: int| 0 <= i < order.len() ==> (#[trigger] order[i]) < nodes.len(),
        index_ok(nodes, order, map),
        free_ok(nodes.len(), order, free),
        same_payload(nodes2, nodes),
        idx < nodes.len(),
        !order.contains(idx),
        !free.contains(idx),
        !map.contains_key(nodes[idx as int].key@),
    ensures
        index_ok(nodes2, seq![idx] + order, map.insert(nodes[idx as int].key@, idx)),
        free_ok(nodes2.len(), seq![idx] + order, free),
{
    let grown = seq![idx] + order;
    let key = nodes[idx as int].key@;
    let map2 = map.insert(key, idx);
    assert(grown[0] == idx);
    assert forall|i: int| 1 <= i < grown.len() implies grown[i] == order[i - 1] by {}
    assert forall|i: int| 0 <= i < grown.len() implies map2.contains_key(
        nodes2[(#[trigger] grown[i]) as int].key@,
    ) && map2[nodes2[grown[i] as int].key@] == grown[i] by {
        if i > 0 {
            assert(grown[i] == order[i - 1]);
            assert(nodes2[order[i - 1] as int].key == nodes[order[i - 1] as int].key);
            assert(map.contains_key(nodes[order[i - 1] as int].key@));
        } else {
            assert(nodes2[idx as int].key == nodes[idx as int].key);
        }
    }
    assert forall|q: Seq<char>| #[trigger] map2.contains_key(q) implies grown.contains(map2[q])
        && nodes2[map2[q] as int].key@ == q by {
        if q == key {
            assert(grown[0] == map2[q]);
            assert(nodes2[idx as int].key == nodes[idx as int].key);
        } else {
            let oq = order.index_of(map[q]);
            assert(order[oq] == map[q]);
            assert(grown[oq + 1] == map[q]);
            assert(nodes2[order[oq] as int].key == nodes[order[oq] as int].key);
        }
    }
    assert forall|j: int| 0 <= j < free.len() implies (#[trigger] free[j]) < nodes2.len()
        && !grown.contains(free[j]) by {
        let f = free[j];
        if grown.contains(f) {
            let i = grown.index_of(f);
            if i > 0 {
                assert(order[i - 1] == f);
                assert(order.contains(f));
            } else {
                assert(free.contains(idx));
            }
        }
    }
}

impl View for LRUCache {
    type V = CacheState;

    closed spec fn view(&self) -> CacheState {
        CacheState {
            capacity: self.capacity as nat,
            ttl: self.ttl as nat,
            entries: entries_of(self.nodes@, self.order@, self.ttl),
        }
    }
}

impl LRUCache {
    /// The `prev`/`next` fields, `head` and `tail` spell out `order`.
    spec fn links_wf(&self) -> bool {
        links_ok(self.nodes@, self.order@, self.head, self.tail)
    }

    /// The index maps exactly the keys of the listed slots, each to its slot.
    spec fn index_wf(&self) -> bool {
        index_ok(self.nodes@, self.order@, self.map@)
    }

    /// The free list names each unlisted slot at most once.
    spec fn free_wf(&self) -> bool {
        free_ok(self.nodes@.len(), self.order@, self.free@)
    }

    /// List, index and free list agree, every slot is either listed or free,
    /// and the free slots are empty.
    spec fn core_wf(&self) -> bool {
        &&& self.links_wf()
        &&& self.index_wf()
        &&& self.free_wf()
        &&& spare_ok(self.nodes@, self.free@)
        &&& self.order@.len() + self.free@.len() == self.nodes@.len()
    }

    /// The representation invariant: the bookkeeping is consistent, the
    /// capacity bound holds, and the arena has at most one slot more than
    /// the cache may hold entries.
    pub closed spec fn wf(&self) -> bool {
        &&& self.core_wf()
        &&& self.order@.len() <= self.capacity
        &&& self.nodes@.len() <= self.capacity + 1
    }

    /// A well-formed cache stands for a well-formed state: it holds no key
    /// twice and no more than `capacity` entries.
    pub proof fn lemma_wf(&self)
        requires
            self.wf(),
        ensures
            self@.wf(),
    {
        self.lemma_view();
    }

    /// A consistent cache has distinct keys, and the index finds each of them
    /// at its place in the recency order.
    proof fn lemma_view(&self)
        requires
            self.core_wf(),
        ensures
            self@.entries.len() == self.order@.len(),
            forall|i: int|
                0 <= i < self.order@.len() ==> (#[trigger] self@.entries[i]) == entry_of(
                    self.nodes@[self.order@[i] as int],
                    self.ttl,
                ),
            forall|i: int, j: int|
                0 <= i < self@.entries.len() && 0 <= j < self@.entries.len() && i != j
                    ==> self@.entries[i].key != self@.entries[j].key,
            forall|key: Seq<char>| self.map@.contains_key(key) <==> self@.contains(key),
            forall|key: Seq<char>| #[trigger]
                self.map@.contains_key(key) ==> {
                    let k = self.order@.index_of(self.map@[key]);
                    &&& 0 <= k < self.order@.len()
                    &&& self.order@[k] == self.map@[key]
                    &&& self@.position(key) == k
                    &&& self@.entry(key) == entry_of(self.nodes@[self.map@[key] as int], self.ttl)
                },
    {
        let order = self.order@;
        let nodes = self.nodes@;
        let entries = self@.entries;
        assert forall|i: int, j: int|
            0 <= i < entries.len() && 0 <= j < entries.len() && i != j implies entries[i].key
            != entries[j].key by {
            assert(self.map@[nodes[order[i] as int].key@] == order[i]);
            assert(self.map@[nodes[order[j] as int].key@] == order[j]);
            assert(order[i] != order[j]);
        }
        assert forall|key: Seq<char>| self.map@.contains_key(key) <==> self@.contains(key) by {
            if self.map@.contains_key(key) {
                let k = order.index_of(self.map@[key]);
                assert(entries[k].key == key);
            }
            if self@.contains(key) {
                let i = self@.position(key);
                assert(self.map@.contains_key(nodes[order[i] as int].key@));
            }
        }
        assert forall|key: Seq<char>| #[trigger] self.map@.contains_key(key) implies {
            let k = self.order@.index_of(self.map@[key]);
            &&& 0 <= k < self.order@.len()
            &&& self.order@[k] == self.map@[key]
            &&& self@.position(key) == k
            &&& self@.entry(key) == entry_of(self.nodes@[self.map@[key] as int], self.ttl)
        } by {
            let k = order.index_of(self.map@[key]);
            assert(entries[k].key == key);
            let p = self@.position(key);
            assert(entries[p].key == key);
            if p != k {
                assert(entries[p].key != entries[k].key);
            }
        }
    }

    /// The configuration and the bookkeeping outside the list are the same.
    spec fn same_frame(&self, other: &LRUCache) -> bool {
        &&& self.capacity == other.capacity
        &&& self.ttl == other.ttl
        &&& self.map@ == other.map@
        &&& self.free@ == other.free@
        &&& same_payload(self.nodes@, other.nodes@)
    }

    /// An empty cache for at most `capacity` entries that live `ttl` ticks.
    pub fn new(capacity: usize, ttl: u128) -> (cache: LRUCache)
        ensures
            cache.wf(),
            cache@.wf(),
            cache@ == CacheState::empty(capacity as nat, ttl as nat),
    {
        let cache = LRUCache {
            capacity,
            ttl,
            map: StringHashMap::new(),
            nodes: Vec::new(),
            head: None,
            tail: None,
            free: Vec::new(),
            order: Ghost(Seq::empty()),
        };
        assert(cache@.entries =~= Seq::<Entry>::empty());
        cache
    }

    /// Unlinks slot `idx` from the recency list.
    fn remove_node(&mut self, idx: usize)
        requires
            old(self).links_wf(),
            old(self).order@.contains(idx),
        ensures
            final(self).links_wf(),
            final(self).order@ == old(self).order@.remove(old(self).order@.index_of(idx)),
            final(self).same_frame(old(self)),
            final(self).nodes@[idx as int].prev is None,
            final(self).nodes@[idx as int].next is None,
    {
        let ghost order = self.order@;
        let ghost k = order.index_of(idx);
        let ghost nodes = self.nodes@;
        let ghost head = self.head;
        let ghost tail = self.tail;
        assert(order[k] == idx);
        let prev = self.nodes[idx].prev;
        let next = self.nodes[idx].next;
        assert(prev == before(order, k) && next == after(order, k));
        proof {
            if k > 0 {
                assert(order[k - 1] < nodes.len() && order[k - 1] != order[k]);
            }
            if k + 1 < order.len() {
                assert(order[k + 1] < nodes.len() && order[k + 1] != order[k]);
            }
            if k > 0 && k + 1 < order.len() {
                assert(order[k - 1] != order[k + 1]);
            }
        }
        match prev {
            Some(p) => {
                self.nodes[p].next = next;
            },
            None => {
                self.head = next;
            },
        }
        match next {
            Some(n) => {
                self.nodes[n].prev = prev;
            },
            None => {
                self.tail = prev;
            },
        }
        self.nodes[idx].prev = None;
        self.nodes[idx].next = None;
        proof {
            self.order = Ghost(order.remove(k));
            lemma_unlink(nodes, order, head, tail, self.nodes@, self.head, self.tail, k);
        }
    }

    /// Links slot `idx`, which is not in the list, in front of the head.
    fn add_to_head(&mut self, idx: usize)
        requires
            old(self).links_wf(),
            idx < old(self).nodes@.len(),
            !old(self).order@.contains(idx),
        ensures
            final(self).links_wf(),
            final(self).order@ == seq![idx] + old(self).order@,
            final(self).same_frame(old(self)),
    {
        let ghost order = self.order@;
        let ghost nodes = self.nodes@;
        let ghost head = self.head;
        let ghost tail = self.tail;
        self.nodes[idx].prev = None;
        self.nodes[idx].next = self.head;
        match self.head {
            Some(h) => {
                assert(h == order[0]);
                self.nodes[h].prev = Some(idx);
            },
            None => {
                self.tail = Some(idx);
            },
        }
        self.head = Some(idx);
        proof {
            self.order = Ghost(seq![idx] + order);
            lemma_link_front(nodes, order, head, tail, self.nodes@, self.tail, idx);
        }
    }

    /// Makes the listed slot `idx` the head of the recency list.
    fn move_to_head(&mut self, idx: usize)
        requires
            old(self).links_wf(),
            old(self).order@.contains(idx),
        ensures
            final(self).links_wf(),
            final(self).order@ == seq![idx] + old(self).order@.remove(
                old(self).order@.index_of(idx),
            ),
            final(self).same_frame(old(self)),
    {
        self.remove_node(idx);
        self.add_to_head(idx);
    }

    /// Takes the listed slot `idx` out of the cache: off the list, out of the
    /// index and onto the free list.
    fn evict_slot(&mut self, idx: usize)
        requires
            old(self).core_wf(),
            old(self).order@.contains(idx),
        ensures
            final(self).core_wf(),
            final(self).order@ == old(self).order@.remove(old(self).order@.index_of(idx)),
            final(self).nodes@.len() == old(self).nodes@.len(),
            final(self).nodes@[idx as int].key@ == Seq::<char>::empty(),
            bytes_view(final(self).nodes@[idx as int].value) == Seq::<u8>::empty(),
            final(self).nodes@[idx as int].prev is None,
            final(self).nodes@[idx as int].next is None,
            final(self)@ == old(self)@.with_entries(
                old(self)@.entries.remove(old(self).order@.index_of(idx)),
            ),
    {
        let ghost order = self.order@;
        let ghost k = order.index_of(idx);
        let ghost nodes = self.nodes@;
        let ghost map = self.map@;
        let ghost free = self.free@;
        self.remove_node(idx);
        self.map.remove(self.nodes[idx].key.as_str());
        self.free.push(idx);
        let ghost unlinked = self.nodes@;
        // the slot gives up its key and value now, not when it is next used
        self.nodes[idx].key = String::new();
        self.nodes[idx].value = Bytes::new();
        proof {
            let rest = self.order@;
            assert(unlinked[idx as int].key == nodes[idx as int].key);
            lemma_release(nodes, unlinked, order, map, free, k);
            lemma_entries_remove(nodes, unlinked, order, self.ttl, k);
            assert forall|i: int| 0 <= i < rest.len() implies (#[trigger] rest[i]) != idx
                && self.nodes@[rest[i] as int] == unlinked[rest[i] as int] by {
                if rest[i] == idx {
                    assert(rest.contains(idx));
                    assert(self.free@[self.free@.len() - 1] == idx);
                }
            }
            assert forall|q: Seq<char>| #[trigger] self.map@.contains_key(q) implies rest.contains(
                self.map@[q],
            ) && self.nodes@[self.map@[q] as int].key@ == q by {
                let i = rest.index_of(self.map@[q]);
                assert(rest[i] == self.map@[q]);
            }
            assert(entries_of(self.nodes@, rest, self.ttl) =~= entries_of(unlinked, rest, self.ttl));
        }
    }

    /// The slot that holds `key`, if the key is held.
    fn find(&self, key: &str) -> (slot: Option<usize>)
        ensures
            slot == (if self.map@.contains_key(key@) {
                Some(self.map@[key@])
            } else {
                None
            }),
    {
        match self.map.get(key) {
            Some(slot) => Some(*slot),
            None => None,
        }
    }

    /// Claims a slot for a new entry and fills it; the slot is not yet listed.
    fn create_node(&mut self, key: String, value: Bytes, now: u128) -> (idx: usize)
        requires
            old(self).wf(),
        ensures
            final(self).links_wf(),
            final(self).index_wf(),
            final(self).free_wf(),
            spare_ok(final(self).nodes@, final(self).free@),
            final(self).order@ == old(self).order@,
            final(self).order@.len() + final(self).free@.len() + 1 == final(self).nodes@.len(),
            final(self).nodes@.len() <= final(self).capacity + 1,
            final(self).nodes@.len() == (if old(self).free@.len() == 0 {
                old(self).nodes@.len() + 1
            } else {
                old(self).nodes@.len()
            }),
            idx < final(self).nodes@.len(),
            final(self).nodes@[idx as int].prev is None,
            final(self).nodes@[idx as int].next is None,
            !final(self).order@.contains(idx),
            !final(self).free@.contains(idx),
            final(self).nodes@[idx as int].key@ == key@,
            final(self).nodes@[idx as int].value == value,
            final(self).nodes@[idx as int].inserted_at == now,
            final(self).capacity == old(self).capacity,
            final(self).ttl == old(self).ttl,
            final(self).map@ == old(self).map@,
            final(self)@ == old(self)@,
    {
        let ghost order = self.order@;
        let ghost free = self.free@;
        let node = Node { key, value, inserted_at: now, prev: None, next: None };
        let idx = match self.free.pop() {
            Some(reused) => {
                assert(reused == free[free.len() - 1]);
                self.nodes[reused] = node;
                reused
            },
            None => {
                self.nodes.push(node);
                self.nodes.len() - 1
            },
        };
        proof {
            assert forall|i: int| 0 <= i < order.len() implies (#[trigger] order[i]) != idx
                && self.nodes@[order[i] as int] == old(self).nodes@[order[i] as int] by {
                if order[i] == idx {
                    assert(order.contains(idx));
                }
            }
            assert forall|q: Seq<char>| #[trigger] self.map@.contains_key(q) implies order.contains(
                self.map@[q],
            ) && self.nodes@[self.map@[q] as int].key@ == q by {
                let oq = order.index_of(self.map@[q]);
                assert(order[oq] == self.map@[q]);
            }
            assert(!self.free@.contains(idx)) by {
                if self.free@.contains(idx) {
                    let j = self.free@.index_of(idx);
                    assert(free[j] == idx);
                    if free.len() > 0 {
                        assert(free[j] != free[free.len() - 1]);
                    }
                }
            }
            assert(self@.entries =~= old(self)@.entries);
        }
        idx
    }

    /// Drops the least recently touched entry if the cache holds more than
    /// `capacity` entries.
    fn evict_if_necessary(&mut self)
        requires
            old(self).core_wf(),
            old(self).order@.len() <= old(self).capacity + 1,
            old(self).nodes@.len() <= old(self).capacity + 1,
        ensures
            final(self).wf(),
            final(self)@ == (if old(self)@.entries.len() > old(self)@.capacity {
                old(self)@.with_entries(old(self)@.entries.drop_last())
            } else {
                old(self)@
            }),
    {
        proof {
            self.lemma_view();
        }
        if self.nodes.len() - self.free.len() > self.capacity {
            let ghost order = self.order@;
            match self.tail {
                Some(t) => {
                    proof {
                        let last = order.len() - 1;
                        assert(order[last] == t);
                        let k = order.index_of(t);
                        assert(order[k] == order[last]);
                        assert(k == last);
                        assert(self@.entries.remove(last) =~= self@.entries.drop_last());
                    }
                    self.evict_slot(t);
                },
                None => {},
            }
        }
    }

    /// Number of entries held, expired ones that no lookup has observed
    /// included.
    pub fn len(&self) -> (n: usize)
        requires
            self.wf(),
        ensures
            n == self@.len(),
    {
        self.nodes.len() - self.free.len()
    }

    /// Largest number of entries the cache holds.
    pub fn capacity(&self) -> (capacity: usize)
        ensures
            capacity == self@.capacity,
    {
        self.capacity
    }

    /// Lifetime of an entry, in clock ticks.
    pub fn ttl(&self) -> (ttl: u128)
        ensures
            ttl == self@.ttl,
    {
        self.ttl
    }

    /// Makes the listed slot `idx` the most recently touched entry and leaves
    /// everything else as it is.
    fn touch(&mut self, idx: usize)
        requires
            old(self).wf(),
            old(self).order@.contains(idx),
        ensures
            final(self).wf(),
            final(self)@ == old(self)@.with_entries(
                seq![old(self)@.entries[old(self).order@.index_of(idx)]] + old(
                    self,
                )@.entries.remove(old(self).order@.index_of(idx)),
            ),
    {
        let ghost order = self.order@;
        let ghost nodes = self.nodes@;
        let ghost k = order.index_of(idx);
        self.move_to_head(idx);
        proof {
            let rest = order.remove(k);
            assert forall|i: int| 0 <= i < rest.len() implies (#[trigger] rest[i]) < nodes.len() by {
                assert(rest[i] == order[if i < k { i } else { i + 1 }]);
            }
            lemma_promote(nodes, self.nodes@, order, self.map@, self.free@, k);
            lemma_entries_remove(nodes, nodes, order, self.ttl, k);
            lemma_entries_front(nodes, self.nodes@, rest, self.ttl, idx);
        }
    }

    /// Looks `key` up at clock reading `now`.
    ///
    /// Returns a copy of the stored value exactly when the key is held and
    /// `now` lies before its expiry. A hit moves the entry to the front of the
    /// recency order; an entry found expired is removed; a miss of an absent
    /// key changes nothing.
    pub fn get_item(&mut self, key: &str, now: u128) -> (found: Option<Bytes>)
        requires
            old(self).wf(),
        ensures
            final(self).wf(),
            final(self)@.wf(),
            view_of(found) == old(self)@.lookup(key@, now as nat),
            final(self)@ == old(self)@.after_lookup(key@, now as nat),
    {
        proof {
            self.lemma_view();
            lemma_lookup_wf(self@, key@, now as nat);
        }
        let idx = match self.find(key) {
            Some(slot) => slot,
            None => {
                return None;
            },
        };
        let inserted_at = self.nodes[idx].inserted_at;
        if now >= inserted_at && now - inserted_at >= self.ttl {
            self.evict_slot(idx);
            None
        } else {
            let value = self.nodes[idx].value.clone();
            self.touch(idx);
            Some(value)
        }
    }

    /// Rewrites the listed slot `idx` with `value`, to expire `ttl` ticks
    /// after `now`, and makes it the head of the recency list.
    fn update_item(&mut self, idx: usize, value: Bytes, now: u128)
        requires
            old(self).wf(),
            old(self).order@.contains(idx),
        ensures
            final(self).wf(),
            final(self)@ == old(self)@.with_entries(
                seq![
                    old(self)@.fresh(
                        old(self).nodes@[idx as int].key@,
                        bytes_view(value),
                        now as nat,
                    ),
                ] + old(self)@.entries.remove(old(self).order@.index_of(idx)),
            ),
    {
        let ghost order = self.order@;
        let ghost nodes = self.nodes@;
        let ghost k = order.index_of(idx);
        self.nodes[idx].value = value;
        self.nodes[idx].inserted_at = now;
        let ghost written = self.nodes@;
        proof {
            assert forall|j: int| 0 <= j < nodes.len() implies (#[trigger] written[j]).prev
                == nodes[j].prev && written[j].next == nodes[j].next && written[j].key
                == nodes[j].key by {}
            assert(links_ok(written, order, self.head, self.tail));
        }
        self.move_to_head(idx);
        proof {
            let rest = order.remove(k);
            assert forall|i: int| 0 <= i < rest.len() implies (#[trigger] rest[i]) < nodes.len()
                && rest[i] != idx by {
                let oi = if i < k { i } else { i + 1 };
                assert(rest[i] == order[oi]);
                assert(order[oi] != order[k]);
            }
            lemma_promote(nodes, self.nodes@, order, self.map@, self.free@, k);
            lemma_entries_remove(nodes, nodes, order, self.ttl, k);
            assert(entries_of(written, rest, self.ttl) =~= entries_of(nodes, rest, self.ttl));
            lemma_entries_front(written, self.nodes@, rest, self.ttl, idx);
        }
    }

    /// Takes in `key`, which is not held, with `value`, to expire `ttl` ticks
    /// after `now`: the entry goes to the head of the recency list, and the
    /// tail leaves if that is one entry too many.
    fn admit_item(&mut self, key: String, value: Bytes, now: u128)
        requires
            old(self).wf(),
            !old(self).map@.contains_key(key@),
        ensures
            final(self).wf(),
            final(self)@ == ({
                let grown = seq![old(self)@.fresh(key@, bytes_view(value), now as nat)] + old(
                    self,
                )@.entries;
                old(self)@.with_entries(
                    if grown.len() > old(self)@.capacity {
                        grown.drop_last()
                    } else {
                        grown
                    },
                )
            }),
    {
        let ghost order = self.order@;
        let ghost map = self.map@;
        let idx = self.create_node(key.clone(), value, now);
        let ghost filled = self.nodes@;
        let ghost free = self.free@;
        self.add_to_head(idx);
        self.map.insert(key, idx);
        proof {
            lemma_admit(filled, self.nodes@, order, map, free, idx);
            lemma_entries_front(filled, self.nodes@, order, self.ttl, idx);
            assert(entries_of(filled, order, self.ttl) =~= old(self)@.entries);
        }
        self.evict_if_necessary();
    }

    /// Stores `value` under `key` at clock reading `now`.
    ///
    /// The entry expires `ttl` ticks after `now` and becomes the most recently
    /// touched one. Updating a key that is already held evicts nothing; a new
    /// key that takes the cache over its capacity pushes out the least
    /// recently touched entry.
    pub fn add_item(&mut self, key: String, value: Bytes, now: u128)
        requires
            old(self).wf(),
        ensures
            final(self).wf(),
            final(self)@.wf(),
            final(self)@.len() <= final(self)@.capacity,
            final(self)@ == old(self)@.insert(key@, bytes_view(value), now as nat),
    {
        proof {
            self.lemma_view();
            lemma_insert_wf(self@, key@, bytes_view(value), now as nat);
        }
        match self.find(key.as_str()) {
            Some(idx) => self.update_item(idx, value, now),
            None => self.admit_item(key, value, now),
        }
    }

    /// Removes `key` from the cache; does nothing when the key is not held.
    pub fn evict_by_key(&mut self, key: &str)
        requires
            old(self).wf(),
        ensures
            final(self).wf(),
            final(self)@.wf(),
            final(self)@ == old(self)@.remove(key@),
    {
        proof {
            self.lemma_view();
            lemma_remove_wf(self@, key@);
        }
        match self.find(key) {
            Some(idx) => {
                self.evict_slot(idx);
            },
            None => {},
        }
    }
}

} // verus!
