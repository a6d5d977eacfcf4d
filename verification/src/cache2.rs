//! `LRUCache2`: the entry store on the wall clock, addressed by string
//! slices.

use crate::clock::now_millis;
use crate::lru::LRUCache;
use crate::model::CacheState;
use crate::value::{bytes_view, view_of};
use bytes::Bytes;
use vstd::prelude::*;

verus! {

/// A bounded cache whose entries expire a fixed number of seconds after they
/// were last written, with keys passed as `&str`.
///
/// Each operation comes in two forms: one that reads the wall clock itself,
/// and one, named `.._at`, that takes the clock reading in milliseconds since
/// the epoch from the caller.
pub struct LRUCache2 {
    cache: LRUCache,
}

impl View for LRUCache2 {
    type V = CacheState;

    /// The cache as a recency-ordered sequence of entries; times are in
    /// milliseconds.
    closed spec fn view(&self) -> CacheState {
        self.cache@
    }
}

impl LRUCache2 {
    /// The representation invariant.
    pub closed spec fn wf(&self) -> bool {
        self.cache.wf()
    }

    /// A well-formed cache stands for a well-formed state: it holds no key
    /// twice and no more than `capacity` entries.
    pub proof fn lemma_wf(&self)
        requires
            self.wf(),
        ensures
            self@.wf(),
    {
        self.cache.lemma_wf();
    }

    /// An empty cache for at most `capacity` entries, each living
    /// `ttl_seconds` seconds.
    pub fn new(capacity: usize, ttl_seconds: usize) -> (cache: LRUCache2)
        ensures
            cache.wf(),
            cache@.wf(),
            cache@ == CacheState::empty(capacity as nat, (ttl_seconds * 1000) as nat),
    {
        let ttl_millis: u128 = (ttl_seconds as u128) * 1000;
        LRUCache2 { cache: LRUCache::new(capacity, ttl_millis) }
    }

    /// Number of entries held, expired ones that no lookup has observed
    /// included.
    pub fn len(&self) -> (n: usize)
        requires
            self.wf(),
        ensures
            n == self@.len(),
    {
        self.cache.len()
    }

    /// Looks `key` up at clock reading `now`.
    ///
    /// Returns a copy of the stored value exactly when the key is held and
    /// `now` lies before its expiry. A hit makes the entry the most recently
    /// touched one; an entry found expired is removed.
    pub fn get_at(&mut self, key: &str, now: u128) -> (found: Option<Bytes>)
        requires
            old(self).wf(),
        ensures
            final(self).wf(),
            final(self)@.wf(),
            view_of(found) == old(self)@.lookup(key@, now as nat),
            final(self)@ == old(self)@.after_lookup(key@, now as nat),
    {
        self.cache.get_item(key, now)
    }

    /// Looks `key` up at the current time: `get_at` at whatever the wall
    /// clock reads.
    pub fn get(&mut self, key: &str) -> (found: Option<Bytes>)
        requires
            old(self).wf(),
        ensures
            final(self).wf(),
            final(self)@.wf(),
            exists|now: nat|
                view_of(found) == #[trigger] old(self)@.lookup(key@, now) && final(self)@ == old(
                    self,
                )@.after_lookup(key@, now),
    {
        let now = now_millis();
        self.get_at(key, now)
    }

    /// Stores `value` under `key` at clock reading `now`; the entry expires
    /// `ttl_seconds` seconds later and becomes the most recently touched one.
    ///
    /// Updating a key that is already held evicts nothing; a new key that
    /// takes the cache over its capacity pushes out the least recently
    /// touched entry.
    pub fn set_at(&mut self, key: &str, value: Bytes, now: u128)
        requires
            old(self).wf(),
        ensures
            final(self).wf(),
            final(self)@.wf(),
            final(self)@.len() <= final(self)@.capacity,
            final(self)@ == old(self)@.insert(key@, bytes_view(value), now as nat),
    {
        self.cache.add_item(key.to_owned(), value, now);
    }

    /// Stores `value` under `key` at the current time: `set_at` at whatever
    /// the wall clock reads.
    pub fn set(&mut self, key: &str, value: Bytes)
        requires
            old(self).wf(),
        ensures
            final(self).wf(),
            final(self)@.wf(),
            final(self)@.len() <= final(self)@.capacity,
            exists|now: nat| final(self)@ == #[trigger] old(self)@.insert(key@, bytes_view(value), now),
    {
        let now = now_millis();
        self.set_at(key, value, now);
    }

    /// Removes `key`; does nothing when the key is not held.
    pub fn remove(&mut self, key: &str)
        requires
            old(self).wf(),
        ensures
            final(self).wf(),
            final(self)@.wf(),
            final(self)@ == old(self)@.remove(key@),
    {
        self.cache.evict_by_key(key);
    }
}

} // verus!
