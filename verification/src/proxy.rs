//! Cache-aside orchestration, as decisions.
//!
//! A read first consults the cache. On a miss the caller asks the backing
//! store and reports what came back; only a value that was found is cached.
//! A write goes to the backing store alone. The functions here decide; the
//! caller talks to the store between them, holding no lock on the cache
//! while it waits.

use crate::cache::LocalCache;
use crate::clock::now_millis;
use crate::model::CacheState;
use crate::s3_store::StoreError;
use crate::value::bytes_view;
use bytes::Bytes;
use vstd::prelude::*;

verus! {

/// What a read does after it has consulted the cache.
#[derive(Debug, PartialEq, Eq)]
pub enum ReadStep {
    /// The cache held a live entry: answer with this value and leave the
    /// backing store alone.
    Hit(Bytes),
    /// The cache had nothing to offer: fetch the key from the backing store.
    Fetch,
}

/// The answer to a read.
#[derive(Debug, PartialEq, Eq)]
pub enum ReadReply {
    /// The value, from the cache or from the backing store.
    Found(Bytes),
    /// The backing store holds no such key.
    NotFound,
    /// The backing store failed; the text is for the log, not for the client.
    BackendError(String),
}

/// The answer to a write.
#[derive(Debug, PartialEq, Eq)]
pub enum WriteReply {
    /// The backing store has accepted the value.
    Created,
    /// The backing store failed; the text is for the log, not for the client.
    BackendError(String),
}

/// What the backing store returned for a fetch, as far as the cache is
/// concerned.
pub enum Fetched {
    Value(Seq<u8>),
    NotFound,
    Failed,
}

/// A fetch result seen as a `Fetched`.
pub open spec fn fetched_view(fetched: Result<Bytes, StoreError>) -> Fetched {
    match fetched {
        Ok(value) => Fetched::Value(bytes_view(value)),
        Err(e) => if e.not_found() {
            Fetched::NotFound
        } else {
            Fetched::Failed
        },
    }
}

/// The cache after a fetch made at time `now` has been reported: it takes in
/// a value that was found, and nothing else.
pub open spec fn after_fetch(
    s: CacheState,
    key: Seq<char>,
    fetched: Fetched,
    now: nat,
) -> CacheState {
    match fetched {
        Fetched::Value(value) => s.insert(key, value, now),
        _ => s,
    }
}

impl ReadStep {
    /// The step that a lookup result calls for.
    pub open spec fn matches_lookup(self, found: Option<Seq<u8>>) -> bool {
        match found {
            Some(value) => self matches ReadStep::Hit(b) && bytes_view(b) == value,
            None => self is Fetch,
        }
    }
}

impl ReadReply {
    /// The reply that a reported fetch calls for.
    pub open spec fn matches_fetch(self, fetched: Result<Bytes, StoreError>) -> bool {
        match fetched {
            Ok(value) => self matches ReadReply::Found(b) && bytes_view(b) == bytes_view(value),
            Err(e) => if e.not_found() {
                self is NotFound
            } else {
                self matches ReadReply::BackendError(text) && text@ == e.message_view()
            },
        }
    }

    pub open spec fn status_view(self) -> u16 {
        match self {
            ReadReply::Found(_) => 200,
            ReadReply::NotFound => 404,
            ReadReply::BackendError(_) => 500,
        }
    }

    /// The status code of the reply: 200 with the value, 404 when the backing
    /// store has no such key, 500 for every other failure.
    pub fn status(&self) -> (code: u16)
        ensures
            code == self.status_view(),
    {
        match self {
            ReadReply::Found(_) => 200,
            ReadReply::NotFound => 404,
            ReadReply::BackendError(_) => 500,
        }
    }
}

impl WriteReply {
    pub open spec fn status_view(self) -> u16 {
        match self {
            WriteReply::Created => 201,
            WriteReply::BackendError(_) => 500,
        }
    }

    /// The status code of the reply: 201 once the value is stored, 500
    /// otherwise.
    pub fn status(&self) -> (code: u16)
        ensures
            code == self.status_view(),
    {
        match self {
            WriteReply::Created => 201,
            WriteReply::BackendError(_) => 500,
        }
    }
}

/// First step of a read at clock reading `now`: consult the cache.
///
/// A live entry is a hit, served without the backing store, and becomes the
/// most recently touched entry. Anything else calls for a fetch; an entry
/// found expired is dropped on the way.
pub fn begin_get_at(cache: &mut LocalCache, key: &String, now: u128) -> (step: ReadStep)
    requires
        old(cache).wf(),
    ensures
        final(cache).wf(),
        final(cache)@.wf(),
        step.matches_lookup(old(cache)@.lookup(key@, now as nat)),
        final(cache)@ == old(cache)@.after_lookup(key@, now as nat),
{
    match cache.get_item_at(key, now) {
        Some(value) => ReadStep::Hit(value),
        None => ReadStep::Fetch,
    }
}

/// First step of a read at the current time: `begin_get_at` at whatever the
/// wall clock reads.
pub fn begin_get(cache: &mut LocalCache, key: &String) -> (step: ReadStep)
    requires
        old(cache).wf(),
    ensures
        final(cache).wf(),
        final(cache)@.wf(),
        exists|now: nat|
            step.matches_lookup(#[trigger] old(cache)@.lookup(key@, now)) && final(cache)@ == old(
                cache,
            )@.after_lookup(key@, now),
{
    let now = now_millis();
    begin_get_at(cache, key, now)
}

/// Second step of a read that missed: take in what the backing store
/// returned at clock reading `now`.
///
/// A value is cached under `key` and returned. "Not found" and every other
/// failure are passed on and leave the cache exactly as it was.
pub fn finish_get_at(
    cache: &mut LocalCache,
    key: String,
    fetched: Result<Bytes, StoreError>,
    now: u128,
) -> (reply: ReadReply)
    requires
        old(cache).wf(),
    ensures
        final(cache).wf(),
        final(cache)@.wf(),
        reply.matches_fetch(fetched),
        final(cache)@ == after_fetch(old(cache)@, key@, fetched_view(fetched), now as nat),
{
    match fetched {
        Ok(content) => {
            cache.add_item_at(key, content.clone(), now);
            ReadReply::Found(content)
        },
        Err(e) => {
            proof {
                cache.lemma_wf();
            }
            if e.is_not_found() {
                ReadReply::NotFound
            } else {
                ReadReply::BackendError(e.message())
            }
        },
    }
}

/// Second step of a read that missed, at the current time: `finish_get_at`
/// at whatever the wall clock reads.
pub fn finish_get(
    cache: &mut LocalCache,
    key: String,
    fetched: Result<Bytes, StoreError>,
) -> (reply: ReadReply)
    requires
        old(cache).wf(),
    ensures
        final(cache).wf(),
        final(cache)@.wf(),
        reply.matches_fetch(fetched),
        exists|now: nat|
            final(cache)@ == #[trigger] after_fetch(old(cache)@, key@, fetched_view(fetched), now),
{
    let now = now_millis();
    finish_get_at(cache, key, fetched, now)
}

/// The answer to a write, given what the backing store returned: its outcome
/// as it is. The cache plays no part in a write.
pub fn finish_put(stored: Result<(), StoreError>) -> (reply: WriteReply)
    ensures
        match stored {
            Ok(_) => reply is Created,
            Err(e) => reply matches WriteReply::BackendError(text) && text@ == e.message_view(),
        },
{
    match stored {
        Ok(_) => WriteReply::Created,
        Err(e) => WriteReply::BackendError(e.message()),
    }
}

} // verus!
