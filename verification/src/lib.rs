//! A bounded in-memory cache with least-recently-used eviction and per-entry
//! time-to-live, together with the cache-aside decisions that sit between a
//! request handler and a durable object store.
//!
//! - [`model`] defines the cache as a mathematical value and its operations.
//! - [`laws`] proves what holds of every such value.
//! - [`lru`] is the entry store itself, an arena of linked slots behind a key
//!   index; [`cache`] and [`cache2`] put it on the wall clock.
//! - [`proxy`] decides when a read is served from the cache, when it goes to
//!   the backing store, and what is cached afterwards.
//! - [`s3_store`] spells object keys and classifies the store's replies.
//! - [`value`] and [`clock`] hold what is taken on trust from `bytes` and
//!   from the system clock.
//!
//! The caches take `&mut self`: every operation, a read hit included,
//! rewrites the recency order and needs exclusive access. A server shares
//! one cache behind a lock and holds the lock for one cache call at a time.

pub mod cache;
pub mod cache2;
pub mod clock;
pub mod laws;
pub mod lru;
pub mod model;
pub mod proxy;
pub mod s3_store;
pub mod value;
