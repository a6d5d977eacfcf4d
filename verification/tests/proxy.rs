use bytes::Bytes;
use local_lru::cache::LocalCache;
use local_lru::proxy::{
    begin_get, begin_get_at, finish_get, finish_get_at, finish_put, ReadReply, ReadStep,
    WriteReply,
};
use local_lru::s3_store::StoreError;

/// A backing store that counts how often it is asked.
struct Backing {
    objects: Vec<(String, Bytes)>,
    broken: bool,
    fetches: usize,
}

impl Backing {
    fn holding(objects: &[(&str, &str)]) -> Backing {
        Backing {
            objects: objects
                .iter()
                .map(|(k, v)| (k.to_string(), Bytes::from(v.to_string())))
                .collect(),
            broken: false,
            fetches: 0,
        }
    }

    fn fetch(&mut self, key: &str) -> Result<Bytes, StoreError> {
        self.fetches += 1;
        if self.broken {
            return Err(StoreError::S3ReadError("connection reset".to_string()));
        }
        for (k, v) in &self.objects {
            if k == key {
                return Ok(v.clone());
            }
        }
        Err(StoreError::ItemNotFound(format!("phi3/{}", key)))
    }
}

/// One read through the proxy, the way a request handler runs it.
fn read(cache: &mut LocalCache, backing: &mut Backing, key: &str, now: u128) -> ReadReply {
    let key = key.to_string();
    match begin_get_at(cache, &key, now) {
        ReadStep::Hit(value) => ReadReply::Found(value),
        ReadStep::Fetch => {
            let fetched = backing.fetch(&key);
            finish_get_at(cache, key, fetched, now)
        }
    }
}

#[test]
fn read_through_populates_the_cache_once() {
    let mut cache = LocalCache::new(10, 120);
    let mut backing = Backing::holding(&[("x", "data")]);

    let first = read(&mut cache, &mut backing, "x", 1_000);
    assert_eq!(first, ReadReply::Found(Bytes::from("data")));
    assert_eq!(backing.fetches, 1);
    assert_eq!(cache.len(), 1);

    let second = read(&mut cache, &mut backing, "x", 1_001);
    assert_eq!(second, ReadReply::Found(Bytes::from("data")));
    assert_eq!(backing.fetches, 1);
    assert_eq!(cache.len(), 1);
}

#[test]
fn not_found_is_never_cached() {
    let mut cache = LocalCache::new(10, 120);
    let mut backing = Backing::holding(&[("x", "data")]);

    let first = read(&mut cache, &mut backing, "y", 1_000);
    assert_eq!(first, ReadReply::NotFound);
    assert_eq!(first.status(), 404);
    assert_eq!(backing.fetches, 1);
    assert_eq!(cache.len(), 0);
    assert_eq!(cache.get_item_at(&"y".to_string(), 1_000), None);

    let second = read(&mut cache, &mut backing, "y", 1_001);
    assert_eq!(second, ReadReply::NotFound);
    assert_eq!(backing.fetches, 2);
    assert_eq!(cache.len(), 0);
}

#[test]
fn backend_failure_is_passed_on_and_leaves_the_cache_alone() {
    let mut cache = LocalCache::new(2, 120);
    cache.add_item_at("a".to_string(), Bytes::from("1"), 0);
    cache.add_item_at("b".to_string(), Bytes::from("2"), 1);
    let mut backing = Backing::holding(&[("x", "data")]);
    backing.broken = true;

    let reply = read(&mut cache, &mut backing, "x", 10);
    assert_eq!(
        reply,
        ReadReply::BackendError("S3 read operation failed: connection reset".to_string())
    );
    assert_eq!(reply.status(), 500);
    assert_eq!(backing.fetches, 1);
    assert_eq!(cache.len(), 2);
    // `a` is still the eviction candidate: the failed read touched nothing
    cache.add_item_at("c".to_string(), Bytes::from("3"), 11);
    assert_eq!(cache.get_item_at(&"a".to_string(), 12), None);
    assert_eq!(cache.get_item_at(&"b".to_string(), 12), Some(Bytes::from("2")));

    // the same request goes to the backing store again
    let again = read(&mut cache, &mut backing, "x", 13);
    assert_eq!(again.status(), 500);
    assert_eq!(backing.fetches, 2);
}

#[test]
fn expired_entry_is_fetched_again() {
    let mut cache = LocalCache::new(10, 2);
    let mut backing = Backing::holding(&[("x", "data")]);

    assert_eq!(read(&mut cache, &mut backing, "x", 0).status(), 200);
    assert_eq!(read(&mut cache, &mut backing, "x", 1_999).status(), 200);
    assert_eq!(backing.fetches, 1);
    // the hit at 1_999 did not extend the lifetime
    assert_eq!(read(&mut cache, &mut backing, "x", 2_000).status(), 200);
    assert_eq!(backing.fetches, 2);
    assert_eq!(read(&mut cache, &mut backing, "x", 3_999).status(), 200);
    assert_eq!(backing.fetches, 2);
}

#[test]
fn evicted_entry_is_fetched_again() {
    let mut cache = LocalCache::new(1, 120);
    let mut backing = Backing::holding(&[("x", "data"), ("z", "other")]);

    assert_eq!(read(&mut cache, &mut backing, "x", 0), ReadReply::Found(Bytes::from("data")));
    assert_eq!(read(&mut cache, &mut backing, "z", 1), ReadReply::Found(Bytes::from("other")));
    assert_eq!(backing.fetches, 2);
    assert_eq!(read(&mut cache, &mut backing, "x", 2), ReadReply::Found(Bytes::from("data")));
    assert_eq!(backing.fetches, 3);
}

#[test]
fn begin_get_reports_hit_or_fetch() {
    let mut cache = LocalCache::new(2, 1);
    let k = "k".to_string();
    assert_eq!(begin_get_at(&mut cache, &k, 0), ReadStep::Fetch);
    cache.add_item_at(k.clone(), Bytes::from("v"), 0);
    assert_eq!(begin_get_at(&mut cache, &k, 999), ReadStep::Hit(Bytes::from("v")));
    assert_eq!(begin_get_at(&mut cache, &k, 1_000), ReadStep::Fetch);
    assert_eq!(cache.len(), 0);
}

#[test]
fn finish_get_returns_the_fetched_value_and_caches_under_the_request_key() {
    let mut cache = LocalCache::new(2, 60);
    let reply = finish_get_at(&mut cache, "k".to_string(), Ok(Bytes::from("payload")), 5);
    assert_eq!(reply, ReadReply::Found(Bytes::from("payload")));
    assert_eq!(reply.status(), 200);
    assert_eq!(cache.get_item_at(&"k".to_string(), 6), Some(Bytes::from("payload")));
}

#[test]
fn finish_get_maps_each_error() {
    let mut cache = LocalCache::new(2, 60);
    assert_eq!(
        finish_get_at(
            &mut cache,
            "k".to_string(),
            Err(StoreError::ItemNotFound("phi3/k".to_string())),
            0
        ),
        ReadReply::NotFound
    );
    assert_eq!(
        finish_get_at(
            &mut cache,
            "k".to_string(),
            Err(StoreError::S3ReadError("timeout".to_string())),
            0
        ),
        ReadReply::BackendError("S3 read operation failed: timeout".to_string())
    );
    assert_eq!(
        finish_get_at(
            &mut cache,
            "k".to_string(),
            Err(StoreError::S3WriteError("odd".to_string())),
            0
        ),
        ReadReply::BackendError("S3 write operation failed: odd".to_string())
    );
    assert_eq!(cache.len(), 0);
}

#[test]
fn finish_put_passes_the_outcome_on() {
    assert_eq!(finish_put(Ok(())), WriteReply::Created);
    assert_eq!(finish_put(Ok(())).status(), 201);
    let failed = finish_put(Err(StoreError::S3WriteError("disk full".to_string())));
    assert_eq!(
        failed,
        WriteReply::BackendError("S3 write operation failed: disk full".to_string())
    );
    assert_eq!(failed.status(), 500);
}

#[test]
fn a_write_does_not_touch_the_cache() {
    let mut cache = LocalCache::new(2, 60);
    let mut backing = Backing::holding(&[("x", "old")]);
    assert_eq!(read(&mut cache, &mut backing, "x", 0), ReadReply::Found(Bytes::from("old")));
    // the handler stores a new value and reports the outcome
    backing.objects[0].1 = Bytes::from("new");
    assert_eq!(finish_put(Ok(())), WriteReply::Created);
    // the cached entry is served until it expires
    assert_eq!(read(&mut cache, &mut backing, "x", 1), ReadReply::Found(Bytes::from("old")));
    assert_eq!(backing.fetches, 1);
}

#[test]
fn wall_clock_read_through() {
    let mut cache = LocalCache::new(2, 3600);
    let k = "k".to_string();
    assert_eq!(begin_get(&mut cache, &k), ReadStep::Fetch);
    assert_eq!(
        finish_get(&mut cache, k.clone(), Ok(Bytes::from("v"))),
        ReadReply::Found(Bytes::from("v"))
    );
    assert_eq!(begin_get(&mut cache, &k), ReadStep::Hit(Bytes::from("v")));
}
