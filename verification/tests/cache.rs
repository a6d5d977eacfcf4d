use bytes::Bytes;
use local_lru::cache::LocalCache;

#[test]
fn test_capacity_based_eviction() {
    let mut cache = LocalCache::new(3, 60);

    cache.add_item("key1".to_string(), Bytes::from("value1"));
    cache.add_item("key2".to_string(), Bytes::from("value2"));
    cache.add_item("key3".to_string(), Bytes::from("value3"));

    assert_eq!(
        cache.get_item(&"key1".to_string()),
        Some(Bytes::from("value1"))
    );
    assert_eq!(
        cache.get_item(&"key2".to_string()),
        Some(Bytes::from("value2"))
    );
    assert_eq!(
        cache.get_item(&"key3".to_string()),
        Some(Bytes::from("value3"))
    );

    // Adding a fourth item should evict the least recently used item (key1)
    cache.add_item("key4".to_string(), Bytes::from("value4"));

    assert_eq!(cache.get_item(&"key1".to_string()), None);
    assert_eq!(
        cache.get_item(&"key2".to_string()),
        Some(Bytes::from("value2"))
    );
    assert_eq!(
        cache.get_item(&"key3".to_string()),
        Some(Bytes::from("value3"))
    );
    assert_eq!(
        cache.get_item(&"key4".to_string()),
        Some(Bytes::from("value4"))
    );
}

#[test]
fn test_get_item_updates_order() {
    let mut cache = LocalCache::new(3, 60);

    cache.add_item("key1".to_string(), Bytes::from("value1"));
    cache.add_item("key2".to_string(), Bytes::from("value2"));
    cache.add_item("key3".to_string(), Bytes::from("value3"));

    // Access key1, making it the most recently used
    cache.get_item(&"key1".to_string());

    // Add a new item, which should evict the least recently used (now key2)
    cache.add_item("key4".to_string(), Bytes::from("value4"));

    assert_eq!(
        cache.get_item(&"key1".to_string()),
        Some(Bytes::from("value1"))
    );
    assert_eq!(cache.get_item(&"key2".to_string()), None);
    assert_eq!(
        cache.get_item(&"key3".to_string()),
        Some(Bytes::from("value3"))
    );
    assert_eq!(
        cache.get_item(&"key4".to_string()),
        Some(Bytes::from("value4"))
    );
}

#[test]
fn test_ttl_expiration() {
    let mut cache = LocalCache::new(3, 2); // TTL of 2 seconds
    let start: u128 = 1_700_000_000_000;

    cache.add_item_at("key1".to_string(), Bytes::from("value1"), start);

    assert_eq!(
        cache.get_item_at(&"key1".to_string(), start),
        Some(Bytes::from("value1"))
    );

    // Three seconds on (longer than TTL) the item should be expired
    assert_eq!(cache.get_item_at(&"key1".to_string(), start + 3000), None);
}

#[test]
fn eviction_scenario_with_capacity_two() {
    let mut cache = LocalCache::new(2, 60);
    let k1 = "k1".to_string();
    let k2 = "k2".to_string();
    let k3 = "k3".to_string();
    cache.add_item_at(k1.clone(), Bytes::from("v1"), 10);
    cache.add_item_at(k2.clone(), Bytes::from("v2"), 11);
    assert_eq!(cache.get_item_at(&k1, 12), Some(Bytes::from("v1")));
    cache.add_item_at(k3.clone(), Bytes::from("v3"), 13);
    assert_eq!(cache.len(), 2);
    assert_eq!(cache.get_item_at(&k2, 14), None);
    assert_eq!(cache.get_item_at(&k1, 15), Some(Bytes::from("v1")));
    assert_eq!(cache.get_item_at(&k3, 16), Some(Bytes::from("v3")));
}

#[test]
fn ttl_of_one_second_scenario() {
    let mut cache = LocalCache::new(4, 1);
    let k1 = "k1".to_string();
    cache.add_item_at(k1.clone(), Bytes::from("v1"), 5_000);
    assert_eq!(cache.get_item_at(&k1, 5_000), Some(Bytes::from("v1")));
    assert_eq!(cache.len(), 1);
    assert_eq!(cache.get_item_at(&k1, 6_100), None);
    assert_eq!(cache.len(), 0);
}

#[test]
fn ttl_boundary_is_exclusive() {
    let k = "k".to_string();
    let mut cache = LocalCache::new(4, 7);
    cache.add_item_at(k.clone(), Bytes::from("v"), 1_000);
    // one millisecond before the seven seconds are over: still there
    assert_eq!(cache.get_item_at(&k, 7_999), Some(Bytes::from("v")));
    // exactly at the expiry: gone, and removed
    assert_eq!(cache.get_item_at(&k, 8_000), None);
    assert_eq!(cache.len(), 0);

    let mut cache = LocalCache::new(4, 7);
    cache.add_item_at(k.clone(), Bytes::from("v"), 1_000);
    assert_eq!(cache.get_item_at(&k, 8_001), None);
    assert_eq!(cache.len(), 0);
}

#[test]
fn a_read_does_not_extend_the_lifetime() {
    let k = "k".to_string();
    let mut cache = LocalCache::new(4, 2);
    cache.add_item_at(k.clone(), Bytes::from("v"), 0);
    assert_eq!(cache.get_item_at(&k, 1_500), Some(Bytes::from("v")));
    assert_eq!(cache.get_item_at(&k, 1_999), Some(Bytes::from("v")));
    assert_eq!(cache.get_item_at(&k, 2_000), None);
}

#[test]
fn a_clock_that_runs_backwards_does_not_expire_anything() {
    let k = "k".to_string();
    let mut cache = LocalCache::new(4, 2);
    cache.add_item_at(k.clone(), Bytes::from("v"), 10_000);
    assert_eq!(cache.get_item_at(&k, 3), Some(Bytes::from("v")));
}

#[test]
fn zero_ttl_expires_at_once() {
    let k = "k".to_string();
    let mut cache = LocalCache::new(4, 0);
    cache.add_item_at(k.clone(), Bytes::from("v"), 42);
    assert_eq!(cache.len(), 1);
    assert_eq!(cache.get_item_at(&k, 42), None);
    assert_eq!(cache.len(), 0);
}

#[test]
fn update_replaces_value_and_keeps_count() {
    let k = "k".to_string();
    let mut cache = LocalCache::new(4, 60);
    cache.add_item_at(k.clone(), Bytes::from("v1"), 0);
    cache.add_item_at(k.clone(), Bytes::from("v2"), 1);
    assert_eq!(cache.get_item_at(&k, 2), Some(Bytes::from("v2")));
    assert_eq!(cache.len(), 1);
}

#[test]
fn update_resets_expiry_and_recency() {
    let a = "a".to_string();
    let b = "b".to_string();
    let c = "c".to_string();
    let mut cache = LocalCache::new(2, 10);
    cache.add_item_at(a.clone(), Bytes::from("a1"), 0);
    cache.add_item_at(b.clone(), Bytes::from("b1"), 1_000);
    // re-inserting `a` at full capacity evicts nothing
    cache.add_item_at(a.clone(), Bytes::from("a2"), 9_000);
    assert_eq!(cache.len(), 2);
    // `a` is now the most recent, so `c` pushes `b` out
    cache.add_item_at(c.clone(), Bytes::from("c1"), 9_500);
    assert_eq!(cache.get_item_at(&b, 9_600), None);
    // the first insert of `a` would have expired at 10_000; the update moved that to 19_000
    assert_eq!(cache.get_item_at(&a, 18_999), Some(Bytes::from("a2")));
    assert_eq!(cache.get_item_at(&a, 19_000), None);
}

#[test]
fn capacity_is_never_exceeded() {
    let mut cache = LocalCache::new(3, 60);
    for i in 0..50u32 {
        cache.add_item_at(format!("key{}", i % 7), Bytes::from(format!("value{}", i)), i as u128);
        assert!(cache.len() <= 3);
        if i >= 2 {
            assert_eq!(cache.len(), 3);
        }
    }
}

#[test]
fn capacity_one_keeps_the_newest() {
    let a = "a".to_string();
    let b = "b".to_string();
    let mut cache = LocalCache::new(1, 60);
    cache.add_item_at(a.clone(), Bytes::from("1"), 0);
    cache.add_item_at(b.clone(), Bytes::from("2"), 1);
    assert_eq!(cache.len(), 1);
    assert_eq!(cache.get_item_at(&a, 2), None);
    assert_eq!(cache.get_item_at(&b, 2), Some(Bytes::from("2")));
}

#[test]
fn capacity_zero_holds_nothing() {
    let a = "a".to_string();
    let mut cache = LocalCache::new(0, 60);
    cache.add_item_at(a.clone(), Bytes::from("1"), 0);
    assert_eq!(cache.len(), 0);
    assert_eq!(cache.get_item_at(&a, 0), None);
}

#[test]
fn miss_on_absent_key_changes_nothing() {
    let a = "a".to_string();
    let b = "b".to_string();
    let c = "c".to_string();
    let mut cache = LocalCache::new(2, 60);
    cache.add_item_at(a.clone(), Bytes::from("1"), 0);
    cache.add_item_at(b.clone(), Bytes::from("2"), 1);
    assert_eq!(cache.get_item_at(&"zzz".to_string(), 2), None);
    assert_eq!(cache.len(), 2);
    // `a` is still the eviction candidate
    cache.add_item_at(c.clone(), Bytes::from("3"), 3);
    assert_eq!(cache.get_item_at(&a, 4), None);
    assert_eq!(cache.get_item_at(&b, 4), Some(Bytes::from("2")));
}

#[test]
fn expired_entries_count_until_observed() {
    let a = "a".to_string();
    let b = "b".to_string();
    let c = "c".to_string();
    let mut cache = LocalCache::new(2, 1);
    cache.add_item_at(a.clone(), Bytes::from("1"), 0);
    cache.add_item_at(b.clone(), Bytes::from("2"), 10);
    // both are long expired but nobody has looked
    assert_eq!(cache.len(), 2);
    // so a new key still evicts by recency, not by age
    cache.add_item_at(c.clone(), Bytes::from("3"), 50_000);
    assert_eq!(cache.len(), 2);
    assert_eq!(cache.get_item_at(&b, 50_000), None);
    assert_eq!(cache.len(), 1);
    assert_eq!(cache.get_item_at(&c, 50_000), Some(Bytes::from("3")));
}

#[test]
fn remove_is_a_no_op_on_absent_keys() {
    let a = "a".to_string();
    let b = "b".to_string();
    let mut cache = LocalCache::new(2, 60);
    cache.add_item_at(a.clone(), Bytes::from("1"), 0);
    cache.remove(&b);
    assert_eq!(cache.len(), 1);
    cache.remove(&a);
    assert_eq!(cache.len(), 0);
    assert_eq!(cache.get_item_at(&a, 1), None);
    cache.remove(&a);
    assert_eq!(cache.len(), 0);
}

#[test]
fn lookup_returns_a_copy_of_the_stored_bytes() {
    let k = "k".to_string();
    let stored = Bytes::from(vec![0u8, 1, 2, 255]);
    let mut cache = LocalCache::new(2, 60);
    cache.add_item_at(k.clone(), stored.clone(), 0);
    let first = cache.get_item_at(&k, 1).unwrap();
    let second = cache.get_item_at(&k, 2).unwrap();
    assert_eq!(first, stored);
    assert_eq!(second, stored);
    assert_eq!(&first[..], &[0u8, 1, 2, 255][..]);
}

#[test]
fn empty_key_and_empty_value_are_ordinary() {
    let k = String::new();
    let mut cache = LocalCache::new(2, 60);
    cache.add_item_at(k.clone(), Bytes::new(), 0);
    assert_eq!(cache.get_item_at(&k, 1), Some(Bytes::new()));
    assert_eq!(cache.len(), 1);
}

#[test]
fn wall_clock_insert_is_visible_at_once() {
    let k = "k".to_string();
    let mut cache = LocalCache::new(2, 3600);
    cache.add_item(k.clone(), Bytes::from("v"));
    assert_eq!(cache.get_item(&k), Some(Bytes::from("v")));
    assert_eq!(cache.len(), 1);
}
