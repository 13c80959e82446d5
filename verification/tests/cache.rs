use rs_lru::LruCache;

#[test]
fn basic_get_put() {
    let mut cache = LruCache::new(2);
    assert_eq!(cache.get(&"a"), None);

    cache.put("a", 1);
    assert_eq!(cache.get(&"a"), Some(&1));
    assert_eq!(cache.len(), 1);
}

#[test]
fn eviction_order_is_exact() {
    // Capacity 3: insert A, B, C (A is least-recently-used at this point).
    let mut cache = LruCache::new(3);
    cache.put("A", 1);
    cache.put("B", 2);
    cache.put("C", 3);
    // Recency, most- to least-recently-used: C, B, A.

    // Refresh A: now B is the least-recently-used entry.
    assert_eq!(cache.get(&"A"), Some(&1));
    // Recency, most- to least-recently-used: A, C, B.

    // Insert a 4th entry, forcing an eviction.
    cache.put("D", 4);

    // B specifically must have been evicted; A, C, D specifically must remain.
    assert!(
        !cache.contains_key(&"B"),
        "B was the true least-recently-used entry and should have been evicted"
    );
    assert!(
        cache.contains_key(&"A"),
        "A was refreshed and should survive"
    );
    assert!(cache.contains_key(&"C"), "C should survive");
    assert!(
        cache.contains_key(&"D"),
        "D was just inserted and should be present"
    );
    assert_eq!(cache.len(), 3);

    assert_eq!(cache.get(&"A"), Some(&1));
    assert_eq!(cache.get(&"C"), Some(&3));
    assert_eq!(cache.get(&"D"), Some(&4));
    assert_eq!(cache.get(&"B"), None);
}

#[test]
fn capacity_one_edge_case() {
    let mut cache = LruCache::new(1);

    cache.put("X", 1);
    assert_eq!(cache.get(&"X"), Some(&1));
    assert_eq!(cache.len(), 1);

    // Inserting a second key evicts the first.
    cache.put("Y", 2);
    assert_eq!(cache.len(), 1);
    assert!(!cache.contains_key(&"X"));
    assert_eq!(cache.get(&"Y"), Some(&2));

    // get on the current sole key works and doesn't disturb anything.
    assert_eq!(cache.get(&"Y"), Some(&2));
    assert_eq!(cache.len(), 1);

    // Repeated puts to the same key don't evict anything (there's
    // nothing else to evict, and the key itself must survive).
    cache.put("Y", 3);
    cache.put("Y", 4);
    assert_eq!(cache.len(), 1);
    assert_eq!(cache.get(&"Y"), Some(&4));
    assert!(cache.contains_key(&"Y"));
}

#[test]
fn overwrite_updates_value_keeps_len_and_refreshes_recency() {
    let mut cache = LruCache::new(3);
    cache.put("A", 1);
    cache.put("B", 2);
    cache.put("C", 3);
    // Recency, most- to least-recently-used: C, B, A (A is LRU).

    let len_before = cache.len();
    cache.put("A", 100); // overwrite existing key
    assert_eq!(cache.peek(&"A"), Some(&100), "value must be updated");
    assert_eq!(cache.len(), len_before, "overwrite must not change len()");
    assert_eq!(cache.len(), 3);
    // Recency, most- to least-recently-used: A, C, B (B is now LRU).

    // Fill with one new key, forcing exactly one eviction. If the
    // overwrite refreshed A's recency, B (not A) must be evicted.
    cache.put("D", 4);

    assert!(
        !cache.contains_key(&"B"),
        "B was least-recently-used after the overwrite and should be evicted"
    );
    assert!(
        cache.contains_key(&"A"),
        "A was refreshed by the overwrite and must survive the eviction"
    );
    assert!(cache.contains_key(&"C"));
    assert!(cache.contains_key(&"D"));
    assert_eq!(cache.len(), 3);
    assert_eq!(cache.get(&"A"), Some(&100));
}

#[test]
fn peek_does_not_affect_recency() {
    let mut cache = LruCache::new(2);
    cache.put("a", 1);
    cache.put("b", 2);
    // Recency, most- to least-recently-used: b, a (a is LRU).

    // Peeking "a" must NOT refresh it.
    assert_eq!(cache.peek(&"a"), Some(&1));

    cache.put("c", 3); // should evict "a", since peek didn't refresh it
    assert!(!cache.contains_key(&"a"));
    assert!(cache.contains_key(&"b"));
    assert!(cache.contains_key(&"c"));
}

#[test]
fn free_list_recycles_slots_across_many_evictions() {
    // Push far more entries than capacity through the cache to
    // exercise slot recycling repeatedly; the cache must still behave
    // correctly (only ever holding `capacity` live entries, always the
    // most recently inserted ones).
    let mut cache = LruCache::new(4);
    for i in 0..1000 {
        cache.put(i, i * 10);
        assert!(cache.len() <= 4);
    }
    assert_eq!(cache.len(), 4);
    for i in 996..1000 {
        assert_eq!(cache.get(&i), Some(&(i * 10)));
    }
    for i in 0..996 {
        assert_eq!(cache.get(&i), None);
    }
}

#[test]
fn capacity_and_len_accessors() {
    let mut cache: LruCache<i32, i32> = LruCache::new(5);
    assert_eq!(cache.capacity(), 5);
    assert_eq!(cache.len(), 0);
    assert!(cache.is_empty());

    cache.put(1, 1);
    assert_eq!(cache.len(), 1);
    assert!(!cache.is_empty());
    assert_eq!(cache.capacity(), 5); // capacity never changes
}
