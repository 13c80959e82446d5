use rs_lru::LruCache;

#[test]
fn reading_an_entry_saves_it_from_eviction() {
    let mut cache = LruCache::new(2);
    cache.put("a", 1);
    cache.put("b", 2);
    assert_eq!(cache.get(&"a"), Some(&1));
    cache.put("c", 3);
    assert_eq!(cache.get(&"b"), None);
    assert_eq!(cache.get(&"a"), Some(&1));
    assert_eq!(cache.get(&"c"), Some(&3));
    assert_eq!(cache.len(), 2);
    assert_eq!(cache.capacity(), 2);
}

#[test]
fn entries_can_be_inspected_and_taken_out() {
    let mut cache = LruCache::new(3);
    cache.put("a", 1);
    cache.put("b", 2);
    cache.put("c", 3);
    cache.get(&"a");

    let keys: Vec<_> = cache.iter().map(|(k, _)| *k).collect();
    assert_eq!(keys, ["a", "c", "b"]);

    assert_eq!(cache.remove(&"c"), Some(3));
    assert_eq!(cache.pop_lru(), Some(("b", 2)));
    cache.clear();
    assert!(cache.is_empty());
    assert_eq!(cache.capacity(), 3);
}

#[test]
fn fourth_key_evicts_the_first() {
    let mut cache: LruCache<i32, &str> = LruCache::new(3);
    cache.put(1, "one");
    cache.put(2, "two");
    cache.put(3, "three");
    assert_eq!(cache.len(), 3);
    cache.put(4, "four");
    assert!(!cache.contains_key(&1));
    assert!(cache.contains_key(&4));
}

#[test]
fn new_cache_of_strings_is_empty() {
    let cache: LruCache<String, i32> = LruCache::new(16);
    assert_eq!(cache.capacity(), 16);
    assert_eq!(cache.len(), 0);
    assert_eq!(cache.peek(&String::from("a")), None);
    assert_eq!(cache.iter().count(), 0);
}

#[test]
fn overwrite_does_not_evict() {
    let mut cache = LruCache::new(1);
    cache.put("a", 1);
    cache.put("a", 2);
    assert_eq!(cache.len(), 1);
    assert_eq!(cache.get(&"a"), Some(&2));
    cache.put("b", 3);
    assert_eq!(cache.len(), 1);
    assert_eq!(cache.get(&"a"), None);
    assert_eq!(cache.get(&"b"), Some(&3));
}

#[test]
fn operations_on_an_empty_cache() {
    let mut cache: LruCache<u8, u8> = LruCache::new(2);
    assert_eq!(cache.get(&1), None);
    assert_eq!(cache.remove(&1), None);
    assert_eq!(cache.pop_lru(), None);
    cache.clear();
    assert!(cache.is_empty());
    cache.put(1, 1);
    assert_eq!(cache.pop_lru(), Some((1, 1)));
    assert_eq!(cache.pop_lru(), None);
    cache.put(2, 2);
    assert_eq!(cache.peek(&2), Some(&2));
}

#[test]
fn largest_capacity_is_accepted() {
    let mut cache = LruCache::new(usize::MAX);
    cache.put(1, 1);
    assert_eq!(cache.capacity(), usize::MAX);
    assert_eq!(cache.len(), 1);
}
