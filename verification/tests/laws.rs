use rs_lru::LruCache;

fn contents(cache: &LruCache<u32, u32>) -> Vec<(u32, u32)> {
    cache.iter().map(|(k, v)| (*k, *v)).collect()
}

/// A cache of the given capacity with the keys put in the given order, each with ten times
/// its value.
fn filled(capacity: usize, keys: &[u32]) -> LruCache<u32, u32> {
    let mut cache = LruCache::new(capacity);
    for k in keys {
        cache.put(*k, *k * 10);
    }
    cache
}

#[test]
fn put_is_found_at_the_front() {
    let mut cache = filled(3, &[1, 2, 3]);
    cache.put(2, 99);
    assert_eq!(contents(&cache), vec![(2, 99), (3, 30), (1, 10)]);
    cache.put(4, 40);
    assert_eq!(contents(&cache), vec![(4, 40), (2, 99), (3, 30)]);
}

#[test]
fn get_refreshes_and_keeps_the_other_order() {
    let mut cache = filled(4, &[1, 2, 3, 4]);
    assert_eq!(cache.get(&2), Some(&20));
    assert_eq!(contents(&cache), vec![(2, 20), (4, 40), (3, 30), (1, 10)]);
    assert_eq!(cache.get(&2), Some(&20));
    assert_eq!(contents(&cache), vec![(2, 20), (4, 40), (3, 30), (1, 10)]);
    assert_eq!(cache.get(&1), Some(&10));
    assert_eq!(contents(&cache), vec![(1, 10), (2, 20), (4, 40), (3, 30)]);
    assert_eq!(cache.get(&7), None);
    assert_eq!(contents(&cache), vec![(1, 10), (2, 20), (4, 40), (3, 30)]);
}

#[test]
fn of_two_puts_the_second_counts() {
    let mut once = filled(3, &[1, 2, 3]);
    let mut twice = filled(3, &[1, 2, 3]);
    once.put(5, 7);
    twice.put(5, 6);
    twice.put(5, 7);
    assert_eq!(contents(&once), contents(&twice));
}

#[test]
fn remove_undoes_put() {
    let mut cache = filled(4, &[1, 2, 3]);
    let before = contents(&cache);
    cache.put(9, 90);
    assert_eq!(cache.remove(&9), Some(90));
    assert_eq!(contents(&cache), before);
    assert_eq!(cache.remove(&9), None);
    assert_eq!(contents(&cache), before);
}

#[test]
fn remove_from_each_position() {
    for gone in 1..4 {
        let mut cache = filled(3, &[1, 2, 3]);
        assert_eq!(cache.remove(&gone), Some(gone * 10));
        let rest: Vec<(u32, u32)> = vec![(3, 30), (2, 20), (1, 10)]
            .into_iter()
            .filter(|(k, _)| *k != gone)
            .collect();
        assert_eq!(contents(&cache), rest);
        assert_eq!(cache.len(), 2);
    }
}

#[test]
fn put_into_full_cache_is_pop_then_put() {
    let mut direct = filled(3, &[1, 2, 3]);
    let mut popped = filled(3, &[1, 2, 3]);
    direct.put(4, 40);
    assert_eq!(popped.pop_lru(), Some((1, 10)));
    popped.put(4, 40);
    assert_eq!(contents(&direct), contents(&popped));
}

#[test]
fn used_entry_survives_fewer_operations_than_capacity() {
    let mut cache = filled(3, &[1, 2, 3]);
    cache.get(&1);
    cache.put(4, 40);
    cache.put(5, 50);
    assert!(cache.contains_key(&1));
    cache.put(6, 60);
    assert!(!cache.contains_key(&1));
}

#[test]
fn holds_the_most_recent_puts() {
    let cache = filled(3, &[5, 4, 3, 2, 1]);
    assert_eq!(contents(&cache), vec![(1, 10), (2, 20), (3, 30)]);
}

#[test]
fn peek_contains_and_iter_leave_the_order() {
    let cache = filled(3, &[1, 2, 3]);
    let before = contents(&cache);
    assert_eq!(cache.peek(&1), Some(&10));
    assert!(cache.contains_key(&2));
    assert_eq!(cache.iter().count(), 3);
    assert_eq!(contents(&cache), before);
}

/// Runs a long mixed history against a plain list kept in order of last use.
#[test]
fn mixed_history_matches_a_plain_list() {
    let capacity: usize = 5;
    let mut cache: LruCache<u32, u32> = LruCache::new(capacity);
    let mut list: Vec<(u32, u32)> = Vec::new();
    let mut state: u32 = 12345;
    for round in 0..5000u32 {
        state = state.wrapping_mul(1664525).wrapping_add(1013904223);
        let key = (state >> 16) % 12;
        let found = list.iter().position(|(k, _)| *k == key);
        match (state >> 8) % 16 {
            0..=5 => {
                cache.put(key, round);
                if let Some(i) = found {
                    list.remove(i);
                } else if list.len() >= capacity {
                    list.pop();
                }
                list.insert(0, (key, round));
            }
            6..=10 => {
                let expected = found.map(|i| list[i].1);
                assert_eq!(cache.get(&key).copied(), expected);
                if let Some(i) = found {
                    let entry = list.remove(i);
                    list.insert(0, entry);
                }
            }
            11 => {
                let expected = found.map(|i| list[i].1);
                assert_eq!(cache.peek(&key).copied(), expected);
                assert_eq!(cache.contains_key(&key), expected.is_some());
            }
            12 | 13 => {
                let expected = found.map(|i| list.remove(i).1);
                assert_eq!(cache.remove(&key), expected);
            }
            14 => assert_eq!(cache.pop_lru(), list.pop()),
            _ => {
                if round % 7 == 0 {
                    cache.clear();
                    list.clear();
                }
            }
        }
        assert_eq!(contents(&cache), list);
        assert_eq!(cache.len(), list.len());
        assert_eq!(cache.is_empty(), list.is_empty());
        assert_eq!(cache.capacity(), capacity);
    }
}

#[test]
fn entry_stays_while_fewer_other_keys_than_capacity_are_used() {
    let mut cache = filled(3, &[2, 3, 1]);
    for _ in 0..50 {
        cache.get(&2);
        cache.put(3, 33);
        cache.get(&8);
        cache.peek(&1);
    }
    assert_eq!(contents(&cache), vec![(3, 33), (2, 20), (1, 10)]);
    cache.put(4, 40);
    assert!(!cache.contains_key(&1));
}

#[test]
fn holds_the_most_recently_used_keys() {
    let mut cache = filled(2, &[1, 2]);
    cache.get(&1);
    cache.put(3, 30);
    cache.get(&2);
    cache.get(&1);
    cache.put(4, 40);
    assert_eq!(contents(&cache), vec![(4, 40), (1, 10)]);
}

#[test]
fn held_key_has_its_last_put_value() {
    let mut cache = filled(2, &[1, 2]);
    cache.put(1, 11);
    cache.put(3, 30);
    assert_eq!(cache.remove(&1), Some(11));
    cache.put(1, 12);
    cache.get(&3);
    assert_eq!(cache.peek(&1), Some(&12));
    cache.put(1, 13);
    assert_eq!(cache.peek(&1), Some(&13));
}

#[test]
fn evictions_drain_from_the_oldest() {
    let mut cache = filled(3, &[1, 2, 3]);
    cache.get(&1);
    assert_eq!(cache.pop_lru(), Some((2, 20)));
    assert_eq!(cache.pop_lru(), Some((3, 30)));
    assert_eq!(cache.pop_lru(), Some((1, 10)));
    assert!(cache.is_empty());
    assert_eq!(cache.pop_lru(), None);
    assert!(cache.is_empty());
}
