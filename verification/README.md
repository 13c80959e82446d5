# rs-lru

A small LRU (least-recently-used) cache, written in Verus. What it does is proved; that `get` and
`put` take amortized O(1) time is by construction and is not proved.

```rust
use rs_lru::LruCache;

let mut cache = LruCache::new(3);
cache.put("a", 1);
cache.put("b", 2);
cache.put("c", 3);
assert_eq!(cache.get(&"a"), Some(&1)); // "a" is now most-recently-used

// Iterate most- to least-recently-used without changing recency.
let keys: Vec<_> = cache.iter().map(|(k, _)| *k).collect();
assert_eq!(keys, ["a", "c", "b"]);

cache.put("d", 4); // evicts "b", the least-recently-used entry
assert_eq!(cache.remove(&"c"), Some(3)); // remove a specific key
assert_eq!(cache.pop_lru(), Some(("a", 1))); // remove the oldest entry
cache.clear(); // drop everything, keep the capacity
```

## How it works

All nodes live in one `Vec<Option<Node<K, V>>>`, the arena. Each node holds the arena indices
of its two neighbours in the recency list, `head` and `tail` are the indices of the ends of that
list, and a `HashMap<K, usize>` leads from a key to the index of its node. A slot that an entry
leaves goes to a free list and is used again before the arena grows, so no entry ever moves.

## What is proved

- `src/model.rs`: the contents of a cache as a sequence of entries, most-recently-used first,
  and each operation as a function on such sequences.
- `src/cache.rs`: `LruCache`, its invariant, and for every operation that it does to the contents
  what the model says. The recency list, the map, the arena and the free list are proved to agree
  in every state, and the arena is proved never to outgrow the capacity.
- `src/laws.rs`: what follows for the cache as a whole, above all that an eviction hits the entry
  whose last use lies furthest back, and no other; that reads and writes leave exactly the most
  recently used keys; and that a key has the value that was last put under it.

## Limits

- The capacity is fixed at construction and must not be zero.
- Keys are `Eq + Hash + Clone`. The proofs ask of them that hashing is deterministic, that `==`
  means equality, and that a clone equals its source.
- Single-threaded, with no expiry.
