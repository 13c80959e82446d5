//! `rs-lru` is a small LRU (least-recently-used) cache, verified for what it does. That `get` and
//! `put` take O(1) time is by construction and not part of what is proved.
//!
//! ```
//! use rs_lru::LruCache;
//!
//! let mut cache = LruCache::new(2);
//! cache.put("a", 1);
//! cache.put("b", 2);
//!
//! // Touching "a" makes it the most-recently-used entry.
//! assert_eq!(cache.get(&"a"), Some(&1));
//!
//! // Inserting a third key evicts the least-recently-used entry, "b".
//! cache.put("c", 3);
//! assert_eq!(cache.get(&"b"), None);
//! assert_eq!(cache.get(&"a"), Some(&1));
//! assert_eq!(cache.get(&"c"), Some(&3));
//! ```
//!
//! [`model`] says what a cache is and what each operation does to it, `cache` implements that
//! with contracts over the model, and [`laws`] states what follows for whole histories of use.
mod cache;
pub mod laws;
pub mod model;

pub use cache::LruCache;
