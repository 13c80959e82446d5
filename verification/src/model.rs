//! The mathematical model of a cache.
//!
//! The contents of a cache are a sequence of key/value entries, ordered from the
//! most-recently-used one (index 0) to the least-recently-used one (the last index), in
//! which no key occurs twice. Each operation is a function on such sequences.
use std::hash::Hash;
use vstd::prelude::*;
use vstd::std_specs::hash::obeys_key_model;

verus! {

/// What the cache asks of its key type: `Hash` is deterministic, two keys are equal exactly
/// if `==` says so, and a clone of a key is equal to that key.
pub open spec fn key_model<K: Eq + Hash + Clone>() -> bool {
    &&& obeys_key_model::<K>()
    &&& forall|a: K, b: K| #[trigger] cloned(a, b) ==> a == b
}

/// Some entry of `s` has the key `k`.
pub open spec fn has_key<K, V>(s: Seq<(K, V)>, k: K) -> bool {
    exists|i: int| 0 <= i < s.len() && (#[trigger] s[i]).0 == k
}

/// The position in `s` of the entry with the key `k`.
pub open spec fn position<K, V>(s: Seq<(K, V)>, k: K) -> int
    recommends
        has_key(s, k),
{
    choose|i: int| 0 <= i < s.len() && (#[trigger] s[i]).0 == k
}

/// No two entries of `s` have the same key.
pub open spec fn distinct_keys<K, V>(s: Seq<(K, V)>) -> bool {
    forall|i: int, j: int|
        0 <= i < s.len() && 0 <= j < s.len() && i != j ==> (#[trigger] s[i]).0 != (
        #[trigger] s[j]).0
}

/// The contents that a cache with room for `capacity` entries can have.
pub open spec fn valid<K, V>(s: Seq<(K, V)>, capacity: nat) -> bool {
    &&& capacity > 0
    &&& distinct_keys(s)
    &&& s.len() <= capacity
}

/// The value that `s` holds for `k`, if it holds one.
pub open spec fn lookup<K, V>(s: Seq<(K, V)>, k: K) -> Option<V> {
    if has_key(s, k) {
        Some(s[position(s, k)].1)
    } else {
        None
    }
}

/// `s` without the entry for `k`; the other entries keep their order.
pub open spec fn without<K, V>(s: Seq<(K, V)>, k: K) -> Seq<(K, V)> {
    if has_key(s, k) {
        s.remove(position(s, k))
    } else {
        s
    }
}

/// `s` with `(k, v)` as its most-recently-used entry, in place of any entry for `k`.
pub open spec fn to_front<K, V>(s: Seq<(K, V)>, k: K, v: V) -> Seq<(K, V)> {
    seq![(k, v)] + without(s, k)
}

/// `s` without its least-recently-used entry.
pub open spec fn without_lru<K, V>(s: Seq<(K, V)>) -> Seq<(K, V)> {
    if s.len() > 0 {
        s.drop_last()
    } else {
        s
    }
}

/// The contents after looking up `k` with `get`.
pub open spec fn after_get<K, V>(s: Seq<(K, V)>, k: K) -> Seq<(K, V)> {
    match lookup(s, k) {
        Some(v) => to_front(s, k, v),
        None => s,
    }
}

/// Storing `k` needs an eviction first: the key is new and the cache is full.
pub open spec fn evicts<K, V>(s: Seq<(K, V)>, capacity: nat, k: K) -> bool {
    !has_key(s, k) && s.len() >= capacity
}

/// `s` after the eviction that storing `k` needs, if it needs one.
pub open spec fn with_room<K, V>(s: Seq<(K, V)>, capacity: nat, k: K) -> Seq<(K, V)> {
    if evicts(s, capacity, k) {
        without_lru(s)
    } else {
        s
    }
}

/// The contents after storing `v` under `k` in a cache with room for `capacity` entries.
pub open spec fn after_put<K, V>(s: Seq<(K, V)>, capacity: nat, k: K, v: V) -> Seq<(K, V)> {
    to_front(with_room(s, capacity, k), k, v)
}

/// The number of slots in use or vacated, given that there were `slots` of them before and
/// that the cache now holds `len` entries: a slot is only added when none is vacated.
pub open spec fn grown(slots: nat, len: nat) -> nat {
    if len <= slots {
        slots
    } else {
        len
    }
}

/// In a sequence with distinct keys the position of a key is determined by its entry.
pub proof fn lemma_position<K, V>(s: Seq<(K, V)>, k: K, i: int)
    requires
        distinct_keys(s),
        0 <= i < s.len(),
        s[i].0 == k,
    ensures
        has_key(s, k),
        position(s, k) == i,
        lookup(s, k) == Some(s[i].1),
{
}

} // verus!
