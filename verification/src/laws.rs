//! What holds of the cache as a whole, across operations and over whole histories of use.
//!
//! The laws speak of the contents of a cache (see [`crate::model`]), which is what the
//! contracts of [`crate::LruCache`] speak of too. A state is `valid` if a cache can have it.
use crate::model::{
    after_get, after_put, distinct_keys, evicts, has_key, lemma_position, lookup, position,
    to_front, valid, with_room, without, without_lru,
};
use vstd::prelude::*;

verus! {

/// One operation on a cache.
pub enum Op<K, V> {
    Peek(K),
    Get(K),
    Put(K, V),
    Remove(K),
    PopLru,
    Clear,
}

/// The contents after one operation.
pub open spec fn step<K, V>(s: Seq<(K, V)>, capacity: nat, op: Op<K, V>) -> Seq<(K, V)> {
    match op {
        Op::Peek(_) => s,
        Op::Get(k) => after_get(s, k),
        Op::Put(k, v) => after_put(s, capacity, k, v),
        Op::Remove(k) => without(s, k),
        Op::PopLru => without_lru(s),
        Op::Clear => Seq::empty(),
    }
}

/// The contents after the operations `ops`, in that order, on a cache that holds `s`.
pub open spec fn run<K, V>(s: Seq<(K, V)>, capacity: nat, ops: Seq<Op<K, V>>) -> Seq<(K, V)>
    decreases ops.len(),
{
    if ops.len() == 0 {
        s
    } else {
        step(run(s, capacity, ops.drop_last()), capacity, ops.last())
    }
}

/// The key whose entry the operation reads or writes in a cache that holds `s`, if there is one.
/// A `get` of an absent key reads no entry, and a `peek` does not count as a use.
pub open spec fn used_key<K, V>(s: Seq<(K, V)>, op: Op<K, V>) -> Option<K> {
    match op {
        Op::Get(k) => if has_key(s, k) {
            Some(k)
        } else {
            None
        },
        Op::Put(k, _) => Some(k),
        _ => None,
    }
}

/// The key that the last operation of `ops` uses, on a cache that held `start` before `ops`.
pub open spec fn latest_use<K, V>(
    start: Seq<(K, V)>,
    capacity: nat,
    ops: Seq<Op<K, V>>,
) -> Option<K>
    recommends
        ops.len() > 0,
{
    used_key(run(start, capacity, ops.drop_last()), ops.last())
}

/// The time of the last use of `k`: the index in `ops` of the last operation that uses `k`, on a
/// cache that held `start` before `ops`, or -1 if there is none.
pub open spec fn last_use<K, V>(
    start: Seq<(K, V)>,
    capacity: nat,
    ops: Seq<Op<K, V>>,
    k: K,
) -> int
    decreases ops.len(),
{
    if ops.len() == 0 {
        -1
    } else if latest_use(start, capacity, ops) == Some(k) {
        ops.len() - 1
    } else {
        last_use(start, capacity, ops.drop_last(), k)
    }
}

/// The keys that the operations `ops` use, on a cache that held `start` before.
pub open spec fn used_keys<K, V>(
    start: Seq<(K, V)>,
    capacity: nat,
    ops: Seq<Op<K, V>>,
) -> Set<K>
    decreases ops.len(),
{
    if ops.len() == 0 {
        Set::empty()
    } else {
        match latest_use(start, capacity, ops) {
            Some(k) => used_keys(start, capacity, ops.drop_last()).insert(k),
            None => used_keys(start, capacity, ops.drop_last()),
        }
    }
}

/// The value of the last `put` under `k` in `ops`, if there is one.
pub open spec fn last_put<K, V>(ops: Seq<Op<K, V>>, k: K) -> Option<V>
    decreases ops.len(),
{
    if ops.len() == 0 {
        None
    } else {
        match ops.last() {
            Op::Put(j, v) if j == k => Some(v),
            _ => last_put(ops.drop_last(), k),
        }
    }
}

/// No operation of `ops` takes anything out of the cache but what a `put` evicts.
pub open spec fn reads_and_writes<K, V>(ops: Seq<Op<K, V>>) -> bool {
    forall|i: int|
        0 <= i < ops.len() ==> (#[trigger] ops[i]) is Peek || ops[i] is Get || ops[i] is Put
}

/// Taking out the entry for `k` takes out nothing else.
proof fn lemma_without<K, V>(s: Seq<(K, V)>, k: K)
    requires
        distinct_keys(s),
    ensures
        distinct_keys(without(s, k)),
        !has_key(without(s, k), k),
        without(s, k).len() == (if has_key(s, k) { s.len() - 1 } else { s.len() as int }),
        forall|j: K| j != k ==> #[trigger] lookup(without(s, k), j) == lookup(s, j),
        forall|j: K| j != k ==> #[trigger] has_key(without(s, k), j) == has_key(s, j),
{
    let t = without(s, k);
    if has_key(s, k) {
        let p = position(s, k);
        assert forall|i: int| 0 <= i < t.len() implies (#[trigger] t[i]) == s[if i < p {
            i
        } else {
            i + 1
        }] by {}
        assert forall|j: K| j != k implies #[trigger] lookup(t, j) == lookup(s, j) && has_key(t, j)
            == has_key(s, j) by {
            if has_key(s, j) {
                let q = position(s, j);
                let i = if q < p { q } else { q - 1 };
                assert(t[i] == s[q]);
                lemma_position(t, j, i);
            }
        }
        assert forall|j: K| j != k implies #[trigger] has_key(t, j) == has_key(s, j) by {
            assert(lookup(t, j) == lookup(s, j));
        }
    }
}

/// Dropping the least-recently-used entry drops nothing else.
proof fn lemma_evicted<K, V>(s: Seq<(K, V)>)
    requires
        distinct_keys(s),
        s.len() > 0,
    ensures
        without_lru(s) == without(s, s.last().0),
        distinct_keys(without_lru(s)),
        without_lru(s).len() == s.len() - 1,
        !has_key(without_lru(s), s.last().0),
        forall|j: K|
            j != s.last().0 ==> #[trigger] lookup(without_lru(s), j) == lookup(s, j),
        forall|j: K|
            j != s.last().0 ==> #[trigger] has_key(without_lru(s), j) == has_key(s, j),
{
    lemma_position(s, s.last().0, s.len() - 1);
    assert(s.remove(s.len() - 1) =~= s.drop_last());
    lemma_without(s, s.last().0);
}

/// What is at the front is found, and hides nothing else.
proof fn lemma_to_front<K, V>(s: Seq<(K, V)>, k: K, v: V)
    requires
        distinct_keys(s),
    ensures
        distinct_keys(to_front(s, k, v)),
        has_key(to_front(s, k, v), k),
        position(to_front(s, k, v), k) == 0,
        lookup(to_front(s, k, v), k) == Some(v),
        without(to_front(s, k, v), k) == without(s, k),
        to_front(s, k, v).len() == (if has_key(s, k) { s.len() } else { s.len() + 1 }),
        forall|j: K| j != k ==> #[trigger] lookup(to_front(s, k, v), j) == lookup(s, j),
        forall|j: K| j != k ==> #[trigger] has_key(to_front(s, k, v), j) == has_key(s, j),
{
    lemma_without(s, k);
    let rest = without(s, k);
    let t = to_front(s, k, v);
    assert(forall|i: int| 0 < i < t.len() ==> #[trigger] t[i] == rest[i - 1]);
    assert(t[0] == (k, v));
    lemma_position(t, k, 0);
    assert(t.remove(0) =~= rest);
    assert forall|j: K| j != k implies #[trigger] lookup(t, j) == lookup(s, j) by {
        assert(lookup(rest, j) == lookup(s, j));
        if has_key(rest, j) {
            let q = position(rest, j);
            assert(t[q + 1] == rest[q]);
            lemma_position(t, j, q + 1);
        }
    }
    assert forall|j: K| j != k implies #[trigger] has_key(t, j) == has_key(s, j) by {
        assert(lookup(t, j) == lookup(s, j));
    }
}

/// Making room for a key takes out at most the least-recently-used entry, and never the key.
proof fn lemma_room<K, V>(s: Seq<(K, V)>, capacity: nat, k: K)
    requires
        valid(s, capacity),
    ensures
        distinct_keys(with_room(s, capacity, k)),
        with_room(s, capacity, k).len() == (if evicts(s, capacity, k) {
            s.len() - 1
        } else {
            s.len() as int
        }),
        has_key(with_room(s, capacity, k), k) == has_key(s, k),
        forall|j: K| #[trigger]
            lookup(with_room(s, capacity, k), j) == (if evicts(s, capacity, k) && j == s.last().0 {
                None
            } else {
                lookup(s, j)
            }),
{
    if evicts(s, capacity, k) {
        lemma_evicted(s);
        assert(lookup(without_lru(s), k) is None);
    }
}

/// What a `put` leaves: the key at the front, and behind it the entries that there was room for.
proof fn lemma_put<K, V>(s: Seq<(K, V)>, capacity: nat, k: K, v: V)
    requires
        valid(s, capacity),
    ensures
        valid(after_put(s, capacity, k, v), capacity),
        after_put(s, capacity, k, v)[0] == (k, v),
        has_key(after_put(s, capacity, k, v), k),
        position(after_put(s, capacity, k, v), k) == 0,
        lookup(after_put(s, capacity, k, v), k) == Some(v),
        without(after_put(s, capacity, k, v), k) == (if evicts(s, capacity, k) {
            without_lru(s)
        } else {
            without(s, k)
        }),
        after_put(s, capacity, k, v).len() == (if !has_key(s, k) && s.len() < capacity {
            s.len() + 1
        } else {
            s.len()
        }),
        forall|j: K|
            j != k ==> #[trigger] lookup(after_put(s, capacity, k, v), j) == (if evicts(
                s,
                capacity,
                k,
            ) && j == s.last().0 {
                None
            } else {
                lookup(s, j)
            }),
        distinct_keys(with_room(s, capacity, k)),
        forall|j: K|
            j != k ==> #[trigger] has_key(after_put(s, capacity, k, v), j) == has_key(
                with_room(s, capacity, k),
                j,
            ),
        forall|j: K| #[trigger] has_key(with_room(s, capacity, k), j) ==> has_key(s, j),
{
    let room = with_room(s, capacity, k);
    lemma_room(s, capacity, k);
    lemma_to_front(room, k, v);
    assert forall|j: K| j != k implies #[trigger] lookup(after_put(s, capacity, k, v), j)
        == lookup(room, j) by {}
    assert forall|j: K| #[trigger] has_key(room, j) implies has_key(s, j) by {
        assert(lookup(room, j) is Some);
    }
}

/// Every operation turns a state that a cache can have into one that it can have: no key
/// occurs twice, and there are never more than `capacity` entries.
pub proof fn law_step_keeps_valid<K, V>(s: Seq<(K, V)>, capacity: nat, op: Op<K, V>)
    requires
        valid(s, capacity),
    ensures
        valid(step(s, capacity, op), capacity),
{
    match op {
        Op::Get(k) => {
            if has_key(s, k) {
                lemma_to_front(s, k, s[position(s, k)].1);
            }
        },
        Op::Put(k, v) => {
            lemma_put(s, capacity, k, v);
        },
        Op::Remove(k) => {
            lemma_without(s, k);
        },
        _ => {},
    }
}

/// Whatever is done with a cache, no key occurs twice in it, and it never holds more than
/// `capacity` entries.
pub proof fn law_run_keeps_valid<K, V>(s: Seq<(K, V)>, capacity: nat, ops: Seq<Op<K, V>>)
    requires
        valid(s, capacity),
    ensures
        valid(run(s, capacity, ops), capacity),
    decreases ops.len(),
{
    if ops.len() > 0 {
        law_run_keeps_valid(s, capacity, ops.drop_last());
        law_step_keeps_valid(run(s, capacity, ops.drop_last()), capacity, ops.last());
    }
}

/// What was put is found: after a `put` of `v` under `k` the cache holds `v` for `k`, as its
/// most-recently-used entry.
pub proof fn law_put_is_found<K, V>(s: Seq<(K, V)>, capacity: nat, k: K, v: V)
    requires
        valid(s, capacity),
    ensures
        lookup(after_put(s, capacity, k, v), k) == Some(v),
        after_put(s, capacity, k, v)[0] == (k, v),
{
    lemma_put(s, capacity, k, v);
}

/// A `put` under `k` leaves every other entry as it was, with one exception: where the key is
/// new and the cache is full, the least-recently-used entry is gone.
pub proof fn law_put_leaves_others<K, V>(s: Seq<(K, V)>, capacity: nat, k: K, v: V, j: K)
    requires
        valid(s, capacity),
        j != k,
    ensures
        lookup(after_put(s, capacity, k, v), j) == (if evicts(s, capacity, k) && j == s.last().0 {
            None
        } else {
            lookup(s, j)
        }),
{
    lemma_put(s, capacity, k, v);
}

/// A `put` of a new key adds one entry while there is room; an overwrite, and a `put` into a
/// full cache, leave the number of entries as it was.
pub proof fn law_put_len<K, V>(s: Seq<(K, V)>, capacity: nat, k: K, v: V)
    requires
        valid(s, capacity),
    ensures
        after_put(s, capacity, k, v).len() == (if !has_key(s, k) && s.len() < capacity {
            s.len() + 1
        } else {
            s.len()
        }),
{
    lemma_put(s, capacity, k, v);
}

/// An overwrite neither adds nor removes a key.
pub proof fn law_overwrite_keeps_keys<K, V>(s: Seq<(K, V)>, capacity: nat, k: K, v: V, j: K)
    requires
        valid(s, capacity),
        has_key(s, k),
    ensures
        has_key(after_put(s, capacity, k, v), j) == has_key(s, j),
{
    lemma_to_front(s, k, v);
}

/// A `get` changes no entry: every key has the value it had.
pub proof fn law_get_keeps_entries<K, V>(s: Seq<(K, V)>, k: K, j: K)
    requires
        distinct_keys(s),
    ensures
        lookup(after_get(s, k), j) == lookup(s, j),
        after_get(s, k).len() == s.len(),
{
    if has_key(s, k) {
        lemma_to_front(s, k, s[position(s, k)].1);
    }
}

/// A `get` of a present key makes its entry the most-recently-used one; the order of the
/// other entries stays as it was.
pub proof fn law_get_refreshes<K, V>(s: Seq<(K, V)>, k: K)
    requires
        distinct_keys(s),
        has_key(s, k),
    ensures
        position(after_get(s, k), k) == 0,
        without(after_get(s, k), k) == without(s, k),
{
    lemma_to_front(s, k, s[position(s, k)].1);
}

/// A `put` makes its entry the most-recently-used one, for a new key and for an overwrite; the
/// order of the other entries that stay is as it was.
pub proof fn law_put_refreshes<K, V>(s: Seq<(K, V)>, capacity: nat, k: K, v: V)
    requires
        valid(s, capacity),
    ensures
        position(after_put(s, capacity, k, v), k) == 0,
        without(after_put(s, capacity, k, v), k) == (if evicts(s, capacity, k) {
            without_lru(s)
        } else {
            without(s, k)
        }),
{
    lemma_put(s, capacity, k, v);
}

/// A second `get` of the same key changes nothing more.
pub proof fn law_get_twice<K, V>(s: Seq<(K, V)>, k: K)
    requires
        distinct_keys(s),
    ensures
        after_get(after_get(s, k), k) == after_get(s, k),
{
    if has_key(s, k) {
        lemma_to_front(s, k, s[position(s, k)].1);
    }
}

/// Of two `put`s under the same key only the second one counts.
pub proof fn law_put_twice<K, V>(s: Seq<(K, V)>, capacity: nat, k: K, v: V, w: V)
    requires
        valid(s, capacity),
    ensures
        after_put(after_put(s, capacity, k, v), capacity, k, w) == after_put(s, capacity, k, w),
{
    lemma_put(s, capacity, k, v);
}

/// A removed key is gone, and every other entry is as it was.
pub proof fn law_remove<K, V>(s: Seq<(K, V)>, k: K, j: K)
    requires
        distinct_keys(s),
    ensures
        lookup(without(s, k), j) == (if j == k {
            None
        } else {
            lookup(s, j)
        }),
{
    lemma_without(s, k);
}

/// `remove` undoes a `put` of a new key into a cache with room.
pub proof fn law_remove_undoes_put<K, V>(s: Seq<(K, V)>, capacity: nat, k: K, v: V)
    requires
        valid(s, capacity),
        !has_key(s, k),
        s.len() < capacity,
    ensures
        without(after_put(s, capacity, k, v), k) == s,
{
    law_put_refreshes(s, capacity, k, v);
}

/// A `put` of a new key into a full cache is a `pop_lru` followed by that `put`.
pub proof fn law_put_evicts_as_pop_lru<K, V>(s: Seq<(K, V)>, capacity: nat, k: K, v: V)
    requires
        valid(s, capacity),
        evicts(s, capacity, k),
    ensures
        after_put(s, capacity, k, v) == after_put(without_lru(s), capacity, k, v),
{
}

/// `n` evictions in a row.
pub open spec fn after_evictions<K, V>(s: Seq<(K, V)>, n: nat) -> Seq<(K, V)>
    decreases n,
{
    if n == 0 {
        s
    } else {
        without_lru(after_evictions(s, (n - 1) as nat))
    }
}

/// Evictions in a row take the entries out one by one, from the least- to the
/// most-recently-used one; as many of them as there are entries empty the cache, and further
/// ones change nothing.
pub proof fn law_evictions_drain<K, V>(s: Seq<(K, V)>, n: nat)
    ensures
        n <= s.len() ==> after_evictions(s, n) == s.take(s.len() - n),
        n < s.len() ==> after_evictions(s, n).last() == s[s.len() - 1 - n],
        n >= s.len() ==> after_evictions(s, n).len() == 0 && after_evictions(s, n + 1)
            == after_evictions(s, n),
    decreases n,
{
    if n == 0 {
        assert(s.take(s.len() as int) =~= s);
    } else {
        law_evictions_drain(s, (n - 1) as nat);
        if n <= s.len() {
            assert(s.take(s.len() - n + 1).drop_last() =~= s.take(s.len() - n));
        }
    }
}

/// A key that is held has the value of its last `put`, whatever was done with the cache since
/// it was empty.
pub proof fn law_holds_last_put<K, V>(capacity: nat, ops: Seq<Op<K, V>>, k: K)
    requires
        capacity > 0,
        has_key(run(Seq::<(K, V)>::empty(), capacity, ops), k),
    ensures
        lookup(run(Seq::<(K, V)>::empty(), capacity, ops), k) == last_put(ops, k),
    decreases ops.len(),
{
    let empty = Seq::<(K, V)>::empty();
    if ops.len() > 0 {
        let past = ops.drop_last();
        let s = run(empty, capacity, past);
        let t = run(empty, capacity, ops);
        law_run_keeps_valid(empty, capacity, past);
        match ops.last() {
            Op::Get(j) => {
                law_get_keeps_entries(s, j, k);
            },
            Op::Put(j, v) => {
                if j == k {
                    law_put_is_found(s, capacity, k, v);
                } else {
                    law_put_leaves_others(s, capacity, j, v, k);
                }
            },
            Op::Remove(j) => {
                law_remove(s, j, k);
            },
            Op::PopLru => {
                if s.len() > 0 {
                    lemma_evicted(s);
                }
            },
            _ => {},
        }
        assert(lookup(t, k) is Some);
        if !(ops.last() matches Op::Put(j, v) && j == k) {
            assert(lookup(t, k) == lookup(s, k));
            law_holds_last_put(capacity, past, k);
        }
    }
}

/// The entries of `s` are ordered by the time of their last use in `ops`, latest first, on a
/// cache that was empty before `ops`.
pub open spec fn ordered_by_last_use<K, V>(
    s: Seq<(K, V)>,
    capacity: nat,
    ops: Seq<Op<K, V>>,
) -> bool {
    let empty = Seq::<(K, V)>::empty();
    &&& forall|i: int|
        0 <= i < s.len() ==> last_use(empty, capacity, ops, (#[trigger] s[i]).0) >= 0
    &&& forall|i: int, j: int|
        0 <= i < j < s.len() ==> last_use(empty, capacity, ops, (#[trigger] s[i]).0) > last_use(
            empty,
            capacity,
            ops,
            (#[trigger] s[j]).0,
        )
}

/// A use lies within the history.
proof fn lemma_last_use<K, V>(start: Seq<(K, V)>, capacity: nat, ops: Seq<Op<K, V>>, k: K)
    ensures
        -1 <= last_use(start, capacity, ops, k) < ops.len(),
    decreases ops.len(),
{
    if ops.len() > 0 {
        lemma_last_use(start, capacity, ops.drop_last(), k);
    }
}

/// Taking an entry out keeps the others in order.
proof fn lemma_ordered_without<K, V>(s: Seq<(K, V)>, capacity: nat, ops: Seq<Op<K, V>>, k: K)
    requires
        ordered_by_last_use(s, capacity, ops),
    ensures
        ordered_by_last_use(without(s, k), capacity, ops),
{
    if has_key(s, k) {
        let p = position(s, k);
        let t = without(s, k);
        assert forall|i: int| 0 <= i < t.len() implies (#[trigger] t[i]) == s[if i < p {
            i
        } else {
            i + 1
        }] by {}
    }
}

/// Entries that the latest operation does not use keep their order when it is done.
proof fn lemma_ordered_unused<K, V>(s: Seq<(K, V)>, capacity: nat, ops: Seq<Op<K, V>>)
    requires
        ops.len() > 0,
        ordered_by_last_use(s, capacity, ops.drop_last()),
        forall|i: int|
            0 <= i < s.len() ==> latest_use(Seq::<(K, V)>::empty(), capacity, ops) != Some(
                (#[trigger] s[i]).0,
            ),
    ensures
        ordered_by_last_use(s, capacity, ops),
{
}

/// Entries stay in order when the latest operation uses `k` and brings it to the front.
proof fn lemma_ordered_to_front<K, V>(
    s: Seq<(K, V)>,
    capacity: nat,
    ops: Seq<Op<K, V>>,
    k: K,
    v: V,
)
    requires
        distinct_keys(s),
        ops.len() > 0,
        ordered_by_last_use(s, capacity, ops.drop_last()),
        latest_use(Seq::<(K, V)>::empty(), capacity, ops) == Some(k),
    ensures
        ordered_by_last_use(to_front(s, k, v), capacity, ops),
{
    let empty = Seq::<(K, V)>::empty();
    let rest = without(s, k);
    let t = to_front(s, k, v);
    lemma_without(s, k);
    lemma_ordered_without(s, capacity, ops.drop_last(), k);
    lemma_ordered_unused(rest, capacity, ops);
    assert forall|i: int| 0 <= i < rest.len() implies last_use(
        empty,
        capacity,
        ops,
        (#[trigger] rest[i]).0,
    ) < ops.len() - 1 by {
        assert(has_key(rest, rest[i].0));
        lemma_last_use(empty, capacity, ops.drop_last(), rest[i].0);
    }
    assert(t[0].0 == k);
    assert(forall|i: int| 0 < i < t.len() ==> #[trigger] t[i] == rest[i - 1]);
}

/// Recency order is the order of last use: in a cache that was empty at the start of a history
/// of operations, every entry has been used, and an entry closer to the front was used later
/// than every entry behind it. A `peek` is no use.
pub proof fn law_ordered_by_last_use<K, V>(capacity: nat, ops: Seq<Op<K, V>>)
    requires
        capacity > 0,
    ensures
        ordered_by_last_use(run(Seq::<(K, V)>::empty(), capacity, ops), capacity, ops),
    decreases ops.len(),
{
    if ops.len() > 0 {
        let empty = Seq::<(K, V)>::empty();
        let past = ops.drop_last();
        let s = run(empty, capacity, past);
        law_run_keeps_valid(empty, capacity, past);
        law_ordered_by_last_use::<K, V>(capacity, past);
        match ops.last() {
            Op::Get(k) => {
                if has_key(s, k) {
                    lemma_ordered_to_front(s, capacity, ops, k, s[position(s, k)].1);
                } else {
                    lemma_ordered_unused(s, capacity, ops);
                }
            },
            Op::Put(k, v) => {
                lemma_room(s, capacity, k);
                assert(ordered_by_last_use(with_room(s, capacity, k), capacity, past));
                lemma_ordered_to_front(with_room(s, capacity, k), capacity, ops, k, v);
            },
            Op::Remove(k) => {
                lemma_ordered_without(s, capacity, past, k);
                lemma_ordered_unused(without(s, k), capacity, ops);
            },
            Op::PopLru => {
                if s.len() > 0 {
                    lemma_evicted(s);
                    lemma_ordered_without(s, capacity, past, s.last().0);
                }
                lemma_ordered_unused(without_lru(s), capacity, ops);
            },
            _ => {
                lemma_ordered_unused(step(s, capacity, ops.last()), capacity, ops);
            },
        }
    }
}

/// The cache evicts the entry that has gone the longest without being read or written, and
/// only that one: when a `put` of a new key `k` finds a cache full, the entry that is gone
/// afterwards was last used before every other entry, and every other entry is still there.
pub proof fn law_evicts_least_recently_used<K, V>(
    capacity: nat,
    ops: Seq<Op<K, V>>,
    k: K,
    v: V,
    j: K,
)
    requires
        capacity > 0,
        evicts(run(Seq::<(K, V)>::empty(), capacity, ops), capacity, k),
        has_key(run(Seq::<(K, V)>::empty(), capacity, ops), j),
    ensures
        ({
            let empty = Seq::<(K, V)>::empty();
            let s = run(empty, capacity, ops);
            let victim = s.last().0;
            if j == victim {
                !has_key(after_put(s, capacity, k, v), j)
            } else {
                &&& last_use(empty, capacity, ops, victim) < last_use(empty, capacity, ops, j)
                &&& lookup(after_put(s, capacity, k, v), j) == lookup(s, j)
            }
        }),
{
    let s = run(Seq::<(K, V)>::empty(), capacity, ops);
    law_run_keeps_valid(Seq::<(K, V)>::empty(), capacity, ops);
    law_ordered_by_last_use::<K, V>(capacity, ops);
    law_put_leaves_others(s, capacity, k, v, j);
    assert(s[position(s, j)].0 == j);
}

/// Bringing `k` to the front moves the entries that were before it back by one place, and no
/// other.
proof fn lemma_front_position<K, V>(s: Seq<(K, V)>, k: K, v: V, j: K)
    requires
        distinct_keys(s),
        has_key(s, j),
        j != k,
    ensures
        has_key(to_front(s, k, v), j),
        position(to_front(s, k, v), j) == (if has_key(s, k) && position(s, k) < position(s, j) {
            position(s, j)
        } else {
            position(s, j) + 1
        }),
{
    let t = to_front(s, k, v);
    let q = position(s, j);
    lemma_to_front(s, k, v);
    if has_key(s, k) && position(s, k) < q {
        assert(t[q] == without(s, k)[q - 1]);
        lemma_position(t, j, q);
    } else {
        assert(t[q + 1] == without(s, k)[q]);
        lemma_position(t, j, q + 1);
    }
}

/// The value that the entry for the used key has after the operation.
spec fn value_after<K, V>(s: Seq<(K, V)>, op: Op<K, V>) -> V {
    match op {
        Op::Put(_, v) => v,
        Op::Get(k) => s[position(s, k)].1,
        _ => arbitrary(),
    }
}

/// A read or write that uses a key does what a `put` of the key's new value does; one that uses
/// none changes nothing.
proof fn lemma_read_or_write<K, V>(s: Seq<(K, V)>, capacity: nat, op: Op<K, V>)
    requires
        op is Peek || op is Get || op is Put,
    ensures
        step(s, capacity, op) == (match used_key(s, op) {
            Some(k) => after_put(s, capacity, k, value_after(s, op)),
            None => s,
        }),
{
}

/// `k` lies right behind the keys of `used`, which are at the front of `t`; or they have pushed
/// it out, being as many as the cache has room for.
spec fn behind<K, V>(t: Seq<(K, V)>, capacity: nat, used: Set<K>, k: K) -> bool {
    &&& used.finite()
    &&& used.len() < capacity ==> {
        &&& used.len() < t.len()
        &&& t[used.len() as int].0 == k
        &&& forall|i: int| 0 <= i < used.len() ==> used.contains((#[trigger] t[i]).0)
        &&& forall|j: K| #[trigger]
            used.contains(j) ==> has_key(t, j) && position(t, j) < used.len()
    }
    &&& used.len() >= capacity ==> !has_key(t, k)
}

/// The use of another key `j` keeps `k` behind the used keys, of which `j` then is one.
proof fn lemma_behind<K, V>(t: Seq<(K, V)>, capacity: nat, used: Set<K>, k: K, j: K, v: V)
    requires
        valid(t, capacity),
        behind(t, capacity, used, k),
        j != k,
        !used.contains(k),
    ensures
        behind(after_put(t, capacity, j, v), capacity, used.insert(j), k),
{
    let room = with_room(t, capacity, j);
    let after = after_put(t, capacity, j, v);
    let now = used.insert(j);
    let n = used.len() as int;
    lemma_put(t, capacity, j, v);
    if n < capacity {
        lemma_position(t, k, n);
        if now.len() < capacity {
            assert(room[n] == t[n]);
            lemma_position(room, k, n);
            if used.contains(j) {
                assert(position(t, j) < n);
            } else if has_key(t, j) {
                assert(position(t, j) > n) by {
                    assert(t[position(t, j)].0 == j);
                }
            }
            lemma_front_position(room, j, v, k);
            assert forall|i: int| 0 <= i < now.len() implies now.contains(
                (#[trigger] after[i]).0,
            ) by {
                if i > 0 {
                    assert(after[i] == without(room, j)[i - 1]);
                    if used.contains(j) && i - 1 >= position(t, j) {
                        assert(after[i] == t[i]);
                    } else {
                        assert(after[i] == t[i - 1]);
                    }
                }
            }
            assert forall|m: K| #[trigger] now.contains(m) implies has_key(after, m) && position(
                after,
                m,
            ) < now.len() by {
                if m != j {
                    assert(used.contains(m));
                    let q = position(t, m);
                    assert(room[q] == t[q]);
                    lemma_position(room, m, q);
                    lemma_front_position(room, j, v, m);
                }
            }
        } else {
            assert(t.last().0 == k);
            assert(!has_key(t, j)) by {
                if has_key(t, j) {
                    assert(used.contains(t[position(t, j)].0));
                }
            }
            assert(!has_key(room, k));
            assert(!has_key(after, k));
        }
    } else {
        assert(!has_key(room, k)) by {
            if has_key(room, k) {
                assert(t[position(room, k)].0 == k);
            }
        }
        assert(!has_key(after, k));
    }
}

/// Reads and writes keep a key that they do not use behind those that they use.
proof fn lemma_stays_behind<K, V>(s: Seq<(K, V)>, capacity: nat, k: K, ops: Seq<Op<K, V>>)
    requires
        valid(s, capacity),
        has_key(s, k),
        position(s, k) == 0,
        reads_and_writes(ops),
        !used_keys(s, capacity, ops).contains(k),
    ensures
        behind(run(s, capacity, ops), capacity, used_keys(s, capacity, ops), k),
    decreases ops.len(),
{
    if ops.len() > 0 {
        let past = ops.drop_last();
        let t = run(s, capacity, past);
        assert(forall|i: int| 0 <= i < past.len() ==> #[trigger] past[i] == ops[i]);
        assert(ops.last() == ops[ops.len() - 1]);
        lemma_stays_behind(s, capacity, k, past);
        law_run_keeps_valid(s, capacity, past);
        lemma_read_or_write(t, capacity, ops.last());
        if let Some(j) = latest_use(s, capacity, ops) {
            let used = used_keys(s, capacity, past);
            assert(used.insert(j).contains(j));
            lemma_behind(t, capacity, used, k, j, value_after(t, ops.last()));
        }
    }
}

/// An entry that has just been used is the last candidate for eviction: through reads and writes
/// that do not use it, it stays exactly as long as the number of different keys that they do
/// use is below the capacity.
pub proof fn law_used_entry_survives<K, V>(
    s: Seq<(K, V)>,
    capacity: nat,
    k: K,
    ops: Seq<Op<K, V>>,
)
    requires
        valid(s, capacity),
        has_key(s, k),
        position(s, k) == 0,
        reads_and_writes(ops),
        !used_keys(s, capacity, ops).contains(k),
    ensures
        used_keys(s, capacity, ops).finite(),
        has_key(run(s, capacity, ops), k) <==> used_keys(s, capacity, ops).len() < capacity,
{
    lemma_stays_behind(s, capacity, k, ops);
}

/// `t` holds the most recently used ones of the keys that `ops` use on an empty cache: as many
/// of them as there is room for, and each key that it does not hold was last used before every
/// key that it holds.
pub open spec fn holds_most_recent<K, V>(
    t: Seq<(K, V)>,
    capacity: nat,
    ops: Seq<Op<K, V>>,
) -> bool {
    let empty = Seq::<(K, V)>::empty();
    let used = used_keys(empty, capacity, ops);
    &&& used.finite()
    &&& t.len() == (if used.len() < capacity {
        used.len()
    } else {
        capacity
    })
    &&& forall|i: int| 0 <= i < t.len() ==> used.contains((#[trigger] t[i]).0)
    &&& forall|k: K, i: int|
        #![trigger used.contains(k), t[i]]
        used.contains(k) && !has_key(t, k) && 0 <= i < t.len() ==> last_use(
            empty,
            capacity,
            ops,
            k,
        ) < last_use(empty, capacity, ops, t[i].0)
}

/// After any reads and writes on an empty cache, the keys held are, in order of last use, the
/// most recently used ones of all keys used, as many as the cache has room for; while there is
/// room left, no key used is missing.
pub proof fn law_holds_most_recently_used<K, V>(capacity: nat, ops: Seq<Op<K, V>>)
    requires
        capacity > 0,
        reads_and_writes(ops),
    ensures
        holds_most_recent(run(Seq::<(K, V)>::empty(), capacity, ops), capacity, ops),
        ordered_by_last_use(run(Seq::<(K, V)>::empty(), capacity, ops), capacity, ops),
        run(Seq::<(K, V)>::empty(), capacity, ops).len() < capacity ==> forall|k: K| #[trigger]
            used_keys(Seq::<(K, V)>::empty(), capacity, ops).contains(k) ==> has_key(
                run(Seq::<(K, V)>::empty(), capacity, ops),
                k,
            ),
    decreases ops.len(),
{
    let empty = Seq::<(K, V)>::empty();
    law_ordered_by_last_use::<K, V>(capacity, ops);
    if ops.len() > 0 {
        let past = ops.drop_last();
        assert(forall|i: int| 0 <= i < past.len() ==> #[trigger] past[i] == ops[i]);
        assert(ops.last() == ops[ops.len() - 1]);
        law_holds_most_recently_used::<K, V>(capacity, past);
        let s = run(empty, capacity, past);
        let t = run(empty, capacity, ops);
        let before = used_keys(empty, capacity, past);
        let used = used_keys(empty, capacity, ops);
        law_run_keeps_valid(empty, capacity, past);
        lemma_read_or_write(s, capacity, ops.last());
        if let Some(j) = latest_use(empty, capacity, ops) {
            let v = value_after(s, ops.last());
            let room = with_room(s, capacity, j);
            lemma_put(s, capacity, j, v);
            assert(t == after_put(s, capacity, j, v));
            assert forall|k: K| has_key(t, k) && k != j implies #[trigger] has_key(s, k)
                && before.contains(k) by {
                assert(has_key(room, k));
                assert(s[position(s, k)].0 == k);
            }
            assert forall|i: int| 0 <= i < t.len() implies used.contains((#[trigger] t[i]).0) by {
                assert(has_key(t, t[i].0));
                if t[i].0 != j {
                    assert(has_key(s, t[i].0));
                }
            }
            assert forall|k: K, i: int|
                #![trigger used.contains(k), t[i]]
                used.contains(k) && !has_key(t, k) && 0 <= i < t.len() implies last_use(
                empty,
                capacity,
                ops,
                k,
            ) < last_use(empty, capacity, ops, t[i].0) by {
                assert(k != j && before.contains(k));
                lemma_last_use(empty, capacity, past, k);
                if t[i].0 != j {
                    assert(has_key(t, t[i].0));
                    assert(has_key(s, t[i].0));
                    let p = position(s, t[i].0);
                    assert(s[p].0 == t[i].0);
                    if has_key(s, k) {
                        assert(s[position(s, k)].0 == k);
                        assert(lookup(t, k) is None);
                        assert(k == s.last().0);
                    }
                }
            }
        }
    }
}

/// The history in which the entries of `entries` are put one after the other.
pub open spec fn puts<K, V>(entries: Seq<(K, V)>) -> Seq<Op<K, V>> {
    entries.map_values(|e: (K, V)| Op::Put(e.0, e.1))
}

/// However many different keys are put into an empty cache, it holds exactly the most recently
/// inserted ones, as many as it has room for, the latest first.
pub proof fn law_holds_most_recent_puts<K, V>(capacity: nat, entries: Seq<(K, V)>)
    requires
        capacity > 0,
        distinct_keys(entries),
    ensures
        ({
            let s = run(Seq::<(K, V)>::empty(), capacity, puts(entries));
            let n = entries.len();
            s == Seq::new(if n < capacity { n } else { capacity }, |i: int| entries[n - 1 - i])
        }),
    decreases entries.len(),
{
    let empty = Seq::<(K, V)>::empty();
    let s = run(empty, capacity, puts(entries));
    let n = entries.len();
    if n > 0 {
        let before = entries.drop_last();
        assert(puts(entries).drop_last() =~= puts(before));
        law_holds_most_recent_puts(capacity, before);
        let r = run(empty, capacity, puts(before));
        let (k, v) = entries.last();
        assert(!has_key(r, k)) by {
            if has_key(r, k) {
                let i = position(r, k);
                assert(r[i] == entries[n - 2 - i]);
            }
        }
        let room = with_room(r, capacity, k);
        assert(!has_key(room, k)) by {
            if has_key(room, k) {
                assert(r[position(room, k)].0 == k);
            }
        }
        assert(s == seq![(k, v)] + room);
    }
    assert(s =~= Seq::new(if n < capacity { n } else { capacity }, |i: int| entries[n - 1 - i]));
}

} // verus!
