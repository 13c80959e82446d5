//! The cache: a hash map over an arena of nodes that form an index-linked recency list.
use crate::laws::{after_evictions, law_evictions_drain};
use crate::model::{
    after_get, after_put, distinct_keys, evicts, grown, has_key, key_model, lemma_position, lookup,
    position, to_front, valid, without, without_lru,
};
use std::collections::HashMap;
use std::hash::Hash;
use vstd::prelude::*;
use vstd::std_specs::iter::IteratorSpec;

verus! {

/// One occupied slot in the cache's arena.
///
/// `prev`/`next` are arena indices (not pointers) that thread this node into the intrusive
/// doubly-linked recency list. `None` means "this end of the list" (i.e. this node is
/// currently the head or the tail).
struct Node<K, V> {
    key: K,
    value: V,
    prev: Option<usize>,
    next: Option<usize>,
}

/// An LRU (least-recently-used) cache.
///
/// `LruCache<K, V>` holds at most `capacity` key/value pairs. When a new key is inserted while
/// the cache is already at capacity, the entry that has gone the longest without being read or
/// written is evicted to make room.
///
/// Both [`LruCache::get`] and [`LruCache::put`] run in amortized O(1) time, by construction: they
/// look a key up once and follow a fixed number of indices. The running time is not proved.
///
/// ```
/// use rs_lru::LruCache;
///
/// let mut cache: LruCache<i32, &str> = LruCache::new(3);
/// cache.put(1, "one");
/// cache.put(2, "two");
/// cache.put(3, "three");
/// assert_eq!(cache.len(), 3);
///
/// cache.put(4, "four"); // evicts key 1, the least-recently-used entry
/// assert!(!cache.contains_key(&1));
/// assert!(cache.contains_key(&4));
/// ```
pub struct LruCache<K, V> {
    /// Maps each live key to the arena index holding its node.
    map: HashMap<K, usize>,
    /// Backing storage for all nodes. A `None` entry is a vacated slot sitting on `free`,
    /// available for reuse.
    arena: Vec<Option<Node<K, V>>>,
    /// Indices of vacated arena slots, recycled by future `put` calls so the arena never
    /// needs to shift elements around on eviction.
    free: Vec<usize>,
    /// Index of the most-recently-used node, or `None` if the cache is empty.
    head: Option<usize>,
    /// Index of the least-recently-used node, or `None` if the cache is empty.
    tail: Option<usize>,
    /// Maximum number of entries this cache will hold at once.
    capacity: usize,
    /// The indices of the linked nodes, from `head` to `tail`.
    order: Ghost<Seq<usize>>,
}

/// The contents of a cache, from the most- to the least-recently-used entry.
impl<K, V> View for LruCache<K, V> {
    type V = Seq<(K, V)>;

    closed spec fn view(&self) -> Seq<(K, V)> {
        Seq::new(
            self.order@.len(),
            |i: int| (self.at(self.order@[i] as int).key, self.at(self.order@[i] as int).value),
        )
    }
}

/// The neighbour of position `i` on the head side of `order`.
spec fn prev_of(order: Seq<usize>, i: int) -> Option<usize> {
    if i > 0 {
        Some(order[i - 1])
    } else {
        None
    }
}

/// The neighbour of position `i` on the tail side of `order`.
spec fn next_of(order: Seq<usize>, i: int) -> Option<usize> {
    if i + 1 < order.len() {
        Some(order[i + 1])
    } else {
        None
    }
}

/// There are `n` indices below `n`.
proof fn lemma_indices_below(n: nat)
    requires
        n <= usize::MAX,
    ensures
        Set::new(|i: usize| i < n).finite(),
        Set::new(|i: usize| i < n).len() == n,
    decreases n,
{
    let below = Set::new(|i: usize| i < n);
    if n == 0 {
        assert(below =~= Set::empty());
    } else {
        let m = (n - 1) as nat;
        lemma_indices_below(m);
        assert(below =~= Set::new(|i: usize| i < m).insert(m as usize));
    }
}

impl<K, V> LruCache<K, V> {
    /// The number of arena slots, occupied and vacated ones together.
    pub closed spec fn slots(&self) -> nat {
        self.arena@.len()
    }

    /// The arena slot that holds the entry for `k`.
    pub closed spec fn slot_of(&self, k: K) -> usize {
        self.map@[k]
    }

    /// The entry in arena slot `i`, or `None` if the slot does not exist or is vacated.
    pub closed spec fn entry_at(&self, i: int) -> Option<(K, V)> {
        if self.occupied(i) {
            Some((self.at(i).key, self.at(i).value))
        } else {
            None
        }
    }

    /// The slots that the node in arena slot `i` names as its predecessor (on the head side)
    /// and its successor (on the tail side).
    pub closed spec fn links_at(&self, i: int) -> (Option<usize>, Option<usize>) {
        (self.at(i).prev, self.at(i).next)
    }

    /// The slot of the first node of the recency list.
    pub closed spec fn head_slot(&self) -> Option<usize> {
        self.head
    }

    /// The slot of the last node of the recency list.
    pub closed spec fn tail_slot(&self) -> Option<usize> {
        self.tail
    }

    /// The vacated slots, in the order in which they were vacated.
    pub closed spec fn free_slots(&self) -> Seq<usize> {
        self.free@
    }

    /// The slots of the recency list, from its head to its tail.
    pub closed spec fn listed_slots(&self) -> Seq<usize> {
        self.order@
    }

    /// The slot that `n` steps along the successors lead to, from the head.
    pub open spec fn nth_from_head(&self, n: nat) -> Option<usize>
        decreases n,
    {
        if n == 0 {
            self.head_slot()
        } else {
            match self.nth_from_head((n - 1) as nat) {
                Some(i) => self.links_at(i as int).1,
                None => None,
            }
        }
    }

    /// The slot that `n` steps along the predecessors lead to, from the tail.
    pub open spec fn nth_from_tail(&self, n: nat) -> Option<usize>
        decreases n,
    {
        if n == 0 {
            self.tail_slot()
        } else {
            match self.nth_from_tail((n - 1) as nat) {
                Some(i) => self.links_at(i as int).0,
                None => None,
            }
        }
    }

    /// The arena slot `i` exists and holds a node.
    spec fn occupied(&self, i: int) -> bool {
        0 <= i < self.arena@.len() && self.arena@[i] is Some
    }

    /// The node in slot `i`.
    spec fn at(&self, i: int) -> Node<K, V> {
        self.arena@[i]->0
    }

    /// The node at position `i` of `order` names its two neighbours.
    spec fn threaded(&self, i: int) -> bool {
        let node = self.at(self.order@[i] as int);
        &&& node.prev == prev_of(self.order@, i)
        &&& node.next == next_of(self.order@, i)
    }

    /// `prev`, `next`, `head` and `tail` link the slots of `order`, in that order.
    pub closed spec fn linked(&self) -> bool {
        let order = self.order@;
        &&& order.no_duplicates()
        &&& forall|i: int| 0 <= i < order.len() ==> self.occupied(#[trigger] order[i] as int)
        &&& forall|i: int| 0 <= i < order.len() ==> #[trigger] self.threaded(i)
        &&& self.head == next_of(order, -1)
        &&& self.tail == prev_of(order, order.len() as int)
    }

    /// The map holds exactly the keys of the linked nodes, each with the slot of its node.
    spec fn indexed(&self) -> bool {
        let order = self.order@;
        &&& forall|i: int|
            0 <= i < order.len() ==> {
                let key = self.at(#[trigger] order[i] as int).key;
                self.map@.contains_key(key) && self.map@[key] == order[i]
            }
        &&& forall|k: K| #[trigger]
            self.map@.contains_key(k) ==> order.contains(self.map@[k]) && self.at(
                self.map@[k] as int,
            ).key == k
        &&& self.map@.len() == order.len()
    }

    /// `free` lists vacated slots, each of them once.
    spec fn vacated(&self) -> bool {
        &&& self.free@.no_duplicates()
        &&& forall|j: int|
            0 <= j < self.free@.len() ==> (#[trigger] self.free@[j]) < self.arena@.len()
                && self.arena@[self.free@[j] as int] is None
    }

    /// The same slots are occupied in `self` and in `other`, with the same keys and values.
    spec fn same_contents(&self, other: &Self) -> bool {
        &&& self.arena@.len() == other.arena@.len()
        &&& forall|i: int|
            0 <= i < self.arena@.len() ==> {
                &&& (#[trigger] self.arena@[i] is Some) == (other.arena@[i] is Some)
                &&& self.arena@[i] is Some ==> self.at(i).key == other.at(i).key
                &&& self.arena@[i] is Some ==> self.at(i).value == other.at(i).value
            }
    }

    /// Every slot holds the same entry in `self` and in `other`.
    pub open spec fn same_entries(&self, other: &Self) -> bool {
        &&& self.slots() == other.slots()
        &&& forall|i: int| #[trigger] self.entry_at(i) == other.entry_at(i)
    }

    /// Two caches hold the same entries if every occupied slot of one holds the same key and
    /// value in the other.
    proof fn lemma_same_entries(&self, other: &Self)
        ensures
            self.same_entries(other) <==> self.same_contents(other),
    {
        if self.same_entries(other) {
            assert forall|i: int| 0 <= i < self.arena@.len() implies {
                &&& (#[trigger] self.arena@[i] is Some) == (other.arena@[i] is Some)
                &&& self.arena@[i] is Some ==> self.at(i).key == other.at(i).key
                &&& self.arena@[i] is Some ==> self.at(i).value == other.at(i).value
            } by {
                assert(self.entry_at(i) == other.entry_at(i));
            }
        }
        if self.same_contents(other) {
            assert forall|i: int| #[trigger] self.entry_at(i) == other.entry_at(i) by {
                if 0 <= i < self.arena@.len() {
                    assert(self.arena@[i] is Some == other.arena@[i] is Some);
                }
            }
        }
    }

    /// The links in the slots that `listed` does not list are the same in `self` and in `other`.
    pub open spec fn same_links_outside(&self, other: &Self, listed: Seq<usize>) -> bool {
        forall|i: int|
            0 <= i < self.slots() && !listed.contains(i as usize) ==> #[trigger] self.links_at(i)
                == other.links_at(i)
    }

    /// The keys, the slots that they are mapped to, and the capacity are the same in `self` and
    /// in `other`.
    pub closed spec fn same_index(&self, other: &Self) -> bool {
        self.map == other.map && self.capacity == other.capacity
    }

    /// `self` is `before` with the node at `idx` taken off the recency list: its links are
    /// cleared, the rest of the list keeps its order, and nothing but links has changed.
    pub open spec fn detached_from(&self, before: &Self, idx: usize) -> bool {
        let listed = before.listed_slots();
        &&& self.listed_slots() == listed.remove(listed.index_of(idx))
        &&& self.links_at(idx as int) == (None::<usize>, None::<usize>)
        &&& self.same_entries(before)
        &&& self.same_links_outside(before, listed)
        &&& self.free_slots() == before.free_slots()
        &&& self.same_index(before)
    }

    /// `self` is `before` with the node at `idx` made the head of the recency list; nothing but
    /// links has changed.
    pub open spec fn attached_to(&self, before: &Self, idx: usize) -> bool {
        &&& self.listed_slots() == seq![idx] + before.listed_slots()
        &&& self.same_entries(before)
        &&& self.same_links_outside(before, self.listed_slots())
        &&& self.free_slots() == before.free_slots()
        &&& self.same_index(before)
    }

    /// Slot `i` is `idx`, one of its two neighbours in the recency list, or the head.
    pub open spec fn is_near(&self, i: int, idx: usize) -> bool {
        ||| i == idx
        ||| self.links_at(idx as int).0 matches Some(prev) && i == prev
        ||| self.links_at(idx as int).1 matches Some(next) && i == next
        ||| self.head_slot() matches Some(head) && i == head
    }

    /// Of the slots of `before` only `idx`, its two neighbours and the head may have other links
    /// in `self`.
    pub open spec fn relinked_near(&self, before: &Self, idx: usize) -> bool {
        forall|i: int|
            0 <= i < self.slots() && !before.is_near(i, idx) ==> #[trigger] self.links_at(i)
                == before.links_at(i)
    }

    /// Every slot, with its entry and its links, the ends of the list and the vacated slots are
    /// the same in `self` and in `other`.
    pub open spec fn same_layout(&self, other: &Self) -> bool {
        &&& self.slots() == other.slots()
        &&& forall|i: int|
            0 <= i < self.slots() ==> {
                &&& #[trigger] self.entry_at(i) == other.entry_at(i)
                &&& self.entry_at(i) is Some ==> self.links_at(i) == other.links_at(i)
            }
        &&& self.listed_slots() == other.listed_slots()
        &&& self.head_slot() == other.head_slot()
        &&& self.tail_slot() == other.tail_slot()
        &&& self.free_slots() == other.free_slots()
    }
}

impl<K, V> LruCache<K, V> where K: Eq + Hash + Clone {
    /// The invariant of a cache: the key type is usable, the list, the map and the free list
    /// agree with the arena, every slot is either linked or vacated, and there are no more
    /// slots than entries the cache may hold.
    pub closed spec fn wf(&self) -> bool {
        &&& key_model::<K>()
        &&& self.capacity > 0
        &&& self.linked()
        &&& self.indexed()
        &&& self.vacated()
        &&& self.order@.len() + self.free@.len() == self.arena@.len()
        &&& self.arena@.len() <= self.capacity
    }

    /// The maximum number of entries, as a specification.
    pub closed spec fn spec_capacity(&self) -> usize {
        self.capacity
    }

    /// A cache never holds more entries than its capacity, nor a key twice; it never has more
    /// slots than its capacity; each entry has a slot to itself; and the links of the slots form
    /// the recency list.
    pub proof fn law_invariant(&self)
        requires
            self.wf(),
        ensures
            self.linked(),
            valid(self@, self.capacity() as nat),
            self@.len() <= self.slots() <= self.capacity(),
            forall|k: K| #[trigger] has_key(self@, k) ==> self.slot_of(k) < self.slots(),
            forall|k: K, j: K|
                #[trigger] has_key(self@, k) && #[trigger] has_key(self@, j) && k != j
                    ==> self.slot_of(k) != self.slot_of(j),
    {
        self.lemma_key(arbitrary());
        assert forall|k: K| #[trigger] has_key(self@, k) implies self.slot_of(k) < self.slots()
            && self.at(self.slot_of(k) as int).key == k by {
            self.lemma_key(k);
            assert(self.occupied(self.order@[position(self@, k)] as int));
        }
    }

    /// The slot in which a `put` stores the entry for an absent key `k`: the slot of the entry
    /// that it evicts; or else the slot that was vacated last; or else a new slot.
    pub open spec fn slot_for_new(&self, k: K) -> usize {
        if evicts(self@, self.capacity() as nat, k) {
            self.tail_slot()->0
        } else if self.free_slots().len() > 0 {
            self.free_slots().last()
        } else {
            self.slots() as usize
        }
    }

    /// The vacated slots after a `put` under `k`.
    pub open spec fn free_after_put(&self, k: K) -> Seq<usize> {
        if has_key(self@, k) || evicts(self@, self.capacity() as nat, k) || self.free_slots().len()
            == 0 {
            self.free_slots()
        } else {
            self.free_slots().drop_last()
        }
    }

    /// `self` is `before` after an eviction: the least-recently-used entry is gone and its slot
    /// vacated, and no other entry has moved. Where there is no entry, nothing has changed.
    pub open spec fn evicted_from(&self, before: &Self) -> bool {
        &&& self@ == without_lru(before@)
        &&& self.capacity() == before.capacity()
        &&& self.slots() == before.slots()
        &&& self.slots_stable(before)
        &&& match before.tail_slot() {
            Some(t) => {
                &&& self.entry_at(t as int) is None
                &&& self.free_slots() == before.free_slots().push(t)
            },
            None => *self == *before,
        }
    }

    /// No call meets a vacated or missing slot: every slot that a key is mapped to, that is an
    /// end of the recency list, or that a listed node names as a neighbour is occupied.
    pub proof fn law_indices_occupied(&self)
        requires
            self.wf(),
        ensures
            forall|k: K| #[trigger]
                has_key(self@, k) ==> self.entry_at(self.slot_of(k) as int) is Some,
            self.head_slot() matches Some(i) ==> self.entry_at(i as int) is Some,
            self.tail_slot() matches Some(i) ==> self.entry_at(i as int) is Some,
            forall|i: usize| #[trigger]
                self.listed_slots().contains(i) ==> {
                    let (prev, next) = self.links_at(i as int);
                    &&& prev matches Some(j) ==> self.entry_at(j as int) is Some
                    &&& next matches Some(j) ==> self.entry_at(j as int) is Some
                },
    {
        let order = self.order@;
        assert forall|p: int| 0 <= p < order.len() implies self.entry_at(
            #[trigger] order[p] as int,
        ) is Some by {
            assert(self.occupied(order[p] as int));
        }
        assert forall|k: K| #[trigger] has_key(self@, k) implies self.entry_at(
            self.slot_of(k) as int,
        ) is Some by {
            self.lemma_key(k);
        }
        assert forall|i: usize| #[trigger] order.contains(i) implies {
            let (prev, next) = self.links_at(i as int);
            &&& prev matches Some(j) ==> self.entry_at(j as int) is Some
            &&& next matches Some(j) ==> self.entry_at(j as int) is Some
        } by {
            assert(self.threaded(order.index_of(i)));
        }
    }

    /// The state with number `i` in `states` is the one before it after an eviction.
    pub open spec fn eviction_step(states: Seq<Self>, i: int) -> bool {
        states[i].evicted_from(&states[i - 1])
    }

    /// Evictions in a row take the entries out of a cache one by one, from the least- to the
    /// most-recently-used one; as many of them as there are entries leave it empty, with no head
    /// and no tail, and a further one changes nothing.
    pub proof fn law_evictions_empty_cache(states: Seq<Self>, n: nat)
        requires
            n < states.len(),
            forall|i: int| 0 <= i < states.len() ==> (#[trigger] states[i]).wf(),
            forall|i: int| 0 < i < states.len() ==> #[trigger] Self::eviction_step(states, i),
        ensures
            states[n as int]@ == after_evictions(states[0]@, n),
            n < states[0]@.len() ==> {
                &&& states[n as int]@ == states[0]@.take(states[0]@.len() - n)
                &&& states[n as int]@.last() == states[0]@[states[0]@.len() - 1 - n]
            },
            n >= states[0]@.len() ==> {
                &&& states[n as int]@.len() == 0
                &&& states[n as int].head_slot() is None
                &&& states[n as int].tail_slot() is None
                &&& n + 1 < states.len() ==> states[n as int + 1] == states[n as int]
            },
        decreases n,
    {
        if n > 0 {
            Self::law_evictions_empty_cache(states, (n - 1) as nat);
            assert(Self::eviction_step(states, n as int));
        }
        law_evictions_drain(states[0]@, n);
        states[n as int].law_ends();
        if n + 1 < states.len() {
            assert(Self::eviction_step(states, n as int + 1));
        }
    }

    /// Map, arena, recency list and free list agree in every state: a key is mapped to a slot
    /// exactly if that slot holds its entry; the recency list holds exactly the occupied slots,
    /// and the free list exactly the vacated ones, each of them once; and a listed slot holds
    /// the entry that is at its position in the contents.
    pub proof fn law_parts_agree(&self)
        requires
            self.wf(),
        ensures
            forall|k: K, i: int|
                #![trigger has_key(self@, k), self.entry_at(i)]
                (has_key(self@, k) && self.slot_of(k) == i) <==> (self.entry_at(i) is Some
                    && (self.entry_at(i)->0).0 == k),
            self.listed_slots().no_duplicates(),
            forall|i: usize| #[trigger]
                self.listed_slots().contains(i) <==> self.entry_at(i as int) is Some,
            self.free_slots().no_duplicates(),
            forall|i: usize| #[trigger]
                self.free_slots().contains(i) <==> i < self.slots() && self.entry_at(
                    i as int,
                ) is None,
            self.listed_slots().len() == self@.len(),
            forall|p: int|
                0 <= p < self@.len() ==> self.entry_at(#[trigger] self.listed_slots()[p] as int)
                    == Some(self@[p]),
    {
        let order = self.order@;
        let free = self.free@;
        self.lemma_listed_or_free();
        assert forall|p: int| 0 <= p < self@.len() implies self.entry_at(
            #[trigger] order[p] as int,
        ) == Some(self@[p]) by {
            assert(self.occupied(order[p] as int));
        }
        assert forall|i: usize| #[trigger] order.contains(i) <==> self.entry_at(
            i as int,
        ) is Some by {
            if order.contains(i) {
                assert(self.occupied(order[order.index_of(i)] as int));
            }
            if self.entry_at(i as int) is Some && free.contains(i) {
                assert(self.arena@[free[free.index_of(i)] as int] is None);
            }
        }
        assert forall|i: usize| #[trigger] free.contains(i) <==> i < self.slots() && self.entry_at(
            i as int,
        ) is None by {
            assert(i < self.slots() ==> order.contains(i) || free.contains(i));
            if free.contains(i) {
                assert(self.arena@[free[free.index_of(i)] as int] is None);
            }
        }
        assert forall|k: K, i: int|
            #![trigger has_key(self@, k), self.entry_at(i)]
            (has_key(self@, k) && self.slot_of(k) == i) <==> (self.entry_at(i) is Some
                && (self.entry_at(i)->0).0 == k) by {
            self.lemma_key(k);
            if self.entry_at(i) is Some && (self.entry_at(i)->0).0 == k {
                assert(order.contains(i as usize));
                assert(order[order.index_of(i as usize)] == i);
            }
        }
    }

    /// Every slot is on the recency list or on the free list.
    proof fn lemma_listed_or_free(&self)
        requires
            self.wf(),
        ensures
            forall|i: usize|
                i < self.arena@.len() ==> #[trigger] self.order@.contains(i) || self.free@.contains(
                    i,
                ),
    {
        let order = self.order@;
        let free = self.free@;
        let all = order + free;
        assert forall|i: int, j: int|
            0 <= i < all.len() && 0 <= j < all.len() && i != j implies all[i] != all[j] by {
            assert(forall|p: int|
                0 <= p < order.len() ==> self.occupied(#[trigger] order[p] as int));
            assert(forall|p: int|
                0 <= p < free.len() ==> self.arena@[#[trigger] free[p] as int] is None);
        }
        let n = self.arena@.len();
        let slots = Set::new(|i: usize| i < n);
        assert(all.to_set().subset_of(slots)) by {
            assert forall|i: usize| #[trigger]
                all.to_set().contains(i) implies slots.contains(i) by {
                let p = all.index_of(i);
                if p < order.len() {
                    assert(self.occupied(order[p] as int));
                } else {
                    assert(free[p - order.len()] == i);
                }
            }
        }
        all.unique_seq_to_set();
        lemma_indices_below(n);
        vstd::set_lib::lemma_subset_equality(all.to_set(), slots);
        assert forall|i: usize| i < n implies #[trigger] order.contains(i) || free.contains(i) by {
            assert(all.to_set().contains(i));
            let p = all.index_of(i);
            if p < order.len() {
                assert(order[p] == i);
            } else {
                assert(free[p - order.len()] == i);
            }
        }
    }

    /// Following the successors from the head visits the slots of the recency list in order and
    /// then ends; following the predecessors from the tail visits them in the reverse order and
    /// then ends.
    pub proof fn law_walk(&self, n: nat)
        requires
            self.linked(),
        ensures
            self.nth_from_head(n) == (if n < self.listed_slots().len() {
                Some(self.listed_slots()[n as int])
            } else {
                None
            }),
            self.nth_from_tail(n) == (if n < self.listed_slots().len() {
                Some(self.listed_slots()[self.listed_slots().len() - 1 - n])
            } else {
                None
            }),
        decreases n,
    {
        if n > 0 {
            self.law_walk((n - 1) as nat);
            if n <= self.order@.len() {
                assert(self.threaded(n - 1));
                assert(self.threaded(self.order@.len() - n));
            }
        }
    }

    /// The head and the tail are absent exactly if the cache is empty; otherwise they are the
    /// slots of the most- and of the least-recently-used entry.
    pub proof fn law_ends(&self)
        requires
            self.wf(),
        ensures
            self.head_slot() is None <==> self@.len() == 0,
            self.tail_slot() is None <==> self@.len() == 0,
            self@.len() > 0 ==> {
                &&& self.head_slot() == Some(self.slot_of(self@[0].0))
                &&& self.tail_slot() == Some(self.slot_of(self@.last().0))
            },
    {
        if self@.len() > 0 {
            let order = self.order@;
            assert(self.map@[self.at(order[0] as int).key] == order[0]);
            assert(self.map@[self.at(order[order.len() - 1] as int).key] == order[order.len() - 1]);
        }
    }

    /// Detaching a node undoes attaching it at the front: `attached` is `before` with the
    /// unlinked node at `idx` attached, and `after` is `attached` with that node detached.
    pub proof fn law_detach_undoes_attach_front(
        before: &Self,
        attached: &Self,
        after: &Self,
        idx: usize,
    )
        requires
            before.linked(),
            before.entry_at(idx as int) is Some,
            !before.listed_slots().contains(idx),
            before.links_at(idx as int) == (None::<usize>, None::<usize>),
            attached.linked(),
            attached.attached_to(before, idx),
            after.linked(),
            after.detached_from(attached, idx),
        ensures
            after.same_layout(before),
    {
        assert(attached.order@[0] == idx);
        assert(attached.order@.remove(0) =~= before.order@);
        Self::lemma_same_links(before, after);
        assert(after.slots() == after.arena.len());
        assert forall|i: int| 0 <= i < after.slots() implies {
            &&& #[trigger] after.entry_at(i) == before.entry_at(i)
            &&& after.entry_at(i) is Some ==> after.links_at(i) == before.links_at(i)
        } by {
            assert(after.entry_at(i) == attached.entry_at(i));
            assert(attached.entry_at(i) == before.entry_at(i));
            let slot = i as usize;
            if !before.order@.contains(slot) && slot != idx {
                assert(!attached.order@.contains(slot));
                assert(attached.links_at(i) == before.links_at(i));
                assert(after.links_at(i) == attached.links_at(i));
            }
        }
    }

    /// Attaching the old head at the front undoes detaching it: `detached` is `before` with its
    /// head `idx` detached, and `after` is `detached` with that node attached at the front.
    pub proof fn law_attach_front_undoes_detach(
        before: &Self,
        detached: &Self,
        after: &Self,
        idx: usize,
    )
        requires
            before.linked(),
            before.head_slot() == Some(idx),
            detached.linked(),
            detached.detached_from(before, idx),
            after.linked(),
            after.attached_to(detached, idx),
        ensures
            after.same_layout(before),
    {
        assert(before.order@[0] == idx);
        assert(before.order@.index_of(idx) == 0);
        assert(seq![idx] + before.order@.remove(0) =~= before.order@);
        Self::lemma_same_links(before, after);
        assert(after.slots() == after.arena.len());
        assert forall|i: int| 0 <= i < after.slots() implies {
            &&& #[trigger] after.entry_at(i) == before.entry_at(i)
            &&& after.entry_at(i) is Some ==> after.links_at(i) == before.links_at(i)
        } by {
            assert(after.entry_at(i) == detached.entry_at(i));
            assert(detached.entry_at(i) == before.entry_at(i));
            let slot = i as usize;
            if !before.order@.contains(slot) {
                assert(detached.links_at(i) == before.links_at(i));
                assert(after.links_at(i) == detached.links_at(i));
            }
        }
    }

    /// Two caches that list the same slots in the same order have the same links in them.
    proof fn lemma_same_links(a: &Self, b: &Self)
        requires
            a.linked(),
            b.linked(),
            a.order@ == b.order@,
        ensures
            forall|i: int|
                0 <= i < usize::MAX && a.order@.contains(i as usize) ==> #[trigger] a.links_at(i)
                    == b.links_at(i),
    {
        assert forall|i: int| 0 <= i < usize::MAX && a.order@.contains(i as usize) implies
            #[trigger] a.links_at(i) == b.links_at(i) by {
            let p = a.order@.index_of(i as usize);
            assert(a.order@[p] == i);
            assert(a.threaded(p) && b.threaded(p));
        }
    }

    /// No entry moved: a key that was present before and still is occupies the same slot.
    pub open spec fn slots_stable(&self, before: &Self) -> bool {
        forall|k: K|
            #![trigger has_key(self@, k)]
            #![trigger self.slot_of(k)]
            has_key(before@, k) && has_key(self@, k) ==> self.slot_of(k) == before.slot_of(k)
    }

    /// The map answers which keys the contents have, and where.
    proof fn lemma_key(&self, k: K)
        requires
            self.wf(),
        ensures
            distinct_keys(self@),
            has_key(self@, k) == self.map@.contains_key(k),
            has_key(self@, k) ==> {
                &&& self.order@.contains(self.map@[k])
                &&& 0 <= position(self@, k) < self.order@.len()
                &&& position(self@, k) == self.order@.index_of(self.map@[k])
                &&& self.order@[position(self@, k)] == self.map@[k]
                &&& self.at(self.map@[k] as int).key == k
                &&& lookup(self@, k) == Some(self.at(self.map@[k] as int).value)
            },
    {
        assert forall|i: int, j: int|
            0 <= i < self@.len() && 0 <= j < self@.len() && i != j implies (#[trigger] self@[i]).0
            != (#[trigger] self@[j]).0 by {
            assert(self.order@[i] != self.order@[j]);
        }
        if self.map@.contains_key(k) {
            let p = self.order@.index_of(self.map@[k]);
            assert(self.order@[p] == self.map@[k]);
            assert(self@[p].0 == k);
            lemma_position(self@, k, p);
        } else if has_key(self@, k) {
            let i = position(self@, k);
            assert(self.map@.contains_key(self.at(self.order@[i] as int).key));
        }
    }

    /// A cache whose map is part of that of `before` holds each of its keys in the same slot.
    proof fn lemma_slots_stable(&self, before: &Self)
        requires
            self.wf(),
            before.wf(),
            self.map@.submap_of(before.map@),
        ensures
            self.slots_stable(before),
    {
        assert forall|k: K|
            has_key(before@, k) && #[trigger] has_key(self@, k) implies self.slot_of(k)
            == before.slot_of(k) by {
            before.lemma_key(k);
            self.lemma_key(k);
        }
    }

    /// Moving the node of a present key `k` to the front, with `v` as its value, leaves a cache
    /// whose contents are those of `before` with `(k, v)` moved to the front.
    proof fn lemma_touched(&self, before: &Self, k: K, v: V)
        requires
            before.wf(),
            before.map@.contains_key(k),
            self.linked(),
            self.order@ == seq![before.map@[k]] + before.order@.remove(
                before.order@.index_of(before.map@[k]),
            ),
            self.same_index(before),
            self.free@ == before.free@,
            self.arena@.len() == before.arena@.len(),
            forall|i: int| #[trigger]
                self.entry_at(i) == (if i == before.map@[k] {
                    Some((k, v))
                } else {
                    before.entry_at(i)
                }),
        ensures
            self.wf(),
            self@ == to_front(before@, k, v),
            self.slots_stable(before),
    {
        before.lemma_key(k);
        let p = position(before@, k);
        let order = self.order@;
        assert forall|i: int| 0 <= i < order.len() implies {
            let key = self.at(#[trigger] order[i] as int).key;
            self.map@.contains_key(key) && self.map@[key] == order[i]
        } && self@[i] == to_front(before@, k, v)[i] by {
            let q = if i == 0 { p } else if i - 1 < p { i - 1 } else { i };
            assert(order[i] == before.order@[q]);
            assert(before.occupied(before.order@[q] as int));
            assert(self.entry_at(order[i] as int) is Some);
        }
        assert(self@ =~= to_front(before@, k, v));
        assert forall|j: int| 0 <= j < self.free@.len() implies (#[trigger] self.free@[j])
            < self.arena@.len() && self.arena@[self.free@[j] as int] is None by {
            assert(before.arena@[before.free@[j] as int] is None);
            assert(before.occupied(before.map@[k] as int)) by {
                assert(before.occupied(before.order@[p] as int));
            }
            assert(self.entry_at(self.free@[j] as int) is None);
        }
        assert forall|j: K| #[trigger] self.map@.contains_key(j) implies order.contains(
            self.map@[j],
        ) && self.at(self.map@[j] as int).key == j by {
            before.lemma_key(j);
            let q = position(before@, j);
            let i = if q == p { 0 } else if q < p { q + 1 } else { q };
            assert(order[i] == self.map@[j]);
            assert(before.occupied(before.order@[q] as int));
            assert(self.entry_at(order[i] as int) is Some);
        }
    }

    /// Moving the node of a present key `k` to the front changes the links of at most four slots.
    proof fn lemma_relinked_near(&self, before: &Self, k: K)
        requires
            before.wf(),
            before.map@.contains_key(k),
            self.linked(),
            self.order@ == seq![before.map@[k]] + before.order@.remove(
                before.order@.index_of(before.map@[k]),
            ),
            self.same_links_outside(before, before.order@),
            self.arena@.len() == before.arena@.len(),
        ensures
            self.relinked_near(before, before.map@[k]),
    {
        before.lemma_key(k);
        let idx = before.map@[k];
        let p = position(before@, k);
        assert(before.threaded(p));
        assert(self.slots() == self.arena.len());
        assert forall|i: int| 0 <= i < self.slots() && !before.is_near(i, idx) implies
            #[trigger] self.links_at(i) == before.links_at(i) by {
            if before.order@.contains(i as usize) {
                let q = before.order@.index_of(i as usize);
                let r = if q < p { q + 1 } else { q };
                assert(before.order@[q] == i);
                assert(self.order@[r] == i);
                assert(before.threaded(q));
                assert(self.threaded(r));
            }
        }
    }

    /// Linking a node for an absent key `k` in at the front, and entering it in the map, leaves
    /// a cache whose contents are those of `before` with `(k, v)` put in front.
    proof fn lemma_inserted(&self, before: &Self, k: K, v: V)
        requires
            before.wf(),
            !before.map@.contains_key(k),
            before.order@.len() < before.capacity,
            self.linked(),
            self.vacated(),
            self.map@.contains_key(k),
            self.map@ == before.map@.insert(k, self.map@[k]),
            self.order@ == seq![self.map@[k]] + before.order@,
            self.at(self.map@[k] as int).key == k,
            self.at(self.map@[k] as int).value == v,
            forall|i: int|
                0 <= i < before.order@.len() ==> {
                    let slot = #[trigger] before.order@[i] as int;
                    &&& self.at(slot).key == before.at(slot).key
                    &&& self.at(slot).value == before.at(slot).value
                },
            self.order@.len() + self.free@.len() == self.arena@.len(),
            self.arena@.len() == (if before.free@.len() > 0 {
                before.arena@.len()
            } else {
                before.arena@.len() + 1
            }),
            self.capacity == before.capacity,
        ensures
            self.wf(),
            self@ == to_front(before@, k, v),
            self.slots() == grown(before.slots(), self@.len()),
    {
        before.lemma_key(k);
        let order = self.order@;
        assert forall|i: int| 0 <= i < order.len() implies {
            let key = self.at(#[trigger] order[i] as int).key;
            self.map@.contains_key(key) && self.map@[key] == order[i]
        } && self@[i] == to_front(before@, k, v)[i] by {
            if i > 0 {
                assert(order[i] == before.order@[i - 1]);
            }
        }
        assert(self@ =~= to_front(before@, k, v));
        assert forall|j: K| #[trigger] self.map@.contains_key(j) implies order.contains(
            self.map@[j],
        ) && self.at(self.map@[j] as int).key == j by {
            if j == k {
                assert(order[0] == self.map@[k]);
            } else {
                before.lemma_key(j);
                let q = position(before@, j);
                assert(order[q + 1] == self.map@[j]);
                assert(before.order@[q] == self.map@[j]);
            }
        }
    }

    /// Creates a new, empty cache that holds at most `capacity` entries.
    ///
    /// `capacity` must not be `0`. A zero-capacity cache cannot hold any entry, and every `put`
    /// would have to evict the entry it just inserted, so this is a precondition rather than a
    /// runtime condition to handle gracefully. The key type must be usable as a key (see
    /// [`key_model`]).
    ///
    /// ```
    /// use rs_lru::LruCache;
    ///
    /// let cache: LruCache<String, i32> = LruCache::new(16);
    /// assert_eq!(cache.capacity(), 16);
    /// assert_eq!(cache.len(), 0);
    /// ```
    pub fn new(capacity: usize) -> (cache: Self)
        requires
            capacity > 0,
            key_model::<K>(),
        ensures
            cache.wf(),
            cache@ == Seq::<(K, V)>::empty(),
            cache.capacity() == capacity,
            cache.slots() == 0,
            cache.free_slots().len() == 0,
    {
        Self {
            map: HashMap::new(),
            arena: Vec::new(),
            free: Vec::new(),
            head: None,
            tail: None,
            capacity,
            order: Ghost(Seq::empty()),
        }
    }

    /// Returns the number of entries currently stored in the cache.
    ///
    /// This is always `<= capacity()`.
    pub fn len(&self) -> (len: usize)
        requires
            self.wf(),
        ensures
            len == self@.len(),
            len <= self.capacity(),
    {
        self.map.len()
    }

    /// Returns `true` if the cache currently holds no entries.
    pub fn is_empty(&self) -> (empty: bool)
        requires
            self.wf(),
        ensures
            empty == (self@.len() == 0),
    {
        self.map.is_empty()
    }

    /// Returns the maximum number of entries this cache can hold.
    #[verifier::when_used_as_spec(spec_capacity)]
    pub fn capacity(&self) -> (capacity: usize)
        ensures
            capacity == self.spec_capacity(),
    {
        self.capacity
    }

    /// Returns `true` if `key` is currently present in the cache.
    ///
    /// This does not affect recency ordering.
    pub fn contains_key(&self, key: &K) -> (present: bool)
        requires
            self.wf(),
        ensures
            present == has_key(self@, *key),
    {
        proof {
            self.lemma_key(*key);
        }
        self.map.contains_key(key)
    }

    /// Looks up `key` without affecting recency ordering.
    ///
    /// Prefer [`LruCache::get`] for normal cache reads; use `peek` only when you specifically
    /// want to inspect an entry without counting it as a "use" for eviction purposes.
    ///
    /// ```
    /// use rs_lru::LruCache;
    ///
    /// let mut cache = LruCache::new(2);
    /// cache.put("a", 1);
    /// assert_eq!(cache.peek(&"a"), Some(&1));
    /// ```
    pub fn peek(&self, key: &K) -> (value: Option<&V>)
        requires
            self.wf(),
        ensures
            match value {
                Some(v) => lookup(self@, *key) == Some(*v),
                None => lookup(self@, *key) is None,
            },
    {
        proof {
            self.lemma_key(*key);
        }
        let idx: usize = *self.map.get(key)?;
        Some(&self.node(idx).value)
    }

    /// Looks up `key`, returning its value if present.
    ///
    /// A successful lookup refreshes the entry's recency, moving it to the most-recently-used
    /// end of the internal list so it is the last candidate considered for eviction.
    ///
    /// ```
    /// use rs_lru::LruCache;
    ///
    /// let mut cache = LruCache::new(2);
    /// cache.put("a", 1);
    /// cache.put("b", 2);
    ///
    /// assert_eq!(cache.get(&"a"), Some(&1)); // "a" is now most-recently-used
    /// cache.put("c", 3); // evicts "b", not "a"
    /// assert_eq!(cache.get(&"b"), None);
    /// assert_eq!(cache.get(&"a"), Some(&1));
    /// ```
    pub fn get(&mut self, key: &K) -> (value: Option<&V>)
        requires
            old(self).wf(),
        ensures
            final(self).wf(),
            match value {
                Some(v) => lookup(old(self)@, *key) == Some(*v),
                None => lookup(old(self)@, *key) is None,
            },
            final(self)@ == after_get(old(self)@, *key),
            final(self).capacity() == old(self).capacity(),
            final(self).slots_stable(old(self)),
            final(self).same_entries(old(self)),
            final(self).free_slots() == old(self).free_slots(),
            has_key(old(self)@, *key) ==> final(self).relinked_near(
                old(self),
                old(self).slot_of(*key),
            ),
            !has_key(old(self)@, *key) ==> *final(self) == *old(self),
    {
        let ghost before = *self;
        proof {
            self.lemma_key(*key);
        }
        let idx: usize = *self.map.get(key)?;
        self.touch(idx);
        proof {
            self.lemma_touched(&before, *key, before.at(idx as int).value);
            assert(self.entry_at(idx as int) == before.entry_at(idx as int));
            self.lemma_relinked_near(&before, *key);
        }
        Some(&self.node(idx).value)
    }

    /// Inserts a key/value pair, or updates the value of an existing key.
    ///
    /// * If `key` is new and the cache is already at capacity, the least-recently-used entry is
    ///   evicted first to make room.
    /// * If `key` already exists, its value is replaced and its recency is refreshed, but the
    ///   cache's `len()` does not change.
    ///
    /// ```
    /// use rs_lru::LruCache;
    ///
    /// let mut cache = LruCache::new(1);
    /// cache.put("a", 1);
    /// cache.put("a", 2); // overwrite: no eviction, len stays 1
    /// assert_eq!(cache.len(), 1);
    /// assert_eq!(cache.get(&"a"), Some(&2));
    ///
    /// cache.put("b", 3); // "a" is now evicted, cache still holds 1 entry
    /// assert_eq!(cache.len(), 1);
    /// assert_eq!(cache.get(&"a"), None);
    /// assert_eq!(cache.get(&"b"), Some(&3));
    /// ```
    pub fn put(&mut self, key: K, value: V)
        requires
            old(self).wf(),
        ensures
            final(self).wf(),
            final(self)@ == after_put(old(self)@, old(self).capacity() as nat, key, value),
            final(self).capacity() == old(self).capacity(),
            final(self).slots() == grown(old(self).slots(), final(self)@.len()),
            final(self).slots_stable(old(self)),
            !has_key(old(self)@, key) ==> final(self).slot_of(key) == old(self).slot_for_new(key),
            final(self).free_slots() == old(self).free_after_put(key),
    {
        let ghost before = *self;
        proof {
            self.lemma_key(key);
        }
        if let Some(found) = self.map.get(&key) {
            let idx: usize = *found;
            self.node_mut(idx).value = value;
            proof {
                assert forall|i: int| 0 <= i < self.order@.len() implies #[trigger] self.threaded(
                    i,
                ) by {
                    assert(before.threaded(i));
                }
            }
            self.touch(idx);
            proof {
                self.lemma_touched(&before, key, value);
            }
            return;
        }
        if self.map.len() >= self.capacity {
            self.evict_lru();
        }
        let ghost roomy = *self;
        proof {
            self.lemma_key(key);
        }
        let stored = key.clone();
        assert(cloned(key, stored));
        assert(before@.len() == before.order@.len() && roomy@.len() == roomy.order@.len());
        assert(roomy.order@.len() < roomy.capacity);
        let idx: usize = self.alloc_slot(stored, value);
        let ghost allocated = *self;
        self.map.insert(key, idx);
        proof {
            assert forall|i: int| 0 <= i < self.order@.len() implies #[trigger] self.threaded(
                i,
            ) by {
                assert(allocated.threaded(i));
            }
        }
        let ghost indexed = *self;
        assert(self.entry_at(idx as int) is Some);
        self.attach_front(idx);
        proof {
            self.lemma_same_entries(&indexed);
            assert(self.same_contents(&indexed));
            self.lemma_inserted(&roomy, key, value);
            assert(!has_key(roomy@, key));
            self.lemma_key(key);
            assert(self.free@ =~= before.free_after_put(key));
            assert forall|k: K|
                has_key(before@, k) && #[trigger] has_key(self@, k) implies self.slot_of(k)
                == before.slot_of(k) by {
                before.lemma_key(k);
                roomy.lemma_key(k);
                self.lemma_key(k);
            }
        }
    }

    /// Takes the entry for `key` out of the cache and returns its value, if it is present. The
    /// other entries keep their recency order.
    pub fn remove(&mut self, key: &K) -> (value: Option<V>)
        requires
            old(self).wf(),
        ensures
            final(self).wf(),
            value == lookup(old(self)@, *key),
            final(self)@ == without(old(self)@, *key),
            final(self).capacity() == old(self).capacity(),
            final(self).slots() == old(self).slots(),
            final(self).slots_stable(old(self)),
            has_key(old(self)@, *key) ==> {
                let slot = old(self).slot_of(*key);
                &&& final(self).entry_at(slot as int) is None
                &&& final(self).free_slots() == old(self).free_slots().push(slot)
            },
            !has_key(old(self)@, *key) ==> *final(self) == *old(self),
    {
        let ghost before = *self;
        proof {
            self.lemma_key(*key);
        }
        let idx: usize = *self.map.get(key)?;
        let node = self.vacate(idx);
        proof {
            self.lemma_slots_stable(&before);
        }
        Some(node.value)
    }

    /// Takes the least-recently-used entry out of the cache and returns it, or returns `None` if
    /// the cache is empty.
    pub fn pop_lru(&mut self) -> (entry: Option<(K, V)>)
        requires
            old(self).wf(),
        ensures
            final(self).wf(),
            entry == (if old(self)@.len() > 0 {
                Some(old(self)@.last())
            } else {
                None
            }),
            final(self).evicted_from(old(self)),
    {
        let ghost before = *self;
        let tail_idx: usize = self.tail?;
        let ghost p = self.order@.len() - 1;
        assert(self.order@[p] == tail_idx);
        assert(self@.remove(p) =~= self@.drop_last());
        let node = self.vacate(tail_idx);
        proof {
            self.lemma_slots_stable(&before);
        }
        Some((node.key, node.value))
    }

    /// Drops all entries and keeps the capacity.
    pub fn clear(&mut self)
        requires
            old(self).wf(),
        ensures
            final(self).wf(),
            final(self)@ == Seq::<(K, V)>::empty(),
            final(self).capacity() == old(self).capacity(),
            final(self).slots() == 0,
            final(self).free_slots().len() == 0,
    {
        self.map.clear();
        self.arena.clear();
        self.free.clear();
        self.head = None;
        self.tail = None;
        proof {
            self.order@ = Seq::empty();
        }
    }

    /// Iterates over the entries from the most- to the least-recently-used one, without changing
    /// recency.
    pub fn iter(&self) -> (entries: std::vec::IntoIter<(&K, &V)>)
        requires
            self.wf(),
        ensures
            entries.remaining().unref() == self@,
            entries.decrease() is Some,
            entries.initial_value_relation(&entries),
    {
        let mut entries: Vec<(&K, &V)> = Vec::new();
        let mut cursor: Option<usize> = self.head;
        while cursor.is_some()
            invariant
                self.wf(),
                entries@.len() <= self.order@.len(),
                cursor == next_of(self.order@, entries@.len() - 1),
                entries@.unref() == self@.take(entries@.len() as int),
            decreases self.order@.len() - entries@.len(),
        {
            assert(self.threaded(entries@.len() as int));
            let node = self.node(cursor.unwrap());
            entries.push((&node.key, &node.value));
            cursor = node.next;
            assert(entries@.unref() =~= self@.take(entries@.len() as int));
        }
        assert(self@.take(entries@.len() as int) =~= self@);
        entries.into_iter()
    }

    // ---- internal helpers -----------------------------------------------------------

    /// Borrows the node at `idx`.
    fn node(&self, idx: usize) -> (node: &Node<K, V>)
        requires
            self.occupied(idx as int),
        ensures
            *node == self.at(idx as int),
    {
        self.arena[idx].as_ref().expect("arena index referenced by map/list must be occupied")
    }

    /// Mutably borrows the node at `idx`.
    fn node_mut(&mut self, idx: usize) -> (node: &mut Node<K, V>)
        requires
            old(self).occupied(idx as int),
        ensures
            *node == old(self).at(idx as int),
            final(self).arena@ == old(self).arena@.update(idx as int, Some(*final(node))),
            final(self).map == old(self).map,
            final(self).free == old(self).free,
            final(self).head == old(self).head,
            final(self).tail == old(self).tail,
            final(self).capacity == old(self).capacity,
            final(self).order == old(self).order,
    {
        self.arena[idx].as_mut().expect("arena index referenced by map/list must be occupied")
    }

    /// Allocates a slot for `key`/`value`, recycling a vacated slot from the free list when
    /// one is available, and appending to the arena otherwise. Returns the slot's arena
    /// index. The returned node is not yet linked into the recency list.
    fn alloc_slot(&mut self, key: K, value: V) -> (idx: usize)
        requires
            old(self).linked(),
            old(self).vacated(),
            old(self).free@.len() == 0 ==> old(self).arena@.len() < usize::MAX,
        ensures
            final(self).linked(),
            final(self).vacated(),
            !final(self).order@.contains(idx),
            ({
                let node = Some(Node { key, value, prev: None, next: None });
                if old(self).free@.len() > 0 {
                    &&& idx == old(self).free@.last()
                    &&& final(self).free@ == old(self).free@.drop_last()
                    &&& final(self).arena@ == old(self).arena@.update(idx as int, node)
                } else {
                    &&& idx == old(self).arena@.len()
                    &&& final(self).free@ == old(self).free@
                    &&& final(self).arena@ == old(self).arena@.push(node)
                }
            }),
            final(self).order == old(self).order,
            final(self).head == old(self).head,
            final(self).tail == old(self).tail,
            final(self).map == old(self).map,
            final(self).capacity == old(self).capacity,
    {
        let ghost before = *self;
        let node = Node { key, value, prev: None, next: None };
        let idx: usize = if let Some(idx) = self.free.pop() {
            assert(idx == before.free@[before.free@.len() - 1]);
            self.arena[idx] = Some(node);
            idx
        } else {
            self.arena.push(Some(node));
            self.arena.len() - 1
        };
        proof {
            assert forall|i: int| 0 <= i < self.order@.len() implies #[trigger] self.threaded(i)
                && self.order@[i] != idx by {
                assert(before.occupied(before.order@[i] as int));
                assert(before.threaded(i));
            }
        }
        idx
    }

    /// Unlinks the node at `idx` from the recency list, patching up its neighbors (and
    /// `head`/`tail` as needed). Does not touch the map or the arena slot itself.
    pub(crate) fn detach(&mut self, idx: usize)
        requires
            old(self).linked(),
            old(self).listed_slots().contains(idx),
        ensures
            final(self).linked(),
            final(self).detached_from(old(self), idx),
    {
        let ghost before = *self;
        let ghost p = self.order@.index_of(idx);
        assert(self.threaded(p));
        let (prev, next) = {
            let n = self.node(idx);
            (n.prev, n.next)
        };
        match prev {
            Some(p) => self.node_mut(p).next = next,
            None => self.head = next,
        }
        match next {
            Some(n) => self.node_mut(n).prev = prev,
            None => self.tail = prev,
        }
        let n = self.node_mut(idx);
        n.prev = None;
        n.next = None;
        proof {
            self.order@ = self.order@.remove(p);
            assert forall|i: int| 0 <= i < self.order@.len() implies #[trigger] self.threaded(
                i,
            ) by {
                let q = if i < p { i } else { i + 1 };
                assert(self.order@[i] == before.order@[q]);
                assert(before.threaded(q));
                assert(before.occupied(before.order@[q] as int));
            }
            assert(self.same_contents(&before));
            self.lemma_same_entries(&before);
        }
    }

    /// Links the node at `idx` in as the new head (most-recently-used end) of the recency
    /// list. `idx` is currently unlinked (e.g. just detached, or freshly allocated).
    pub(crate) fn attach_front(&mut self, idx: usize)
        requires
            old(self).linked(),
            old(self).entry_at(idx as int) is Some,
            !old(self).listed_slots().contains(idx),
        ensures
            final(self).linked(),
            final(self).attached_to(old(self), idx),
    {
        let ghost before = *self;
        let old_head = self.head;
        {
            let n = self.node_mut(idx);
            n.prev = None;
            n.next = old_head;
        }
        match old_head {
            Some(h) => self.node_mut(h).prev = Some(idx),
            None => self.tail = Some(idx),
        }
        self.head = Some(idx);
        proof {
            self.order@ = seq![idx] + self.order@;
            assert(self.order@[0] == idx);
            assert(old_head is Some ==> self.order@[1] == old_head->0);
            assert forall|i: int| 0 <= i < self.order@.len() implies #[trigger] self.threaded(i)
                && self.occupied(self.order@[i] as int) by {
                if i > 0 {
                    assert(self.order@[i] == before.order@[i - 1]);
                    assert(before.threaded(i - 1));
                    assert(before.occupied(before.order@[i - 1] as int));
                }
            }
            assert(self.same_contents(&before));
            self.lemma_same_entries(&before);
        }
    }

    /// Moves the node at `idx` to the most-recently-used end of the recency list, marking it
    /// as just used.
    fn touch(&mut self, idx: usize)
        requires
            old(self).linked(),
            old(self).order@.contains(idx),
        ensures
            final(self).linked(),
            final(self).order@ == seq![idx] + old(self).order@.remove(
                old(self).order@.index_of(idx),
            ),
            final(self).same_entries(old(self)),
            final(self).same_links_outside(old(self), old(self).order@),
            final(self).free_slots() == old(self).free_slots(),
            final(self).same_index(old(self)),
    {
        if self.head == Some(idx) {
            assert(self.order@.index_of(idx) == 0);
            assert(self.order@ =~= seq![idx] + self.order@.remove(0));
            return; // already the most-recently-used entry
        }
        self.detach(idx);
        self.attach_front(idx);
    }

    /// Takes the entry at `idx` out: unlinks its node from the recency list, removes its key
    /// from the map, and frees its arena slot for reuse. Returns the node.
    fn vacate(&mut self, idx: usize) -> (removed: Node<K, V>)
        requires
            old(self).wf(),
            old(self).order@.contains(idx),
        ensures
            final(self).wf(),
            final(self)@ == old(self)@.remove(old(self).order@.index_of(idx)),
            (removed.key, removed.value) == old(self)@[old(self).order@.index_of(idx)],
            final(self).map@ == old(self).map@.remove(removed.key),
            final(self).arena@.len() == old(self).arena@.len(),
            final(self).arena@[idx as int] is None,
            final(self).free@ == old(self).free@.push(idx),
            final(self).capacity == old(self).capacity,
    {
        let ghost before = *self;
        let ghost p = self.order@.index_of(idx);
        assert(self.order@[p] == idx);
        self.detach(idx);
        let ghost detached = *self;
        proof {
            detached.lemma_same_entries(&before);
        }
        assert(detached.same_contents(&before));
        assert(detached.order@.len() == before.order@.len() - 1);
        let removed = self.arena[idx].take().expect("a linked index must be occupied");
        self.map.remove(&removed.key);
        self.free.push(idx);
        proof {
            let order = self.order@;
            assert forall|i: int| 0 <= i < order.len() implies #[trigger] self.threaded(i)
                && self.occupied(order[i] as int) && self@[i] == before@.remove(p)[i]
                && self.at(order[i] as int).key == before.at(order[i] as int).key
                && order[i] != idx by {
                let q = if i < p { i } else { i + 1 };
                assert(order[i] == before.order@[q]);
                assert(detached.threaded(i));
                assert(detached.occupied(order[i] as int));
                assert(before.occupied(before.order@[q] as int));
            }
            assert(self@ =~= before@.remove(p));
            assert(self.linked());
            assert forall|i: int| 0 <= i < order.len() implies {
                let key = self.at(#[trigger] order[i] as int).key;
                self.map@.contains_key(key) && self.map@[key] == order[i]
            } by {
                assert(self.threaded(i));
                let q = if i < p { i } else { i + 1 };
                assert(order[i] == before.order@[q]);
            }
            assert forall|k: K| #[trigger] self.map@.contains_key(k) implies order.contains(
                self.map@[k],
            ) && self.at(self.map@[k] as int).key == k by {
                assert(before.map@.contains_key(k));
                let q = before.order@.index_of(before.map@[k]);
                assert(before.order@[q] == before.map@[k]);
                let i = if q < p { q } else { q - 1 };
                assert(order[i] == self.map@[k]);
                assert(self.threaded(i));
            }
            assert(self.map@.len() == order.len());
            assert(self.vacated());
        }
        removed
    }

    /// Evicts the least-recently-used entry (the current tail), removing it from the recency
    /// list, the map, and freeing its arena slot for reuse. No-op if the cache is empty.
    pub(crate) fn evict_lru(&mut self)
        requires
            old(self).wf(),
        ensures
            final(self).wf(),
            final(self).evicted_from(old(self)),
    {
        let ghost before = *self;
        if let Some(tail_idx) = self.tail {
            let ghost p = self.order@.len() - 1;
            assert(self.order@[p] == tail_idx);
            assert(self@.remove(p) =~= self@.drop_last());
            self.vacate(tail_idx);
            proof {
                self.lemma_slots_stable(&before);
            }
        }
    }
}

} // verus!
