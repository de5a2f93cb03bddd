//! The cache that scans its queue slot by slot.
use crate::experimental::CacheImpl;
use crate::gap_store::GapStore;
use crate::gapped::{
    lemma_gapped_evict, lemma_rank_bounds, lemma_same_shape, stops_at, swept_slots, Way,
};
use crate::hash::CacheKey;
use crate::model::{Item, Sieve};
use std::hash::Hash;
use vstd::prelude::*;
use vstd::std_specs::hash::obeys_key_model;

verus! {

/// The cache.
pub struct SieveCache<K, V> {
    store: GapStore<K, V>,
}

impl<K: CacheKey + Hash + Eq, V> SieveCache<K, V> {
    pub closed spec fn view(self) -> Sieve<K, V> {
        self.store@
    }

    pub closed spec fn wf(self) -> bool {
        self.store.wf()
    }

    /// A cache for at least one item stands for a well-formed queue.
    pub proof fn lemma_wf(self)
        requires
            self.wf(),
            self@.capacity > 0,
        ensures
            self@.wf(),
            obeys_key_model::<K>(),
    {
        self.store.lemma_view();
    }

    /// An empty cache of `capacity` items.
    pub fn new(capacity: usize) -> (cache: Self)
        requires
            2 * capacity <= usize::MAX,
            obeys_key_model::<K>(),
        ensures
            cache.wf(),
            cache@ == Sieve::<K, V>::empty(capacity as nat),
    {
        SieveCache { store: GapStore::new(capacity) }
    }

    pub fn len(&self) -> (n: usize)
        requires
            self.wf(),
        ensures
            n == self@.len(),
    {
        proof {
            self.store.lemma_view();
        }
        self.store.len
    }

    pub fn capacity(&self) -> (n: usize)
        ensures
            n == self@.capacity,
    {
        self.store.capacity
    }

    pub fn is_empty(&self) -> (empty: bool)
        requires
            self.wf(),
        ensures
            empty == (self@.len() == 0),
    {
        proof {
            self.store.lemma_view();
        }
        self.store.len == 0
    }

    /// Whether `key` is cached. Marks nothing.
    pub fn contains_key(&self, key: &K) -> (held: bool)
        requires
            self.wf(),
        ensures
            held == self@.holds(*key),
    {
        self.store.contains_key(key)
    }

    /// The value cached under `key`; a hit is marked.
    pub fn get(&mut self, key: &K) -> (value: Option<&V>)
        requires
            old(self).wf(),
        ensures
            final(self).wf(),
            final(self)@ == old(self)@.touch(*key),
            match value {
                Some(v) => old(self)@.lookup(*key) == Some(*v),
                None => old(self)@.lookup(*key) is None,
            },
    {
        match self.store.find(key) {
            Some(id) => {
                proof {
                    self.store.lemma_index(*key);
                }
                self.store.mark(id, key);
                Some(&self.store.entries[id].as_ref().unwrap().value)
            },
            None => None,
        }
    }

    /// Caches `value` under `key` and returns what that pushed out.
    pub fn insert(&mut self, key: K, value: V) -> (evicted: Option<(K, V)>)
        requires
            old(self).wf(),
            old(self)@.capacity > 0,
        ensures
            final(self).wf(),
            final(self)@ == old(self)@.insert(key, value),
            evicted == old(self)@.displaced(key),
    {
        match self.store.find(&key) {
            Some(id) => {
                self.store.update(id, &key, value);
                None
            },
            None => {
                let ghost start = self@;
                proof {
                    self.store.lemma_view();
                    start.law_insert(key, value);
                }
                let evicted: Option<(K, V)> = if self.store.len == self.store.capacity {
                    self.evict_one()
                } else {
                    None
                };
                proof {
                    self.store.lemma_view();
                    if start.full() {
                        start.lemma_evicted_lacks(key);
                    }
                }
                self.store.maybe_compact();
                self.store.append(key, value);
                evicted
            },
        }
    }

    /// Evicts the victim of the hand; of an empty cache, nothing.
    fn evict_one(&mut self) -> (evicted: Option<(K, V)>)
        requires
            old(self).wf(),
        ensures
            old(self)@.len() == 0 ==> evicted is None && *final(self) == *old(self),
            old(self)@.len() > 0 ==> {
                &&& final(self).store.core_ok()
                &&& final(self)@ == old(self)@.evict()
                &&& final(self).store.capacity == old(self).store.capacity
                &&& final(self).store.len == old(self).store.len - 1
                &&& evicted == Some(
                    (
                        old(self)@.items[old(self)@.victim()].key,
                        old(self)@.items[old(self)@.victim()].value,
                    ),
                )
            },
    {
        if self.store.len == 0 {
            return None;
        }
        Some(self.evict_at_hand())
    }

    /// Lets the hand go round, slot by slot: past gaps, past marked slots, which lose
    /// their marks, to the first unmarked one. That one is evicted.
    #[verifier::spinoff_prover]
    #[verifier::rlimit(40)]
    fn evict_at_hand(&mut self) -> (evicted: (K, V))
        requires
            old(self).wf(),
            old(self)@.len() > 0,
        ensures
            final(self).store.core_ok(),
            final(self)@ == old(self)@.evict(),
            final(self).store.capacity == old(self).store.capacity,
            final(self).store.len == old(self).store.len - 1,
            evicted.0 == old(self)@.items[old(self)@.victim()].key,
            evicted.1 == old(self)@.items[old(self)@.victim()].value,
    {
        let ghost b = self.store;
        let ghost slots = b.slots();
        let ghost start = b.hand as int;
        let ghost mut n: int = 0;
        let tail: usize = self.store.tail;
        proof {
            b.lemma_view();
            lemma_rank_bounds(slots);
            assert(tail > 0) by {
                if tail == 0 {
                    assert(slots =~= Seq::<Option<Item<K, V>>>::empty());
                }
            }
            assert(slots[tail - 1] is Some);
        }
        loop
            invariant
                old(self).store == b,
                old(self)@ == b@,
                b.wf(),
                slots == b.slots(),
                start == b.hand,
                tail == b.tail,
                0 <= start < tail,
                slots[tail - 1] is Some,
                0 <= n < 2 * tail - start,
                Self::same_but_marks(self.store, b),
                self.store.hand == (if start + n <= tail {
                    start + n
                } else if start + n <= 2 * tail {
                    start + n - tail
                } else {
                    start + n - 2 * tail
                }),
                forall|j: int|
                    passed(start, n, tail as int, j) && (#[trigger] slots[j]) is Some
                        ==> slots[j]->0.visited,
                forall|j: int|
                    n > tail && start <= j < start + n - tail ==> (#[trigger] slots[j]) is None,
                forall|j: int|
                    0 <= j < b.visited.room() && j < tail && !b.tombstone.has(j) ==> #[trigger] self.store.visited.has(j)
                        == (b.visited.has(j) && !passed(start, n, tail as int, j)),
            decreases 2 * tail - start - n,
        {
            if self.store.hand >= self.store.tail {
                self.store.hand = 0;
            }
            let pos: usize = self.store.hand;
            if self.store.tombstone.get(pos) {
                self.store.hand = pos + 1;
                proof {
                    assert(slots[pos as int] is None);
                    n = n + 1;
                }
            } else if self.store.visited.get(pos) {
                assert(slots[pos as int] is Some);
                self.store.visited.clear(pos);
                self.store.hand = pos + 1;
                proof {
                    n = n + 1;
                }
            } else {
                let ghost way = if n >= tail {
                    Way::Round
                } else if pos >= start {
                    Way::Ahead
                } else {
                    Way::Behind
                };
                proof {
                    assert(slots[pos as int] is Some);
                    assert(stops_at(slots, start, pos as int, way));
                    let s = swept_slots(slots, start, pos as int, way);
                    assert(self.store.slots() =~= s) by {
                        assert forall|j: int| 0 <= j < tail implies self.store.slots()[j] == s[j] by {
                            if !b.tombstone.has(j) {
                                assert(self.store.visited.has(j) == (b.visited.has(j) && !passed(
                                    start,
                                    n,
                                    tail as int,
                                    j,
                                )));
                            }
                        }
                    }
                    Self::lemma_still_wf(self.store, b);
                    lemma_gapped_evict(b.capacity as nat, slots, start, pos as int, way);
                }
                let evicted: (K, V) = self.store.do_evict(pos);
                proof {
                    self.store.lemma_view();
                }
                return evicted;
            }
        }
    }

    /// Only marks and the hand may differ.
    spec fn same_but_marks(a: GapStore<K, V>, b: GapStore<K, V>) -> bool {
        &&& a.capacity == b.capacity
        &&& a.index == b.index
        &&& a.entries == b.entries
        &&& a.free_list == b.free_list
        &&& a.order == b.order
        &&& a.visited.room() == b.visited.room()
        &&& a.tombstone == b.tombstone
        &&& a.tail == b.tail
        &&& a.len == b.len
        &&& a.dead == b.dead
    }

    /// Marks and the hand's place within the queue do not matter for agreement.
    proof fn lemma_still_wf(a: GapStore<K, V>, b: GapStore<K, V>)
        requires
            b.wf(),
            b.tail > 0,
            Self::same_but_marks(a, b),
            a.hand < a.tail,
        ensures
            a.wf(),
    {
        assert forall|p: int| 0 <= p < a.tail implies #[trigger] a.slot_ok(p) by {
            assert(b.slot_ok(p));
        }
        assert forall|d: int| 0 <= d < a.entries@.len() implies #[trigger] a.entry_ok(d) by {
            assert(b.entry_ok(d));
        }
        assert forall|k: K| #[trigger] a.index_ok(k) by {
            assert(b.index_ok(k));
        }
        lemma_same_shape(a.slots(), b.slots(), 0);
    }
}

impl<K: CacheKey + Hash + Eq, V> CacheImpl<K, V> for SieveCache<K, V> {
    closed spec fn valid(self) -> bool {
        self.wf() && self@.capacity > 0
    }

    closed spec fn queue(self) -> Sieve<K, V> {
        self@
    }

    open spec fn keys_ok() -> bool {
        obeys_key_model::<K>()
    }

    proof fn lemma_valid(self) {
        self.lemma_wf();
    }

    fn new(capacity: usize) -> (cache: Self) {
        SieveCache::new(capacity)
    }

    fn capacity(&self) -> (n: usize) {
        self.capacity()
    }

    fn len(&self) -> (n: usize) {
        self.len()
    }

    fn get(&mut self, key: &K) -> (value: Option<&V>) {
        proof {
            self.lemma_wf();
            self@.law_touch(*key);
        }
        self.get(key)
    }

    fn insert(&mut self, key: K, value: V) -> (evicted: Option<(K, V)>) {
        proof {
            self.lemma_wf();
            self@.law_insert(key, value);
        }
        self.insert(key, value)
    }

    fn contains_key(&self, key: &K) -> (held: bool) {
        self.contains_key(key)
    }
}

/// Whether a hand that started at `start` and made `n` steps round `tail` slots has
/// passed slot `j`.
spec fn passed(start: int, n: int, tail: int, j: int) -> bool {
    &&& 0 <= j < tail
    &&& n >= tail || start <= j < start + n || j < start + n - tail
}

} // verus!
