//! A cache's storage: a hash index, an arena of entries, and a queue with gaps.
//!
//! The queue is an array of entry ids of twice the capacity. An evicted entry leaves a
//! tombstone. When the array is used up, or half of what is in use is tombstones, the
//! queue is compacted: order, marks and the hand's place stay.
use crate::bitset::BitSet;
use crate::gapped::{
    dense, filled, gapped, hand_after, lemma_dense_at, lemma_dense_push, lemma_dense_update,
    lemma_filled, lemma_rank_bounds, lemma_rank_mono, lemma_rank_order, lemma_rank_step,
    lemma_same_ranks, lemma_same_shape, lemma_slot_of, rank,
};
use crate::hash::CacheKey;
use crate::model::{Item, Sieve};
use std::collections::HashMap;
use std::hash::Hash;
use vstd::prelude::*;
use vstd::std_specs::hash::obeys_key_model;

verus! {

/// An entry, with its place in the queue.
pub struct Entry<K, V> {
    pub key: K,
    pub value: V,
    pub qpos: usize,
}

/// The storage.
pub struct GapStore<K, V> {
    pub capacity: usize,
    pub index: HashMap<K, usize>,
    pub entries: Vec<Option<Entry<K, V>>>,
    pub free_list: Vec<usize>,
    pub order: Vec<usize>,
    pub visited: BitSet,
    pub tombstone: BitSet,
    pub tail: usize,
    pub hand: usize,
    pub len: usize,
    pub dead: usize,
}

impl<K: CacheKey + Hash + Eq, V> GapStore<K, V> {
    pub open spec fn entry_at(self, p: int) -> Entry<K, V> {
        self.entries@[self.order@[p] as int]->0
    }

    pub open spec fn slot(self, p: int) -> Option<Item<K, V>> {
        if self.tombstone.has(p) {
            None
        } else {
            Some(
                Item {
                    key: self.entry_at(p).key,
                    value: self.entry_at(p).value,
                    visited: self.visited.has(p),
                },
            )
        }
    }

    /// The queue with its gaps.
    pub open spec fn slots(self) -> Seq<Option<Item<K, V>>> {
        Seq::new(self.tail as nat, |p: int| self.slot(p))
    }

    /// The queue that the storage stands for.
    pub open spec fn view(self) -> Sieve<K, V> {
        gapped(self.capacity as nat, self.slots(), self.hand as int)
    }

    pub open spec fn shape_ok(self) -> bool {
        &&& self.order@.len() == 2 * self.capacity
        &&& self.visited.room() >= self.order@.len()
        &&& self.tombstone.room() >= self.order@.len()
        &&& self.tail <= self.order@.len()
        &&& self.len <= self.capacity
        &&& self.len == dense(self.slots()).len()
        &&& self.dead == self.tail - self.len
        &&& self.hand == 0 || self.hand < self.tail && !self.tombstone.has(self.tail - 1)
        &&& obeys_key_model::<K>()
    }

    /// A filled slot has an entry that knows its place.
    pub open spec fn slot_ok(self, p: int) -> bool {
        !self.tombstone.has(p) ==> {
            &&& self.order@[p] < self.entries@.len()
            &&& self.entries@[self.order@[p] as int] is Some
            &&& self.entry_at(p).qpos == p
        }
    }

    /// An entry stands in the queue and in the index.
    pub open spec fn entry_ok(self, id: int) -> bool {
        self.entries@[id] matches Some(e) ==> {
            &&& e.qpos < self.tail
            &&& !self.tombstone.has(e.qpos as int)
            &&& self.order@[e.qpos as int] == id
            &&& self.index@.contains_key(e.key)
            &&& self.index@[e.key] == id
        }
    }

    pub open spec fn index_ok(self, key: K) -> bool {
        self.index@.contains_key(key) ==> {
            &&& self.index@[key] < self.entries@.len()
            &&& self.entries@[self.index@[key] as int] matches Some(e)
            &&& e.key == key
        }
    }

    pub open spec fn free_ok(self) -> bool {
        &&& forall|i: int|
            0 <= i < self.free_list@.len() ==> (#[trigger] self.free_list@[i]) < self.entries@.len()
                && self.entries@[self.free_list@[i] as int] is None
        &&& self.free_list@.no_duplicates()
    }

    /// What holds between the steps of an insert.
    pub open spec fn core_ok(self) -> bool {
        &&& self.shape_ok()
        &&& forall|p: int| 0 <= p < self.tail ==> #[trigger] self.slot_ok(p)
        &&& forall|id: int| 0 <= id < self.entries@.len() ==> #[trigger] self.entry_ok(id)
        &&& forall|key: K| #[trigger] self.index_ok(key)
        &&& self.free_ok()
    }

    /// Index, arena and queue agree, and the youngest slot is filled.
    pub open spec fn wf(self) -> bool {
        &&& self.core_ok()
        &&& self.tail > 0 ==> !self.tombstone.has(self.tail - 1)
    }

    /// A storage for at least one item stands for a well-formed queue.
    pub proof fn lemma_view(self)
        requires
            self.core_ok(),
        ensures
            self@.keys_distinct(),
            self@.capacity == self.capacity,
            self@.len() == self.len,
            self.capacity > 0 ==> self@.wf(),
    {
        let slots = self.slots();
        assert forall|i: int, j: int|
            0 <= i < self@.items.len() && 0 <= j < self@.items.len() && i
                != j implies #[trigger] self@.items[i].key != #[trigger] self@.items[j].key by {
            let p = lemma_slot_of(slots, i);
            let q = lemma_slot_of(slots, j);
            assert(self.slot_ok(p) && self.slot_ok(q));
            assert(self.entry_ok(self.order@[p] as int) && self.entry_ok(self.order@[q] as int));
        }
        lemma_rank_bounds(slots);
        if self.hand > 0 {
            let last = self.tail - 1;
            assert(slots[last] is Some);
            lemma_rank_order(slots, last, self.hand as int);
            lemma_dense_at(slots, last);
            lemma_rank_mono(slots, 0, self.hand as int);
        }
    }

    /// A key of the index stands at the rank of its entry's slot; a key that is not in
    /// the index stands nowhere.
    pub proof fn lemma_index(self, key: K)
        requires
            self.core_ok(),
        ensures
            self@.holds(key) <==> self.index@.contains_key(key),
            self.index@.contains_key(key) ==> ({
                let id = self.index@[key] as int;
                let p = self.entries@[id]->0.qpos as int;
                &&& id < self.entries@.len()
                &&& self.entries@[id] is Some
                &&& self.entries@[id]->0.key == key
                &&& p < self.tail
                &&& !self.tombstone.has(p)
                &&& self.order@[p] == id
                &&& self@.at(rank(self.slots(), p), key)
                &&& self@.position(key) == rank(self.slots(), p)
                &&& self@.lookup(key) == Some(self.entries@[id]->0.value)
            }),
    {
        self.lemma_view();
        let slots = self.slots();
        assert(self.index_ok(key));
        if self.index@.contains_key(key) {
            let id = self.index@[key] as int;
            assert(self.entry_ok(id));
            let p = self.entries@[id]->0.qpos as int;
            assert(slots[p] is Some);
            lemma_dense_at(slots, p);
            assert(self@.at(rank(slots, p), key));
            self@.lemma_position(key, rank(slots, p));
        } else if self@.holds(key) {
            let i = self@.position(key);
            assert(self@.at(i, key));
            let p = lemma_slot_of(slots, i);
            assert(self.slot_ok(p));
            assert(self.entry_ok(self.order@[p] as int));
        }
    }

    /// Empty storage.
    pub fn new(capacity: usize) -> (store: Self)
        requires
            2 * capacity <= usize::MAX,
            obeys_key_model::<K>(),
        ensures
            store.wf(),
            store@ == Sieve::<K, V>::empty(capacity as nat),
            store.capacity == capacity,
    {
        let order_cap: usize = capacity * 2;
        let mut order: Vec<usize> = Vec::with_capacity(order_cap);
        while order.len() < order_cap
            invariant
                order@.len() <= order_cap,
            decreases order_cap - order@.len(),
        {
            order.push(0);
        }
        let store: Self = GapStore {
            capacity,
            index: HashMap::with_capacity(capacity),
            entries: Vec::with_capacity(capacity),
            free_list: Vec::new(),
            order,
            visited: BitSet::new(order_cap),
            tombstone: BitSet::new(order_cap),
            tail: 0,
            hand: 0,
            len: 0,
            dead: 0,
        };
        proof {
            assert(store.slots() =~= Seq::<Option<Item<K, V>>>::empty());
            lemma_rank_bounds(store.slots());
        }
        store
    }

    /// The id under which `key` is cached.
    pub fn find(&self, key: &K) -> (id: Option<usize>)
        requires
            self.core_ok(),
        ensures
            match id {
                Some(id) => self.index@.contains_key(*key) && self.index@[*key] == id
                    && self@.holds(*key),
                None => !self@.holds(*key) && !self.index@.contains_key(*key),
            },
    {
        broadcast use vstd::std_specs::hash::group_hash_axioms;

        proof {
            self.lemma_index(*key);
        }
        match self.index.get(key) {
            Some(id) => Some(*id),
            None => None,
        }
    }

    pub fn contains_key(&self, key: &K) -> (held: bool)
        requires
            self.core_ok(),
        ensures
            held == self@.holds(*key),
    {
        broadcast use vstd::std_specs::hash::group_hash_axioms;

        proof {
            self.lemma_index(*key);
        }
        self.index.contains_key(key)
    }

    /// Marks the slot of the entry `id`.
    pub fn mark(&mut self, id: usize, key: &K)
        requires
            old(self).wf(),
            old(self).index@.contains_key(*key),
            old(self).index@[*key] == id,
        ensures
            final(self).wf(),
            final(self)@ == old(self)@.touch(*key),
            final(self).entries == old(self).entries,
            final(self).index == old(self).index,
            final(self).capacity == old(self).capacity,
    {
        let ghost b = *self;
        proof {
            b.lemma_index(*key);
        }
        let qpos: usize = self.entries[id].as_ref().unwrap().qpos;
        self.visited.set(qpos);
        proof {
            let p = qpos as int;
            let item = b.slots()[p]->0;
            assert(self.slots() =~= b.slots().update(
                p,
                Some(Item { visited: true, ..item }),
            ));
            lemma_dense_update(b.slots(), p, Some(Item { visited: true, ..item }));
            lemma_dense_at(b.slots(), p);
            lemma_same_shape(self.slots(), b.slots(), b.hand as int);
            assert forall|q: int| 0 <= q < self.tail implies #[trigger] self.slot_ok(q) by {
                assert(b.slot_ok(q));
            }
            assert forall|d: int| 0 <= d < self.entries@.len() implies #[trigger] self.entry_ok(d) by {
                assert(b.entry_ok(d));
            }
            assert forall|k: K| #[trigger] self.index_ok(k) by {
                assert(b.index_ok(k));
            }
        }
    }

    /// Gives the entry `id` a new value and marks its slot.
    pub fn update(&mut self, id: usize, key: &K, value: V)
        requires
            old(self).wf(),
            old(self).index@.contains_key(*key),
            old(self).index@[*key] == id,
        ensures
            final(self).wf(),
            final(self)@ == old(self)@.update(*key, value),
            final(self).capacity == old(self).capacity,
    {
        let ghost b = *self;
        proof {
            b.lemma_index(*key);
        }
        let mut taken: Option<Entry<K, V>> = None;
        std::mem::swap(&mut self.entries[id], &mut taken);
        let entry: Entry<K, V> = taken.unwrap();
        let qpos: usize = entry.qpos;
        self.entries[id] = Some(Entry { key: entry.key, value, qpos });
        self.visited.set(qpos);
        proof {
            let p = qpos as int;
            let item = Item { key: *key, value, visited: true };
            assert forall|q: int| 0 <= q < self.tail && q != p && !b.tombstone.has(
                q,
            ) implies #[trigger] self.entry_at(q) == b.entry_at(q) by {
                assert(b.slot_ok(q));
                assert(b.order@[q] != id);
            }
            assert(self.slots() =~= b.slots().update(p, Some(item))) by {
                assert forall|q: int| 0 <= q < self.tail implies self.slots()[q]
                    == b.slots().update(p, Some(item))[q] by {
                    if q != p && !b.tombstone.has(q) {
                        assert(self.entry_at(q) == b.entry_at(q));
                    }
                }
            }
            lemma_dense_update(b.slots(), p, Some(item));
            lemma_dense_at(b.slots(), p);
            lemma_same_shape(self.slots(), b.slots(), b.hand as int);
            assert forall|q: int| 0 <= q < self.tail implies #[trigger] self.slot_ok(q) by {
                assert(b.slot_ok(q));
            }
            assert forall|d: int| 0 <= d < self.entries@.len() implies #[trigger] self.entry_ok(d) by {
                assert(b.entry_ok(d));
            }
            assert forall|k: K| #[trigger] self.index_ok(k) by {
                assert(b.index_ok(k));
            }
            assert forall|i: int| 0 <= i < self.free_list@.len() implies (#[trigger] self.free_list@[i])
                < self.entries@.len() && self.entries@[self.free_list@[i] as int] is None by {
                assert(b.entries@[b.free_list@[i] as int] is None);
            }
        }
    }

    /// Evicts the entry of slot `pos`: a tombstone takes its place, and the hand goes one
    /// further.
    pub fn do_evict(&mut self, pos: usize) -> (evicted: (K, V))
        requires
            old(self).wf(),
            pos < old(self).tail,
            !old(self).tombstone.has(pos as int),
        ensures
            final(self).core_ok(),
            final(self).slots() == old(self).slots().update(pos as int, None),
            final(self).hand == hand_after(pos as int, old(self).tail as int),
            final(self).capacity == old(self).capacity,
            evicted.0 == old(self).slots()[pos as int]->0.key,
            evicted.1 == old(self).slots()[pos as int]->0.value,
            final(self).len == old(self).len - 1,
    {
        broadcast use vstd::std_specs::hash::group_hash_axioms;

        let ghost b = *self;
        let eid: usize = self.order[pos];
        proof {
            assert(b.slot_ok(pos as int));
            assert(b.entry_ok(eid as int));
            lemma_dense_update(b.slots(), pos as int, None);
            lemma_dense_at(b.slots(), pos as int);
        }
        self.tombstone.set(pos);
        self.visited.clear(pos);
        self.dead = self.dead + 1;
        self.len = self.len - 1;
        self.hand = pos + 1;
        if self.hand >= self.tail {
            self.hand = 0;
        }
        let mut taken: Option<Entry<K, V>> = None;
        std::mem::swap(&mut self.entries[eid], &mut taken);
        let entry: Entry<K, V> = taken.unwrap();
        self.index.remove(&entry.key);
        self.free_list.push(eid);
        proof {
            assert forall|q: int| 0 <= q < self.tail && q != pos && !b.tombstone.has(
                q,
            ) implies #[trigger] self.entry_at(q) == b.entry_at(q) && b.order@[q] != eid by {
                assert(b.slot_ok(q));
            }
            assert(self.slots() =~= b.slots().update(pos as int, None)) by {
                assert forall|q: int| 0 <= q < self.tail implies self.slots()[q]
                    == b.slots().update(pos as int, None)[q] by {
                    if q != pos && !b.tombstone.has(q) {
                        assert(self.entry_at(q) == b.entry_at(q));
                    }
                }
            }
            assert forall|q: int| 0 <= q < self.tail implies #[trigger] self.slot_ok(q) by {
                assert(b.slot_ok(q));
                if q != pos && !b.tombstone.has(q) {
                    assert(self.entry_at(q) == b.entry_at(q));
                }
            }
            assert forall|d: int| 0 <= d < self.entries@.len() implies #[trigger] self.entry_ok(d) by {
                assert(b.entry_ok(d));
            }
            assert forall|k: K| #[trigger] self.index_ok(k) by {
                assert(b.index_ok(k));
            }
            assert(self.free_ok()) by {
                assert forall|i: int| 0 <= i < self.free_list@.len() implies (
                #[trigger] self.free_list@[i]) < self.entries@.len()
                    && self.entries@[self.free_list@[i] as int] is None by {
                    if i < b.free_list@.len() {
                        assert(b.entries@[b.free_list@[i] as int] is None);
                    }
                }
                assert forall|i: int, j: int|
                    0 <= i < self.free_list@.len() && 0 <= j < self.free_list@.len() && i
                        != j implies self.free_list@[i] != self.free_list@[j] by {
                    if i < b.free_list@.len() {
                        assert(b.entries@[b.free_list@[i] as int] is None);
                    }
                    if j < b.free_list@.len() {
                        assert(b.entries@[b.free_list@[j] as int] is None);
                    }
                }
            }
        }
        (entry.key, entry.value)
    }

    /// Makes room at the young end: compacts where the array is used up, or where there
    /// are as many tombstones as items.
    pub fn maybe_compact(&mut self)
        requires
            old(self).core_ok(),
            old(self).len < old(self).capacity,
        ensures
            final(self).core_ok(),
            final(self)@ == old(self)@,
            final(self).capacity == old(self).capacity,
            final(self).len == old(self).len,
            final(self).tail < final(self).order@.len(),
    {
        let floor: usize = if self.len > 1 {
            self.len
        } else {
            1
        };
        if self.tail == self.order.len() || self.dead >= floor {
            self.compact();
        }
    }

    /// Closes all gaps. Order, marks and the hand's place stay.
    #[verifier::spinoff_prover]
    #[verifier::rlimit(60)]
    pub fn compact(&mut self)
        requires
            old(self).core_ok(),
        ensures
            final(self).core_ok(),
            final(self)@ == old(self)@,
            final(self).capacity == old(self).capacity,
            final(self).len == old(self).len,
            final(self).tail == final(self).len,
            final(self).slots() == filled(dense(old(self).slots())),
    {
        let ghost b = *self;
        let ghost slots = b.slots();
        let ghost ids = Seq::new(
            b.tail as nat,
            |p: int|
                if b.tombstone.has(p) {
                    None
                } else {
                    Some(b.order@[p])
                },
        );
        let old_tail: usize = self.tail;
        let old_hand: usize = if self.hand < old_tail {
            self.hand
        } else {
            old_tail
        };
        let order_cap: usize = self.order.len();
        let mut new_order: Vec<usize> = Vec::with_capacity(order_cap);
        while new_order.len() < order_cap
            invariant
                new_order@.len() <= order_cap,
            decreases order_cap - new_order@.len(),
        {
            new_order.push(0);
        }
        let mut new_visited: BitSet = BitSet::new(order_cap);
        let mut write: usize = 0;
        let mut new_hand: Option<usize> = None;
        let mut old_pos: usize = 0;
        proof {
            lemma_rank_bounds(slots);
            b.lemma_ids(ids);
        }
        while old_pos < old_tail
            invariant
                b.core_ok(),
                slots == b.slots(),
                ids.len() == b.tail,
                forall|p: int|
                    0 <= p < b.tail ==> #[trigger] ids[p] == (if b.tombstone.has(p) {
                        None
                    } else {
                        Some(b.order@[p])
                    }),
                forall|p: int| 0 <= p <= b.tail ==> #[trigger] rank(ids, p) == rank(slots, p),
                dense(ids).len() == dense(slots).len(),
                old_tail == b.tail,
                old_hand == b.hand,
                old_pos <= old_tail,
                write == rank(slots, old_pos as int),
                write <= old_pos,
                new_order@.len() == b.order@.len(),
                new_visited.room() >= b.order@.len(),
                self.capacity == b.capacity,
                self.index == b.index,
                self.free_list == b.free_list,
                self.order == b.order,
                self.visited == b.visited,
                self.tombstone == b.tombstone,
                self.tail == b.tail,
                self.hand == b.hand,
                self.len == b.len,
                self.entries@.len() == b.entries@.len(),
                forall|d: int|
                    0 <= d < b.entries@.len() ==> #[trigger] b.moved(self.entries@[d], d, old_pos as int),
                forall|w: int| 0 <= w < write ==> #[trigger] new_order@[w] == dense(ids)[w],
                forall|w: int|
                    0 <= w < write ==> #[trigger] new_visited.has(w) == dense(slots)[w].visited,
                forall|w: int| write <= w < new_visited.room() ==> !#[trigger] new_visited.has(w),
                new_hand matches Some(h) ==> h == rank(slots, b.hand as int) && b.hand < old_pos,
                new_hand is None ==> rank(slots, old_pos as int) == rank(slots, b.hand as int)
                    || old_pos <= b.hand,
            decreases old_tail - old_pos,
        {
            proof {
                lemma_rank_step(slots, old_pos as int);
                lemma_rank_step(ids, old_pos as int);
            }
            if !self.tombstone.get(old_pos) {
                let eid: usize = self.order[old_pos];
                proof {
                    assert(b.slot_ok(old_pos as int));
                    assert(ids[old_pos as int] is Some);
                    assert(slots[old_pos as int] is Some);
                    lemma_dense_at(ids, old_pos as int);
                    lemma_dense_at(slots, old_pos as int);
                    assert(rank(ids, old_pos as int) == rank(slots, old_pos as int));
                    assert(b.moved(self.entries@[eid as int], eid as int, old_pos as int));
                }
                if new_hand.is_none() && old_pos >= old_hand {
                    new_hand = Some(write);
                }
                new_order.set(write, eid);
                if self.visited.get(old_pos) {
                    new_visited.set(write);
                }
                let ghost unmoved = self.entries@;
                let mut taken: Option<Entry<K, V>> = None;
                std::mem::swap(&mut self.entries[eid], &mut taken);
                let entry: Entry<K, V> = taken.unwrap();
                self.entries[eid] = Some(Entry { key: entry.key, value: entry.value, qpos: write });
                proof {
                    assert forall|d: int| 0 <= d < b.entries@.len() implies #[trigger] b.moved(
                        self.entries@[d],
                        d,
                        old_pos + 1,
                    ) by {
                        assert(b.moved(unmoved[d], d, old_pos as int));
                        assert(b.entry_ok(d));
                    }
                }
                write = write + 1;
            } else {
                proof {
                    assert forall|d: int| 0 <= d < b.entries@.len() implies #[trigger] b.moved(
                        self.entries@[d],
                        d,
                        old_pos + 1,
                    ) by {
                        assert(b.moved(self.entries@[d], d, old_pos as int));
                        assert(b.entry_ok(d));
                    }
                }
            }
            old_pos = old_pos + 1;
        }
        self.order = new_order;
        self.visited = new_visited;
        self.tombstone = BitSet::new(order_cap);
        self.tail = write;
        self.dead = 0;
        self.hand = if self.len == 0 {
            0
        } else {
            match new_hand {
                Some(h) => h,
                None => 0,
            }
        };
        proof {
            b.lemma_view();
            lemma_rank_bounds(ids);
            if b.hand > 0 {
                assert(slots[b.tail - 1] is Some);
                lemma_rank_order(slots, b.tail - 1, b.hand as int);
                lemma_rank_step(slots, b.tail - 1);
            }
            assert forall|w: int| 0 <= w < write implies #[trigger] self.slot(w) == Some(
                dense(slots)[w],
            ) && self.slot_ok(w) by {
                let q = lemma_slot_of(ids, w);
                assert(rank(ids, q) == rank(slots, q));
                assert(ids[q] is Some);
                assert(slots[q] is Some);
                lemma_dense_at(slots, q);
                assert(b.slot_ok(q));
                let d = b.order@[q] as int;
                assert(b.moved(self.entries@[d], d, b.tail as int));
                assert(self.order@[w] == dense(ids)[w]);
            }
            assert(self.slots() =~= filled(dense(slots)));
            lemma_filled(dense(slots), self.hand as int);
            assert forall|w: int| 0 <= w < self.tail implies #[trigger] self.slot_ok(w) by {
                assert(self.slot(w) == Some(dense(slots)[w]));
            }
            assert forall|d: int| 0 <= d < self.entries@.len() implies #[trigger] self.entry_ok(d) by {
                assert(b.moved(self.entries@[d], d, b.tail as int));
                assert(b.entry_ok(d));
                if b.entries@[d] is Some {
                    let q = b.entries@[d]->0.qpos as int;
                    assert(ids[q] == Some(b.order@[q]));
                    lemma_dense_at(ids, q);
                    assert(rank(ids, q) == rank(slots, q));
                    assert(self.order@[rank(ids, q)] == dense(ids)[rank(ids, q)]);
                }
            }
            assert forall|k: K| #[trigger] self.index_ok(k) by {
                assert(b.index_ok(k));
                if b.index@.contains_key(k) {
                    let d = b.index@[k] as int;
                    assert(b.moved(self.entries@[d], d, b.tail as int));
                }
            }
            assert forall|i: int| 0 <= i < self.free_list@.len() implies (#[trigger] self.free_list@[i])
                < self.entries@.len() && self.entries@[self.free_list@[i] as int] is None by {
                let d = b.free_list@[i] as int;
                assert(b.entries@[d] is None);
                assert(b.moved(self.entries@[d], d, b.tail as int));
            }
        }
    }

    /// What compaction has made of entry `d` when it has passed the slots before `upto`.
    spec fn moved(self, now: Option<Entry<K, V>>, d: int, upto: int) -> bool {
        match self.entries@[d] {
            None => now is None,
            Some(e) => {
                &&& now is Some
                &&& now->0.key == e.key
                &&& now->0.value == e.value
                &&& now->0.qpos == if e.qpos < upto {
                    rank(self.slots(), e.qpos as int)
                } else {
                    e.qpos as int
                }
            },
        }
    }

    /// The ids of the filled slots have the ranks of the slots.
    proof fn lemma_ids(self, ids: Seq<Option<usize>>)
        requires
            ids.len() == self.tail,
            forall|p: int|
                0 <= p < self.tail ==> #[trigger] ids[p] == (if self.tombstone.has(p) {
                    None
                } else {
                    Some(self.order@[p])
                }),
        ensures
            forall|p: int| 0 <= p <= self.tail ==> #[trigger] rank(ids, p) == rank(self.slots(), p),
            dense(ids).len() == dense(self.slots()).len(),
    {
        let slots = self.slots();
        assert forall|p: int| 0 <= p <= self.tail implies #[trigger] rank(ids, p) == rank(slots, p) by {
            lemma_same_ranks(ids, slots, p);
        }
        lemma_rank_bounds(ids);
        lemma_rank_bounds(slots);
        assert(rank(ids, self.tail as int) == rank(slots, self.tail as int));
    }

    /// Queues a new entry at the young end, under an id that is free.
    pub fn append(&mut self, key: K, value: V)
        requires
            old(self).core_ok(),
            !old(self)@.holds(key),
            old(self).len < old(self).capacity,
            old(self).tail < old(self).order@.len(),
        ensures
            final(self).wf(),
            final(self)@ == old(self)@.append(key, value),
            final(self).capacity == old(self).capacity,
    {
        broadcast use vstd::std_specs::hash::group_hash_axioms;

        let ghost b = *self;
        proof {
            b.lemma_index(key);
            lemma_dense_push(b.slots(), Item { key, value, visited: false }, b.hand as int);
        }
        let qpos: usize = self.tail;
        assert(qpos < self.order.len());
        self.tail = self.tail + 1;
        let own: K = key.duplicate();
        let eid: usize = self.alloc_entry(Entry { key: own, value, qpos });
        self.order.set(qpos, eid);
        self.visited.clear(qpos);
        self.tombstone.clear(qpos);
        self.index.insert(key, eid);
        self.len = self.len + 1;
        proof {
            let item = Item { key, value, visited: false };
            assert forall|q: int| 0 <= q < b.tail && !b.tombstone.has(q) implies b.order@[q] != eid
                && #[trigger] self.entry_at(q) == b.entry_at(q) by {
                assert(b.slot_ok(q));
            }
            assert(self.slots() =~= b.slots().push(Some(item))) by {
                assert forall|q: int| 0 <= q < self.tail implies self.slots()[q]
                    == b.slots().push(Some(item))[q] by {
                    if q < b.tail && !b.tombstone.has(q) {
                        assert(self.entry_at(q) == b.entry_at(q));
                    }
                }
            }
            assert forall|q: int| 0 <= q < self.tail implies #[trigger] self.slot_ok(q) by {
                if q < b.tail {
                    assert(b.slot_ok(q));
                    if !b.tombstone.has(q) {
                        assert(self.entry_at(q) == b.entry_at(q));
                    }
                }
            }
            assert forall|d: int| 0 <= d < self.entries@.len() implies #[trigger] self.entry_ok(d) by {
                if d != eid {
                    assert(b.entry_ok(d));
                }
            }
            assert forall|k: K| #[trigger] self.index_ok(k) by {
                assert(b.index_ok(k));
            }
        }
    }

    /// Puts `entry` into a free place of the arena, or a new one.
    fn alloc_entry(&mut self, entry: Entry<K, V>) -> (eid: usize)
        requires
            old(self).free_ok(),
        ensures
            final(self).free_ok(),
            final(self).capacity == old(self).capacity,
            final(self).index == old(self).index,
            final(self).order == old(self).order,
            final(self).visited == old(self).visited,
            final(self).tombstone == old(self).tombstone,
            final(self).tail == old(self).tail,
            final(self).hand == old(self).hand,
            final(self).len == old(self).len,
            final(self).dead == old(self).dead,
            eid < final(self).entries@.len(),
            eid < old(self).entries@.len() ==> old(self).entries@[eid as int] is None,
            final(self).entries@.len() == (if eid < old(self).entries@.len() {
                old(self).entries@.len()
            } else {
                old(self).entries@.len() + 1
            }),
            final(self).entries@[eid as int] == Some(entry),
            forall|d: int|
                0 <= d < old(self).entries@.len() && d != eid ==> #[trigger] final(self).entries@[d]
                    == old(self).entries@[d],
    {
        match self.free_list.pop() {
            Some(eid) => {
                assert(old(self).free_list@[old(self).free_list@.len() - 1] == eid);
                self.entries[eid] = Some(entry);
                proof {
                    assert forall|i: int| 0 <= i < self.free_list@.len() implies (
                    #[trigger] self.free_list@[i]) < self.entries@.len()
                        && self.entries@[self.free_list@[i] as int] is None by {
                        assert(old(self).free_list@[i] != eid);
                        assert(old(self).entries@[old(self).free_list@[i] as int] is None);
                    }
                }
                eid
            },
            None => {
                let eid: usize = self.entries.len();
                self.entries.push(Some(entry));
                eid
            },
        }
    }
}

} // verus!
