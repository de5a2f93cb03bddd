//! The cache that scans its queue a word of slots at a time.
use crate::bits::bit;
use crate::bitset::{
    bit_range_mask, lemma_union, lemma_without, lemma_zero_word, lowest_bit, BitSet,
};
use crate::experimental::CacheImpl;
use crate::gap_store::GapStore;
use crate::gapped::{
    lemma_gapped_evict, lemma_rank_bounds, lemma_same_shape, stops_at, swept_slots, Way,
};
use crate::hash::CacheKey;
use crate::model::{Item, Sieve};
use std::hash::Hash;
use vstd::prelude::*;
use vstd::std_specs::hash::obeys_key_model;

verus! {

/// The cache.
pub struct SieveCache<K, V> {
    store: GapStore<K, V>,
}

impl<K: CacheKey + Hash + Eq, V> SieveCache<K, V> {
    pub closed spec fn view(self) -> Sieve<K, V> {
        self.store@
    }

    pub closed spec fn wf(self) -> bool {
        self.store.wf()
    }

    /// A cache for at least one item stands for a well-formed queue.
    pub proof fn lemma_wf(self)
        requires
            self.wf(),
            self@.capacity > 0,
        ensures
            self@.wf(),
            obeys_key_model::<K>(),
    {
        self.store.lemma_view();
    }

    /// An empty cache of `capacity` items.
    pub fn new(capacity: usize) -> (cache: Self)
        requires
            0 < capacity,
            2 * capacity <= usize::MAX,
            obeys_key_model::<K>(),
        ensures
            cache.wf(),
            cache@ == Sieve::<K, V>::empty(capacity as nat),
    {
        SieveCache { store: GapStore::new(capacity) }
    }

    pub fn len(&self) -> (n: usize)
        requires
            self.wf(),
        ensures
            n == self@.len(),
    {
        proof {
            self.store.lemma_view();
        }
        self.store.len
    }

    pub fn capacity(&self) -> (n: usize)
        ensures
            n == self@.capacity,
    {
        self.store.capacity
    }

    pub fn is_empty(&self) -> (empty: bool)
        requires
            self.wf(),
        ensures
            empty == (self@.len() == 0),
    {
        proof {
            self.store.lemma_view();
        }
        self.store.len == 0
    }

    /// Whether `key` is cached. Marks nothing.
    pub fn contains_key(&self, key: &K) -> (held: bool)
        requires
            self.wf(),
        ensures
            held == self@.holds(*key),
    {
        self.store.contains_key(key)
    }

    /// The value cached under `key`; a hit is marked.
    pub fn get(&mut self, key: &K) -> (value: Option<&V>)
        requires
            old(self).wf(),
        ensures
            final(self).wf(),
            final(self)@ == old(self)@.touch(*key),
            match value {
                Some(v) => old(self)@.lookup(*key) == Some(*v),
                None => old(self)@.lookup(*key) is None,
            },
    {
        match self.store.find(key) {
            Some(id) => {
                proof {
                    self.store.lemma_index(*key);
                }
                self.store.mark(id, key);
                Some(&self.store.entries[id].as_ref().unwrap().value)
            },
            None => None,
        }
    }

    /// Caches `value` under `key` and returns what that pushed out.
    pub fn insert(&mut self, key: K, value: V) -> (evicted: Option<(K, V)>)
        requires
            old(self).wf(),
            old(self)@.capacity > 0,
        ensures
            final(self).wf(),
            final(self)@ == old(self)@.insert(key, value),
            evicted == old(self)@.displaced(key),
    {
        match self.store.find(&key) {
            Some(id) => {
                self.store.update(id, &key, value);
                None
            },
            None => {
                let ghost start = self@;
                proof {
                    self.store.lemma_view();
                    start.law_insert(key, value);
                }
                let evicted: Option<(K, V)> = if self.store.len == self.store.capacity {
                    self.evict_one()
                } else {
                    None
                };
                proof {
                    self.store.lemma_view();
                    if start.full() {
                        start.lemma_evicted_lacks(key);
                    }
                }
                self.store.maybe_compact();
                self.store.append(key, value);
                evicted
            },
        }
    }

    /// Evicts the victim of the hand; of an empty cache, nothing.
    fn evict_one(&mut self) -> (evicted: Option<(K, V)>)
        requires
            old(self).wf(),
        ensures
            old(self)@.len() == 0 ==> evicted is None && *final(self) == *old(self),
            old(self)@.len() > 0 ==> {
                &&& final(self).store.core_ok()
                &&& final(self)@ == old(self)@.evict()
                &&& final(self).store.capacity == old(self).store.capacity
                &&& final(self).store.len == old(self).store.len - 1
                &&& evicted == Some(
                    (
                        old(self)@.items[old(self)@.victim()].key,
                        old(self)@.items[old(self)@.victim()].value,
                    ),
                )
            },
    {
        if self.store.len == 0 {
            return None;
        }
        Some(self.evict_at_hand())
    }

    /// Lets the hand go round, a word of slots at a time: from the hand to the young end,
    /// then from the old end to the hand; if all items were marked, the first item from
    /// the hand on. That one is evicted.
    #[verifier::spinoff_prover]
    #[verifier::rlimit(40)]
    fn evict_at_hand(&mut self) -> (evicted: (K, V))
        requires
            old(self).wf(),
            old(self)@.len() > 0,
        ensures
            final(self).store.core_ok(),
            final(self)@ == old(self)@.evict(),
            final(self).store.capacity == old(self).store.capacity,
            final(self).store.len == old(self).store.len - 1,
            evicted.0 == old(self)@.items[old(self)@.victim()].key,
            evicted.1 == old(self)@.items[old(self)@.victim()].value,
    {
        let ghost b = self.store;
        let ghost slots = b.slots();
        proof {
            b.lemma_view();
            lemma_rank_bounds(slots);
            assert(b.tail > 0) by {
                if b.tail == 0 {
                    assert(slots =~= Seq::<Option<Item<K, V>>>::empty());
                }
            }
            assert(slots[b.tail - 1] is Some);
        }
        let hand: usize = self.store.hand;
        let tail: usize = self.store.tail;
        let r1: ScanResult = find_victim_in_range(
            &mut self.store.visited,
            &self.store.tombstone,
            hand,
            tail,
        );
        let ghost mid = self.store.visited;
        let pos: usize;
        let ghost way: Way;
        match r1.victim {
            Some(p) => {
                pos = p;
                proof {
                    way = Way::Ahead;
                    assert forall|j: int|
                        hand <= j < p && (#[trigger] slots[j]) is Some implies slots[j]->0.visited by {
                        assert(!cold(b.visited, b.tombstone, j));
                    }
                }
            },
            None => {
                let r2: ScanResult = find_victim_in_range(
                    &mut self.store.visited,
                    &self.store.tombstone,
                    0,
                    hand,
                );
                proof {
                    assert forall|j: int|
                        hand <= j < tail && (#[trigger] slots[j]) is Some implies slots[j]->0.visited by {
                        assert(!cold(b.visited, b.tombstone, j));
                    }
                    let end = match r2.victim {
                        Some(p) => p as int,
                        None => hand as int,
                    };
                    assert forall|j: int|
                        0 <= j < end && (#[trigger] slots[j]) is Some implies slots[j]->0.visited by {
                        assert(!cold(mid, b.tombstone, j));
                        assert(mid.has(j) == (b.visited.has(j) && !(hand <= j < tail)));
                    }
                }
                match r2.victim {
                    Some(p) => {
                        pos = p;
                        proof {
                            way = Way::Behind;
                            assert(mid.has(p as int) == (b.visited.has(p as int) && !(hand <= p < tail)));
                        }
                    },
                    None => {
                        proof {
                            way = Way::Round;
                            assert(!b.tombstone.has(tail - 1));
                        }
                        pos = r1.first_live.unwrap();
                        assert forall|j: int| hand <= j < pos implies (#[trigger] slots[j]) is None by {
                            assert(b.tombstone.has(j));
                        }
                    },
                }
            },
        }
        proof {
            assert(slots[pos as int] is Some);
            assert(stops_at(slots, hand as int, pos as int, way));
            let s = swept_slots(slots, hand as int, pos as int, way);
            assert(self.store.slots() =~= s) by {
                assert forall|j: int| 0 <= j < tail implies self.store.slots()[j] == s[j] by {
                    assert(mid.has(j) == (b.visited.has(j) && !(hand <= j < match r1.victim {
                        Some(p) => p as int,
                        None => tail as int,
                    })));
                    if way is Ahead {
                        assert(self.store.visited == mid);
                    } else {
                        assert(self.store.visited.has(j) == (mid.has(j) && !(0 <= j < match way {
                            Way::Behind => pos as int,
                            _ => hand as int,
                        })));
                    }
                }
            }
            Self::lemma_still_wf(self.store, b);
            lemma_gapped_evict(b.capacity as nat, slots, hand as int, pos as int, way);
        }
        let evicted: (K, V) = self.store.do_evict(pos);
        proof {
            self.store.lemma_view();
        }
        evicted
    }

    /// Only marks and the hand may differ.
    spec fn same_but_marks(a: GapStore<K, V>, b: GapStore<K, V>) -> bool {
        &&& a.capacity == b.capacity
        &&& a.index == b.index
        &&& a.entries == b.entries
        &&& a.free_list == b.free_list
        &&& a.order == b.order
        &&& a.visited.room() == b.visited.room()
        &&& a.tombstone == b.tombstone
        &&& a.tail == b.tail
        &&& a.len == b.len
        &&& a.dead == b.dead
    }

    /// Marks and the hand's place within the queue do not matter for agreement.
    proof fn lemma_still_wf(a: GapStore<K, V>, b: GapStore<K, V>)
        requires
            b.wf(),
            b.tail > 0,
            Self::same_but_marks(a, b),
            a.hand < a.tail,
        ensures
            a.wf(),
    {
        assert forall|p: int| 0 <= p < a.tail implies #[trigger] a.slot_ok(p) by {
            assert(b.slot_ok(p));
        }
        assert forall|d: int| 0 <= d < a.entries@.len() implies #[trigger] a.entry_ok(d) by {
            assert(b.entry_ok(d));
        }
        assert forall|k: K| #[trigger] a.index_ok(k) by {
            assert(b.index_ok(k));
        }
        lemma_same_shape(a.slots(), b.slots(), 0);
    }
}

impl<K: CacheKey + Hash + Eq, V> CacheImpl<K, V> for SieveCache<K, V> {
    closed spec fn valid(self) -> bool {
        self.wf() && self@.capacity > 0
    }

    closed spec fn queue(self) -> Sieve<K, V> {
        self@
    }

    open spec fn keys_ok() -> bool {
        obeys_key_model::<K>()
    }

    proof fn lemma_valid(self) {
        self.lemma_wf();
    }

    fn new(capacity: usize) -> (cache: Self) {
        SieveCache::new(capacity)
    }

    fn capacity(&self) -> (n: usize) {
        self.capacity()
    }

    fn len(&self) -> (n: usize) {
        self.len()
    }

    fn get(&mut self, key: &K) -> (value: Option<&V>) {
        proof {
            self.lemma_wf();
            self@.law_touch(*key);
        }
        self.get(key)
    }

    fn insert(&mut self, key: K, value: V) -> (evicted: Option<(K, V)>) {
        proof {
            self.lemma_wf();
            self@.law_insert(key, value);
        }
        self.insert(key, value)
    }

    fn contains_key(&self, key: &K) -> (held: bool) {
        self.contains_key(key)
    }
}

/// What a scan found.
pub struct ScanResult {
    /// The first slot that is neither marked nor a tombstone.
    pub victim: Option<usize>,
    /// The first slot that is no tombstone, among the words before the victim's; if
    /// there is none, the victim.
    pub first_live: Option<usize>,
}

/// Whether slot `p` holds an unmarked item.
pub open spec fn cold(visited: BitSet, tombstone: BitSet, p: int) -> bool {
    !visited.has(p) && !tombstone.has(p)
}

/// Whether `found` is the first slot of `[lo, hi)` that is no tombstone.
pub open spec fn first_live_in(
    tombstone: BitSet,
    lo: int,
    hi: int,
    found: Option<usize>,
) -> bool {
    match found {
        Some(p) => lo <= p < hi && !tombstone.has(p as int) && forall|j: int|
            lo <= j < p ==> #[trigger] tombstone.has(j),
        None => forall|j: int| lo <= j < hi ==> #[trigger] tombstone.has(j),
    }
}

/// The beginning of the word in which slot `v` lies, as far as it is not before `lo`.
pub open spec fn word_start(lo: int, v: int) -> int {
    if v / 64 * 64 < lo {
        lo
    } else {
        v / 64 * 64
    }
}

/// Scans `[lo, hi)` for a victim, and takes the marks off the slots before it, or off
/// the whole range if there is none.
#[verifier::spinoff_prover]
#[verifier::rlimit(60)]
pub fn find_victim_in_range(
    visited: &mut BitSet,
    tombstone: &BitSet,
    lo: usize,
    hi: usize,
) -> (found: ScanResult)
    requires
        lo <= hi <= old(visited).room(),
        hi <= tombstone.room(),
    ensures
        final(visited).room() == old(visited).room(),
        match found.victim {
            Some(v) => {
                &&& lo <= v < hi
                &&& cold(*old(visited), *tombstone, v as int)
                &&& forall|j: int| lo <= j < v ==> !#[trigger] cold(*old(visited), *tombstone, j)
                &&& forall|j: int|
                    0 <= j < old(visited).room() ==> #[trigger] final(visited).has(j) == (old(
                        visited,
                    ).has(j) && !(lo <= j < v))
                &&& found.first_live is Some
                &&& found.first_live == found.victim ==> first_live_in(
                    *tombstone,
                    lo as int,
                    word_start(lo as int, v as int),
                    None,
                )
                &&& found.first_live != found.victim ==> first_live_in(
                    *tombstone,
                    lo as int,
                    word_start(lo as int, v as int),
                    found.first_live,
                )
            },
            None => {
                &&& forall|j: int| lo <= j < hi ==> !#[trigger] cold(*old(visited), *tombstone, j)
                &&& forall|j: int|
                    0 <= j < old(visited).room() ==> #[trigger] final(visited).has(j) == (old(
                        visited,
                    ).has(j) && !(lo <= j < hi))
                &&& first_live_in(*tombstone, lo as int, hi as int, found.first_live)
            },
        },
{
    let ghost b = *visited;
    let mut first_live: Option<usize> = None;
    let mut p: usize = lo;
    while p < hi
        invariant
            b == *old(visited),
            lo <= p <= hi <= b.room(),
            hi <= tombstone.room(),
            p == lo || p == hi || p % 64 == 0,
            visited.room() == b.room(),
            forall|j: int| lo <= j < p ==> !#[trigger] cold(b, *tombstone, j),
            forall|j: int|
                0 <= j < b.room() ==> #[trigger] visited.has(j) == (b.has(j) && !(lo <= j < p)),
            first_live_in(*tombstone, lo as int, p as int, first_live),
        decreases hi - p,
    {
        let w: usize = p / 64;
        let bit_lo: usize = p % 64;
        let end_b: usize = if hi - w * 64 < 64 {
            hi - w * 64
        } else {
            64
        };
        let valid: u64 = bit_range_mask(bit_lo, end_b);
        let visited_w: u64 = visited.words[w];
        let tomb_w: u64 = tombstone.words[w];
        let combined: u64 = visited_w | tomb_w;
        let candidates: u64 = valid & !combined;
        proof {
            assert forall|j: int| 0 <= j < 64 implies #[trigger] bit(candidates, j) == (bit_lo <= j
                < end_b && cold(b, *tombstone, w * 64 + j)) by {
                lemma_without(valid, combined, j as u64);
                lemma_union(visited_w, tomb_w, j as u64);
                assert(bit(valid, j) == (bit_lo <= j < end_b));
                assert((w * 64 + j) / 64 == w && (w * 64 + j) % 64 == j);
                if bit_lo <= j {
                    assert(visited.has(w * 64 + j) == b.has(w * 64 + j));
                }
            }
            lemma_zero_word(candidates);
        }
        if candidates != 0 {
            let v_bit: usize = lowest_bit(candidates);
            let v_pos: usize = w * 64 + v_bit;
            assert(bit(candidates, v_bit as int));
            assert(cold(b, *tombstone, v_pos as int));
            if first_live.is_none() {
                first_live = Some(v_pos);
            }
            let traversed: u64 = bit_range_mask(bit_lo, v_bit);
            let word: u64 = visited_w & !traversed;
            let ghost before = *visited;
            visited.words.set(w, word);
            proof {
                lemma_word_cleared(before, *visited, w as int, traversed, bit_lo as int, v_bit as int);
                assert forall|j: int| lo <= j < v_pos implies !#[trigger] cold(b, *tombstone, j) by {
                    if j >= p {
                        assert(!bit(candidates, j - w * 64));
                        assert(w * 64 + (j - w * 64) == j);
                    }
                }
                assert(v_pos / 64 == w);
            }
            return ScanResult { victim: Some(v_pos), first_live };
        }
        if first_live.is_none() {
            let live_in_word: u64 = valid & !tomb_w;
            proof {
                assert forall|j: int| 0 <= j < 64 implies #[trigger] bit(live_in_word, j) == (bit_lo
                    <= j < end_b && !tombstone.has(w * 64 + j)) by {
                    lemma_without(valid, tomb_w, j as u64);
                    assert(bit(valid, j) == (bit_lo <= j < end_b));
                    assert((w * 64 + j) / 64 == w && (w * 64 + j) % 64 == j);
                }
                lemma_zero_word(live_in_word);
            }
            if live_in_word != 0 {
                let l_bit: usize = lowest_bit(live_in_word);
                first_live = Some(w * 64 + l_bit);
                proof {
                    assert(bit(live_in_word, l_bit as int));
                    assert forall|j: int| lo <= j < w * 64 + l_bit implies #[trigger] tombstone.has(j) by {
                        if j >= p {
                            assert(!bit(live_in_word, j - w * 64));
                            assert(w * 64 + (j - w * 64) == j);
                        }
                    }
                }
            } else {
                assert forall|j: int| lo <= j < w * 64 + end_b implies #[trigger] tombstone.has(j) by {
                    if j >= p {
                        assert(!bit(live_in_word, j - w * 64));
                        assert(w * 64 + (j - w * 64) == j);
                    }
                }
            }
        }
        let traversed: u64 = bit_range_mask(bit_lo, end_b);
        let word: u64 = visited_w & !traversed;
        let ghost before = *visited;
        visited.words.set(w, word);
        proof {
            lemma_word_cleared(before, *visited, w as int, traversed, bit_lo as int, end_b as int);
            assert forall|j: int| lo <= j < w * 64 + end_b implies !#[trigger] cold(b, *tombstone, j) by {
                if j >= p {
                    assert(!bit(candidates, j - w * 64));
                    assert(w * 64 + (j - w * 64) == j);
                }
            }
        }
        p = w * 64 + end_b;
    }
    ScanResult { victim: None, first_live }
}

/// What clearing the bits `[lo, hi)` of word `w` does to the set.
proof fn lemma_word_cleared(
    before: BitSet,
    after: BitSet,
    w: int,
    mask: u64,
    lo: int,
    hi: int,
)
    requires
        0 <= w < before.words@.len(),
        0 <= lo <= hi <= 64,
        after.words@ == before.words@.update(w, before.words@[w] & !mask),
        forall|j: int| 0 <= j < 64 ==> #[trigger] bit(mask, j) == (lo <= j < hi),
    ensures
        after.room() == before.room(),
        forall|j: int|
            0 <= j < before.room() ==> #[trigger] after.has(j) == (before.has(j) && !(w * 64 + lo
                <= j < w * 64 + hi)),
{
    assert forall|j: int| 0 <= j < before.room() implies #[trigger] after.has(j) == (before.has(j)
        && !(w * 64 + lo <= j < w * 64 + hi)) by {
        if j / 64 == w {
            lemma_without(before.words@[w], mask, (j % 64) as u64);
            assert(bit(mask, j % 64) == (lo <= j % 64 < hi));
        }
    }
}

} // verus!
