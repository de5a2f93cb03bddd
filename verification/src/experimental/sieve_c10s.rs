//! A shard that leaves gaps and keeps its marks apart from the tags.
//!
//! The tags are twice as many as the entries. An eviction empties a tag; when the tags
//! are used up, they are moved together. Marks are bits of their own, so a hit writes no
//! tag. Reads go by the tags alone; inserts run under the writer's lock.
use crate::bitset::BitSet;
use crate::gapped::{
    dense, filled, gapped, hand_after, lemma_dense_at, lemma_dense_push, lemma_dense_update,
    lemma_filled, lemma_gapped_evict, lemma_rank_bounds, lemma_rank_mono, lemma_rank_order,
    lemma_rank_step, lemma_same_ranks, lemma_same_shape, lemma_slot_of, rank, stops_at, swept_slots, Way,
};
use crate::experimental::ConcurrentCacheImpl;
use crate::hash::CacheKey;
use crate::model::{Item, Sieve};
use crate::needle::{lemma_agree_insert, lemma_agree_touch, tags_agree};
use crate::seqlock::{probe_by_tag, Probe};
use crate::shard::{read_of, CacheShard};
use crate::sharded::{is_shard_count, share, ShardArray};
use crate::shift_shard::Entry;
use crate::stats::Stats;
use crate::tag::{
    lemma_match_is_live, padded, padded_len, stride_of, zeroed, TagLayout, EMPTY, LIVE,
    MAX_PER_SHARD,
};
use vstd::prelude::*;

verus! {

/// The number of shards where none is given.
pub const DEFAULT_SHARDS: usize = 8;

/// One shard.
pub struct Shard<K, V> {
    capacity: usize,
    layout: TagLayout,
    tags: Vec<u16>,
    visited: BitSet,
    entries: Vec<Option<Entry<K, V>>>,
    tail: usize,
    len: usize,
    hand: usize,
}

impl<K: CacheKey, V: Clone> Shard<K, V> {
    spec fn live(self, p: int) -> bool {
        self.tags@[p] & LIVE != 0
    }

    spec fn id_at(self, p: int) -> int {
        self.layout.id(self.tags@[p])
    }

    spec fn entry_at(self, p: int) -> Entry<K, V> {
        self.entries@[self.id_at(p)]->0
    }

    spec fn slot(self, p: int) -> Option<Item<K, V>> {
        if self.live(p) {
            Some(
                Item {
                    key: self.entry_at(p).key,
                    value: self.entry_at(p).value,
                    visited: self.visited.has(p),
                },
            )
        } else {
            None
        }
    }

    spec fn slots(self) -> Seq<Option<Item<K, V>>> {
        Seq::new(self.tail as nat, |p: int| self.slot(p))
    }

    pub closed spec fn view(self) -> Sieve<K, V> {
        gapped(self.capacity as nat, self.slots(), self.hand as int)
    }

    pub closed spec fn tag_layout(self) -> TagLayout {
        self.layout
    }

    /// The tags of the live slots, oldest first.
    spec fn queue_tags(self) -> Seq<u16> {
        dense(self.live_tags())
    }

    /// The ids of the live slots, oldest first.
    pub closed spec fn ids(self) -> Seq<int> {
        Seq::new(self.queue_tags().len(), |i: int| self.layout.id(self.queue_tags()[i]))
    }

    /// The hash bits of the live slots, oldest first.
    pub closed spec fn needles(self) -> Seq<u16> {
        Seq::new(
            self.queue_tags().len(),
            |i: int| self.queue_tags()[i] & self.layout.scan_bits(),
        )
    }

    /// Whether `key`, where it is cached, has the hash bits `needle`.
    pub open spec fn carries(self, key: K, needle: u16) -> bool {
        tags_agree(self@, self.needles(), key, needle)
    }

    /// Whether `key`, where it is cached, was stored under a hash with the bits of
    /// `hash`.
    pub open spec fn agrees(self, key: K, hash: u64) -> bool {
        self.carries(key, self.tag_layout().needle(hash))
    }

    /// The tag of slot `p`.
    pub closed spec fn tag_at(self, p: int) -> u16 {
        self.tags@[p]
    }

    /// Whether slot `p` is marked.
    pub closed spec fn mark_at(self, p: int) -> bool {
        self.visited.has(p)
    }

    /// The number of slots in use, gaps among them.
    pub closed spec fn slot_count(self) -> int {
        self.tail as int
    }

    spec fn shape_ok(self) -> bool {
        &&& K::told_apart()
        &&& 0 < self.capacity <= MAX_PER_SHARD
        &&& self.layout.wf()
        &&& self.layout.hash_bits == 9
        &&& self.tags@.len() == padded(2 * self.capacity)
        &&& self.tags@.len() >= 2 * self.capacity
        &&& self.visited.room() >= self.tags@.len()
        &&& self.entries@.len() == self.capacity
        &&& self.tail <= self.tags@.len()
        &&& self.len <= self.capacity
        &&& self.len == dense(self.slots()).len()
        &&& self.hand == 0 || self.hand < self.tail && self.live(self.tail - 1)
    }

    spec fn slot_ok(self, p: int) -> bool {
        self.live(p) ==> {
            &&& 0 <= self.id_at(p) < self.capacity
            &&& self.entries@[self.id_at(p)] is Some
        }
    }

    spec fn core_ok(self) -> bool {
        &&& self.shape_ok()
        &&& forall|p: int| 0 <= p < self.tail ==> #[trigger] self.slot_ok(p)
        &&& forall|p: int| self.tail <= p < self.tags@.len() ==> #[trigger] self.tags@[p] == EMPTY
        &&& forall|p: int, q: int|
            0 <= p < self.tail && 0 <= q < self.tail && p != q && self.live(p) && self.live(q)
                ==> #[trigger] self.id_at(p) != #[trigger] self.id_at(q)
        &&& self@.keys_distinct()
    }

    /// Every live tag points at its own entry; no two keys are equal; the youngest slot is live; a shard that is not full
    /// has handed out the ids `0..len`.
    pub closed spec fn wf(self) -> bool {
        &&& self.core_ok()
        &&& self.tail > 0 ==> self.live(self.tail - 1)
        &&& self.len < self.capacity ==> forall|p: int|
            0 <= p < self.tail && self.live(p) ==> #[trigger] self.id_at(p) < self.len
    }

    /// A well-formed shard stands for a well-formed queue.
    pub proof fn lemma_wf(self)
        requires
            self.wf(),
        ensures
            self@.wf(),
            self@.capacity <= MAX_PER_SHARD,
            self.tag_layout().wf(),
            self.needles().len() == self@.len(),
            self.ids().len() == self@.len(),
    {
        self.lemma_core();
        self.lemma_live_tags();
    }

    /// The tag of a live slot stands at the slot's rank.
    proof fn lemma_tag_of(self, p: int)
        requires
            0 <= p < self.tail,
            self.live(p),
        ensures
            0 <= rank(self.slots(), p) < self.queue_tags().len(),
            self.queue_tags()[rank(self.slots(), p)] == self.tags@[p],
    {
        self.lemma_live_tags();
        assert(self.live_tags()[p] is Some);
        lemma_dense_at(self.live_tags(), p);
        assert(rank(self.live_tags(), p) == rank(self.slots(), p));
    }

    proof fn lemma_core(self)
        requires
            self.core_ok(),
        ensures
            self@.wf(),
            self@.len() == self.len,
    {
        let slots = self.slots();
        lemma_rank_bounds(slots);
        if self.hand > 0 {
            let last = self.tail - 1;
            assert(slots[last] is Some);
            lemma_rank_order(slots, last, self.hand as int);
            lemma_dense_at(slots, last);
            lemma_rank_mono(slots, 0, self.hand as int);
        }
    }

    /// The item of a live slot stands at the slot's rank.
    proof fn lemma_live_at(self, p: int)
        requires
            self.core_ok(),
            0 <= p < self.tail,
            self.live(p),
        ensures
            self@.at(rank(self.slots(), p), self.entry_at(p).key),
            self@.items[rank(self.slots(), p)] == self.slots()[p]->0,
            self@.position(self.entry_at(p).key) == rank(self.slots(), p),
    {
        assert(self.slots()[p] is Some);
        lemma_dense_at(self.slots(), p);
        self@.lemma_position(self.entry_at(p).key, rank(self.slots(), p));
    }

    /// An empty shard.
    pub fn new(capacity: usize) -> (shard: Self)
        requires
            K::told_apart(),
            0 < capacity <= MAX_PER_SHARD,
        ensures
            shard.wf(),
            shard@ == Sieve::<K, V>::empty(capacity as nat),
            shard.ids() == Seq::<int>::empty(),
            shard.needles() == Seq::<u16>::empty(),
            shard.tag_layout() == TagLayout::for_stride(
                stride_of(core::mem::size_of::<Entry<K, V>>(), 1),
                9,
            ),
    {
        let layout: TagLayout = TagLayout::for_entries(core::mem::size_of::<Entry<K, V>>(), 1, 9);
        let order_cap: usize = padded_len(capacity * 2);
        let tags: Vec<u16> = zeroed(order_cap);
        let mut entries: Vec<Option<Entry<K, V>>> = Vec::with_capacity(capacity);
        while entries.len() < capacity
            invariant
                entries@.len() <= capacity,
            decreases capacity - entries@.len(),
        {
            entries.push(None);
        }
        let shard: Self = Shard {
            capacity,
            layout,
            tags,
            visited: BitSet::new(order_cap),
            entries,
            tail: 0,
            len: 0,
            hand: 0,
        };
        proof {
            assert(shard.slots() =~= Seq::<Option<Item<K, V>>>::empty());
            lemma_rank_bounds(shard.slots());
            assert(shard.live_tags() =~= Seq::<Option<u16>>::empty());
            assert(shard.ids() =~= Seq::<int>::empty());
            assert(shard.needles() =~= Seq::<u16>::empty());
        }
        shard
    }

    pub fn capacity(&self) -> (n: usize)
        ensures
            n == self@.capacity,
    {
        self.capacity
    }

    pub fn len(&self) -> (n: usize)
        requires
            self.wf(),
        ensures
            n == self@.len(),
    {
        self.len
    }

    pub fn is_empty(&self) -> (empty: bool)
        requires
            self.wf(),
        ensures
            empty == (self@.len() == 0),
    {
        self.len == 0
    }

    /// The layout of the shard's tags.
    pub fn layout(&self) -> (layout: TagLayout)
        ensures
            layout == self.tag_layout(),
    {
        self.layout
    }

    /// The number of slots in use, gaps among them.
    pub fn slots_used(&self) -> (n: usize)
        ensures
            n == self.slot_count(),
    {
        self.tail
    }

    /// The tag of slot `pos`.
    pub fn tag(&self, pos: usize) -> (tag: u16)
        requires
            self.wf(),
            pos < self.slot_count(),
        ensures
            tag == self.tag_at(pos as int),
    {
        self.tags[pos]
    }

    /// Whether slot `pos` is marked.
    pub fn marked(&self, pos: usize) -> (mark: bool)
        requires
            self.wf(),
            pos < self.slot_count(),
        ensures
            mark == self.mark_at(pos as int),
    {
        self.visited.get(pos)
    }

    /// Whether slot `pos` holds `key`, read between two loads of its tag.
    fn try_candidate(&self, pos: usize, key: &K, needle: u16) -> (found: bool)
        requires
            self.core_ok(),
            pos < self.tail,
            self.carries(*key, needle),
            self.layout.is_needle(needle),
        ensures
            found == (self.live(pos as int) && self.entry_at(pos as int).key == *key),
    {
        let t1: u16 = self.tags[pos];
        assert(self.slot_ok(pos as int));
        if t1 & self.layout.scan_mask() != needle {
            proof {
                if self.live(pos as int) && self.entry_at(pos as int).key == *key {
                    self.lemma_tag_of(pos as int);
                    self.lemma_live_at(pos as int);
                    assert(self.needles()[rank(self.slots(), pos as int)] == needle);
                }
            }
            return false;
        }
        proof {
            lemma_match_is_live(self.layout, t1, needle);
        }
        let id: usize = self.layout.id_of(t1);
        let same: bool = self.entries[id].as_ref().unwrap().key.same_key(key);
        let t2: u16 = self.tags[pos];
        match probe_by_tag(&self.layout, needle, t1, t2, same) {
            Probe::Found(_) => true,
            _ => false,
        }
    }

    /// The slot of `key`.
    fn find(&self, key: &K, needle: u16) -> (found: Option<usize>)
        requires
            self.core_ok(),
            self.carries(*key, needle),
            self.layout.is_needle(needle),
        ensures
            match found {
                Some(p) => p < self.tail && self.live(p as int) && self.entry_at(p as int).key
                    == *key && self@.holds(*key) && self@.position(*key) == rank(
                    self.slots(),
                    p as int,
                ),
                None => !self@.holds(*key),
            },
    {
        let mut i: usize = 0;
        while i < self.tail
            invariant
                self.core_ok(),
                i <= self.tail,
                self.carries(*key, needle),
                self.layout.is_needle(needle),
                forall|j: int|
                    0 <= j < i && self.live(j) ==> (#[trigger] self.entry_at(j)).key != *key,
            decreases self.tail - i,
        {
            if self.try_candidate(i, key, needle) {
                proof {
                    self.lemma_live_at(i as int);
                }
                return Some(i);
            }
            i = i + 1;
        }
        proof {
            if self@.holds(*key) {
                let k = self@.position(*key);
                assert(self@.at(k, *key));
                let p = lemma_slot_of(self.slots(), k);
                assert(self.entry_at(p).key == *key);
            }
        }
        None
    }

    /// The value cached under `key`; a hit is marked.
    pub fn get_by_hash(&mut self, key: &K, hash: u64) -> (value: Option<V>)
        requires
            old(self).wf(),
            old(self).agrees(*key, hash),
        ensures
            final(self).wf(),
            read_of(old(self)@.lookup(*key), value),
            final(self)@ == old(self)@.touch(*key),
            final(self).tag_layout() == old(self).tag_layout(),
            final(self).slot_count() == old(self).slot_count(),
            forall|i: int| #[trigger] final(self).tag_at(i) == old(self).tag_at(i),
            final(self).ids() == old(self).ids(),
            final(self).needles() == old(self).needles(),
    {
        let needle: u16 = self.layout.needle_from_hash(hash);
        match self.find(key, needle) {
            Some(pos) => {
                let ghost b = *self;
                proof {
                    b.lemma_core();
                    b.lemma_live_at(pos as int);
                    assert(b.slot_ok(pos as int));
                }
                let id: usize = self.layout.id_of(self.tags[pos]);
                let value: V = self.entries[id].as_ref().unwrap().value.clone();
                self.visited.set(pos);
                proof {
                    let item = b.slots()[pos as int]->0;
                    let new = Item { visited: true, ..item };
                    assert(self.slots() =~= b.slots().update(pos as int, Some(new)));
                    lemma_dense_update(b.slots(), pos as int, Some(new));
                    lemma_same_shape(self.slots(), b.slots(), b.hand as int);
                    b@.law_touch(*key);
                    assert forall|q: int| 0 <= q < b.tail && b.live(q) implies self.entries@[#[trigger] b.id_at(q)] is Some
                        && self.entries@[b.id_at(q)]->0.key == b.entry_at(q).key by {
                        assert(b.slot_ok(q));
                    }
                    self.lemma_slots_kept(b);
                    assert(self.live_tags() =~= b.live_tags());
                }
                Some(value)
            },
            None => None,
        }
    }

    /// Tags and ids are the same, and so is what a live slot's entry has for a key.
    proof fn lemma_slots_kept(self, b: Self)
        requires
            b.wf(),
            self.layout == b.layout,
            self.tags == b.tags,
            self.tail == b.tail,
            self.capacity == b.capacity,
            self.len == b.len,
            forall|p: int|
                0 <= p < b.tail && b.live(p) ==> self.entries@[#[trigger] b.id_at(p)] is Some
                    && self.entries@[b.id_at(p)]->0.key == b.entry_at(p).key,
        ensures
            forall|p: int| 0 <= p < self.tail ==> #[trigger] self.slot_ok(p),
            forall|p: int, q: int|
                0 <= p < self.tail && 0 <= q < self.tail && p != q && self.live(p) && self.live(q)
                    ==> #[trigger] self.id_at(p) != #[trigger] self.id_at(q),
            self.len < self.capacity ==> forall|p: int|
                0 <= p < self.tail && self.live(p) ==> #[trigger] self.id_at(p) < self.len,
    {
        assert forall|p: int| 0 <= p < self.tail implies #[trigger] self.slot_ok(p) by {
            assert(b.slot_ok(p));
            assert(self.id_at(p) == b.id_at(p));
        }
        assert forall|p: int, q: int|
            0 <= p < self.tail && 0 <= q < self.tail && p != q && self.live(p) && self.live(
                q,
            ) implies #[trigger] self.id_at(p) != #[trigger] self.id_at(q) by {
            assert(b.id_at(p) != b.id_at(q));
        }
        if self.len < self.capacity {
            assert forall|p: int| 0 <= p < self.tail && self.live(p) implies #[trigger] self.id_at(p)
                < self.len by {
                assert(b.id_at(p) < b.len);
            }
        }
    }

    /// Whether `key` is cached; a hit is marked.
    pub fn contains(&mut self, key: &K, hash: u64) -> (held: bool)
        requires
            old(self).wf(),
            old(self).agrees(*key, hash),
        ensures
            final(self).wf(),
            held == old(self)@.holds(*key),
            final(self)@ == old(self)@.touch(*key),
            final(self).tag_layout() == old(self).tag_layout(),
            final(self).slot_count() == old(self).slot_count(),
            forall|i: int| #[trigger] final(self).tag_at(i) == old(self).tag_at(i),
            final(self).ids() == old(self).ids(),
            final(self).needles() == old(self).needles(),
    {
        self.get_by_hash(key, hash).is_some()
    }

    /// Caches `value` under `key` and returns what that pushed out.
    pub fn insert(&mut self, key: K, value: V, hash: u64) -> (evicted: Option<(K, V)>)
        requires
            old(self).wf(),
            old(self).agrees(key, hash),
        ensures
            final(self).wf(),
            final(self)@ == old(self)@.insert(key, value),
            evicted == old(self)@.displaced(key),
            final(self).tag_layout() == old(self).tag_layout(),
            final(self).ids() == old(self)@.carried(
                old(self).ids(),
                key,
                old(self)@.next_id(old(self).ids()),
            ),
            final(self).needles() == old(self)@.carried(
                old(self).needles(),
                key,
                old(self).tag_layout().needle(hash),
            ),
    {
        let needle: u16 = self.layout.needle_from_hash(hash);
        let ghost start = self@;
        let ghost b = *self;
        proof {
            self.lemma_core();
            self.lemma_live_tags();
            start.law_insert(key, value);
        }
        match self.find(&key, needle) {
            Some(pos) => {
                self.writer_update_in_place(pos, key, value);
                None
            },
            None => {
                if self.len < self.capacity {
                    let id: usize = self.len;
                    self.make_room(Ghost(id as int));
                    self.install(id, key, value, needle);
                    proof {
                        assert(self.ids() =~= b.ids().push(id as int));
                        assert(self.needles() =~= b.needles().push(needle));
                    }
                    None
                } else {
                    let (kv, id): ((K, V), usize) = self.writer_evict_one();
                    proof {
                        start.lemma_evicted_lacks(key);
                    }
                    self.make_room(Ghost(id as int));
                    self.install(id, key, value, needle);
                    proof {
                        let v = start.victim();
                        start.lemma_sweep();
                        assert(self.ids() =~= b.ids().remove(v).push(b.ids()[v]));
                        assert(self.needles() =~= b.needles().remove(v).push(needle));
                    }
                    Some(kv)
                }
            },
        }
    }

    /// Updates slot `pos`, which holds `key`. The tag stays.
    fn writer_update_in_place(&mut self, pos: usize, key: K, value: V)
        requires
            old(self).wf(),
            pos < old(self).tail,
            old(self).live(pos as int),
            old(self).entry_at(pos as int).key == key,
        ensures
            final(self).wf(),
            final(self)@ == old(self)@.update(key, value),
            final(self).layout == old(self).layout,
            final(self).tags == old(self).tags,
            final(self).queue_tags() == old(self).queue_tags(),
    {
        let ghost b = *self;
        let id: usize = self.layout.id_of(self.tags[pos]);
        proof {
            b.lemma_core();
            b.lemma_live_at(pos as int);
            assert(b.slot_ok(pos as int));
            b@.law_update(key, value);
        }
        self.entries[id] = Some(Entry { key, value });
        self.visited.set(pos);
        proof {
            let new = Item { key, value, visited: true };
            assert forall|q: int| 0 <= q < b.tail && b.live(q) && q != pos implies b.id_at(q) != id
                && #[trigger] self.entry_at(q) == b.entry_at(q) by {
                assert(b.slot_ok(q));
                assert(b.id_at(q) != b.id_at(pos as int));
            }
            assert(self.slots() =~= b.slots().update(pos as int, Some(new))) by {
                assert forall|q: int| 0 <= q < b.tail implies self.slots()[q] == b.slots().update(
                    pos as int,
                    Some(new),
                )[q] by {
                    if q != pos && b.live(q) {
                        assert(self.entry_at(q) == b.entry_at(q));
                    }
                }
            }
            lemma_dense_update(b.slots(), pos as int, Some(new));
            lemma_same_shape(self.slots(), b.slots(), b.hand as int);
            assert forall|q: int| 0 <= q < b.tail && b.live(q) implies self.entries@[#[trigger] b.id_at(q)] is Some
                && self.entries@[b.id_at(q)]->0.key == b.entry_at(q).key by {
                assert(b.slot_ok(q));
                if q != pos {
                    assert(self.entry_at(q) == b.entry_at(q));
                }
            }
            self.lemma_slots_kept(b);
            assert(self.live_tags() =~= b.live_tags());
        }
    }

    /// The hand's way over `[lo, hi)`: takes marks off up to the first unmarked item, and
    /// returns its slot.
    fn writer_scan_evict(&mut self, lo: usize, hi: usize) -> (found: Option<usize>)
        requires
            old(self).shape_ok(),
            lo <= hi <= old(self).tail,
        ensures
            old(self).same_but_marks(*final(self)),
            ({
                let end = match found {
                    Some(p) => p as int,
                    None => hi as int,
                };
                &&& lo <= end <= hi
                &&& found is Some ==> end < hi && old(self).live(end) && !old(self).visited.has(end)
                &&& forall|j: int|
                    lo <= j < end && old(self).live(j) ==> #[trigger] old(self).visited.has(j)
                &&& forall|j: int|
                    0 <= j < old(self).tail && old(self).live(j) ==> (
                    #[trigger] final(self).visited.has(j)) == (old(self).visited.has(j) && !(lo <= j
                        < end))
            }),
    {
        let ghost b = *self;
        let mut i: usize = lo;
        while i < hi
            invariant
                b == *old(self),
                b.shape_ok(),
                lo <= i <= hi <= b.tail,
                b.same_but_marks(*self),
                forall|j: int| lo <= j < i && b.live(j) ==> #[trigger] b.visited.has(j),
                forall|j: int|
                    0 <= j < b.tail && b.live(j) ==> #[trigger] self.visited.has(j)
                        == (b.visited.has(j) && !(lo <= j < i)),
            decreases hi - i,
        {
            if self.tags[i] & LIVE != 0 {
                if self.visited.get(i) {
                    self.visited.clear(i);
                } else {
                    assert(b.live(i as int));
                    return Some(i);
                }
            }
            i = i + 1;
        }
        None
    }

    spec fn same_but_marks(self, other: Self) -> bool {
        &&& other.capacity == self.capacity
        &&& other.layout == self.layout
        &&& other.tags == self.tags
        &&& other.visited.room() == self.visited.room()
        &&& other.entries == self.entries
        &&& other.tail == self.tail
        &&& other.len == self.len
        &&& other.hand == self.hand
    }

    /// The first live slot of `[lo, hi)`.
    fn writer_first_live(&self, lo: usize, hi: usize) -> (found: Option<usize>)
        requires
            lo <= hi <= self.tags@.len(),
        ensures
            match found {
                Some(p) => lo <= p < hi && self.live(p as int) && forall|j: int|
                    lo <= j < p ==> !#[trigger] self.live(j),
                None => forall|j: int| lo <= j < hi ==> !#[trigger] self.live(j),
            },
    {
        let mut i: usize = lo;
        while i < hi
            invariant
                lo <= i <= hi <= self.tags@.len(),
                forall|j: int| lo <= j < i ==> !#[trigger] self.live(j),
            decreases hi - i,
        {
            if self.tags[i] & LIVE != 0 {
                assert(self.live(i as int));
                return Some(i);
            }
            assert(!self.live(i as int));
            i = i + 1;
        }
        None
    }

    /// Lets the hand go round and evicts where it stops. Returns the evicted entry and
    /// the id that is free now.
    #[verifier::spinoff_prover]
    #[verifier::rlimit(40)]
    fn writer_evict_one(&mut self) -> (evicted: ((K, V), usize))
        requires
            old(self).wf(),
            old(self).len > 0,
            old(self)@.full(),
        ensures
            final(self).core_ok(),
            final(self)@ == old(self)@.evict(),
            final(self).layout == old(self).layout,
            final(self).capacity == old(self).capacity,
            final(self).len == old(self).len - 1,
            evicted.0.0 == old(self)@.items[old(self)@.victim()].key,
            evicted.0.1 == old(self)@.items[old(self)@.victim()].value,
            evicted.1 < old(self).capacity,
            final(self).unused(evicted.1 as int),
            final(self).queue_tags() == old(self).queue_tags().remove(old(self)@.victim()),
            evicted.1 == old(self).layout.id(old(self).queue_tags()[old(self)@.victim()]),
    {
        let ghost b = *self;
        let ghost slots = b.slots();
        proof {
            b.lemma_core();
            lemma_rank_bounds(slots);
            assert(b.tail > 0) by {
                if b.tail == 0 {
                    assert(slots =~= Seq::<Option<Item<K, V>>>::empty());
                }
            }
            assert(slots[b.tail - 1] is Some);
        }
        let hand: usize = self.hand;
        let tail: usize = self.tail;
        let pos: usize;
        let ghost way: Way;
        match self.writer_scan_evict(hand, tail) {
            Some(p) => {
                pos = p;
                proof {
                    way = Way::Ahead;
                    assert forall|j: int|
                        hand <= j < p && (#[trigger] slots[j]) is Some implies slots[j]->0.visited by {
                        assert(b.visited.has(j));
                    }
                    let s = swept_slots(slots, hand as int, pos as int, way);
                    assert(self.slots() =~= s) by {
                        assert forall|j: int| 0 <= j < tail implies self.slots()[j] == s[j] by {
                            if b.live(j) {
                                assert(self.visited.has(j) == (b.visited.has(j) && !(hand <= j
                                    < pos)));
                            }
                        }
                    }
                }
            },
            None => {
                let ghost mid = *self;
                proof {
                    assert forall|j: int|
                        hand <= j < tail && (#[trigger] slots[j]) is Some implies slots[j]->0.visited by {
                        assert(b.visited.has(j));
                    }
                    lemma_same_shape(mid.slots(), slots, 0);
                }
                match self.writer_scan_evict(0, hand) {
                    Some(p) => {
                        pos = p;
                        proof {
                            way = Way::Behind;
                            assert(mid.visited.has(p as int) == (b.visited.has(p as int) && !(hand
                                <= p < tail)));
                            assert forall|j: int|
                                0 <= j < p && (#[trigger] slots[j]) is Some implies slots[j]->0.visited by {
                                assert(mid.live(j));
                                assert(mid.visited.has(j) == (b.visited.has(j) && !(hand <= j
                                    < tail)));
                                assert(mid.visited.has(j));
                            }
                            let s = swept_slots(slots, hand as int, pos as int, way);
                            assert(self.slots() =~= s) by {
                                assert forall|j: int| 0 <= j < tail implies self.slots()[j] == s[j] by {
                                    if b.live(j) {
                                        assert(mid.live(j));
                                        assert(mid.visited.has(j) == (b.visited.has(j) && !(hand
                                            <= j < tail)));
                                        assert(self.visited.has(j) == (mid.visited.has(j) && !(0
                                            <= j < pos)));
                                    }
                                }
                            }
                        }
                    },
                    None => {
                        proof {
                            way = Way::Round;
                            assert(self.live(tail - 1));
                        }
                        pos = self.writer_first_live(hand, tail).unwrap();
                        proof {
                            assert forall|j: int|
                                0 <= j < tail && (#[trigger] slots[j]) is Some implies slots[j]->0.visited by {
                                if j < hand {
                                    assert(mid.live(j));
                                    assert(mid.visited.has(j) == (b.visited.has(j) && !(hand <= j
                                        < tail)));
                                    assert(mid.visited.has(j));
                                } else {
                                    assert(b.visited.has(j));
                                }
                            }
                            assert forall|j: int| hand <= j < pos implies (#[trigger] slots[j]) is None by {
                                assert(!self.live(j));
                            }
                            let s = swept_slots(slots, hand as int, pos as int, way);
                            assert(self.slots() =~= s) by {
                                assert forall|j: int| 0 <= j < tail implies self.slots()[j] == s[j] by {
                                    if b.live(j) {
                                        assert(mid.live(j));
                                        assert(mid.visited.has(j) == (b.visited.has(j) && !(hand
                                            <= j < tail)));
                                        assert(self.visited.has(j) == (mid.visited.has(j) && !(0
                                            <= j < hand)));
                                    }
                                }
                            }
                        }
                    },
                }
            },
        }
        proof {
            assert(slots[pos as int] is Some);
            assert(stops_at(slots, hand as int, pos as int, way));
            lemma_gapped_evict(b.capacity as nat, slots, hand as int, pos as int, way);
        }
        self.writer_do_evict(pos, Ghost(b), Ghost(way))
    }

    /// No live slot has the id `d`.
    spec fn unused(self, d: int) -> bool {
        forall|p: int| 0 <= p < self.tail && self.live(p) ==> #[trigger] self.id_at(p) != d
    }

    /// Empties slot `pos`, at which the hand stopped, and moves the hand one further.
    fn writer_do_evict(
        &mut self,
        pos: usize,
        Ghost(b): Ghost<Self>,
        Ghost(way): Ghost<Way>,
    ) -> (evicted: ((K, V), usize))
        requires
            b.wf(),
            b.len > 0,
            b.same_but_marks(*old(self)),
            b.tail > 0,
            pos < b.tail,
            b.live(pos as int),
            old(self).slots() == swept_slots(b.slots(), b.hand as int, pos as int, way),
            stops_at(b.slots(), b.hand as int, pos as int, way),
            gapped(
                b.capacity as nat,
                swept_slots(b.slots(), b.hand as int, pos as int, way).update(pos as int, None),
                hand_after(pos as int, b.tail as int),
            ) == b@.evict(),
            b@.victim() == rank(b.slots(), pos as int),
        ensures
            final(self).core_ok(),
            final(self)@ == b@.evict(),
            final(self).layout == b.layout,
            final(self).capacity == b.capacity,
            final(self).len == b.len - 1,
            evicted.0.0 == b@.items[b@.victim()].key,
            evicted.0.1 == b@.items[b@.victim()].value,
            evicted.1 < b.capacity,
            final(self).unused(evicted.1 as int),
            final(self).queue_tags() == b.queue_tags().remove(b@.victim()),
            evicted.1 == b.layout.id(b.queue_tags()[b@.victim()]),
    {
        let ghost mid = *self;
        let id: usize = self.layout.id_of(self.tags[pos]);
        proof {
            b.lemma_core();
            b.lemma_live_at(pos as int);
            assert(b.slot_ok(pos as int));
            assert(mid.slots()[pos as int] is Some);
            lemma_dense_update(mid.slots(), pos as int, None);
            lemma_same_shape(mid.slots(), b.slots(), 0);
            assert(0u16 & 0x8000u16 == 0) by (bit_vector);
        }
        self.tags.set(pos, EMPTY);
        self.visited.clear(pos);
        let mut slot: Option<Entry<K, V>> = None;
        std::mem::swap(&mut self.entries[id], &mut slot);
        let entry: Entry<K, V> = slot.unwrap();
        self.len = self.len - 1;
        self.hand = if pos + 1 < self.tail {
            pos + 1
        } else {
            0
        };
        proof {
            assert forall|q: int| 0 <= q < b.tail && q != pos && b.live(q) implies b.id_at(q) != id
                && #[trigger] self.entry_at(q) == b.entry_at(q) && self.id_at(q) == b.id_at(q)
                && self.live(q) by {
                assert(b.slot_ok(q));
                assert(b.id_at(q) != b.id_at(pos as int));
            }
            assert(self.slots() =~= mid.slots().update(pos as int, None)) by {
                assert forall|q: int| 0 <= q < b.tail implies self.slots()[q]
                    == mid.slots().update(pos as int, None)[q] by {
                    if q != pos && b.live(q) {
                        assert(self.entry_at(q) == b.entry_at(q));
                    }
                }
            }
            assert(self@ == b@.evict());
            b@.law_evict_keeps_order();
            b@.lemma_evict_wf();
            assert forall|q: int| 0 <= q < self.tail implies #[trigger] self.slot_ok(q) by {
                assert(b.slot_ok(q));
                if q != pos && b.live(q) {
                    assert(self.entry_at(q) == b.entry_at(q));
                }
            }
            assert forall|q: int| self.tail <= q < self.tags@.len() implies #[trigger] self.tags@[q]
                == EMPTY by {
                assert(b.tags@[q] == EMPTY);
            }
            assert forall|p: int, q: int|
                0 <= p < self.tail && 0 <= q < self.tail && p != q && self.live(p) && self.live(
                    q,
                ) implies #[trigger] self.id_at(p) != #[trigger] self.id_at(q) by {
                assert(b.live(p) && b.live(q));
                assert(b.id_at(p) != b.id_at(q));
            }
            assert forall|p: int| 0 <= p < self.tail && self.live(p) implies #[trigger] self.id_at(p)
                != id by {
                assert(b.live(p));
                assert(b.id_at(p) != b.id_at(pos as int));
            }
            b.lemma_tag_of(pos as int);
            b.lemma_live_tags();
            assert(b.live_tags()[pos as int] is Some);
            assert(rank(b.live_tags(), pos as int) == rank(b.slots(), pos as int));
            lemma_dense_update(b.live_tags(), pos as int, None);
            assert(self.live_tags() =~= b.live_tags().update(pos as int, None));
        }
        ((entry.key, entry.value), id)
    }

    /// Moves the tags together if they are used up. The id `spare` stays unused.
    fn make_room(&mut self, Ghost(spare): Ghost<int>)
        requires
            old(self).core_ok(),
            old(self).len < old(self).capacity,
            old(self).unused(spare),
        ensures
            final(self).core_ok(),
            final(self)@ == old(self)@,
            final(self).layout == old(self).layout,
            final(self).capacity == old(self).capacity,
            final(self).len == old(self).len,
            final(self).tail < final(self).tags@.len(),
            final(self).unused(spare),
            final(self).queue_tags() == old(self).queue_tags(),
            old(self).ids_within(old(self).len as int) ==> final(self).ids_within(
                old(self).len as int,
            ),
    {
        if self.tail == self.tags.len() {
            self.writer_compact(Ghost(spare));
        }
    }

    /// All live ids are below `n`.
    spec fn ids_within(self, n: int) -> bool {
        forall|p: int| 0 <= p < self.tail && self.live(p) ==> #[trigger] self.id_at(p) < n
    }
}

impl<K: CacheKey, V: Clone> Shard<K, V> {
    /// Moves the live tags together, in order, with their marks. The hand keeps its place
    /// in the queue.
    #[verifier::spinoff_prover]
    #[verifier::rlimit(80)]
    fn writer_compact(&mut self, Ghost(spare): Ghost<int>)
        requires
            old(self).core_ok(),
            old(self).unused(spare),
        ensures
            final(self).core_ok(),
            final(self)@ == old(self)@,
            final(self).layout == old(self).layout,
            final(self).capacity == old(self).capacity,
            final(self).len == old(self).len,
            final(self).tail == final(self).len,
            final(self).unused(spare),
            final(self).queue_tags() == old(self).queue_tags(),
            old(self).ids_within(old(self).len as int) ==> final(self).ids_within(
                old(self).len as int,
            ),
    {
        let ghost b = *self;
        let ghost slots = b.slots();
        let ghost ltags = b.live_tags();
        let old_tail: usize = self.tail;
        let old_hand: usize = self.hand;
        let mut new_hand: Option<usize> = None;
        let mut write: usize = 0;
        let mut old_pos: usize = 0;
        proof {
            lemma_rank_bounds(slots);
            b.lemma_live_tags();
            b.lemma_core();
            assert(0u16 & 0x8000u16 == 0) by (bit_vector);
        }
        while old_pos < old_tail
            invariant
                b.core_ok(),
                slots == b.slots(),
                ltags == b.live_tags(),
                forall|p: int| 0 <= p <= b.tail ==> #[trigger] rank(ltags, p) == rank(slots, p),
                dense(ltags).len() == dense(slots).len(),
                old_tail == b.tail,
                old_hand == b.hand,
                old_pos <= old_tail,
                write == rank(slots, old_pos as int),
                write <= old_pos,
                self.capacity == b.capacity,
                self.layout == b.layout,
                self.entries == b.entries,
                self.tail == b.tail,
                self.len == b.len,
                self.hand == b.hand,
                self.tags@.len() == b.tags@.len(),
                self.visited.room() == b.visited.room(),
                forall|w: int| 0 <= w < write ==> #[trigger] self.tags@[w] == dense(ltags)[w],
                forall|w: int|
                    0 <= w < write ==> #[trigger] self.visited.has(w) == dense(slots)[w].visited,
                forall|j: int|
                    old_pos <= j < b.tags@.len() ==> #[trigger] self.tags@[j] == b.tags@[j],
                forall|j: int|
                    old_pos <= j < b.visited.room() ==> #[trigger] self.visited.has(j)
                        == b.visited.has(j),
                new_hand matches Some(h) ==> h == rank(slots, b.hand as int) && b.hand < old_pos,
                new_hand is None ==> rank(slots, old_pos as int) == rank(slots, b.hand as int)
                    || old_pos <= b.hand,
            decreases old_tail - old_pos,
        {
            let t: u16 = self.tags[old_pos];
            proof {
                lemma_rank_step(slots, old_pos as int);
                lemma_rank_step(ltags, old_pos as int);
                lemma_rank_mono(slots, old_pos as int, old_pos + 1);
            }
            if t & LIVE != 0 {
                proof {
                    assert(b.live(old_pos as int));
                    assert(ltags[old_pos as int] is Some);
                    assert(slots[old_pos as int] is Some);
                    lemma_dense_at(ltags, old_pos as int);
                    lemma_dense_at(slots, old_pos as int);
                    assert(rank(ltags, old_pos as int) == rank(slots, old_pos as int));
                }
                if new_hand.is_none() && old_pos >= old_hand {
                    new_hand = Some(write);
                }
                let was_visited: bool = self.visited.get(old_pos);
                if write != old_pos {
                    self.tags.set(old_pos, EMPTY);
                    self.tags.set(write, t);
                    self.visited.clear(old_pos);
                }
                if was_visited {
                    self.visited.set(write);
                } else {
                    self.visited.clear(write);
                }
                write = write + 1;
            }
            old_pos = old_pos + 1;
        }
        let mut i: usize = write;
        while i < old_tail
            invariant
                old_tail <= b.tags@.len(),
                b.tags@.len() <= b.visited.room(),
                write <= i <= old_tail,
                self.capacity == b.capacity,
                self.layout == b.layout,
                self.entries == b.entries,
                self.tail == b.tail,
                self.len == b.len,
                self.tags@.len() == b.tags@.len(),
                self.visited.room() == b.visited.room(),
                forall|w: int| 0 <= w < write ==> #[trigger] self.tags@[w] == dense(ltags)[w],
                forall|w: int|
                    0 <= w < write ==> #[trigger] self.visited.has(w) == dense(slots)[w].visited,
                forall|j: int| write <= j < i ==> #[trigger] self.tags@[j] == EMPTY,
                forall|j: int|
                    old_tail <= j < b.tags@.len() ==> #[trigger] self.tags@[j] == b.tags@[j],
            decreases old_tail - i,
        {
            self.tags.set(i, EMPTY);
            self.visited.clear(i);
            i = i + 1;
        }
        self.tail = write;
        self.hand = if self.len == 0 {
            0
        } else {
            match new_hand {
                Some(h) => h,
                None => 0,
            }
        };
        proof {
            lemma_rank_bounds(ltags);
            if b.hand > 0 {
                assert(slots[b.tail - 1] is Some);
                lemma_rank_order(slots, b.tail - 1, b.hand as int);
                lemma_rank_step(slots, b.tail - 1);
            }
            assert forall|w: int| 0 <= w < write implies #[trigger] self.slot(w) == Some(
                dense(slots)[w],
            ) && self.slot_ok(w) && self.live(w) && b.from_live(self.tags@[w], w) by {
                let q = lemma_slot_of(ltags, w);
                assert(rank(ltags, q) == rank(slots, q));
                assert(ltags[q] is Some);
                assert(slots[q] is Some);
                lemma_dense_at(slots, q);
                assert(b.slot_ok(q));
                assert(self.tags@[w] == dense(ltags)[w]);
                assert(b.live(q));
            }
            assert(self.slots() =~= filled(dense(slots)));
            lemma_filled(dense(slots), self.hand as int);
            assert forall|w: int| 0 <= w < self.tail implies #[trigger] self.slot_ok(w) by {
                assert(self.slot(w) == Some(dense(slots)[w]));
            }
            assert forall|p: int, q: int|
                0 <= p < self.tail && 0 <= q < self.tail && p != q && self.live(p) && self.live(
                    q,
                ) implies #[trigger] self.id_at(p) != #[trigger] self.id_at(q) by {
                assert(self.slot(p) == Some(dense(slots)[p]));
                assert(self.slot(q) == Some(dense(slots)[q]));
                let p2 = choose|x: int|
                    0 <= x < b.tail && b.live(x) && rank(slots, x) == p && b.tags@[x]
                        == self.tags@[p];
                let q2 = choose|x: int|
                    0 <= x < b.tail && b.live(x) && rank(slots, x) == q && b.tags@[x]
                        == self.tags@[q];
                assert(b.id_at(p2) != b.id_at(q2));
            }
            assert forall|p: int| 0 <= p < self.tail && self.live(p) implies #[trigger] self.id_at(p)
                != spare && (b.ids_within(b.len as int) ==> self.id_at(p) < b.len) by {
                assert(self.slot(p) == Some(dense(slots)[p]));
                let p2 = choose|x: int|
                    0 <= x < b.tail && b.live(x) && rank(slots, x) == p && b.tags@[x]
                        == self.tags@[p];
                assert(b.id_at(p2) != spare);
            }
            if self.tail > 0 {
                assert(self.slot(self.tail - 1) == Some(dense(slots)[self.tail - 1]));
            }
            assert(self.live_tags() =~= filled(dense(ltags))) by {
                assert forall|w: int| 0 <= w < write implies self.live_tags()[w] == filled(
                    dense(ltags),
                )[w] by {
                    assert(self.slot(w) == Some(dense(slots)[w]));
                    assert(self.tags@[w] == dense(ltags)[w]);
                }
            }
            lemma_filled(dense(ltags), 0);
        }
    }

    /// Whether `tag` is the tag of the live slot of rank `w`.
    spec fn from_live(self, tag: u16, w: int) -> bool {
        exists|x: int|
            0 <= x < self.tail && #[trigger] self.live(x) && rank(self.slots(), x) == w
                && self.tags@[x] == tag
    }

    /// The live tags with their gaps.
    spec fn live_tags(self) -> Seq<Option<u16>> {
        Seq::new(
            self.tail as nat,
            |p: int|
                if self.live(p) {
                    Some(self.tags@[p])
                } else {
                    None
                },
        )
    }

    proof fn lemma_live_tags(self)
        ensures
            forall|p: int|
                0 <= p <= self.tail ==> #[trigger] rank(self.live_tags(), p) == rank(
                    self.slots(),
                    p,
                ),
            dense(self.live_tags()).len() == dense(self.slots()).len(),
    {
        let a = self.live_tags();
        let s = self.slots();
        assert forall|p: int| 0 <= p <= self.tail implies #[trigger] rank(a, p) == rank(s, p) by {
            lemma_same_ranks(a, s, p);
        }
        lemma_rank_bounds(a);
        lemma_rank_bounds(s);
        assert(rank(a, self.tail as int) == rank(s, self.tail as int));
    }

    /// Queues a new entry at the young end, under the unused id `id`.
    fn install(&mut self, id: usize, key: K, value: V, needle: u16)
        requires
            old(self).core_ok(),
            old(self).len < old(self).capacity,
            old(self).tail < old(self).tags@.len(),
            id < old(self).capacity,
            old(self).unused(id as int),
            id == old(self).len && old(self).ids_within(old(self).len as int) || old(self).len + 1
                == old(self).capacity,
            !old(self)@.holds(key),
            old(self).layout.is_needle(needle),
        ensures
            final(self).wf(),
            final(self)@ == old(self)@.append(key, value),
            final(self).layout == old(self).layout,
            final(self).queue_tags() == old(self).queue_tags().push(
                final(self).queue_tags().last(),
            ),
            final(self).layout.id(final(self).queue_tags().last()) == id,
            final(self).queue_tags().last() & final(self).layout.scan_bits() == needle,
    {
        let ghost b = *self;
        let ghost item = Item { key, value, visited: false };
        proof {
            b.lemma_core();
            b@.law_insert(key, value);
            lemma_dense_push(b.slots(), item, b.hand as int);
            assert(b.tags@[b.tail as int] == EMPTY);
        }
        let pos: usize = self.tail;
        let new_tag: u16 = self.layout.encode(id, needle);
        self.entries[id] = Some(Entry { key, value });
        self.visited.clear(pos);
        self.tags.set(pos, new_tag);
        self.tail = pos + 1;
        self.len = self.len + 1;
        proof {
            assert forall|q: int| 0 <= q < b.tail implies self.live(q) == b.live(q)
                && #[trigger] self.id_at(q) == b.id_at(q) && (b.live(q) ==> self.entry_at(q)
                == b.entry_at(q) && b.id_at(q) != id) by {
                assert(b.slot_ok(q));
                if b.live(q) {
                    assert(b.id_at(q) != id);
                }
            }
            lemma_dense_push(b.live_tags(), new_tag, 0);
            assert(self.live_tags() =~= b.live_tags().push(Some(new_tag)));
            assert(self.slots() =~= b.slots().push(Some(item))) by {
                assert forall|q: int| 0 <= q < self.tail implies self.slots()[q]
                    == b.slots().push(Some(item))[q] by {
                    if q < b.tail {
                        assert(self.id_at(q) == b.id_at(q));
                    }
                }
            }
            assert forall|q: int| 0 <= q < self.tail implies #[trigger] self.slot_ok(q) by {
                if q < b.tail {
                    assert(b.slot_ok(q));
                    assert(self.id_at(q) == b.id_at(q));
                }
            }
            assert forall|q: int| self.tail <= q < self.tags@.len() implies #[trigger] self.tags@[q]
                == EMPTY by {
                assert(b.tags@[q] == EMPTY);
            }
            assert forall|p: int, q: int|
                0 <= p < self.tail && 0 <= q < self.tail && p != q && self.live(p) && self.live(
                    q,
                ) implies #[trigger] self.id_at(p) != #[trigger] self.id_at(q) by {
                if p < b.tail && q < b.tail {
                    assert(b.id_at(p) != b.id_at(q));
                } else if p < b.tail {
                    assert(self.id_at(p) == b.id_at(p));
                } else {
                    assert(self.id_at(q) == b.id_at(q));
                }
            }
            if self.len < self.capacity {
                assert forall|p: int| 0 <= p < self.tail && self.live(p) implies #[trigger] self.id_at(p)
                    < self.len by {
                    if p < b.tail {
                        assert(self.id_at(p) == b.id_at(p));
                        assert(b.id_at(p) < b.len);
                    }
                }
            }
        }
    }

    /// What was to be found is still found after a read.
    pub proof fn lemma_touched(self, to: Self, key: K)
        requires
            self.wf(),
            to@ == self@.touch(key),
            to.needles() == self.needles(),
            to.tag_layout() == self.tag_layout(),
        ensures
            forall|k: K, h: u64| self.agrees(k, h) ==> #[trigger] to.agrees(k, h),
    {
        self.lemma_wf();
        assert forall|k: K, h: u64| self.agrees(k, h) implies #[trigger] to.agrees(k, h) by {
            lemma_agree_touch(self@, self.needles(), key, k, self.tag_layout().needle(h));
        }
    }

    /// What was to be found is still found after an insert, and so is the new key.
    pub proof fn lemma_inserted(self, to: Self, key: K, value: V, hash: u64)
        requires
            self.wf(),
            self.agrees(key, hash),
            to@ == self@.insert(key, value),
            to.needles() == self@.carried(self.needles(), key, self.tag_layout().needle(hash)),
            to.tag_layout() == self.tag_layout(),
        ensures
            forall|k: K, h: u64| k != key && self.agrees(k, h) ==> #[trigger] to.agrees(k, h),
            to.agrees(key, hash),
    {
        self.lemma_wf();
        let new = self.tag_layout().needle(hash);
        assert forall|k: K, h: u64| k != key && self.agrees(k, h) implies #[trigger] to.agrees(
            k,
            h,
        ) by {
            let needle = self.tag_layout().needle(h);
            lemma_agree_insert(self@, self.needles(), key, value, new, k, needle);
        }
        lemma_agree_insert(self@, self.needles(), key, value, new, key, new);
    }

    /// The number of live tags.
    pub fn live_count(&self) -> (n: usize)
        requires
            self.wf(),
        ensures
            n == self@.len(),
    {
        let mut n: usize = 0;
        let mut i: usize = 0;
        proof {
            lemma_rank_bounds(self.slots());
        }
        while i < self.tail
            invariant
                self.wf(),
                i <= self.tail,
                n <= i,
                n == rank(self.slots(), i as int),
            decreases self.tail - i,
        {
            proof {
                lemma_rank_step(self.slots(), i as int);
            }
            if self.tags[i] & LIVE != 0 {
                n = n + 1;
            }
            i = i + 1;
        }
        n
    }

    /// The ids of the live slots, oldest first.
    pub fn live_ids(&self) -> (ids: Vec<usize>)
        requires
            self.wf(),
        ensures
            ids@.len() == self@.len(),
            forall|i: int| 0 <= i < ids@.len() ==> #[trigger] ids@[i] == self.ids()[i],
            ids@.no_duplicates(),
            forall|i: int| 0 <= i < ids@.len() ==> #[trigger] ids@[i] < self@.capacity,
    {
        let mut ids: Vec<usize> = Vec::new();
        let mut i: usize = 0;
        proof {
            lemma_rank_bounds(self.slots());
        }
        while i < self.tail
            invariant
                self.wf(),
                i <= self.tail,
                ids@.len() == rank(self.slots(), i as int),
                forall|k: int| 0 <= k < ids@.len() ==> #[trigger] ids@[k] == self.ids()[k],
                ids@.no_duplicates(),
                forall|k: int|
                    0 <= k < ids@.len() ==> #[trigger] ids@[k] < self.capacity && exists|q: int|
                        0 <= q < i && #[trigger] self.live(q) && self.id_at(q) == ids@[k],
            decreases self.tail - i,
        {
            proof {
                lemma_rank_step(self.slots(), i as int);
                assert(self.slot_ok(i as int));
            }
            let t: u16 = self.tags[i];
            if t & LIVE != 0 {
                let id: usize = self.layout.id_of(t);
                assert(self.live(i as int));
                assert(id == self.id_at(i as int));
                let ghost before = ids@;
                ids.push(id);
                proof {
                    self.lemma_tag_of(i as int);
                    assert(self.ids()[before.len() as int] == id);
                    assert forall|k: int| 0 <= k < ids@.len() implies #[trigger] ids@[k]
                        == self.ids()[k] by {
                        if k < before.len() {
                            assert(before[k] == self.ids()[k]);
                        }
                    }
                }
                assert forall|k: int| 0 <= k < ids@.len() implies #[trigger] ids@[k] < self.capacity
                    && exists|q: int|
                    0 <= q < i + 1 && #[trigger] self.live(q) && self.id_at(q) == ids@[k] by {
                    if k < before.len() {
                        assert(before[k] < self.capacity);
                        let q = choose|q: int|
                            0 <= q < i && #[trigger] self.live(q) && self.id_at(q) == before[k];
                        assert(self.live(q));
                    } else {
                        assert(self.live(i as int));
                    }
                }
                assert forall|k: int, l: int|
                    0 <= k < ids@.len() && 0 <= l < ids@.len() && k != l implies ids@[k] != ids@[l] by {
                    let a = if k < l {
                        k
                    } else {
                        l
                    };
                    assert(before[a] < self.capacity);
                    let q = choose|q: int|
                        0 <= q < i && #[trigger] self.live(q) && self.id_at(q) == before[a];
                    assert(self.id_at(q) != self.id_at(i as int));
                }
            } else {
                assert forall|k: int| 0 <= k < ids@.len() implies #[trigger] ids@[k] < self.capacity
                    && exists|q: int|
                    0 <= q < i + 1 && #[trigger] self.live(q) && self.id_at(q) == ids@[k] by {
                    let q = choose|q: int|
                        0 <= q < i && #[trigger] self.live(q) && self.id_at(q) == ids@[k];
                    assert(self.live(q));
                }
            }
            i = i + 1;
        }
        ids
    }
}

impl<K: CacheKey, V: Clone> CacheShard for Shard<K, V> {
    type Key = K;

    type Value = V;

    closed spec fn wf(self) -> bool {
        Shard::wf(self)
    }

    closed spec fn queue(self) -> Sieve<K, V> {
        self@
    }

    open spec fn put(before: Sieve<K, V>, key: K, value: V) -> Sieve<K, V> {
        before.insert(key, value)
    }

    closed spec fn agrees(self, key: K, hash: u64) -> bool {
        Shard::agrees(self, key, hash)
    }

    closed spec fn ids(self) -> Seq<int> {
        Shard::ids(self)
    }

    open spec fn put_ids(before: Sieve<K, V>, ids: Seq<int>, key: K) -> Seq<int> {
        before.carried(ids, key, before.next_id(ids))
    }

    open spec fn probed(before: Sieve<K, V>, key: K) -> Sieve<K, V> {
        before.touch(key)
    }

    open spec fn counts(self) -> Stats {
        Stats::none()
    }

    open spec fn counting() -> bool {
        false
    }

    proof fn lemma_queue(self) {
        self.lemma_wf();
    }

    proof fn lemma_put(before: Sieve<K, V>, key: K, value: V) {
        before.law_insert(key, value);
        before.law_mark_of_inserted(key, value);
    }

    proof fn lemma_probed(before: Sieve<K, V>, key: K) {
    }

    fn empty_shard(capacity: usize) -> (shard: Self) {
        Shard::new(capacity)
    }

    fn shard_capacity(&self) -> (n: usize) {
        self.capacity()
    }

    fn shard_len(&self) -> (n: usize) {
        self.len()
    }

    fn shard_contains(&mut self, key: &K, hash: u64) -> (held: bool) {
        let ghost b = *self;
        let held: bool = self.contains(key, hash);
        proof {
            b.lemma_touched(*self, *key);
        }
        held
    }

    fn shard_get(&mut self, key: &K, hash: u64) -> (value: Option<V>) {
        let ghost b = *self;
        let value: Option<V> = self.get_by_hash(key, hash);
        proof {
            b.lemma_touched(*self, *key);
        }
        value
    }

    fn shard_insert(&mut self, key: K, value: V, hash: u64) -> (evicted: Option<(K, V)>) {
        let ghost b = *self;
        let evicted: Option<(K, V)> = self.insert(key, value, hash);
        proof {
            b.lemma_inserted(*self, key, value, hash);
        }
        evicted
    }
}

/// A cache of `SHARDS` shards.
pub struct ConcurrentSieveCache<K, V, const SHARDS: usize> {
    shards: ShardArray<Shard<K, V>>,
}

impl<K: CacheKey, V: Clone, const SHARDS: usize> ConcurrentSieveCache<K, V, SHARDS> {
    /// The shards behind the cache.
    pub closed spec fn array(self) -> ShardArray<Shard<K, V>> {
        self.shards
    }

    pub open spec fn wf(self) -> bool {
        self.array().wf() && self.array().queues().len() == SHARDS
    }

    /// The value cached under `key`.
    pub open spec fn lookup(self, key: K) -> Option<V> {
        self.array().lookup(key)
    }

    /// The queue of the shard that `key` belongs to.
    pub open spec fn queue_of(self, key: K) -> Sieve<K, V> {
        self.array().queues()[self.array().route(key)]
    }

    /// The arena slots of the shard that `key` belongs to.
    pub open spec fn ids_of(self, key: K) -> Seq<int> {
        self.array().ids()[self.array().route(key)]
    }

    /// An empty cache of `capacity` items.
    pub fn new(capacity: usize) -> (cache: Self)
        requires
            K::told_apart(),
            is_shard_count(SHARDS),
            SHARDS <= capacity,
            share(capacity as int, SHARDS as int, 0) <= MAX_PER_SHARD,
        ensures
            cache.wf(),
            cache.array().spec_capacity() == capacity,
            cache.array().spec_len() == 0,
            forall|key: K| #[trigger] cache.lookup(key) is None,
            forall|i: int|
                0 <= i < SHARDS ==> #[trigger] cache.array().queues()[i] == Sieve::<K, V>::empty(
                    share(capacity as int, SHARDS as int, i) as nat,
                ),
            cache.array().ids().len() == SHARDS,
            forall|i: int|
                0 <= i < SHARDS ==> #[trigger] cache.array().ids()[i] == Seq::<int>::empty(),
    {
        ConcurrentSieveCache { shards: ShardArray::new(capacity, SHARDS) }
    }

    /// Shard number `i`.
    pub fn shard(&self, i: usize) -> (shard: &Shard<K, V>)
        requires
            self.wf(),
            i < SHARDS,
        ensures
            shard.wf(),
            shard@ == self.array().queues()[i as int],
            shard.ids() == self.array().ids()[i as int],
    {
        self.shards.shard(i)
    }

    pub fn capacity(&self) -> (n: usize)
        requires
            self.wf(),
        ensures
            n == self.array().spec_capacity(),
    {
        self.shards.capacity()
    }

    pub fn len(&self) -> (n: usize)
        requires
            self.wf(),
        ensures
            n == self.array().spec_len(),
            n <= self.array().spec_capacity(),
    {
        self.shards.len()
    }

    pub fn is_empty(&self) -> (empty: bool)
        requires
            self.wf(),
        ensures
            empty == (self.array().spec_len() == 0),
    {
        self.shards.is_empty()
    }

    /// Whether `key` is cached; a hit is marked.
    pub fn contains_key(&mut self, key: &K) -> (held: bool)
        requires
            old(self).wf(),
        ensures
            final(self).wf(),
            held == (old(self).lookup(*key) is Some),
            final(self).array().selector() == old(self).array().selector(),
            final(self).array().queues() == old(self).array().queues().update(
                old(self).array().route(*key),
                old(self).queue_of(*key).touch(*key),
            ),
            final(self).array().ids() == old(self).array().ids(),
    {
        self.shards.contains_key(key)
    }

    /// The value cached under `key`; a hit is marked.
    pub fn get(&mut self, key: &K) -> (value: Option<V>)
        requires
            old(self).wf(),
        ensures
            final(self).wf(),
            read_of(old(self).lookup(*key), value),
            final(self).array().selector() == old(self).array().selector(),
            final(self).array().queues() == old(self).array().queues().update(
                old(self).array().route(*key),
                old(self).queue_of(*key).touch(*key),
            ),
            final(self).array().ids() == old(self).array().ids(),
    {
        self.shards.get(key)
    }

    /// Caches `value` under `key` and returns what that pushed out.
    pub fn insert(&mut self, key: K, value: V) -> (evicted: Option<(K, V)>)
        requires
            old(self).wf(),
        ensures
            final(self).wf(),
            evicted == old(self).queue_of(key).displaced(key),
            final(self).array().selector() == old(self).array().selector(),
            final(self).array().queues() == old(self).array().queues().update(
                old(self).array().route(key),
                old(self).queue_of(key).insert(key, value),
            ),
            final(self).array().ids() == old(self).array().ids().update(
                old(self).array().route(key),
                old(self).queue_of(key).carried(
                    old(self).ids_of(key),
                    key,
                    old(self).queue_of(key).next_id(old(self).ids_of(key)),
                ),
            ),
    {
        self.shards.insert(key, value)
    }
}

impl<K: CacheKey, V: Clone, const SHARDS: usize> ConcurrentCacheImpl<
    K,
    V,
> for ConcurrentSieveCache<K, V, SHARDS> {
    open spec fn valid(self) -> bool {
        self.wf()
    }

    open spec fn contents(self) -> spec_fn(K) -> Option<V> {
        |k: K| self.lookup(k)
    }

    open spec fn count(self) -> int {
        self.array().spec_len()
    }

    open spec fn limit(self) -> int {
        self.array().spec_capacity()
    }

    open spec fn admits(capacity: usize) -> bool {
        &&& K::told_apart()
        &&& is_shard_count(SHARDS)
        &&& SHARDS <= capacity
        &&& share(capacity as int, SHARDS as int, 0) <= MAX_PER_SHARD
    }

    fn with_capacity(capacity: usize) -> (cache: Self) {
        let cache: Self = ConcurrentSieveCache::new(capacity);
        assert forall|k: K| #[trigger] cache.contents()(k) is None by {
            assert(cache.lookup(k) is None);
        }
        cache
    }

    fn capacity(&self) -> (n: usize) {
        self.capacity()
    }

    fn len(&self) -> (n: usize) {
        let n: usize = self.len();
        assert(self.limit() == self.array().spec_capacity());
        n
    }

    fn contains_key(&mut self, key: &K) -> (held: bool) {
        let ghost before = *self;
        let held: bool = self.contains_key(key);
        proof {
            ShardArray::law_get(before.array(), *key, self.array());
            assert forall|k: K| #[trigger] self.contents()(k) == before.contents()(k) by {
                assert(self.array().lookup(k) == before.array().lookup(k));
            }
        }
        held
    }

    fn get(&mut self, key: &K) -> (value: Option<V>) {
        let ghost before = *self;
        let value: Option<V> = self.get(key);
        proof {
            ShardArray::law_get(before.array(), *key, self.array());
            assert forall|k: K| #[trigger] self.contents()(k) == before.contents()(k) by {
                assert(self.array().lookup(k) == before.array().lookup(k));
            }
        }
        value
    }

    fn insert(&mut self, key: K, value: V) -> (evicted: Option<(K, V)>) {
        let ghost before = *self;
        let evicted: Option<(K, V)> = self.insert(key, value);
        proof {
            ShardArray::law_insert(before.array(), key, value, self.array(), evicted);
            ShardArray::lemma_stored(before.array(), key, value, self.array(), evicted);
        }
        evicted
    }
}

} // verus!
