//! A shard without order upkeep: a new entry takes the place of the evicted one.
//!
//! The id of an entry is its position, a full shard never moves an entry, and the
//! hand goes round the positions. Every operation claims the slot that it writes by
//! its tag. The queue is in the order of places, not of insertion, so evictions
//! differ from those of a queue that is kept in order.
use crate::bits::{bit, has_bit, with_bit, without_bit};
use crate::experimental::ConcurrentCacheImpl;
use crate::hash::CacheKey;
use crate::model::{lemma_next_cold, Item, Sieve};
use crate::needle::{lemma_agree_in_place, lemma_agree_touch, tags_agree};
use crate::seqlock::{probe_by_tag, Probe};
use crate::shard::{read_of, CacheShard};
use crate::sharded::{is_shard_count, share, ShardArray};
use crate::shift_shard::Entry;
use crate::stats::Stats;
use crate::tag::{
    padded, padded_len, stride_of, zeroed, TagLayout, EMPTY, LIVE, MAX_PER_SHARD,
};
use vstd::prelude::*;

verus! {

/// The number of shards where none is given.
pub const DEFAULT_SHARDS: usize = 8;

/// One shard. Marks are the bits of one word, by position.
pub struct Shard<K, V> {
    capacity: usize,
    layout: TagLayout,
    tags: Vec<u16>,
    entries: Vec<Option<Entry<K, V>>>,
    visited: u64,
    hand: usize,
    len: usize,
}

impl<K: CacheKey, V: Clone> Shard<K, V> {
    spec fn item_at(self, i: int) -> Item<K, V> {
        Item {
            key: self.entries@[i]->0.key,
            value: self.entries@[i]->0.value,
            visited: bit(self.visited, i),
        }
    }

    pub closed spec fn view(self) -> Sieve<K, V> {
        Sieve {
            capacity: self.capacity as nat,
            items: Seq::new(self.len as nat, |i: int| self.item_at(i)),
            hand: self.hand as int,
        }
    }

    spec fn slot_ok(self, i: int) -> bool {
        &&& self.tags@[i] & LIVE != 0
        &&& self.layout.id(self.tags@[i]) == i
        &&& self.entries@[i] is Some
    }

    spec fn shape_ok(self) -> bool {
        &&& K::told_apart()
        &&& 0 < self.capacity <= MAX_PER_SHARD
        &&& self.layout.wf()
        &&& self.layout.hash_bits == 9
        &&& self.tags@.len() == padded(self.capacity as int)
        &&& self.tags@.len() >= self.capacity
        &&& self.entries@.len() == self.capacity
        &&& self.len <= self.capacity
        &&& self.hand == 0 || self.hand < self.len
    }

    /// The first `len` positions are live, each with its own number as id; the others
    /// are empty.
    pub closed spec fn wf(self) -> bool {
        &&& self.shape_ok()
        &&& forall|i: int| 0 <= i < self.len ==> #[trigger] self.slot_ok(i)
        &&& forall|i: int| self.len <= i < self.tags@.len() ==> #[trigger] self.tags@[i] == EMPTY
        &&& self@.keys_distinct()
    }

    /// The arena slots of the queued positions, oldest first.
    pub closed spec fn ids(self) -> Seq<int> {
        Seq::new(self.len as nat, |i: int| self.layout.id(self.tags@[i]))
    }

    /// The hash bits of the queued positions, oldest first.
    pub closed spec fn needles(self) -> Seq<u16> {
        Seq::new(self.len as nat, |i: int| self.tags@[i] & self.layout.scan_bits())
    }

    /// Whether `key`, where it is cached, has the hash bits `needle`.
    pub open spec fn carries(self, key: K, needle: u16) -> bool {
        tags_agree(self@, self.needles(), key, needle)
    }

    /// Whether `key`, where it is cached, was stored under a hash with the bits of
    /// `hash`.
    pub open spec fn agrees(self, key: K, hash: u64) -> bool {
        self.carries(key, self.tag_layout().needle(hash))
    }

    pub closed spec fn tag_layout(self) -> TagLayout {
        self.layout
    }

    /// The tag of position `i`.
    pub closed spec fn tag_at(self, i: int) -> u16 {
        self.tags@[i]
    }

    /// A well-formed shard stands for a well-formed queue; the id of every live tag is
    /// its position.
    pub proof fn lemma_wf(self)
        requires
            self.wf(),
        ensures
            self@.wf(),
            self@.capacity <= MAX_PER_SHARD,
            self.tag_layout().wf(),
            self.needles().len() == self@.len(),
            self.ids() == Seq::new(self@.len(), |i: int| i),
            forall|i: int|
                0 <= i < self@.len() ==> self.tag_layout().id(#[trigger] self.tag_at(i)) == i,
    {
        assert forall|i: int| 0 <= i < self@.len() implies self.tag_layout().id(
            #[trigger] self.tag_at(i),
        ) == i by {
            assert(self.slot_ok(i));
        }
        assert(self.ids() =~= Seq::new(self@.len(), |i: int| i)) by {
            assert forall|i: int| 0 <= i < self@.len() implies self.ids()[i] == i by {
                assert(self.slot_ok(i));
            }
        }
    }

    /// An empty shard.
    pub fn new(capacity: usize) -> (shard: Self)
        requires
            K::told_apart(),
            0 < capacity <= MAX_PER_SHARD,
        ensures
            shard.wf(),
            shard@ == Sieve::<K, V>::empty(capacity as nat),
            shard.ids() == Seq::<int>::empty(),
            shard.needles() == Seq::<u16>::empty(),
            shard.tag_layout() == TagLayout::for_stride(
                stride_of(core::mem::size_of::<Entry<K, V>>(), 1),
                9,
            ),
    {
        let layout: TagLayout = TagLayout::for_entries(core::mem::size_of::<Entry<K, V>>(), 1, 9);
        let order_cap: usize = padded_len(capacity);
        let tags: Vec<u16> = zeroed(order_cap);
        let mut entries: Vec<Option<Entry<K, V>>> = Vec::with_capacity(capacity);
        while entries.len() < capacity
            invariant
                entries@.len() <= capacity,
            decreases capacity - entries@.len(),
        {
            entries.push(None);
        }
        let shard: Self = Shard { capacity, layout, tags, entries, visited: 0, hand: 0, len: 0 };
        assert(shard@.items =~= Seq::<Item<K, V>>::empty());
        shard
    }

    pub fn capacity(&self) -> (n: usize)
        ensures
            n == self@.capacity,
    {
        self.capacity
    }

    pub fn len(&self) -> (n: usize)
        ensures
            n == self@.len(),
    {
        self.len
    }

    pub fn is_empty(&self) -> (empty: bool)
        ensures
            empty == (self@.len() == 0),
    {
        self.len == 0
    }

    /// The layout of the shard's tags.
    pub fn layout(&self) -> (layout: TagLayout)
        ensures
            layout == self.tag_layout(),
    {
        self.layout
    }

    /// The tag of position `pos`.
    pub fn tag(&self, pos: usize) -> (tag: u16)
        requires
            self.wf(),
            pos < self@.len(),
        ensures
            tag == self.tag_at(pos as int),
            tag & LIVE != 0,
    {
        assert(self.slot_ok(pos as int));
        self.tags[pos]
    }

    /// Whether the item at position `pos` is marked.
    pub fn marked(&self, pos: usize) -> (mark: bool)
        requires
            self.wf(),
            pos < self@.len(),
        ensures
            mark == self@.items[pos as int].visited,
    {
        has_bit(self.visited, pos)
    }

    /// Whether position `pos` holds `key`, read between two loads of its tag.
    fn try_candidate(&self, pos: usize, key: &K, needle: u16) -> (found: bool)
        requires
            self.wf(),
            pos < self.tags@.len(),
            self.carries(*key, needle),
            self.layout.is_needle(needle),
        ensures
            found == self@.at(pos as int, *key),
    {
        let t1: u16 = self.tags[pos];
        if pos >= self.len {
            return false;
        }
        assert(self.slot_ok(pos as int));
        assert(self@.items[pos as int] == self.item_at(pos as int));
        assert(self@.at(pos as int, *key) ==> self.needles()[pos as int] == needle);
        let id: usize = self.layout.id_of(t1);
        let same: bool = self.entries[id].as_ref().unwrap().key.same_key(key);
        let t2: u16 = self.tags[pos];
        match probe_by_tag(&self.layout, needle, t1, t2, same) {
            Probe::Found(_) => true,
            _ => false,
        }
    }

    /// The position of `key`.
    fn find_lockfree(&self, key: &K, needle: u16) -> (found: Option<usize>)
        requires
            self.wf(),
            self.carries(*key, needle),
            self.layout.is_needle(needle),
        ensures
            match found {
                Some(pos) => self@.at(pos as int, *key),
                None => !self@.holds(*key),
            },
    {
        let mut i: usize = 0;
        while i < self.tags.len()
            invariant
                self.wf(),
                i <= self.tags@.len(),
                self.carries(*key, needle),
                self.layout.is_needle(needle),
                forall|j: int| 0 <= j < i ==> !#[trigger] self@.at(j, *key),
            decreases self.tags@.len() - i,
        {
            if self.try_candidate(i, key, needle) {
                return Some(i);
            }
            i = i + 1;
        }
        None
    }

    /// The value cached under `key`; a hit is marked.
    pub fn get_by_hash(&mut self, key: &K, hash: u64) -> (value: Option<V>)
        requires
            old(self).wf(),
            old(self).agrees(*key, hash),
        ensures
            final(self).wf(),
            read_of(old(self)@.lookup(*key), value),
            final(self)@ == old(self)@.touch(*key),
            final(self).tag_layout() == old(self).tag_layout(),
            forall|i: int| #[trigger] final(self).tag_at(i) == old(self).tag_at(i),
            final(self).ids() == old(self).ids(),
            final(self).needles() == old(self).needles(),
    {
        let needle: u16 = self.layout.needle_from_hash(hash);
        match self.find_lockfree(key, needle) {
            Some(pos) => {
                proof {
                    self@.lemma_position(*key, pos as int);
                    assert(self.slot_ok(pos as int));
                    assert(self@.items[pos as int] == self.item_at(pos as int));
                }
                let value: V = self.entries[pos].as_ref().unwrap().value.clone();
                self.visited = with_bit(self.visited, pos);
                proof {
                    let b = *old(self);
                    assert(self@.items =~= b@.touch(*key).items);
                    b@.law_touch(*key);
                    assert forall|i: int| 0 <= i < self.len implies #[trigger] self.slot_ok(i) by {
                        assert(b.slot_ok(i));
                    }
                }
                Some(value)
            },
            None => None,
        }
    }

    /// Whether `key` is cached; a hit is marked.
    pub fn contains(&mut self, key: &K, hash: u64) -> (held: bool)
        requires
            old(self).wf(),
            old(self).agrees(*key, hash),
        ensures
            final(self).wf(),
            held == old(self)@.holds(*key),
            final(self)@ == old(self)@.touch(*key),
            final(self).tag_layout() == old(self).tag_layout(),
            forall|i: int| #[trigger] final(self).tag_at(i) == old(self).tag_at(i),
            final(self).ids() == old(self).ids(),
            final(self).needles() == old(self).needles(),
    {
        self.get_by_hash(key, hash).is_some()
    }

    /// Caches `value` under `key` and returns what that pushed out.
    pub fn insert(&mut self, key: K, value: V, hash: u64) -> (evicted: Option<(K, V)>)
        requires
            old(self).wf(),
            old(self).agrees(key, hash),
        ensures
            final(self).wf(),
            final(self)@ == old(self)@.insert_in_place(key, value),
            evicted == old(self)@.displaced(key),
            final(self).tag_layout() == old(self).tag_layout(),
            final(self).ids() == old(self)@.carried_in_place(
                old(self).ids(),
                key,
                old(self)@.next_id(old(self).ids()),
            ),
            final(self).needles() == old(self)@.carried_in_place(
                old(self).needles(),
                key,
                old(self).tag_layout().needle(hash),
            ),
    {
        let needle: u16 = self.layout.needle_from_hash(hash);
        proof {
            self@.law_insert_in_place(key, value);
        }
        match self.find_lockfree(&key, needle) {
            Some(pos) => {
                proof {
                    self@.lemma_position(key, pos as int);
                }
                self.install(pos, key, value, needle);
                self.visited = with_bit(self.visited, pos);
                proof {
                    let b = *old(self);
                    let want = b@.update(key, value);
                    assert(self@.items =~= want.items) by {
                        assert forall|i: int| 0 <= i < self.len implies self@.items[i]
                            == want.items[i] by {
                            assert(self@.items[i] == self.item_at(i));
                            assert(b@.items[i] == b.item_at(i));
                        }
                    }
                    assert forall|i: int| 0 <= i < self.len implies #[trigger] self.slot_ok(i) by {
                        assert(b.slot_ok(i));
                    }
                    assert(b.needles()[pos as int] == needle);
                    assert(self.needles() =~= b.needles());
                    self.lemma_ids();
                    b.lemma_ids();
                }
                None
            },
            None => {
                if self.len < self.capacity {
                    let pos: usize = self.len;
                    self.install(pos, key, value, needle);
                    self.visited = without_bit(self.visited, pos);
                    self.len = pos + 1;
                    proof {
                        let b = *old(self);
                        let want = b@.append(key, value);
                        assert(self@.items =~= want.items) by {
                            assert forall|i: int| 0 <= i < self.len implies self@.items[i]
                                == want.items[i] by {
                                assert(self@.items[i] == self.item_at(i));
                                if i < pos {
                                    assert(b@.items[i] == b.item_at(i));
                                }
                            }
                        }
                        assert forall|i: int| 0 <= i < self.len implies #[trigger] self.slot_ok(i) by {
                            if i < pos {
                                assert(b.slot_ok(i));
                            }
                        }
                        assert(self.needles() =~= b.needles().push(needle));
                        self.lemma_ids();
                        b.lemma_ids();
                        assert(self.ids() =~= b.ids().push(pos as int));
                    }
                    None
                } else {
                    let ghost start = *self;
                    let (pos, evicted): (usize, (K, V)) = self.evict_one();
                    self.install(pos, key, value, needle);
                    self.visited = without_bit(self.visited, pos);
                    proof {
                        let want = start@.insert_in_place(key, value);
                        start@.lemma_sweep();
                        assert(self@.items =~= want.items) by {
                            assert forall|i: int| 0 <= i < self.len implies self@.items[i]
                                == want.items[i] by {
                                assert(self@.items[i] == self.item_at(i));
                                assert(start@.items[i] == start.item_at(i));
                                assert(start@.swept()[i].key == start@.items[i].key);
                            }
                        }
                        assert forall|i: int| 0 <= i < self.len implies #[trigger] self.slot_ok(i) by {
                            assert(start.slot_ok(i));
                        }
                        assert(self.needles() =~= start.needles().update(pos as int, needle));
                        self.lemma_ids();
                        start.lemma_ids();
                        assert(self.ids() =~= start.ids().update(
                            pos as int,
                            start.ids()[pos as int],
                        ));
                    }
                    Some(evicted)
                }
            },
        }
    }

    /// Each position has itself as id.
    proof fn lemma_ids(self)
        requires
            forall|i: int| 0 <= i < self.len ==> #[trigger] self.slot_ok(i),
        ensures
            self.ids() == Seq::new(self.len as nat, |i: int| i),
    {
        assert(self.ids() =~= Seq::new(self.len as nat, |i: int| i)) by {
            assert forall|i: int| 0 <= i < self.len implies self.ids()[i] == i by {
                assert(self.slot_ok(i));
            }
        }
    }

    /// Writes entry and tag of position `pos`.
    fn install(&mut self, pos: usize, key: K, value: V, needle: u16)
        requires
            old(self).shape_ok(),
            pos < old(self).capacity,
            old(self).layout.is_needle(needle),
        ensures
            final(self).shape_ok(),
            final(self).tags@[pos as int] & final(self).layout.scan_bits() == needle,
            final(self).slot_ok(pos as int),
            final(self).capacity == old(self).capacity,
            final(self).layout == old(self).layout,
            final(self).visited == old(self).visited,
            final(self).hand == old(self).hand,
            final(self).len == old(self).len,
            final(self).entries@ == old(self).entries@.update(
                pos as int,
                Some(Entry { key, value }),
            ),
            final(self).tags@.len() == old(self).tags@.len(),
            forall|i: int|
                0 <= i < old(self).tags@.len() && i != pos ==> #[trigger] final(self).tags@[i]
                    == old(self).tags@[i],
    {
        self.entries[pos] = Some(Entry { key, value });
        self.tags.set(pos, self.layout.encode(pos, needle));
    }

    /// Lets the hand go round: past marked positions, which lose their marks, to the
    /// first unmarked one. That position is emptied, and the hand goes one further.
    fn evict_one(&mut self) -> (evicted: (usize, (K, V)))
        requires
            old(self).wf(),
            old(self)@.full(),
        ensures
            final(self).shape_ok(),
            final(self).capacity == old(self).capacity,
            final(self).layout == old(self).layout,
            final(self).len == old(self).len,
            evicted.0 == old(self)@.victim(),
            evicted.0 < old(self).len,
            evicted.1.0 == old(self)@.items[evicted.0 as int].key,
            evicted.1.1 == old(self)@.items[evicted.0 as int].value,
            final(self).hand == (if evicted.0 + 1 < old(self).len {
                evicted.0 + 1
            } else {
                0
            }),
            forall|i: int|
                0 <= i < old(self).len ==> bit(final(self).visited, i)
                    == (#[trigger] old(self)@.swept()[i]).visited,
            final(self).tags@.len() == old(self).tags@.len(),
            forall|i: int|
                0 <= i < old(self).tags@.len() && i != evicted.0 ==> #[trigger] final(self).tags@[i]
                    == old(self).tags@[i],
            final(self).entries@.len() == old(self).entries@.len(),
            forall|i: int|
                0 <= i < old(self).len && i != evicted.0 ==> #[trigger] final(self).entries@[i]
                    == old(self).entries@[i],
    {
        let cap: usize = self.capacity;
        let ghost b = *self;
        let ghost start = self.hand as int;
        let ghost mut n: int = 0;
        loop
            invariant
                b == *old(self),
                b.wf(),
                b@.full(),
                cap == b.capacity,
                start == b.hand,
                start < cap,
                0 <= n <= cap,
                self.capacity == b.capacity,
                self.layout == b.layout,
                self.tags == b.tags,
                self.entries == b.entries,
                self.len == b.len,
                self.hand == (if start + n < cap {
                    start + n
                } else {
                    start + n - cap
                }),
                forall|j: int|
                    start <= j < start + n && j < cap || 0 <= j < start + n - cap ==> #[trigger] bit(
                        b.visited,
                        j,
                    ),
                forall|j: int|
                    0 <= j < 64 ==> #[trigger] bit(self.visited, j) == (bit(b.visited, j) && !(start
                        <= j < start + n && j < cap || 0 <= j < start + n - cap)),
            decreases cap - n,
        {
            let pos: usize = self.hand;
            self.hand = if pos + 1 < cap {
                pos + 1
            } else {
                0
            };
            if has_bit(self.visited, pos) {
                self.visited = without_bit(self.visited, pos);
                proof {
                    n = n + 1;
                }
            } else {
                proof {
                    Self::lemma_stop(b, start, n, pos as int);
                    assert(b.slot_ok(pos as int));
                    assert(b@.items[pos as int] == b.item_at(pos as int));
                    let sw = b@.swept();
                    assert forall|i: int| 0 <= i < b.len implies bit(self.visited, i)
                        == (#[trigger] sw[i]).visited by {
                        assert(b@.items[i] == b.item_at(i));
                    }
                }
                self.tags.set(pos, EMPTY);
                let mut slot: Option<Entry<K, V>> = None;
                std::mem::swap(&mut self.entries[pos], &mut slot);
                let entry: Entry<K, V> = slot.unwrap();
                return (pos, (entry.key, entry.value));
            }
        }
    }

    /// Where the hand stops after `n` marked positions is the victim of the queue.
    proof fn lemma_stop(b: Self, start: int, n: int, pos: int)
        requires
            b.wf(),
            b@.full(),
            start == b.hand,
            start < b.capacity,
            0 <= n <= b.capacity,
            pos == (if start + n < b.capacity {
                start + n
            } else {
                start + n - b.capacity
            }),
            forall|j: int|
                start <= j < start + n && j < b.capacity || 0 <= j < start + n - b.capacity
                    ==> #[trigger] bit(b.visited, j),
            n < b.capacity ==> !bit(b.visited, pos),
        ensures
            pos == b@.victim(),
            forall|i: int|
                0 <= i < b.len ==> (#[trigger] b@.swept()[i]).visited == (bit(b.visited, i) && !(start
                    <= i < start + n && i < b.capacity || 0 <= i < start + n - b.capacity)),
    {
        let cap = b.capacity as int;
        let items = b@.items;
        assert forall|j: int| 0 <= j < cap implies (#[trigger] items[j]).visited == bit(
            b.visited,
            j,
        ) by {
            assert(items[j] == b.item_at(j));
        }
        if start + n < cap {
            lemma_next_cold(items, start, cap, start + n);
        } else {
            lemma_next_cold(items, start, cap, cap);
            if n < cap {
                lemma_next_cold(items, 0, start, pos);
            } else {
                lemma_next_cold(items, 0, start, start);
            }
        }
    }

    /// What was to be found is still found after a read.
    pub proof fn lemma_touched(self, to: Self, key: K)
        requires
            self.wf(),
            to@ == self@.touch(key),
            to.needles() == self.needles(),
            to.tag_layout() == self.tag_layout(),
        ensures
            forall|k: K, h: u64| self.agrees(k, h) ==> #[trigger] to.agrees(k, h),
    {
        self.lemma_wf();
        assert forall|k: K, h: u64| self.agrees(k, h) implies #[trigger] to.agrees(k, h) by {
            lemma_agree_touch(self@, self.needles(), key, k, self.tag_layout().needle(h));
        }
    }

    /// What was to be found is still found after an insert, and so is the new key.
    pub proof fn lemma_inserted(self, to: Self, key: K, value: V, hash: u64)
        requires
            self.wf(),
            self.agrees(key, hash),
            to@ == self@.insert_in_place(key, value),
            to.needles() == self@.carried_in_place(self.needles(), key, self.tag_layout().needle(hash)),
            to.tag_layout() == self.tag_layout(),
        ensures
            forall|k: K, h: u64| k != key && self.agrees(k, h) ==> #[trigger] to.agrees(k, h),
            to.agrees(key, hash),
    {
        self.lemma_wf();
        let new = self.tag_layout().needle(hash);
        assert forall|k: K, h: u64| k != key && self.agrees(k, h) implies #[trigger] to.agrees(
            k,
            h,
        ) by {
            let needle = self.tag_layout().needle(h);
            lemma_agree_in_place(self@, self.needles(), key, value, new, k, needle);
        }
        lemma_agree_in_place(self@, self.needles(), key, value, new, key, new);
    }

    /// The number of live tags.
    pub fn live_count(&self) -> (n: usize)
        requires
            self.wf(),
        ensures
            n == self@.len(),
    {
        let mut n: usize = 0;
        let mut i: usize = 0;
        while i < self.tags.len()
            invariant
                self.wf(),
                i <= self.tags@.len(),
                n == (if i < self.len {
                    i
                } else {
                    self.len
                }),
            decreases self.tags@.len() - i,
        {
            proof {
                if i < self.len {
                    assert(self.slot_ok(i as int));
                }
                assert(0u16 & 0x8000u16 == 0) by (bit_vector);
            }
            if self.tags[i] & LIVE != 0 {
                n = n + 1;
            }
            i = i + 1;
        }
        n
    }

    /// The live positions, each with the id in its tag.
    pub fn live_positions(&self) -> (pairs: Vec<(usize, usize)>)
        requires
            self.wf(),
        ensures
            pairs@.len() == self@.len(),
            forall|i: int|
                0 <= i < pairs@.len() ==> #[trigger] pairs@[i] == (i as usize, i as usize),
    {
        let mut pairs: Vec<(usize, usize)> = Vec::new();
        let mut i: usize = 0;
        while i < self.tags.len()
            invariant
                self.wf(),
                i <= self.tags@.len(),
                pairs@.len() == (if i < self.len {
                    i
                } else {
                    self.len
                }),
                forall|j: int|
                    0 <= j < pairs@.len() ==> #[trigger] pairs@[j] == (j as usize, j as usize),
            decreases self.tags@.len() - i,
        {
            proof {
                if i < self.len {
                    assert(self.slot_ok(i as int));
                }
                assert(0u16 & 0x8000u16 == 0) by (bit_vector);
            }
            let t: u16 = self.tags[i];
            if t & LIVE != 0 {
                pairs.push((i, self.layout.id_of(t)));
            }
            i = i + 1;
        }
        pairs
    }
}

impl<K: CacheKey, V: Clone> CacheShard for Shard<K, V> {
    type Key = K;

    type Value = V;

    closed spec fn wf(self) -> bool {
        Shard::wf(self)
    }

    closed spec fn queue(self) -> Sieve<K, V> {
        self@
    }

    open spec fn put(before: Sieve<K, V>, key: K, value: V) -> Sieve<K, V> {
        before.insert_in_place(key, value)
    }

    closed spec fn agrees(self, key: K, hash: u64) -> bool {
        Shard::agrees(self, key, hash)
    }

    closed spec fn ids(self) -> Seq<int> {
        Shard::ids(self)
    }

    open spec fn put_ids(before: Sieve<K, V>, ids: Seq<int>, key: K) -> Seq<int> {
        before.carried_in_place(ids, key, before.next_id(ids))
    }

    open spec fn probed(before: Sieve<K, V>, key: K) -> Sieve<K, V> {
        before.touch(key)
    }

    open spec fn counts(self) -> Stats {
        Stats::none()
    }

    open spec fn counting() -> bool {
        false
    }

    proof fn lemma_queue(self) {
        self.lemma_wf();
    }

    proof fn lemma_put(before: Sieve<K, V>, key: K, value: V) {
        before.law_insert_in_place(key, value);
        before.law_mark_of_inserted(key, value);
    }

    proof fn lemma_probed(before: Sieve<K, V>, key: K) {
    }

    fn empty_shard(capacity: usize) -> (shard: Self) {
        Shard::new(capacity)
    }

    fn shard_capacity(&self) -> (n: usize) {
        self.capacity()
    }

    fn shard_len(&self) -> (n: usize) {
        self.len()
    }

    fn shard_contains(&mut self, key: &K, hash: u64) -> (held: bool) {
        let ghost b = *self;
        let held: bool = self.contains(key, hash);
        proof {
            b.lemma_touched(*self, *key);
        }
        held
    }

    fn shard_get(&mut self, key: &K, hash: u64) -> (value: Option<V>) {
        let ghost b = *self;
        let value: Option<V> = self.get_by_hash(key, hash);
        proof {
            b.lemma_touched(*self, *key);
        }
        value
    }

    fn shard_insert(&mut self, key: K, value: V, hash: u64) -> (evicted: Option<(K, V)>) {
        let ghost b = *self;
        let evicted: Option<(K, V)> = self.insert(key, value, hash);
        proof {
            b.lemma_inserted(*self, key, value, hash);
        }
        evicted
    }
}

/// A cache of `SHARDS` shards.
pub struct ConcurrentSieveCache<K, V, const SHARDS: usize> {
    shards: ShardArray<Shard<K, V>>,
}

impl<K: CacheKey, V: Clone, const SHARDS: usize> ConcurrentSieveCache<K, V, SHARDS> {
    /// The shards behind the cache.
    pub closed spec fn array(self) -> ShardArray<Shard<K, V>> {
        self.shards
    }

    pub open spec fn wf(self) -> bool {
        self.array().wf() && self.array().queues().len() == SHARDS
    }

    /// The value cached under `key`.
    pub open spec fn lookup(self, key: K) -> Option<V> {
        self.array().lookup(key)
    }

    /// The queue of the shard that `key` belongs to.
    pub open spec fn queue_of(self, key: K) -> Sieve<K, V> {
        self.array().queues()[self.array().route(key)]
    }

    /// The arena slots of the shard that `key` belongs to.
    pub open spec fn ids_of(self, key: K) -> Seq<int> {
        self.array().ids()[self.array().route(key)]
    }

    /// An empty cache of `capacity` items.
    pub fn new(capacity: usize) -> (cache: Self)
        requires
            K::told_apart(),
            is_shard_count(SHARDS),
            SHARDS <= capacity,
            share(capacity as int, SHARDS as int, 0) <= MAX_PER_SHARD,
        ensures
            cache.wf(),
            cache.array().spec_capacity() == capacity,
            cache.array().spec_len() == 0,
            forall|key: K| #[trigger] cache.lookup(key) is None,
            forall|i: int|
                0 <= i < SHARDS ==> #[trigger] cache.array().queues()[i] == Sieve::<K, V>::empty(
                    share(capacity as int, SHARDS as int, i) as nat,
                ),
            cache.array().ids().len() == SHARDS,
            forall|i: int|
                0 <= i < SHARDS ==> #[trigger] cache.array().ids()[i] == Seq::<int>::empty(),
    {
        ConcurrentSieveCache { shards: ShardArray::new(capacity, SHARDS) }
    }

    /// Shard number `i`.
    pub fn shard(&self, i: usize) -> (shard: &Shard<K, V>)
        requires
            self.wf(),
            i < SHARDS,
        ensures
            shard.wf(),
            shard@ == self.array().queues()[i as int],
            shard.ids() == self.array().ids()[i as int],
    {
        self.shards.shard(i)
    }

    pub fn capacity(&self) -> (n: usize)
        requires
            self.wf(),
        ensures
            n == self.array().spec_capacity(),
    {
        self.shards.capacity()
    }

    pub fn len(&self) -> (n: usize)
        requires
            self.wf(),
        ensures
            n == self.array().spec_len(),
            n <= self.array().spec_capacity(),
    {
        self.shards.len()
    }

    pub fn is_empty(&self) -> (empty: bool)
        requires
            self.wf(),
        ensures
            empty == (self.array().spec_len() == 0),
    {
        self.shards.is_empty()
    }

    /// Whether `key` is cached; a hit is marked.
    pub fn contains_key(&mut self, key: &K) -> (held: bool)
        requires
            old(self).wf(),
        ensures
            final(self).wf(),
            held == (old(self).lookup(*key) is Some),
            final(self).array().selector() == old(self).array().selector(),
            final(self).array().queues() == old(self).array().queues().update(
                old(self).array().route(*key),
                old(self).queue_of(*key).touch(*key),
            ),
            final(self).array().ids() == old(self).array().ids(),
    {
        self.shards.contains_key(key)
    }

    /// The value cached under `key`; a hit is marked.
    pub fn get(&mut self, key: &K) -> (value: Option<V>)
        requires
            old(self).wf(),
        ensures
            final(self).wf(),
            read_of(old(self).lookup(*key), value),
            final(self).array().selector() == old(self).array().selector(),
            final(self).array().queues() == old(self).array().queues().update(
                old(self).array().route(*key),
                old(self).queue_of(*key).touch(*key),
            ),
            final(self).array().ids() == old(self).array().ids(),
    {
        self.shards.get(key)
    }

    /// Caches `value` under `key` and returns what that pushed out.
    pub fn insert(&mut self, key: K, value: V) -> (evicted: Option<(K, V)>)
        requires
            old(self).wf(),
        ensures
            final(self).wf(),
            evicted == old(self).queue_of(key).displaced(key),
            final(self).array().selector() == old(self).array().selector(),
            final(self).array().queues() == old(self).array().queues().update(
                old(self).array().route(key),
                old(self).queue_of(key).insert_in_place(key, value),
            ),
            final(self).array().ids() == old(self).array().ids().update(
                old(self).array().route(key),
                old(self).queue_of(key).carried_in_place(
                    old(self).ids_of(key),
                    key,
                    old(self).queue_of(key).next_id(old(self).ids_of(key)),
                ),
            ),
    {
        self.shards.insert(key, value)
    }
}

impl<K: CacheKey, V: Clone, const SHARDS: usize> ConcurrentCacheImpl<
    K,
    V,
> for ConcurrentSieveCache<K, V, SHARDS> {
    open spec fn valid(self) -> bool {
        self.wf()
    }

    open spec fn contents(self) -> spec_fn(K) -> Option<V> {
        |k: K| self.lookup(k)
    }

    open spec fn count(self) -> int {
        self.array().spec_len()
    }

    open spec fn limit(self) -> int {
        self.array().spec_capacity()
    }

    open spec fn admits(capacity: usize) -> bool {
        &&& K::told_apart()
        &&& is_shard_count(SHARDS)
        &&& SHARDS <= capacity
        &&& share(capacity as int, SHARDS as int, 0) <= MAX_PER_SHARD
    }

    fn with_capacity(capacity: usize) -> (cache: Self) {
        let cache: Self = ConcurrentSieveCache::new(capacity);
        assert forall|k: K| #[trigger] cache.contents()(k) is None by {
            assert(cache.lookup(k) is None);
        }
        cache
    }

    fn capacity(&self) -> (n: usize) {
        self.capacity()
    }

    fn len(&self) -> (n: usize) {
        let n: usize = self.len();
        assert(self.limit() == self.array().spec_capacity());
        n
    }

    fn contains_key(&mut self, key: &K) -> (held: bool) {
        let ghost before = *self;
        let held: bool = self.contains_key(key);
        proof {
            ShardArray::law_get(before.array(), *key, self.array());
            assert forall|k: K| #[trigger] self.contents()(k) == before.contents()(k) by {
                assert(self.array().lookup(k) == before.array().lookup(k));
            }
        }
        held
    }

    fn get(&mut self, key: &K) -> (value: Option<V>) {
        let ghost before = *self;
        let value: Option<V> = self.get(key);
        proof {
            ShardArray::law_get(before.array(), *key, self.array());
            assert forall|k: K| #[trigger] self.contents()(k) == before.contents()(k) by {
                assert(self.array().lookup(k) == before.array().lookup(k));
            }
        }
        value
    }

    fn insert(&mut self, key: K, value: V) -> (evicted: Option<(K, V)>) {
        let ghost before = *self;
        let evicted: Option<(K, V)> = self.insert(key, value);
        proof {
            ShardArray::law_insert(before.array(), key, value, self.array(), evicted);
            ShardArray::lemma_stored(before.array(), key, value, self.array(), evicted);
        }
        evicted
    }
}

} // verus!
