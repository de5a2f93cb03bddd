//! A shard that keeps its marks in the tags and counts its traffic.
//!
//! Bit 14 of a tag is the mark, so a hit writes the tag that it found. The queue has no
//! gaps: an eviction moves the tags behind the victim down by one. Each operation of a
//! shard runs under the shard's lock.
use crate::hash::CacheKey;
use crate::model::{cool, lemma_next_cold, lemma_next_cold_bounds, next_cold, Item, Sieve};
use crate::needle::{lemma_agree_insert, lemma_agree_touch, tags_agree};
use crate::shard::{read_of, CacheShard, CountingShard};
use crate::sharded::{is_shard_count, share, total_counts, ShardArray};
use crate::shift_shard::Entry;
use crate::stats::Stats;
use crate::tag::{
    padded, padded_len, stride_of, zeroed, TagLayout, EMPTY, LIVE, MAX_PER_SHARD, SPARE,
};
use vstd::prelude::*;

verus! {

/// The mark in a tag.
pub const VISITED: u16 = SPARE;

/// One shard.
pub struct Shard<K, V> {
    capacity: usize,
    layout: TagLayout,
    tags: Vec<u16>,
    entries: Vec<Option<Entry<K, V>>>,
    hand: usize,
    len: usize,
    stats: Stats,
}

impl<K: CacheKey, V> Shard<K, V> {
    /// The arena slot of position `i`.
    pub closed spec fn id_at(self, i: int) -> int {
        self.layout.id(self.tags@[i])
    }

    /// The tag of position `i`.
    pub closed spec fn tag_at(self, i: int) -> u16 {
        self.tags@[i]
    }

    pub closed spec fn tag_layout(self) -> TagLayout {
        self.layout
    }

    /// The arena slots of the queued positions, oldest first.
    pub closed spec fn ids(self) -> Seq<int> {
        Seq::new(self.len as nat, |i: int| self.id_at(i))
    }

    /// The hash bits of the queued positions, oldest first.
    pub closed spec fn needles(self) -> Seq<u16> {
        Seq::new(self.len as nat, |i: int| self.tags@[i] & self.layout.scan_bits())
    }

    /// Whether `key`, where it is cached, has the hash bits `needle`.
    pub open spec fn carries(self, key: K, needle: u16) -> bool {
        tags_agree(self@, self.needles(), key, needle)
    }

    /// Whether `key`, where it is cached, was stored under a hash with the bits of
    /// `hash`.
    pub open spec fn agrees(self, key: K, hash: u64) -> bool {
        self.carries(key, self.tag_layout().needle(hash))
    }

    /// The traffic so far.
    pub closed spec fn traffic(self) -> Stats {
        self.stats
    }

    spec fn entry_at(self, i: int) -> Entry<K, V> {
        self.entries@[self.id_at(i)]->0
    }

    spec fn item_at(self, i: int) -> Item<K, V> {
        Item {
            key: self.entry_at(i).key,
            value: self.entry_at(i).value,
            visited: self.tags@[i] & VISITED != 0,
        }
    }

    pub closed spec fn view(self) -> Sieve<K, V> {
        Sieve {
            capacity: self.capacity as nat,
            items: Seq::new(self.len as nat, |i: int| self.item_at(i)),
            hand: self.hand as int,
        }
    }

    spec fn shape_ok(self) -> bool {
        &&& K::told_apart()
        &&& 0 < self.capacity <= MAX_PER_SHARD
        &&& self.layout.wf()
        &&& self.layout.hash_bits == 8
        &&& self.tags@.len() == padded(self.capacity as int)
        &&& self.tags@.len() >= self.capacity
        &&& self.entries@.len() == self.capacity
        &&& self.len <= self.capacity
        &&& self.hand == 0 || self.hand < self.len
    }

    spec fn slot_ok(self, i: int) -> bool {
        &&& self.tags@[i] & LIVE != 0
        &&& 0 <= self.id_at(i) < self.len
        &&& self.entries@[self.id_at(i)] is Some
    }

    spec fn slots_ok(self) -> bool {
        &&& forall|i: int| 0 <= i < self.len ==> #[trigger] self.slot_ok(i)
        &&& forall|i: int| self.len <= i < self.tags@.len() ==> #[trigger] self.tags@[i] == EMPTY
        &&& forall|i: int, j: int|
            0 <= i < self.len && 0 <= j < self.len && i != j ==> #[trigger] self.id_at(i)
                != #[trigger] self.id_at(j)
    }

    /// Every queued tag is live and points at its own entry; no two keys are equal.
    pub closed spec fn wf(self) -> bool {
        &&& self.shape_ok()
        &&& self.slots_ok()
        &&& self@.keys_distinct()
    }

    /// The shard stands for a well-formed queue, and its ids are `0..len`, each once.
    pub proof fn lemma_wf(self)
        requires
            self.wf(),
        ensures
            self@.wf(),
            self@.capacity <= MAX_PER_SHARD,
            self.tag_layout().wf(),
            self.needles().len() == self@.len(),
            self.ids().len() == self@.len(),
            forall|i: int| 0 <= i < self@.len() ==> #[trigger] self.ids()[i] == self.id_at(i),
            forall|i: int| 0 <= i < self@.len() ==> 0 <= #[trigger] self.id_at(i) < self@.len(),
            forall|i: int, j: int|
                0 <= i < self@.len() && 0 <= j < self@.len() && i != j ==> #[trigger] self.id_at(i)
                    != #[trigger] self.id_at(j),
    {
        assert forall|i: int| 0 <= i < self@.len() implies 0 <= #[trigger] self.id_at(i)
            < self@.len() by {
            assert(self.slot_ok(i));
        }
    }

    /// An empty shard.
    pub fn new(capacity: usize) -> (shard: Self)
        requires
            K::told_apart(),
            0 < capacity <= MAX_PER_SHARD,
        ensures
            shard.wf(),
            shard@ == Sieve::<K, V>::empty(capacity as nat),
            shard.traffic() == Stats::none(),
            shard.ids() == Seq::<int>::empty(),
            shard.needles() == Seq::<u16>::empty(),
            shard.tag_layout() == TagLayout::for_stride(
                stride_of(core::mem::size_of::<Entry<K, V>>(), 1),
                8,
            ),
    {
        let layout: TagLayout = TagLayout::for_entries(core::mem::size_of::<Entry<K, V>>(), 1, 8);
        let tags: Vec<u16> = zeroed(padded_len(capacity));
        let mut entries: Vec<Option<Entry<K, V>>> = Vec::with_capacity(capacity);
        while entries.len() < capacity
            invariant
                entries@.len() <= capacity,
            decreases capacity - entries@.len(),
        {
            entries.push(None);
        }
        let shard: Self = Shard {
            capacity,
            layout,
            tags,
            entries,
            hand: 0,
            len: 0,
            stats: Stats::new(),
        };
        assert(shard@.items =~= Seq::<Item<K, V>>::empty());
        shard
    }

    pub fn capacity(&self) -> (n: usize)
        ensures
            n == self@.capacity,
    {
        self.capacity
    }

    pub fn len(&self) -> (n: usize)
        ensures
            n == self@.len(),
    {
        self.len
    }

    /// The layout of the shard's tags.
    pub fn layout(&self) -> (layout: TagLayout)
        ensures
            layout == self.tag_layout(),
    {
        self.layout
    }

    /// The tag of position `pos`.
    pub fn tag(&self, pos: usize) -> (tag: u16)
        requires
            self.wf(),
            pos < self@.len(),
        ensures
            tag == self.tag_at(pos as int),
            tag & LIVE != 0,
            (tag & VISITED != 0) == self@.items[pos as int].visited,
    {
        assert(self.slot_ok(pos as int));
        self.tags[pos]
    }

    /// The traffic so far.
    pub fn stats(&self) -> (stats: Stats)
        ensures
            stats == self.traffic(),
    {
        self.stats
    }

    /// The position of `key`, whose needle is `needle`.
    fn find(&self, key: &K, needle: u16) -> (pos: Option<usize>)
        requires
            self.wf(),
            self.carries(*key, needle),
        ensures
            match pos {
                Some(p) => self@.at(p as int, *key),
                None => !self@.holds(*key),
            },
    {
        let mask: u16 = self.layout.scan_mask();
        let mut i: usize = 0;
        while i < self.len
            invariant
                self.wf(),
                i <= self.len,
                mask == self.layout.scan_bits(),
                self.carries(*key, needle),
                forall|j: int| 0 <= j < i ==> !#[trigger] self@.at(j, *key),
            decreases self.len - i,
        {
            let t: u16 = self.tags[i];
            assert(self.slot_ok(i as int));
            assert(self@.items[i as int] == self.item_at(i as int));
            assert(self@.at(i as int, *key) ==> self.needles()[i as int] == needle);
            if t & mask == needle {
                let id: usize = self.layout.id_of(t);
                if self.entries[id].as_ref().unwrap().key.same_key(key) {
                    return Some(i);
                }
            }
            i = i + 1;
        }
        None
    }

    /// Whether `key` is cached. Marks nothing and counts nothing.
    pub fn contains(&self, key: &K, hash: u64) -> (held: bool)
        requires
            self.wf(),
            self.agrees(*key, hash),
        ensures
            held == self@.holds(*key),
    {
        let needle: u16 = self.layout.needle_from_hash(hash);
        self.find(key, needle).is_some()
    }

    /// The value cached under `key`; a hit is marked.
    pub fn get(&mut self, key: &K, hash: u64) -> (value: Option<&V>)
        requires
            old(self).wf(),
            old(self).agrees(*key, hash),
        ensures
            final(self).wf(),
            final(self)@ == old(self)@.touch(*key),
            final(self).traffic() == old(self).traffic().read(old(self)@.holds(*key)),
            final(self).tag_layout() == old(self).tag_layout(),
            final(self).ids() == old(self).ids(),
            final(self).needles() == old(self).needles(),
            match value {
                Some(v) => old(self)@.lookup(*key) == Some(*v),
                None => old(self)@.lookup(*key) is None,
            },
    {
        let needle: u16 = self.layout.needle_from_hash(hash);
        match self.find(key, needle) {
            Some(pos) => {
                self.count_read(true);
                proof {
                    old(self)@.lemma_position(*key, pos as int);
                }
                self.mark(pos);
                assert(self@.items =~= old(self)@.touch(*key).items);
                assert(self.slot_ok(pos as int));
                assert(self@.items[pos as int] == self.item_at(pos as int));
                let id: usize = self.layout.id_of(self.tags[pos]);
                Some(&self.entries[id].as_ref().unwrap().value)
            },
            None => {
                self.count_read(false);
                None
            },
        }
    }

    /// Counts a read.
    fn count_read(&mut self, hit: bool)
        requires
            old(self).wf(),
        ensures
            final(self).wf(),
            final(self)@ == old(self)@,
            final(self).layout == old(self).layout,
            final(self).stats == old(self).stats.read(hit),
            final(self).len == old(self).len,
            final(self).ids() == old(self).ids(),
            final(self).needles() == old(self).needles(),
    {
        self.stats.count_read(hit);
        proof {
            self.lemma_same_slots(*old(self));
            assert(self@.items =~= old(self)@.items) by {
                assert forall|i: int| 0 <= i < self.len implies self@.items[i]
                    == old(self)@.items[i] by {
                    assert(self@.items[i] == self.item_at(i));
                    assert(old(self)@.items[i] == old(self).item_at(i));
                    assert(self.entry_at(i) == old(self).entry_at(i));
                }
            }
        }
    }

    /// Tags and entries are the same but for marks.
    proof fn lemma_same_slots(self, before: Self)
        requires
            before.slots_ok(),
            self.layout == before.layout,
            self.entries == before.entries,
            self.len == before.len,
            self.tags@.len() == before.tags@.len(),
            forall|i: int|
                0 <= i < self.len ==> {
                    &&& self.layout.id(#[trigger] self.tags@[i]) == before.id_at(i)
                    &&& self.tags@[i] & LIVE == before.tags@[i] & LIVE
                    &&& self.tags@[i] & self.layout.scan_bits() == before.tags@[i]
                        & self.layout.scan_bits()
                },
            forall|i: int|
                self.len <= i < self.tags@.len() ==> #[trigger] self.tags@[i] == before.tags@[i],
        ensures
            self.slots_ok(),
            forall|i: int|
                0 <= i < self.len ==> self.entry_at(i) == #[trigger] before.entry_at(i),
            forall|i: int|
                0 <= i < self.len ==> (#[trigger] self@.items[i]).key == before@.items[i].key
                    && self@.items[i].value == before@.items[i].value,
            self.ids() == before.ids(),
            self.needles() == before.needles(),
    {
        assert(self.ids() =~= before.ids());
        assert(self.needles() =~= before.needles());
        assert forall|i: int| 0 <= i < self.len implies #[trigger] self.slot_ok(i) && self.id_at(i)
            == before.id_at(i) by {
            assert(before.slot_ok(i));
            assert(self.layout.id(self.tags@[i]) == before.id_at(i));
        }
        assert forall|i: int, j: int|
            0 <= i < self.len && 0 <= j < self.len && i != j implies #[trigger] self.id_at(i)
            != #[trigger] self.id_at(j) by {
            assert(before.id_at(i) != before.id_at(j));
            assert(self.layout.id(self.tags@[i]) == before.id_at(i));
            assert(self.layout.id(self.tags@[j]) == before.id_at(j));
        }
        assert forall|i: int| 0 <= i < self.len implies self.entry_at(i)
            == #[trigger] before.entry_at(i) by {
            assert(self.layout.id(self.tags@[i]) == before.id_at(i));
        }
        assert forall|i: int| 0 <= i < self.len implies (#[trigger] self@.items[i]).key
            == before@.items[i].key && self@.items[i].value == before@.items[i].value by {
            assert(self@.items[i] == self.item_at(i));
            assert(before@.items[i] == before.item_at(i));
            assert(self.entry_at(i) == before.entry_at(i));
        }
    }

    /// Marks position `pos`.
    fn mark(&mut self, pos: usize)
        requires
            old(self).wf(),
            pos < old(self).len,
        ensures
            final(self).wf(),
            final(self).layout == old(self).layout,
            final(self).stats == old(self).stats,
            final(self).len == old(self).len,
            final(self).ids() == old(self).ids(),
            final(self).needles() == old(self).needles(),
            final(self)@ == (Sieve {
                items: old(self)@.items.update(
                    pos as int,
                    Item { visited: true, ..old(self)@.items[pos as int] },
                ),
                ..old(self)@
            }),
    {
        let t: u16 = self.tags[pos];
        self.tags.set(pos, self.layout.set_spare(t));
        proof {
            let b = *old(self);
            self.lemma_same_slots(b);
            let want = b@.items.update(
                pos as int,
                Item { visited: true, ..b@.items[pos as int] },
            );
            assert(self@.items =~= want) by {
                assert forall|i: int| 0 <= i < self.len implies self@.items[i] == want[i] by {
                    assert(self@.items[i] == self.item_at(i));
                    assert(b@.items[i] == b.item_at(i));
                    assert(self.entry_at(i) == b.entry_at(i));
                }
            }
            self.lemma_same_keys(b);
        }
    }

    /// Keys stay distinct where they stay the same.
    proof fn lemma_same_keys(self, before: Self)
        requires
            before@.keys_distinct(),
            self@.items.len() == before@.items.len(),
            forall|i: int|
                0 <= i < self@.items.len() ==> (#[trigger] self@.items[i]).key
                    == before@.items[i].key,
        ensures
            self@.keys_distinct(),
    {
        let s = self@;
        let b = before@;
        assert forall|i: int, j: int|
            0 <= i < s.items.len() && 0 <= j < s.items.len() && i != j implies #[trigger] s.items[i].key
            != #[trigger] s.items[j].key by {
            assert(s.items[i].key == b.items[i].key);
            assert(s.items[j].key == b.items[j].key);
        }
    }

    /// Caches `value` under `key` and returns what that pushed out.
    pub fn insert(&mut self, key: K, value: V, hash: u64) -> (evicted: Option<(K, V)>)
        requires
            old(self).wf(),
            old(self).agrees(key, hash),
        ensures
            final(self).wf(),
            final(self)@ == old(self)@.insert(key, value),
            evicted == old(self)@.displaced(key),
            final(self).traffic() == old(self).traffic().inserted(evicted is Some),
            final(self).tag_layout() == old(self).tag_layout(),
            final(self).ids() == old(self)@.carried(
                old(self).ids(),
                key,
                old(self)@.next_id(old(self).ids()),
            ),
            final(self).needles() == old(self)@.carried(
                old(self).needles(),
                key,
                old(self).tag_layout().needle(hash),
            ),
    {
        let needle: u16 = self.layout.needle_from_hash(hash);
        let ghost b = *self;
        proof {
            b@.law_insert(key, value);
        }
        match self.find(&key, needle) {
            Some(pos) => {
                proof {
                    b@.lemma_position(key, pos as int);
                    assert(b.slot_ok(pos as int));
                }
                let id: usize = self.layout.id_of(self.tags[pos]);
                let mut slot: Option<Entry<K, V>> = None;
                std::mem::swap(&mut self.entries[id], &mut slot);
                match slot {
                    Some(old_entry) => {
                        self.entries[id] = Some(Entry { key: old_entry.key, value });
                    },
                    None => {},
                }
                let t: u16 = self.tags[pos];
                self.tags.set(pos, self.layout.set_spare(t));
                self.stats.count_insert(false);
                proof {
                    assert forall|i: int| 0 <= i < self.len implies #[trigger] self.slot_ok(i)
                        && self.id_at(i) == b.id_at(i) && self.entry_at(i).key == b.entry_at(i).key
                        && (i != pos ==> self.entry_at(i) == b.entry_at(i)) by {
                        assert(b.slot_ok(i));
                        if i != pos {
                            assert(b.id_at(i) != b.id_at(pos as int));
                        }
                    }
                    assert forall|i: int, j: int|
                        0 <= i < self.len && 0 <= j < self.len && i != j implies #[trigger] self.id_at(i)
                        != #[trigger] self.id_at(j) by {
                        assert(self.slot_ok(i) && self.slot_ok(j));
                        assert(b.id_at(i) != b.id_at(j));
                    }
                    assert(self.ids() =~= b.ids()) by {
                        assert forall|i: int| 0 <= i < self.len implies self.ids()[i]
                            == b.ids()[i] by {
                            assert(self.slot_ok(i));
                        }
                    }
                    assert(self.needles() =~= b.needles());
                    let want = b@.update(key, value).items;
                    assert(self@.items =~= want) by {
                        assert forall|i: int| 0 <= i < self.len implies self@.items[i] == want[i] by {
                            assert(self.slot_ok(i));
                            assert(self@.items[i] == self.item_at(i));
                            assert(b@.items[i] == b.item_at(i));
                        }
                    }
                }
                None
            },
            None => {
                if self.len < self.capacity {
                    let pos: usize = self.len;
                    self.entries[pos] = Some(Entry { key, value });
                    self.tags.set(pos, self.layout.encode(pos, needle));
                    self.len = pos + 1;
                    self.stats.count_insert(false);
                    proof {
                        assert forall|i: int| 0 <= i < self.len implies #[trigger] self.slot_ok(i)
                            && (i < pos ==> self.id_at(i) == b.id_at(i) && self.id_at(i) < pos
                            && self.entry_at(i) == b.entry_at(i)) by {
                            if i < pos {
                                assert(b.slot_ok(i));
                            }
                        }
                        assert forall|i: int, j: int|
                            0 <= i < self.len && 0 <= j < self.len && i
                                != j implies #[trigger] self.id_at(i) != #[trigger] self.id_at(j) by {
                            assert(self.slot_ok(i) && self.slot_ok(j));
                            if i < pos && j < pos {
                                assert(b.id_at(i) != b.id_at(j));
                            }
                        }
                        assert(self.ids() =~= b.ids().push(pos as int)) by {
                            assert forall|i: int| 0 <= i < self.len implies self.ids()[i]
                                == b.ids().push(pos as int)[i] by {
                                assert(self.slot_ok(i));
                            }
                        }
                        assert(self.needles() =~= b.needles().push(needle));
                        let want = b@.append(key, value).items;
                        assert(self@.items =~= want) by {
                            assert forall|i: int| 0 <= i < self.len implies self@.items[i]
                                == want[i] by {
                                assert(self.slot_ok(i));
                                assert(self@.items[i] == self.item_at(i));
                                if i < pos {
                                    assert(b@.items[i] == b.item_at(i));
                                }
                            }
                        }
                    }
                    None
                } else {
                    Some(self.evict_and_install(key, value, needle))
                }
            },
        }
    }

    /// Evicts the victim of the hand and queues the new entry at the young end, in the
    /// arena slot that the victim leaves.
    fn evict_and_install(&mut self, key: K, value: V, needle: u16) -> (evicted: (K, V))
        requires
            old(self).wf(),
            old(self)@.full(),
            !old(self)@.holds(key),
            old(self).layout.is_needle(needle),
        ensures
            final(self).wf(),
            final(self)@ == old(self)@.insert(key, value),
            Some(evicted) == old(self)@.displaced(key),
            final(self).stats == old(self).stats.inserted(true),
            final(self).layout == old(self).layout,
            final(self).ids() == old(self)@.carried(
                old(self).ids(),
                key,
                old(self)@.next_id(old(self).ids()),
            ),
            final(self).needles() == old(self)@.carried(
                old(self).needles(),
                key,
                needle,
            ),
    {
        let ghost start = self@;
        proof {
            start.law_insert(key, value);
            start.lemma_sweep();
        }
        let pos: usize = self.find_evict_pos();
        let ghost mid = *self;
        assert(mid@.items.len() == mid.len);
        assert(mid.slot_ok(pos as int));
        assert(mid@.items[pos as int] == mid.item_at(pos as int));
        let id: usize = self.layout.id_of(self.tags[pos]);
        let mut slot: Option<Entry<K, V>> = Some(Entry { key, value });
        std::mem::swap(&mut self.entries[id], &mut slot);
        let last: usize = self.len - 1;
        let mut i: usize = pos;
        while i < last
            invariant
                pos <= i <= last,
                last == mid.len - 1,
                last < mid.tags@.len(),
                self.capacity == mid.capacity,
                self.layout == mid.layout,
                self.entries@ == mid.entries@.update(id as int, Some(Entry { key, value })),
                self.hand == mid.hand,
                self.len == mid.len,
                self.stats == mid.stats,
                self.tags@.len() == mid.tags@.len(),
                forall|j: int|
                    0 <= j < pos || i <= j < mid.tags@.len() ==> #[trigger] self.tags@[j]
                        == mid.tags@[j],
                forall|j: int| pos <= j < i ==> #[trigger] self.tags@[j] == mid.tags@[j + 1],
            decreases last - i,
        {
            let next_tag: u16 = self.tags[i + 1];
            self.tags.set(i, next_tag);
            i = i + 1;
        }
        self.hand = if pos < last {
            pos
        } else {
            0
        };
        self.tags.set(last, self.layout.encode(id, needle));
        self.stats.count_insert(true);
        proof {
            let n = mid.len as int;
            let from = |i: int|
                if i < pos {
                    i
                } else if i < n - 1 {
                    i + 1
                } else {
                    pos as int
                };
            assert forall|i: int| 0 <= i < n implies #[trigger] self.slot_ok(i) && self.id_at(i)
                == mid.id_at(from(i)) && (i < n - 1 ==> self.entry_at(i) == mid.entry_at(from(i))
                && self.tags@[i] == mid.tags@[from(i)]) by {
                assert(mid.slot_ok(from(i)));
                if i < n - 1 {
                    assert(self.tags@[i] == mid.tags@[from(i)]);
                    assert(mid.id_at(from(i)) != mid.id_at(pos as int));
                }
            }
            assert forall|i: int, j: int|
                0 <= i < self.len && 0 <= j < self.len && i != j implies #[trigger] self.id_at(i)
                != #[trigger] self.id_at(j) by {
                assert(self.slot_ok(i) && self.slot_ok(j));
                assert(mid.id_at(from(i)) != mid.id_at(from(j)));
            }
            let b = *old(self);
            assert(self.ids() =~= b.ids().remove(pos as int).push(b.ids()[pos as int])) by {
                assert forall|i: int| 0 <= i < n implies self.ids()[i] == b.ids()[from(i)] by {
                    assert(self.slot_ok(i));
                    assert(mid.ids()[from(i)] == mid.id_at(from(i)));
                }
            }
            assert(self.needles() =~= b.needles().remove(pos as int).push(needle)) by {
                assert forall|i: int| 0 <= i < n - 1 implies self.needles()[i]
                    == b.needles()[from(i)] by {
                    assert(self.slot_ok(i));
                    assert(mid.needles()[from(i)] == mid.tags@[from(i)] & mid.layout.scan_bits());
                }
            }
            let want = start.insert(key, value).items;
            assert(self@.items =~= want) by {
                assert forall|i: int| 0 <= i < n implies self@.items[i] == want[i] by {
                    assert(self.slot_ok(i));
                    assert(self@.items[i] == self.item_at(i));
                    if i < n - 1 {
                        assert(mid@.items[from(i)] == mid.item_at(from(i)));
                    }
                }
            }
        }
        let entry: Entry<K, V> = slot.unwrap();
        (entry.key, entry.value)
    }

    /// The hand's whole way: from the hand to the young end, then from the old end to
    /// the hand. If all were marked, the hand's own position.
    fn find_evict_pos(&mut self) -> (pos: usize)
        requires
            old(self).wf(),
            old(self)@.len() > 0,
        ensures
            final(self).wf(),
            final(self).layout == old(self).layout,
            final(self).stats == old(self).stats,
            final(self).ids() == old(self).ids(),
            final(self).needles() == old(self).needles(),
            final(self)@ == (Sieve { items: old(self)@.swept(), ..old(self)@ }),
            pos == old(self)@.victim(),
            pos < old(self)@.len(),
    {
        let hand: usize = self.hand;
        let n: usize = self.len;
        let ghost before = self@.items;
        proof {
            lemma_next_cold_bounds(before, hand as int, n as int);
            lemma_next_cold_bounds(before, 0, hand as int);
        }
        match self.scan_evict(hand, n) {
            Some(p) => p,
            None => {
                let ghost mid = self@.items;
                proof {
                    let q = next_cold(before, 0, hand as int);
                    assert forall|j: int| 0 <= j < q implies (#[trigger] mid[j]).visited by {
                        assert(before[j].visited);
                    }
                    lemma_next_cold(mid, 0, hand as int, q);
                }
                match self.scan_evict(0, hand) {
                    Some(q) => q,
                    None => {
                        assert(self@.items =~= cool(before, 0, n as int));
                        hand
                    },
                }
            },
        }
    }

    /// The hand's way over `[lo, hi)`: takes marks off up to the first unmarked
    /// position, and returns that position.
    fn scan_evict(&mut self, lo: usize, hi: usize) -> (found: Option<usize>)
        requires
            old(self).wf(),
            lo <= hi <= old(self)@.len(),
        ensures
            final(self).wf(),
            final(self).layout == old(self).layout,
            final(self).stats == old(self).stats,
            final(self).ids() == old(self).ids(),
            final(self).needles() == old(self).needles(),
            final(self)@ == (Sieve {
                items: cool(
                    old(self)@.items,
                    lo as int,
                    next_cold(old(self)@.items, lo as int, hi as int),
                ),
                ..old(self)@
            }),
            match found {
                Some(p) => p < hi && p == next_cold(old(self)@.items, lo as int, hi as int),
                None => next_cold(old(self)@.items, lo as int, hi as int) == hi,
            },
    {
        let ghost b = *self;
        let mut i: usize = lo;
        let mut stopped: bool = false;
        while i < hi && !stopped
            invariant
                b.wf(),
                lo <= i <= hi <= self.len,
                self.capacity == b.capacity,
                self.layout == b.layout,
                self.entries == b.entries,
                self.len == b.len,
                self.hand == b.hand,
                self.stats == b.stats,
                self.tags@.len() == b.tags@.len(),
                stopped ==> i < hi && b.tags@[i as int] & VISITED == 0,
                forall|j: int| lo <= j < i ==> #[trigger] b.tags@[j] & VISITED != 0,
                forall|j: int|
                    lo <= j < i ==> {
                        &&& self.layout.id(#[trigger] self.tags@[j]) == b.id_at(j)
                        &&& self.tags@[j] & LIVE == b.tags@[j] & LIVE
                        &&& self.tags@[j] & self.layout.scan_bits() == b.tags@[j]
                            & self.layout.scan_bits()
                        &&& self.tags@[j] & VISITED == 0
                    },
                forall|j: int|
                    0 <= j < lo || i <= j < b.tags@.len() ==> #[trigger] self.tags@[j] == b.tags@[j],
            decreases hi - i, (if stopped { 0int } else { 1 }),
        {
            let t: u16 = self.tags[i];
            if t & VISITED != 0 {
                self.tags.set(i, self.layout.clear_spare(t));
                i = i + 1;
            } else {
                stopped = true;
            }
        }
        proof {
            assert forall|j: int| 0 <= j < b.len implies (#[trigger] b@.items[j]).visited == (
            b.tags@[j] & VISITED != 0) by {
                assert(b@.items[j] == b.item_at(j));
            }
            assert forall|j: int| lo <= j < i implies (#[trigger] b@.items[j]).visited by {
                assert(b.tags@[j] & VISITED != 0);
            }
            lemma_next_cold(b@.items, lo as int, hi as int, i as int);
            self.lemma_same_slots(b);
            let want = cool(b@.items, lo as int, i as int);
            assert(self@.items =~= want) by {
                assert forall|j: int| 0 <= j < self.len implies self@.items[j] == want[j] by {
                    assert(self@.items[j] == self.item_at(j));
                    assert(b@.items[j] == b.item_at(j));
                    assert(self.entry_at(j) == b.entry_at(j));
                }
            }
            self.lemma_same_keys(b);
        }
        if stopped {
            Some(i)
        } else {
            None
        }
    }

    /// What was to be found is still found after a read.
    proof fn lemma_touched(self, to: Self, key: K)
        requires
            self.wf(),
            to@ == self@.touch(key),
            to.needles() == self.needles(),
            to.tag_layout() == self.tag_layout(),
        ensures
            forall|k: K, h: u64| self.agrees(k, h) ==> #[trigger] to.agrees(k, h),
    {
        self.lemma_wf();
        assert forall|k: K, h: u64| self.agrees(k, h) implies #[trigger] to.agrees(k, h) by {
            lemma_agree_touch(self@, self.needles(), key, k, self.tag_layout().needle(h));
        }
    }

    /// What was to be found is still found after an insert, and so is the new key.
    proof fn lemma_inserted(self, to: Self, key: K, value: V, hash: u64)
        requires
            self.wf(),
            self.agrees(key, hash),
            to@ == self@.insert(key, value),
            to.needles() == self@.carried(self.needles(), key, self.tag_layout().needle(hash)),
            to.tag_layout() == self.tag_layout(),
        ensures
            forall|k: K, h: u64| k != key && self.agrees(k, h) ==> #[trigger] to.agrees(k, h),
            to.agrees(key, hash),
    {
        self.lemma_wf();
        let new = self.tag_layout().needle(hash);
        assert forall|k: K, h: u64| k != key && self.agrees(k, h) implies #[trigger] to.agrees(
            k,
            h,
        ) by {
            let needle = self.tag_layout().needle(h);
            lemma_agree_insert(self@, self.needles(), key, value, new, k, needle);
        }
        lemma_agree_insert(self@, self.needles(), key, value, new, key, new);
    }

    /// The number of live tags.
    pub fn live_count(&self) -> (n: usize)
        requires
            self.wf(),
        ensures
            n == self@.len(),
    {
        let mut n: usize = 0;
        let mut i: usize = 0;
        while i < self.len
            invariant
                self.wf(),
                n == i <= self.len,
            decreases self.len - i,
        {
            assert(self.slot_ok(i as int));
            if self.tags[i] & LIVE != 0 {
                n = n + 1;
            }
            i = i + 1;
        }
        n
    }

    /// The ids of the queued positions, oldest first.
    pub fn live_ids(&self) -> (ids: Vec<usize>)
        requires
            self.wf(),
        ensures
            ids@.len() == self@.len(),
            forall|i: int| 0 <= i < ids@.len() ==> #[trigger] ids@[i] == self.id_at(i),
            forall|i: int| 0 <= i < ids@.len() ==> ids@[i] == #[trigger] self.ids()[i],
    {
        let mut ids: Vec<usize> = Vec::new();
        let mut i: usize = 0;
        while i < self.len
            invariant
                self.wf(),
                ids@.len() == i <= self.len,
                forall|j: int| 0 <= j < i ==> #[trigger] ids@[j] == self.id_at(j),
            decreases self.len - i,
        {
            assert(self.slot_ok(i as int));
            if self.tags[i] & LIVE != 0 {
                ids.push(self.layout.id_of(self.tags[i]));
            }
            i = i + 1;
        }
        ids
    }
}

impl<K: CacheKey, V: Clone> CacheShard for Shard<K, V> {
    type Key = K;

    type Value = V;

    closed spec fn wf(self) -> bool {
        Shard::wf(self)
    }

    closed spec fn queue(self) -> Sieve<K, V> {
        self@
    }

    open spec fn put(before: Sieve<K, V>, key: K, value: V) -> Sieve<K, V> {
        before.insert(key, value)
    }

    closed spec fn agrees(self, key: K, hash: u64) -> bool {
        Shard::agrees(self, key, hash)
    }

    closed spec fn ids(self) -> Seq<int> {
        Shard::ids(self)
    }

    open spec fn put_ids(before: Sieve<K, V>, ids: Seq<int>, key: K) -> Seq<int> {
        before.carried(ids, key, before.next_id(ids))
    }

    open spec fn probed(before: Sieve<K, V>, key: K) -> Sieve<K, V> {
        before
    }

    closed spec fn counts(self) -> Stats {
        self.traffic()
    }

    open spec fn counting() -> bool {
        true
    }

    proof fn lemma_queue(self) {
        self.lemma_wf();
    }

    proof fn lemma_put(before: Sieve<K, V>, key: K, value: V) {
        before.law_insert(key, value);
        before.law_mark_of_inserted(key, value);
    }

    proof fn lemma_probed(before: Sieve<K, V>, key: K) {
    }

    fn empty_shard(capacity: usize) -> (shard: Self) {
        Shard::new(capacity)
    }

    fn shard_capacity(&self) -> (n: usize) {
        self.capacity()
    }

    fn shard_len(&self) -> (n: usize) {
        self.len()
    }

    fn shard_contains(&mut self, key: &K, hash: u64) -> (held: bool) {
        self.contains(key, hash)
    }

    fn shard_get(&mut self, key: &K, hash: u64) -> (value: Option<V>) {
        let ghost b = *self;
        let value: Option<V> = match self.get(key, hash) {
            Some(v) => Some(v.clone()),
            None => None,
        };
        proof {
            b.lemma_touched(*self, *key);
        }
        value
    }

    fn shard_insert(&mut self, key: K, value: V, hash: u64) -> (evicted: Option<(K, V)>) {
        let ghost b = *self;
        let evicted: Option<(K, V)> = self.insert(key, value, hash);
        proof {
            b.lemma_inserted(*self, key, value, hash);
        }
        evicted
    }
}

impl<K: CacheKey, V: Clone> CountingShard for Shard<K, V> {
    fn shard_stats(&self) -> (stats: Stats) {
        self.stats()
    }
}

/// A cache whose number of shards is chosen when it is made.
pub struct ConcurrentSieveCache<K, V> {
    shards: ShardArray<Shard<K, V>>,
}

/// The least power of two that is at least `n`.
pub fn next_shard_count(n: usize) -> (count: usize)
    requires
        0 < n <= usize::MAX / 4,
    ensures
        is_shard_count(count),
        n <= count < 2 * n,
{
    let mut count: usize = 1;
    assert(1usize & 0usize == 0) by (bit_vector);
    while count < n
        invariant
            0 < n <= usize::MAX / 4,
            is_shard_count(count),
            count < 2 * n,
        decreases 2 * n - count,
    {
        let twice: usize = count * 2;
        assert(count > 0 && twice == 2 * count && count & ((count - 1) as usize) == 0 ==> twice & ((
        twice - 1) as usize) == 0) by (bit_vector);
        count = twice;
    }
    count
}

impl<K: CacheKey, V: Clone> ConcurrentSieveCache<K, V> {
    /// The shards behind the cache.
    pub closed spec fn array(self) -> ShardArray<Shard<K, V>> {
        self.shards
    }

    pub open spec fn wf(self) -> bool {
        self.array().wf()
    }

    /// The value cached under `key`.
    pub open spec fn lookup(self, key: K) -> Option<V> {
        self.array().lookup(key)
    }

    /// The queue of the shard that `key` belongs to.
    pub open spec fn queue_of(self, key: K) -> Sieve<K, V> {
        self.array().queues()[self.array().route(key)]
    }

    /// The arena slots of the shard that `key` belongs to.
    pub open spec fn ids_of(self, key: K) -> Seq<int> {
        self.array().ids()[self.array().route(key)]
    }

    /// An empty cache of `capacity` items, with as few shards as can hold them.
    pub fn new(capacity: usize) -> (cache: Self)
        requires
            K::told_apart(),
            0 < capacity,
        ensures
            cache.wf(),
            cache.array().spec_capacity() == capacity,
            cache.array().spec_len() == 0,
            is_shard_count(cache.array().queues().len() as usize),
            cache.array().queues().len() <= usize::MAX,
            capacity <= MAX_PER_SHARD * cache.array().queues().len(),
            cache.array().queues().len() > 1 ==> MAX_PER_SHARD * (cache.array().queues().len() / 2)
                < capacity,
            forall|key: K| #[trigger] cache.lookup(key) is None,
            forall|i: int|
                0 <= i < cache.array().queues().len() ==> #[trigger] cache.array().queues()[i]
                    == Sieve::<K, V>::empty(
                    share(capacity as int, cache.array().queues().len() as int, i) as nat,
                ),
            cache.array().counts().len() == cache.array().queues().len(),
            forall|i: int|
                0 <= i < cache.array().queues().len() ==> #[trigger] cache.array().counts()[i]
                    == Stats::none(),
            cache.array().ids().len() == cache.array().queues().len(),
            forall|i: int|
                0 <= i < cache.array().queues().len() ==> #[trigger] cache.array().ids()[i]
                    == Seq::<int>::empty(),
    {
        let n_min: usize = if capacity % MAX_PER_SHARD == 0 {
            capacity / MAX_PER_SHARD
        } else {
            capacity / MAX_PER_SHARD + 1
        };
        let shards: usize = next_shard_count(n_min);
        assert(shards % 2 == 0 || shards == 1) by {
            assert(shards > 0 && shards & ((shards - 1) as usize) == 0 ==> shards % 2 == 0 || shards
                == 1) by (bit_vector);
        }
        assert(share(capacity as int, shards as int, 0) <= MAX_PER_SHARD) by (nonlinear_arith)
            requires
                0 < shards,
                capacity <= 64 * shards,
                MAX_PER_SHARD == 64,
        ;
        Self::with_shards(capacity, shards)
    }

    /// An empty cache of `capacity` items in `shards` shards.
    pub fn with_shards(capacity: usize, shards: usize) -> (cache: Self)
        requires
            K::told_apart(),
            is_shard_count(shards),
            shards <= capacity,
            share(capacity as int, shards as int, 0) <= MAX_PER_SHARD,
        ensures
            cache.wf(),
            cache.array().queues().len() == shards,
            cache.array().spec_capacity() == capacity,
            cache.array().spec_len() == 0,
            forall|key: K| #[trigger] cache.lookup(key) is None,
            forall|i: int|
                0 <= i < shards ==> #[trigger] cache.array().queues()[i] == Sieve::<K, V>::empty(
                    share(capacity as int, shards as int, i) as nat,
                ),
            cache.array().counts().len() == shards,
            forall|i: int|
                0 <= i < shards ==> #[trigger] cache.array().counts()[i] == Stats::none(),
            cache.array().ids().len() == shards,
            forall|i: int|
                0 <= i < shards ==> #[trigger] cache.array().ids()[i] == Seq::<int>::empty(),
    {
        ConcurrentSieveCache { shards: ShardArray::new(capacity, shards) }
    }

    /// The number of shards.
    pub fn shards(&self) -> (n: usize)
        requires
            self.wf(),
        ensures
            n == self.array().queues().len(),
    {
        self.shards.shard_count()
    }

    /// Shard number `i`.
    pub fn shard(&self, i: usize) -> (shard: &Shard<K, V>)
        requires
            self.wf(),
            i < self.array().queues().len(),
        ensures
            shard.wf(),
            shard@ == self.array().queues()[i as int],
            shard.ids() == self.array().ids()[i as int],
    {
        self.shards.shard(i)
    }

    /// The traffic of all shards together.
    pub fn stats(&self) -> (stats: Stats)
        requires
            self.wf(),
        ensures
            stats == total_counts(self.array().counts(), self.array().queues().len() as int),
    {
        self.shards.stats()
    }

    pub fn capacity(&self) -> (n: usize)
        requires
            self.wf(),
        ensures
            n == self.array().spec_capacity(),
    {
        self.shards.capacity()
    }

    pub fn len(&self) -> (n: usize)
        requires
            self.wf(),
        ensures
            n == self.array().spec_len(),
            n <= self.array().spec_capacity(),
    {
        self.shards.len()
    }

    pub fn is_empty(&self) -> (empty: bool)
        requires
            self.wf(),
        ensures
            empty == (self.array().spec_len() == 0),
    {
        self.shards.is_empty()
    }

    /// Whether `key` is cached. Marks nothing and counts nothing.
    pub fn contains_key(&self, key: &K) -> (held: bool)
        requires
            self.wf(),
        ensures
            held == (self.lookup(*key) is Some),
    {
        let (i, hash): (usize, u64) = self.shards.locate(key);
        let shard: &Shard<K, V> = self.shards.shard(i);
        assert(CacheShard::agrees(*shard, *key, hash));
        shard.contains(key, hash)
    }

    /// The value cached under `key`; a hit is marked.
    pub fn get(&mut self, key: &K) -> (value: Option<V>)
        requires
            old(self).wf(),
        ensures
            final(self).wf(),
            read_of(old(self).lookup(*key), value),
            final(self).array().selector() == old(self).array().selector(),
            final(self).array().queues() == old(self).array().queues().update(
                old(self).array().route(*key),
                old(self).queue_of(*key).touch(*key),
            ),
            final(self).array().counts() == old(self).array().counts().update(
                old(self).array().route(*key),
                old(self).array().counts()[old(self).array().route(*key)].read(
                    old(self).lookup(*key) is Some,
                ),
            ),
            final(self).array().ids() == old(self).array().ids(),
    {
        self.shards.get(key)
    }

    /// Caches `value` under `key` and returns what that pushed out.
    pub fn insert(&mut self, key: K, value: V) -> (evicted: Option<(K, V)>)
        requires
            old(self).wf(),
        ensures
            final(self).wf(),
            evicted == old(self).queue_of(key).displaced(key),
            final(self).array().selector() == old(self).array().selector(),
            final(self).array().queues() == old(self).array().queues().update(
                old(self).array().route(key),
                old(self).queue_of(key).insert(key, value),
            ),
            final(self).array().counts() == old(self).array().counts().update(
                old(self).array().route(key),
                old(self).array().counts()[old(self).array().route(key)].inserted(
                    evicted is Some,
                ),
            ),
            final(self).array().ids() == old(self).array().ids().update(
                old(self).array().route(key),
                old(self).queue_of(key).carried(
                    old(self).ids_of(key),
                    key,
                    old(self).queue_of(key).next_id(old(self).ids_of(key)),
                ),
            ),
    {
        self.shards.insert(key, value)
    }
}

} // verus!
