//! A shard for a readers-writer lock.
//!
//! With writers shut out while readers read, no slot is ever seen half written: a
//! tag is live or empty, and an update writes in place. Keys can be removed; the ids
//! in use stay `0..len`.
use crate::experimental::ConcurrentCacheImpl;
use crate::hash::CacheKey;
use crate::model::Sieve;
use crate::needle::{
    lemma_agree_insert, lemma_agree_remove, lemma_agree_touch, tags_agree,
};
use crate::shard::{read_of, CacheShard, RemovingShard};
use crate::sharded::{is_shard_count, share, ShardArray};
use crate::shift_shard::{ids_without, Entry, ShiftShard};
use crate::stats::Stats;
use crate::tag::{stride_of, TagLayout, LIVE, MAX_PER_SHARD};
use vstd::prelude::*;

verus! {

/// The number of shards where none is given.
pub const DEFAULT_SHARDS: usize = 8;

/// Entries are aligned to this many bytes.
pub const ENTRY_ALIGN: usize = 16;

/// One shard.
pub struct Shard<K, V> {
    core: ShiftShard<K, V>,
}

impl<K: CacheKey, V: Clone> Shard<K, V> {
    pub closed spec fn view(self) -> Sieve<K, V> {
        self.core@
    }

    pub closed spec fn wf(self) -> bool {
        self.core.wf() && self.core.tag_layout().hash_bits == 9
    }

    /// The tag of position `i`.
    pub closed spec fn tag_at(self, i: int) -> u16 {
        self.core.tag_at(i)
    }

    /// The arena slot of position `i`.
    pub closed spec fn id_at(self, i: int) -> int {
        self.core.id_at(i)
    }

    pub closed spec fn tag_layout(self) -> TagLayout {
        self.core.tag_layout()
    }

    /// The arena slots of the queued positions, oldest first.
    pub closed spec fn ids(self) -> Seq<int> {
        self.core.ids()
    }

    /// The hash bits of the queued positions, oldest first.
    pub closed spec fn needles(self) -> Seq<u16> {
        self.core.needles()
    }

    /// Whether `key`, where it is cached, has the hash bits `needle`.
    pub open spec fn carries(self, key: K, needle: u16) -> bool {
        tags_agree(self@, self.needles(), key, needle)
    }

    /// Whether `key`, where it is cached, was stored under a hash with the bits of
    /// `hash`.
    pub open spec fn agrees(self, key: K, hash: u64) -> bool {
        self.carries(key, self.tag_layout().needle(hash))
    }

    /// The shard stands for a well-formed queue, and its ids are `0..len`, each once.
    pub proof fn lemma_wf(self)
        requires
            self.wf(),
        ensures
            self@.wf(),
            self@.capacity <= MAX_PER_SHARD,
            self.tag_layout().wf(),
            self.needles().len() == self@.len(),
            self.ids().len() == self@.len(),
            forall|i: int| 0 <= i < self@.len() ==> #[trigger] self.ids()[i] == self.id_at(i),
            forall|i: int| 0 <= i < self@.len() ==> 0 <= #[trigger] self.id_at(i) < self@.len(),
            forall|i: int, j: int|
                0 <= i < self@.len() && 0 <= j < self@.len() && i != j ==> #[trigger] self.id_at(i)
                    != #[trigger] self.id_at(j),
    {
        self.core.lemma_view();
        self.core.lemma_ids();
        assert forall|i: int| 0 <= i < self@.len() implies 0 <= #[trigger] self.id_at(i)
            < self@.len() by {
            assert(self.core.id_at(i) < self@.len());
        }
        assert forall|i: int, j: int|
            0 <= i < self@.len() && 0 <= j < self@.len() && i != j implies #[trigger] self.id_at(i)
            != #[trigger] self.id_at(j) by {
            assert(self.core.id_at(i) != self.core.id_at(j));
        }
    }

    /// An empty shard.
    pub fn new(capacity: usize) -> (shard: Self)
        requires
            K::told_apart(),
            0 < capacity <= MAX_PER_SHARD,
        ensures
            shard.wf(),
            shard@ == Sieve::<K, V>::empty(capacity as nat),
            shard.ids() == Seq::<int>::empty(),
            shard.needles() == Seq::<u16>::empty(),
            shard.tag_layout() == TagLayout::for_stride(
                stride_of(core::mem::size_of::<Entry<K, V>>(), ENTRY_ALIGN),
                9,
            ),
    {
        let layout: TagLayout = TagLayout::for_entries(
            core::mem::size_of::<Entry<K, V>>(),
            ENTRY_ALIGN,
            9,
        );
        Shard { core: ShiftShard::new(capacity, layout) }
    }

    pub fn capacity(&self) -> (n: usize)
        ensures
            n == self@.capacity,
    {
        self.core.capacity()
    }

    pub fn len(&self) -> (n: usize)
        ensures
            n == self@.len(),
    {
        self.core.len()
    }

    pub fn is_empty(&self) -> (empty: bool)
        ensures
            empty == (self@.len() == 0),
    {
        self.core.len() == 0
    }

    /// The layout of the shard's tags.
    pub fn layout(&self) -> (layout: TagLayout)
        ensures
            layout == self.tag_layout(),
    {
        self.core.layout()
    }

    /// The tag of position `pos`.
    pub fn tag(&self, pos: usize) -> (tag: u16)
        requires
            self.wf(),
            pos < self@.len(),
        ensures
            tag == self.tag_at(pos as int),
            tag & LIVE != 0,
    {
        self.core.tag(pos)
    }

    /// Whether the item at position `pos` is marked.
    pub fn marked(&self, pos: usize) -> (mark: bool)
        requires
            self.wf(),
            pos < self@.len(),
        ensures
            mark == self@.items[pos as int].visited,
    {
        self.core.marked(pos)
    }

    /// The value cached under `key`; a hit is marked.
    pub fn get_by_hash(&mut self, key: &K, hash: u64) -> (value: Option<V>)
        requires
            old(self).wf(),
            old(self).agrees(*key, hash),
        ensures
            final(self).wf(),
            read_of(old(self)@.lookup(*key), value),
            final(self)@ == old(self)@.touch(*key),
            final(self).tag_layout() == old(self).tag_layout(),
            forall|i: int| #[trigger] final(self).tag_at(i) == old(self).tag_at(i),
            final(self).ids() == old(self).ids(),
            final(self).needles() == old(self).needles(),
    {
        proof {
            self.core.lemma_view();
        }
        let needle: u16 = self.core.layout().needle_from_hash(hash);
        match self.core.find(key, needle) {
            Some(pos) => {
                proof {
                    self@.lemma_position(*key, pos as int);
                }
                let value: V = self.core.value_at(pos).clone();
                self.core.mark(pos);
                proof {
                    assert forall|i: int| #[trigger] self.tag_at(i) == old(self).tag_at(i) by {
                        assert(self.core.tag_at(i) == old(self).core.tag_at(i));
                    }
                }
                Some(value)
            },
            None => None,
        }
    }

    /// Whether `key` is cached; a hit is marked.
    pub fn contains(&mut self, key: &K, hash: u64) -> (held: bool)
        requires
            old(self).wf(),
            old(self).agrees(*key, hash),
        ensures
            final(self).wf(),
            held == old(self)@.holds(*key),
            final(self)@ == old(self)@.touch(*key),
            final(self).tag_layout() == old(self).tag_layout(),
            forall|i: int| #[trigger] final(self).tag_at(i) == old(self).tag_at(i),
            final(self).ids() == old(self).ids(),
            final(self).needles() == old(self).needles(),
    {
        self.get_by_hash(key, hash).is_some()
    }

    /// Caches `value` under `key` and returns what that pushed out.
    pub fn insert(&mut self, key: K, value: V, hash: u64) -> (evicted: Option<(K, V)>)
        requires
            old(self).wf(),
            old(self).agrees(key, hash),
        ensures
            final(self).wf(),
            final(self)@ == old(self)@.insert(key, value),
            evicted == old(self)@.displaced(key),
            final(self).tag_layout() == old(self).tag_layout(),
            final(self).ids() == old(self)@.carried(
                old(self).ids(),
                key,
                old(self)@.next_id(old(self).ids()),
            ),
            final(self).needles() == old(self)@.carried(
                old(self).needles(),
                key,
                old(self).tag_layout().needle(hash),
            ),
            old(self)@.holds(key) ==> forall|i: int| #[trigger]
                final(self).tag_at(i) == old(self).tag_at(i),
    {
        proof {
            self.core.lemma_view();
        }
        let needle: u16 = self.core.layout().needle_from_hash(hash);
        match self.core.find(&key, needle) {
            Some(pos) => {
                proof {
                    self@.lemma_position(key, pos as int);
                }
                self.core.update_in_place(pos, value);
                proof {
                    assert forall|i: int| #[trigger] self.tag_at(i) == old(self).tag_at(i) by {
                        assert(self.core.tag_at(i) == old(self).core.tag_at(i));
                    }
                }
                None
            },
            None => {
                if self.core.len() < self.core.capacity() {
                    self.core.warmup_install(key, value, needle);
                    None
                } else {
                    let (k, v, _id): (K, V, usize) = self.core.evict_and_install(
                        key,
                        value,
                        needle,
                    );
                    Some((k, v))
                }
            },
        }
    }

    /// Removes `key` and returns its value.
    pub fn remove(&mut self, key: &K, hash: u64) -> (value: Option<V>)
        requires
            old(self).wf(),
            old(self).agrees(*key, hash),
        ensures
            final(self).wf(),
            final(self)@ == old(self)@.remove(*key),
            value == old(self)@.lookup(*key),
            final(self).tag_layout() == old(self).tag_layout(),
            final(self).ids() == (if old(self)@.holds(*key) {
                ids_without(old(self).ids(), old(self)@.position(*key))
            } else {
                old(self).ids()
            }),
            final(self).needles() == old(self)@.carried_off(old(self).needles(), *key),
    {
        proof {
            self.core.lemma_view();
        }
        let needle: u16 = self.core.layout().needle_from_hash(hash);
        match self.core.find(key, needle) {
            Some(pos) => {
                proof {
                    self@.lemma_position(*key, pos as int);
                }
                let (_k, v): (K, V) = self.core.remove_at(pos);
                Some(v)
            },
            None => None,
        }
    }

    /// What was to be found is still found after a read.
    proof fn lemma_touched(self, to: Self, key: K)
        requires
            self.wf(),
            to@ == self@.touch(key),
            to.needles() == self.needles(),
            to.tag_layout() == self.tag_layout(),
        ensures
            forall|k: K, h: u64| self.agrees(k, h) ==> #[trigger] to.agrees(k, h),
    {
        self.lemma_wf();
        assert forall|k: K, h: u64| self.agrees(k, h) implies #[trigger] to.agrees(k, h) by {
            lemma_agree_touch(self@, self.needles(), key, k, self.tag_layout().needle(h));
        }
    }

    /// What was to be found is still found after an insert, and so is the new key.
    proof fn lemma_inserted(self, to: Self, key: K, value: V, hash: u64)
        requires
            self.wf(),
            self.agrees(key, hash),
            to@ == self@.insert(key, value),
            to.needles() == self@.carried(self.needles(), key, self.tag_layout().needle(hash)),
            to.tag_layout() == self.tag_layout(),
        ensures
            forall|k: K, h: u64| k != key && self.agrees(k, h) ==> #[trigger] to.agrees(k, h),
            to.agrees(key, hash),
    {
        self.lemma_wf();
        let new = self.tag_layout().needle(hash);
        assert forall|k: K, h: u64| k != key && self.agrees(k, h) implies #[trigger] to.agrees(
            k,
            h,
        ) by {
            let needle = self.tag_layout().needle(h);
            lemma_agree_insert(self@, self.needles(), key, value, new, k, needle);
        }
        lemma_agree_insert(self@, self.needles(), key, value, new, key, new);
    }

    /// The number of live tags.
    pub fn live_count(&self) -> (n: usize)
        requires
            self.wf(),
        ensures
            n == self@.len(),
    {
        self.core.live_count()
    }

    /// The ids of the queued positions, oldest first.
    pub fn live_ids(&self) -> (ids: Vec<usize>)
        requires
            self.wf(),
        ensures
            ids@.len() == self@.len(),
            forall|i: int| 0 <= i < ids@.len() ==> #[trigger] ids@[i] == self.id_at(i),
            forall|i: int| 0 <= i < ids@.len() ==> ids@[i] == #[trigger] self.ids()[i],
    {
        self.core.live_ids()
    }
}

impl<K: CacheKey, V: Clone> CacheShard for Shard<K, V> {
    type Key = K;

    type Value = V;

    closed spec fn wf(self) -> bool {
        Shard::wf(self)
    }

    closed spec fn queue(self) -> Sieve<K, V> {
        self@
    }

    open spec fn put(before: Sieve<K, V>, key: K, value: V) -> Sieve<K, V> {
        before.insert(key, value)
    }

    closed spec fn agrees(self, key: K, hash: u64) -> bool {
        Shard::agrees(self, key, hash)
    }

    closed spec fn ids(self) -> Seq<int> {
        Shard::ids(self)
    }

    open spec fn put_ids(before: Sieve<K, V>, ids: Seq<int>, key: K) -> Seq<int> {
        before.carried(ids, key, before.next_id(ids))
    }

    open spec fn probed(before: Sieve<K, V>, key: K) -> Sieve<K, V> {
        before.touch(key)
    }

    open spec fn counts(self) -> Stats {
        Stats::none()
    }

    open spec fn counting() -> bool {
        false
    }

    proof fn lemma_queue(self) {
        self.lemma_wf();
    }

    proof fn lemma_put(before: Sieve<K, V>, key: K, value: V) {
        before.law_insert(key, value);
        before.law_mark_of_inserted(key, value);
    }

    proof fn lemma_probed(before: Sieve<K, V>, key: K) {
    }

    fn empty_shard(capacity: usize) -> (shard: Self) {
        Shard::new(capacity)
    }

    fn shard_capacity(&self) -> (n: usize) {
        self.capacity()
    }

    fn shard_len(&self) -> (n: usize) {
        self.len()
    }

    fn shard_contains(&mut self, key: &K, hash: u64) -> (held: bool) {
        let ghost b = *self;
        let held: bool = self.contains(key, hash);
        proof {
            b.lemma_touched(*self, *key);
        }
        held
    }

    fn shard_get(&mut self, key: &K, hash: u64) -> (value: Option<V>) {
        let ghost b = *self;
        let value: Option<V> = self.get_by_hash(key, hash);
        proof {
            b.lemma_touched(*self, *key);
        }
        value
    }

    fn shard_insert(&mut self, key: K, value: V, hash: u64) -> (evicted: Option<(K, V)>) {
        let ghost b = *self;
        let evicted: Option<(K, V)> = self.insert(key, value, hash);
        proof {
            b.lemma_inserted(*self, key, value, hash);
        }
        evicted
    }
}

impl<K: CacheKey, V: Clone> RemovingShard for Shard<K, V> {
    fn shard_remove(&mut self, key: &K, hash: u64) -> (value: Option<V>) {
        let ghost b = *self;
        proof {
            b.lemma_wf();
        }
        let value: Option<V> = self.remove(key, hash);
        proof {
            assert forall|k: K, h: u64| b.agrees(k, h) implies #[trigger] self.agrees(k, h) by {
                lemma_agree_remove(b@, b.needles(), *key, k, b.tag_layout().needle(h));
            }
        }
        value
    }
}

/// A cache of `SHARDS` shards.
pub struct ConcurrentSieveR3<K, V, const SHARDS: usize> {
    shards: ShardArray<Shard<K, V>>,
}

impl<K: CacheKey, V: Clone, const SHARDS: usize> ConcurrentSieveR3<K, V, SHARDS> {
    /// The shards behind the cache.
    pub closed spec fn array(self) -> ShardArray<Shard<K, V>> {
        self.shards
    }

    pub open spec fn wf(self) -> bool {
        self.array().wf() && self.array().queues().len() == SHARDS
    }

    /// The value cached under `key`.
    pub open spec fn lookup(self, key: K) -> Option<V> {
        self.array().lookup(key)
    }

    /// The queue of the shard that `key` belongs to.
    pub open spec fn queue_of(self, key: K) -> Sieve<K, V> {
        self.array().queues()[self.array().route(key)]
    }

    /// The arena slots of the shard that `key` belongs to.
    pub open spec fn ids_of(self, key: K) -> Seq<int> {
        self.array().ids()[self.array().route(key)]
    }

    /// An empty cache of `capacity` items.
    pub fn new(capacity: usize) -> (cache: Self)
        requires
            K::told_apart(),
            is_shard_count(SHARDS),
            SHARDS <= capacity,
            share(capacity as int, SHARDS as int, 0) <= MAX_PER_SHARD,
        ensures
            cache.wf(),
            cache.array().spec_capacity() == capacity,
            cache.array().spec_len() == 0,
            forall|key: K| #[trigger] cache.lookup(key) is None,
            forall|i: int|
                0 <= i < SHARDS ==> #[trigger] cache.array().queues()[i] == Sieve::<K, V>::empty(
                    share(capacity as int, SHARDS as int, i) as nat,
                ),
            cache.array().ids().len() == SHARDS,
            forall|i: int|
                0 <= i < SHARDS ==> #[trigger] cache.array().ids()[i] == Seq::<int>::empty(),
    {
        ConcurrentSieveR3 { shards: ShardArray::new(capacity, SHARDS) }
    }

    /// Shard number `i`.
    pub fn shard(&self, i: usize) -> (shard: &Shard<K, V>)
        requires
            self.wf(),
            i < SHARDS,
        ensures
            shard.wf(),
            shard@ == self.array().queues()[i as int],
            shard.ids() == self.array().ids()[i as int],
    {
        self.shards.shard(i)
    }

    pub fn capacity(&self) -> (n: usize)
        requires
            self.wf(),
        ensures
            n == self.array().spec_capacity(),
    {
        self.shards.capacity()
    }

    pub fn len(&self) -> (n: usize)
        requires
            self.wf(),
        ensures
            n == self.array().spec_len(),
            n <= self.array().spec_capacity(),
    {
        self.shards.len()
    }

    pub fn is_empty(&self) -> (empty: bool)
        requires
            self.wf(),
        ensures
            empty == (self.array().spec_len() == 0),
    {
        self.shards.is_empty()
    }

    /// Whether `key` is cached; a hit is marked.
    pub fn contains_key(&mut self, key: &K) -> (held: bool)
        requires
            old(self).wf(),
        ensures
            final(self).wf(),
            held == (old(self).lookup(*key) is Some),
            final(self).array().selector() == old(self).array().selector(),
            final(self).array().queues() == old(self).array().queues().update(
                old(self).array().route(*key),
                old(self).queue_of(*key).touch(*key),
            ),
            final(self).array().ids() == old(self).array().ids(),
    {
        self.shards.contains_key(key)
    }

    /// The value cached under `key`; a hit is marked.
    pub fn get(&mut self, key: &K) -> (value: Option<V>)
        requires
            old(self).wf(),
        ensures
            final(self).wf(),
            read_of(old(self).lookup(*key), value),
            final(self).array().selector() == old(self).array().selector(),
            final(self).array().queues() == old(self).array().queues().update(
                old(self).array().route(*key),
                old(self).queue_of(*key).touch(*key),
            ),
            final(self).array().ids() == old(self).array().ids(),
    {
        self.shards.get(key)
    }

    /// Caches `value` under `key` and returns what that pushed out.
    pub fn insert(&mut self, key: K, value: V) -> (evicted: Option<(K, V)>)
        requires
            old(self).wf(),
        ensures
            final(self).wf(),
            evicted == old(self).queue_of(key).displaced(key),
            final(self).array().selector() == old(self).array().selector(),
            final(self).array().queues() == old(self).array().queues().update(
                old(self).array().route(key),
                old(self).queue_of(key).insert(key, value),
            ),
            final(self).array().ids() == old(self).array().ids().update(
                old(self).array().route(key),
                old(self).queue_of(key).carried(
                    old(self).ids_of(key),
                    key,
                    old(self).queue_of(key).next_id(old(self).ids_of(key)),
                ),
            ),
    {
        self.shards.insert(key, value)
    }

    /// Removes `key` and returns its value.
    pub fn remove(&mut self, key: &K) -> (value: Option<V>)
        requires
            old(self).wf(),
        ensures
            final(self).wf(),
            value == old(self).lookup(*key),
            final(self).array().selector() == old(self).array().selector(),
            final(self).array().queues() == old(self).array().queues().update(
                old(self).array().route(*key),
                old(self).queue_of(*key).remove(*key),
            ),
            final(self).array().ids() == (if old(self).lookup(*key) is Some {
                old(self).array().ids().update(
                    old(self).array().route(*key),
                    ids_without(
                        old(self).ids_of(*key),
                        old(self).queue_of(*key).position(*key),
                    ),
                )
            } else {
                old(self).array().ids()
            }),
    {
        self.shards.remove(key)
    }
}

impl<K: CacheKey, V: Clone, const SHARDS: usize> ConcurrentCacheImpl<
    K,
    V,
> for ConcurrentSieveR3<K, V, SHARDS> {
    open spec fn valid(self) -> bool {
        self.wf()
    }

    open spec fn contents(self) -> spec_fn(K) -> Option<V> {
        |k: K| self.lookup(k)
    }

    open spec fn count(self) -> int {
        self.array().spec_len()
    }

    open spec fn limit(self) -> int {
        self.array().spec_capacity()
    }

    open spec fn admits(capacity: usize) -> bool {
        &&& K::told_apart()
        &&& is_shard_count(SHARDS)
        &&& SHARDS <= capacity
        &&& share(capacity as int, SHARDS as int, 0) <= MAX_PER_SHARD
    }

    fn with_capacity(capacity: usize) -> (cache: Self) {
        let cache: Self = ConcurrentSieveR3::new(capacity);
        assert forall|k: K| #[trigger] cache.contents()(k) is None by {
            assert(cache.lookup(k) is None);
        }
        cache
    }

    fn capacity(&self) -> (n: usize) {
        self.capacity()
    }

    fn len(&self) -> (n: usize) {
        let n: usize = self.len();
        assert(self.limit() == self.array().spec_capacity());
        n
    }

    fn contains_key(&mut self, key: &K) -> (held: bool) {
        let ghost before = *self;
        let held: bool = self.contains_key(key);
        proof {
            ShardArray::law_get(before.array(), *key, self.array());
            assert forall|k: K| #[trigger] self.contents()(k) == before.contents()(k) by {
                assert(self.array().lookup(k) == before.array().lookup(k));
            }
        }
        held
    }

    fn get(&mut self, key: &K) -> (value: Option<V>) {
        let ghost before = *self;
        let value: Option<V> = self.get(key);
        proof {
            ShardArray::law_get(before.array(), *key, self.array());
            assert forall|k: K| #[trigger] self.contents()(k) == before.contents()(k) by {
                assert(self.array().lookup(k) == before.array().lookup(k));
            }
        }
        value
    }

    fn insert(&mut self, key: K, value: V) -> (evicted: Option<(K, V)>) {
        let ghost before = *self;
        let evicted: Option<(K, V)> = self.insert(key, value);
        proof {
            ShardArray::law_insert(before.array(), key, value, self.array(), evicted);
            ShardArray::lemma_stored(before.array(), key, value, self.array(), evicted);
        }
        evicted
    }
}

} // verus!
