//! A shard whose entries carry a version.
//!
//! A writer of an entry makes its version odd, writes, and makes it even again, two
//! further than before; tags stay as they are, and every eviction moves an epoch. A
//! reader trusts a snapshot between two equal even versions, and a miss only if the
//! epoch stood still. The methods here are the steps of one operation that runs
//! alone.
use crate::experimental::ConcurrentCacheImpl;
use crate::hash::CacheKey;
use crate::model::Sieve;
use crate::needle::{lemma_agree_insert, lemma_agree_touch, tags_agree};
use crate::seqlock::{
    after_claim, after_scan, after_tag_load, begin_write, end_write, probe_by_version,
    version_stable, written, ClaimStep, Probe, ReadStep, TagStep, MAX_CLAIM_RETRY, MAX_READER_RETRY,
};
use crate::shard::{read_of, CacheShard};
use crate::sharded::{is_shard_count, share, ShardArray};
use crate::shift_shard::ShiftShard;
use crate::stats::Stats;
use crate::tag::{stride_of, TagLayout, LIVE, MAX_PER_SHARD};
use vstd::prelude::*;

verus! {

/// The number of shards where none is given.
pub const DEFAULT_SHARDS: usize = 8;

/// Entries are aligned to this many bytes.
pub const ENTRY_ALIGN: usize = 32;

/// One shard. `versions` goes by id, as the arena does.
pub struct Shard<K, V> {
    core: ShiftShard<K, V>,
    versions: Vec<u32>,
    path_c_epoch: u64,
}

impl<K: CacheKey, V: Clone> Shard<K, V> {
    pub closed spec fn view(self) -> Sieve<K, V> {
        self.core@
    }

    /// No write is under way.
    pub closed spec fn wf(self) -> bool {
        &&& self.core.wf()
        &&& self.core.tag_layout().hash_bits == 9
        &&& self.versions@.len() == self@.capacity
        &&& forall|d: int| 0 <= d < self.versions@.len() ==> #[trigger] self.versions@[d] % 2 == 0
    }

    /// The tag of position `i`.
    pub closed spec fn tag_at(self, i: int) -> u16 {
        self.core.tag_at(i)
    }

    /// The arena slot of position `i`.
    pub closed spec fn id_at(self, i: int) -> int {
        self.core.id_at(i)
    }

    /// The version of arena slot `id`.
    pub closed spec fn version_of(self, id: int) -> u32 {
        self.versions@[id]
    }

    /// The number of evictions, as far as 64 bits count.
    pub closed spec fn epoch(self) -> u64 {
        self.path_c_epoch
    }

    pub closed spec fn tag_layout(self) -> TagLayout {
        self.core.tag_layout()
    }

    /// The arena slots of the queued positions, oldest first.
    pub closed spec fn ids(self) -> Seq<int> {
        self.core.ids()
    }

    /// The hash bits of the queued positions, oldest first.
    pub closed spec fn needles(self) -> Seq<u16> {
        self.core.needles()
    }

    /// Whether `key`, where it is cached, has the hash bits `needle`.
    pub open spec fn carries(self, key: K, needle: u16) -> bool {
        tags_agree(self@, self.needles(), key, needle)
    }

    /// Whether `key`, where it is cached, was stored under a hash with the bits of
    /// `hash`.
    pub open spec fn agrees(self, key: K, hash: u64) -> bool {
        self.carries(key, self.tag_layout().needle(hash))
    }

    /// The shard stands for a well-formed queue, its ids are `0..len`, each once, and
    /// every version is even.
    pub proof fn lemma_wf(self)
        requires
            self.wf(),
        ensures
            self@.wf(),
            self@.capacity <= MAX_PER_SHARD,
            self.tag_layout().wf(),
            self.needles().len() == self@.len(),
            self.ids().len() == self@.len(),
            forall|i: int| 0 <= i < self@.len() ==> #[trigger] self.ids()[i] == self.id_at(i),
            forall|d: int| 0 <= d < self@.capacity ==> #[trigger] self.version_of(d) % 2 == 0,
            forall|i: int| 0 <= i < self@.len() ==> 0 <= #[trigger] self.id_at(i) < self@.len(),
            forall|i: int, j: int|
                0 <= i < self@.len() && 0 <= j < self@.len() && i != j ==> #[trigger] self.id_at(i)
                    != #[trigger] self.id_at(j),
    {
        self.core.lemma_view();
        self.core.lemma_ids();
        assert forall|i: int| 0 <= i < self@.len() implies 0 <= #[trigger] self.id_at(i)
            < self@.len() by {
            assert(self.core.id_at(i) < self@.len());
        }
        assert forall|i: int, j: int|
            0 <= i < self@.len() && 0 <= j < self@.len() && i != j implies #[trigger] self.id_at(i)
            != #[trigger] self.id_at(j) by {
            assert(self.core.id_at(i) != self.core.id_at(j));
        }
    }

    /// An empty shard.
    pub fn new(capacity: usize) -> (shard: Self)
        requires
            K::told_apart(),
            0 < capacity <= MAX_PER_SHARD,
        ensures
            shard.wf(),
            shard@ == Sieve::<K, V>::empty(capacity as nat),
            shard.ids() == Seq::<int>::empty(),
            shard.needles() == Seq::<u16>::empty(),
            shard.epoch() == 0,
            shard.tag_layout() == TagLayout::for_stride(
                stride_of(core::mem::size_of::<(u32, K, V)>(), ENTRY_ALIGN),
                9,
            ),
    {
        let layout: TagLayout = TagLayout::for_entries(
            core::mem::size_of::<(u32, K, V)>(),
            ENTRY_ALIGN,
            9,
        );
        let mut versions: Vec<u32> = Vec::with_capacity(capacity);
        while versions.len() < capacity
            invariant
                versions@.len() <= capacity,
                forall|d: int| 0 <= d < versions@.len() ==> #[trigger] versions@[d] == 0,
            decreases capacity - versions@.len(),
        {
            versions.push(0);
        }
        Shard { core: ShiftShard::new(capacity, layout), versions, path_c_epoch: 0 }
    }

    pub fn capacity(&self) -> (n: usize)
        ensures
            n == self@.capacity,
    {
        self.core.capacity()
    }

    pub fn len(&self) -> (n: usize)
        ensures
            n == self@.len(),
    {
        self.core.len()
    }

    pub fn is_empty(&self) -> (empty: bool)
        ensures
            empty == (self@.len() == 0),
    {
        self.core.len() == 0
    }

    /// The layout of the shard's tags.
    pub fn layout(&self) -> (layout: TagLayout)
        ensures
            layout == self.tag_layout(),
    {
        self.core.layout()
    }

    /// The tag of position `pos`.
    pub fn tag(&self, pos: usize) -> (tag: u16)
        requires
            self.wf(),
            pos < self@.len(),
        ensures
            tag == self.tag_at(pos as int),
            tag & LIVE != 0,
    {
        self.core.tag(pos)
    }

    /// Whether the item at position `pos` is marked.
    pub fn marked(&self, pos: usize) -> (mark: bool)
        requires
            self.wf(),
            pos < self@.len(),
        ensures
            mark == self@.items[pos as int].visited,
    {
        self.core.marked(pos)
    }

    /// The version of arena slot `id`.
    pub fn version(&self, id: usize) -> (v: u32)
        requires
            self.wf(),
            id < self@.capacity,
        ensures
            v == self.version_of(id as int),
    {
        self.versions[id]
    }

    /// The number of evictions, as far as 64 bits count.
    pub fn evictions(&self) -> (n: u64)
        ensures
            n == self.epoch(),
    {
        self.path_c_epoch
    }

    /// Reads position `pos` between two loads of its entry's version, and marks it on a
    /// hit.
    fn try_candidate(&mut self, pos: usize, key: &K, needle: u16) -> (probe: Probe<V>)
        requires
            old(self).wf(),
            pos < old(self)@.len(),
            old(self).carries(*key, needle),
            old(self).tag_layout().is_needle(needle),
        ensures
            final(self).wf(),
            !(probe is Racing),
            probe is Found <==> old(self)@.at(pos as int, *key),
            probe matches Probe::Found(v) ==> cloned(old(self)@.items[pos as int].value, v)
                && final(self)@ == old(self)@.touch(*key),
            probe is Miss ==> *final(self) == *old(self),
            old(self).same_stamps(*final(self)),
    {
        let layout: TagLayout = self.core.layout();
        let t1: u16 = self.core.tag(pos);
        proof {
            self.core.lemma_tag_matches(pos as int, *key, needle);
            self.core.lemma_view();
            self.core.lemma_ids();
            assert(self.core.id_at(pos as int) < self@.len());
        }
        let id: usize = self.core.id(pos);
        let v1: u32 = self.versions[id];
        let same: bool = self.core.key_at(pos).same_key(key);
        let v2: u32 = self.versions[id];
        match probe_by_version(&layout, needle, t1, v1, v2, same) {
            Probe::Found(_) => {
                proof {
                    self@.lemma_position(*key, pos as int);
                }
                let value: V = self.core.value_at(pos).clone();
                self.core.mark(pos);
                Probe::Found(value)
            },
            Probe::Miss => Probe::Miss,
            Probe::Racing => Probe::Racing,
        }
    }

    /// Tags, versions and epoch are the same.
    pub open spec fn same_stamps(self, other: Self) -> bool {
        &&& other.tag_layout() == self.tag_layout()
        &&& other.epoch() == self.epoch()
        &&& forall|i: int| #[trigger] other.tag_at(i) == self.tag_at(i)
        &&& forall|d: int| #[trigger] other.version_of(d) == self.version_of(d)
        &&& other.ids() == self.ids()
        &&& other.needles() == self.needles()
    }

    /// Tags and epoch are the same, and only the version of arena slot `id` has moved,
    /// by two.
    pub open spec fn updated_stamps(self, other: Self, id: int) -> bool {
        &&& other.tag_layout() == self.tag_layout()
        &&& other.epoch() == self.epoch()
        &&& forall|i: int| #[trigger] other.tag_at(i) == self.tag_at(i)
        &&& other.version_of(id) == written(self.version_of(id), 2)
        &&& forall|d: int|
            0 <= d < self@.capacity && d != id ==> #[trigger] other.version_of(d)
                == self.version_of(d)
        &&& other.ids() == self.ids()
        &&& other.needles() == self.needles()
    }

    /// Scans the queue once. The flag says whether a snapshot could not be trusted.
    fn find_get(&mut self, key: &K, needle: u16) -> (found: (Option<V>, bool))
        requires
            old(self).wf(),
            old(self).carries(*key, needle),
            old(self).tag_layout().is_needle(needle),
        ensures
            final(self).wf(),
            !found.1,
            read_of(old(self)@.lookup(*key), found.0),
            final(self)@ == old(self)@.touch(*key),
            old(self).same_stamps(*final(self)),
    {
        let len: usize = self.core.len();
        let mask: u16 = self.core.layout().scan_mask();
        let mut racing: bool = false;
        let mut i: usize = 0;
        while i < len
            invariant
                *self == *old(self),
                self.wf(),
                i <= len == self@.len(),
                mask == self.tag_layout().scan_bits(),
                self.carries(*key, needle),
                self.tag_layout().is_needle(needle),
                !racing,
                forall|j: int| 0 <= j < i ==> !#[trigger] self@.at(j, *key),
            decreases len - i,
        {
            let t: u16 = self.core.tag(i);
            proof {
                self.core.lemma_tag_matches(i as int, *key, needle);
                self.core.lemma_view();
            }
            if t & mask == needle {
                match self.try_candidate(i, key, needle) {
                    Probe::Found(v) => {
                        proof {
                            old(self)@.lemma_position(*key, i as int);
                        }
                        return (Some(v), false);
                    },
                    Probe::Racing => {
                        racing = true;
                    },
                    Probe::Miss => {},
                }
            }
            assert(!self@.at(i as int, *key));
            i = i + 1;
        }
        (None, racing)
    }

    /// The value cached under `key`; a hit is marked. Scans again, up to a limit, as
    /// long as a scan met an untrusted snapshot or an eviction.
    pub fn get_by_hash(&mut self, key: &K, hash: u64) -> (value: Option<V>)
        requires
            old(self).wf(),
            old(self).agrees(*key, hash),
        ensures
            final(self).wf(),
            read_of(old(self)@.lookup(*key), value),
            final(self)@ == old(self)@.touch(*key),
            old(self).same_stamps(*final(self)),
    {
        proof {
            self.core.lemma_view();
        }
        let needle: u16 = self.core.layout().needle_from_hash(hash);
        let mut attempt: usize = 0;
        while attempt < MAX_READER_RETRY
            invariant
                attempt == 0,
                *self == *old(self),
                self.wf(),
                self.carries(*key, needle),
                self.tag_layout().is_needle(needle),
            decreases MAX_READER_RETRY - attempt,
        {
            let epoch_before: u64 = self.path_c_epoch;
            let (value, racing): (Option<V>, bool) = self.find_get(key, needle);
            let epoch_after: u64 = self.path_c_epoch;
            match after_scan(attempt, value.is_some(), !racing && epoch_before == epoch_after) {
                ReadStep::Hit => {
                    return value;
                },
                ReadStep::Settled => {
                    return None;
                },
                ReadStep::GiveUp => {
                    return None;
                },
                ReadStep::Again => {},
            }
            attempt = attempt + 1;
        }
        None
    }

    /// Whether `key` is cached; a hit is marked.
    pub fn contains(&mut self, key: &K, hash: u64) -> (held: bool)
        requires
            old(self).wf(),
            old(self).agrees(*key, hash),
        ensures
            final(self).wf(),
            held == old(self)@.holds(*key),
            final(self)@ == old(self)@.touch(*key),
            old(self).same_stamps(*final(self)),
    {
        self.get_by_hash(key, hash).is_some()
    }

    /// What an insert of `key` makes of the stamps: an update moves the version of the
    /// key's entry by two; an append changes neither version nor epoch; an eviction
    /// moves the version of the victim's arena slot by two and the epoch by one.
    /// What stays keeps its arena slot and its hash bits; a new item takes the victim's
    /// slot, or the first unused one.
    pub open spec fn insert_stamps(self, key: K, needle: u16, other: Self) -> bool {
        &&& other.tag_layout() == self.tag_layout()
        &&& other.ids() == self@.carried(self.ids(), key, self@.next_id(self.ids()))
        &&& other.needles() == self@.carried(self.needles(), key, needle)
        &&& if self@.holds(key) {
            self.updated_stamps(other, self.id_at(self@.position(key)))
        } else if self@.full() {
            let id = self.id_at(self@.victim());
            &&& other.epoch() == self.epoch().wrapping_add(1)
            &&& other.version_of(id) == written(self.version_of(id), 2)
            &&& other.id_at(self@.len() - 1) == id
            &&& forall|d: int|
                0 <= d < self@.capacity && d != id ==> #[trigger] other.version_of(d)
                    == self.version_of(d)
        } else {
            &&& other.epoch() == self.epoch()
            &&& other.version_of(self@.len() as int) == 0
            &&& forall|d: int|
                0 <= d < self@.len() ==> #[trigger] other.version_of(d) == self.version_of(d)
        }
    }

    /// What leaves tags, versions and epoch as they are writes no entry and evicts nothing: a
    /// reader that looks at an entry before and after sees the same version, and one that
    /// looks for a key that is not there sees the same epoch.
    pub proof fn law_same_stamps(self, other: Self, id: int, pos: int)
        requires
            self.same_stamps(other),
        ensures
            version_stable(self.version_of(id), other.version_of(id)) <==> self.version_of(id) % 2
                == 0,
            self.epoch() == other.epoch(),
            self.tag_at(pos) == other.tag_at(pos),
            self.ids() == other.ids(),
            self.needles() == other.needles(),
    {
        assert(other.tag_at(pos) == self.tag_at(pos));
        assert(other.version_of(id) == self.version_of(id));
    }

    /// An insert moves the epoch by one if it pushes something out, and not at all
    /// otherwise. It moves the version of an entry by two if the entry was that of `key` or
    /// was pushed out; every other entry keeps its version.
    pub proof fn law_insert_stamps(self, key: K, needle: u16, other: Self, i: int)
        requires
            self.wf(),
            self.insert_stamps(key, needle, other),
            0 <= i < self@.len(),
        ensures
            self@.displaced(key) is Some ==> other.epoch() as int == (self.epoch() + 1)
                % 0x1_0000_0000_0000_0000,
            self@.displaced(key) is None ==> other.epoch() == self.epoch(),
            ({
                let moved = self@.items[i].key == key || (self@.displaced(key) matches Some((k, _))
                    && self@.items[i].key == k);
                other.version_of(self.ids()[i]) as int == (self.version_of(self.ids()[i]) + if moved {
                    2int
                } else {
                    0
                }) % 0x1_0000_0000
            }),
    {
        self.lemma_wf();
        assert(self.ids()[i] == self.id_at(i));
        self@.law_displaced(key);
        if self@.at(i, key) {
            self@.lemma_position(key, i);
        }
        if self@.holds(key) {
            assert(self@.at(self@.position(key), key));
            self@.lemma_position(key, self@.position(key));
        } else if self@.full() {
            self@.law_victim();
            let v = self@.victim();
            self@.lemma_position(self@.items[v].key, v);
            self@.lemma_position(self@.items[i].key, i);
        }
    }

    /// Caches `value` under `key` and returns what that pushed out.
    pub fn insert(&mut self, key: K, value: V, hash: u64) -> (evicted: Option<(K, V)>)
        requires
            old(self).wf(),
            old(self).agrees(key, hash),
        ensures
            final(self).wf(),
            final(self)@ == old(self)@.insert(key, value),
            evicted == old(self)@.displaced(key),
            old(self).insert_stamps(
                key,
                old(self).tag_layout().needle(hash),
                *final(self),
            ),
    {
        proof {
            self.core.lemma_view();
        }
        let needle: u16 = self.core.layout().needle_from_hash(hash);
        match self.try_path_a(&key, needle, value) {
            Ok(()) => None,
            Err(value) => self.path_bc(key, value, needle),
        }
    }

    /// Updates a cached key without the writer's lock: claims the entry by its
    /// version, writes, and releases it. Gives the value back if the key is not
    /// cached.
    fn try_path_a(&mut self, key: &K, needle: u16, value: V) -> (done: Result<(), V>)
        requires
            old(self).wf(),
            old(self).carries(*key, needle),
            old(self).tag_layout().is_needle(needle),
        ensures
            final(self).wf(),
            match done {
                Ok(()) => {
                    &&& old(self)@.holds(*key)
                    &&& final(self)@ == old(self)@.update(*key, value)
                    &&& old(self).updated_stamps(
                        *final(self),
                        old(self).id_at(old(self)@.position(*key)),
                    )
                },
                Err(v) => v == value && !old(self)@.holds(*key) && *final(self) == *old(self),
            },
    {
        let mut attempt: usize = 0;
        while attempt < MAX_CLAIM_RETRY
            invariant
                attempt == 0,
                *self == *old(self),
                self.wf(),
                self.carries(*key, needle),
                self.tag_layout().is_needle(needle),
            decreases MAX_CLAIM_RETRY - attempt,
        {
            match self.find_lockfree_for_path_a(key, needle) {
                None => {
                    return Err(value);
                },
                Some((pos, id, v_snap)) => {
                    let won: bool = self.versions[id] == v_snap;
                    match after_claim(attempt, won) {
                        ClaimStep::Write => {
                            proof {
                                self.core.lemma_view();
                                self@.lemma_position(*key, pos as int);
                            }
                            self.write_versioned(pos, id, value);
                            return Ok(());
                        },
                        ClaimStep::Again => {},
                        ClaimStep::Escalate => {
                            return Err(value);
                        },
                    }
                },
            }
            attempt = attempt + 1;
        }
        Err(value)
    }

    /// Writes a new value at `pos`, whose arena slot is `id`, inside a step of the
    /// slot's version from even to odd to even, and marks the position.
    fn write_versioned(&mut self, pos: usize, id: usize, value: V)
        requires
            old(self).wf(),
            pos < old(self)@.len(),
            id == old(self).id_at(pos as int),
            id < old(self)@.capacity,
        ensures
            final(self).wf(),
            final(self)@ == old(self)@.update(old(self)@.items[pos as int].key, value),
            old(self).updated_stamps(*final(self), id as int),
    {
        let ghost before = *self;
        let v_claimed: u32 = begin_write(self.versions[id]);
        self.versions.set(id, v_claimed);
        self.core.update_in_place(pos, value);
        self.versions.set(id, end_write(v_claimed));
        proof {
            assert forall|i: int| #[trigger] self.tag_at(i) == before.tag_at(i) by {
                assert(self.core.tag_at(i) == before.core.tag_at(i));
            }
        }
    }

    /// The position of `key`, its arena slot and the version that was seen there.
    fn find_lockfree_for_path_a(&self, key: &K, needle: u16) -> (found: Option<
        (usize, usize, u32),
    >)
        requires
            self.wf(),
            self.carries(*key, needle),
            self.tag_layout().is_needle(needle),
        ensures
            match found {
                Some((pos, id, v)) => {
                    &&& self@.at(pos as int, *key)
                    &&& id == self.id_at(pos as int)
                    &&& id < self@.capacity
                    &&& v == self.version_of(id as int)
                },
                None => !self@.holds(*key),
            },
    {
        let len: usize = self.core.len();
        let mask: u16 = self.core.layout().scan_mask();
        let mut i: usize = 0;
        while i < len
            invariant
                self.wf(),
                i <= len == self@.len(),
                mask == self.tag_layout().scan_bits(),
                self.carries(*key, needle),
                self.tag_layout().is_needle(needle),
                forall|j: int| 0 <= j < i ==> !#[trigger] self@.at(j, *key),
            decreases len - i,
        {
            let t1: u16 = self.core.tag(i);
            proof {
                self.core.lemma_tag_matches(i as int, *key, needle);
            }
            if t1 & mask == needle {
                match self.try_path_a_candidate(i, t1, key, needle) {
                    Some(found) => {
                        return Some(found);
                    },
                    None => {},
                }
            }
            i = i + 1;
        }
        None
    }

    /// Checks a position whose tag was seen to match.
    fn try_path_a_candidate(&self, pos: usize, t1: u16, key: &K, needle: u16) -> (found: Option<
        (usize, usize, u32),
    >)
        requires
            self.wf(),
            pos < self@.len(),
            t1 == self.tag_at(pos as int),
            self.tag_layout().matches_needle(t1, needle),
        ensures
            match found {
                Some((p, id, v)) => {
                    &&& self@.at(pos as int, *key)
                    &&& p == pos
                    &&& id == self.id_at(pos as int)
                    &&& id < self@.capacity
                    &&& v == self.version_of(id as int)
                },
                None => !self@.at(pos as int, *key),
            },
    {
        let layout: TagLayout = self.core.layout();
        proof {
            self.core.lemma_view();
            self.core.lemma_ids();
            assert(self.core.id_at(pos as int) < self@.len());
        }
        let id: usize = self.core.id(pos);
        let v1: u32 = self.versions[id];
        let same: bool = self.core.key_at(pos).same_key(key);
        let v2: u32 = self.versions[id];
        match probe_by_version(&layout, needle, t1, v1, v2, same) {
            Probe::Found(_) => Some((pos, id, v1)),
            _ => None,
        }
    }

    /// What runs under the writer's lock: an update after all, an append, or an
    /// eviction with an append.
    fn path_bc(&mut self, key: K, value: V, needle: u16) -> (evicted: Option<(K, V)>)
        requires
            old(self).wf(),
            old(self).carries(key, needle),
            old(self).tag_layout().is_needle(needle),
        ensures
            final(self).wf(),
            final(self)@ == old(self)@.insert(key, value),
            evicted == old(self)@.displaced(key),
            old(self).insert_stamps(key, needle, *final(self)),
    {
        match self.writer_find(&key, needle) {
            Some((pos, id)) => {
                proof {
                    self.core.lemma_view();
                    self@.lemma_position(key, pos as int);
                }
                self.write_versioned(pos, id, value);
                None
            },
            None => {
                proof {
                    self.core.lemma_view();
                }
                if self.core.len() < self.core.capacity() {
                    let id: usize = self.core.len();
                    self.core.warmup_install(key, value, needle);
                    self.versions.set(id, 0);
                    None
                } else {
                    Some(self.writer_evict_and_install(key, value, needle))
                }
            },
        }
    }

    /// Evicts and queues the new entry, inside a step of the version of the victim's
    /// arena slot, and moves the epoch.
    fn writer_evict_and_install(&mut self, key: K, value: V, needle: u16) -> (evicted: (K, V))
        requires
            old(self).wf(),
            old(self)@.full(),
            !old(self)@.holds(key),
            old(self).carries(key, needle),
            old(self).tag_layout().is_needle(needle),
        ensures
            final(self).wf(),
            final(self)@ == old(self)@.insert(key, value),
            Some(evicted) == old(self)@.displaced(key),
            old(self).insert_stamps(key, needle, *final(self)),
    {
        proof {
            self.core.lemma_view();
            self@.law_insert(key, value);
        }
        let (k, v, id): (K, V, usize) = self.core.evict_and_install(key, value, needle);
        let v_claimed: u32 = begin_write(self.versions[id]);
        self.versions.set(id, end_write(v_claimed));
        self.path_c_epoch = self.path_c_epoch.wrapping_add(1);
        (k, v)
    }

    /// The position of `key` and its arena slot, found under the writer's lock. An
    /// empty tag or an odd version would be waited for.
    fn writer_find(&self, key: &K, needle: u16) -> (found: Option<(usize, usize)>)
        requires
            self.wf(),
            self.carries(*key, needle),
            self.tag_layout().is_needle(needle),
        ensures
            match found {
                Some((pos, id)) => {
                    &&& self@.at(pos as int, *key)
                    &&& id == self.id_at(pos as int)
                    &&& id < self@.capacity
                },
                None => !self@.holds(*key),
            },
    {
        let len: usize = self.core.len();
        let mask: u16 = self.core.layout().scan_mask();
        let mut pos: usize = 0;
        while pos < len
            invariant
                self.wf(),
                pos <= len == self@.len(),
                mask == self.tag_layout().scan_bits(),
                self.carries(*key, needle),
                self.tag_layout().is_needle(needle),
                forall|j: int| 0 <= j < pos ==> !#[trigger] self@.at(j, *key),
            decreases len - pos,
        {
            let t: u16 = self.read_live_tag(pos);
            proof {
                self.core.lemma_tag_matches(pos as int, *key, needle);
            }
            if t & mask == needle {
                match self.try_path_a_candidate(pos, t, key, needle) {
                    Some((p, id, _v)) => {
                        return Some((p, id));
                    },
                    None => {},
                }
            }
            pos = pos + 1;
        }
        None
    }

    /// The tag of a queued position. With nobody updating, none is claimed.
    fn read_live_tag(&self, pos: usize) -> (tag: u16)
        requires
            self.wf(),
            pos < self@.len(),
        ensures
            tag == self.tag_at(pos as int),
    {
        let t: u16 = self.core.tag(pos);
        assert(0u16 & 0x8000u16 == 0) by (bit_vector);
        match after_tag_load(t) {
            TagStep::Read(tag) => tag,
            TagStep::Wait => t,
        }
    }

    /// What was to be found is still found after a read.
    pub proof fn lemma_touched(self, to: Self, key: K)
        requires
            self.wf(),
            to@ == self@.touch(key),
            to.needles() == self.needles(),
            to.tag_layout() == self.tag_layout(),
        ensures
            forall|k: K, h: u64| self.agrees(k, h) ==> #[trigger] to.agrees(k, h),
    {
        self.lemma_wf();
        assert forall|k: K, h: u64| self.agrees(k, h) implies #[trigger] to.agrees(k, h) by {
            lemma_agree_touch(self@, self.needles(), key, k, self.tag_layout().needle(h));
        }
    }

    /// What was to be found is still found after an insert, and so is the new key.
    pub proof fn lemma_inserted(self, to: Self, key: K, value: V, hash: u64)
        requires
            self.wf(),
            self.agrees(key, hash),
            to@ == self@.insert(key, value),
            to.needles() == self@.carried(self.needles(), key, self.tag_layout().needle(hash)),
            to.tag_layout() == self.tag_layout(),
        ensures
            forall|k: K, h: u64| k != key && self.agrees(k, h) ==> #[trigger] to.agrees(k, h),
            to.agrees(key, hash),
    {
        self.lemma_wf();
        let new = self.tag_layout().needle(hash);
        assert forall|k: K, h: u64| k != key && self.agrees(k, h) implies #[trigger] to.agrees(
            k,
            h,
        ) by {
            let needle = self.tag_layout().needle(h);
            lemma_agree_insert(self@, self.needles(), key, value, new, k, needle);
        }
        lemma_agree_insert(self@, self.needles(), key, value, new, key, new);
    }

    /// The number of live tags.
    pub fn live_count(&self) -> (n: usize)
        requires
            self.wf(),
        ensures
            n == self@.len(),
    {
        self.core.live_count()
    }

    /// The ids of the queued positions, oldest first.
    pub fn live_ids(&self) -> (ids: Vec<usize>)
        requires
            self.wf(),
        ensures
            ids@.len() == self@.len(),
            forall|i: int| 0 <= i < ids@.len() ==> #[trigger] ids@[i] == self.id_at(i),
            forall|i: int| 0 <= i < ids@.len() ==> ids@[i] == #[trigger] self.ids()[i],
    {
        self.core.live_ids()
    }
}

impl<K: CacheKey, V: Clone> CacheShard for Shard<K, V> {
    type Key = K;

    type Value = V;

    closed spec fn wf(self) -> bool {
        Shard::wf(self)
    }

    closed spec fn queue(self) -> Sieve<K, V> {
        self@
    }

    open spec fn put(before: Sieve<K, V>, key: K, value: V) -> Sieve<K, V> {
        before.insert(key, value)
    }

    closed spec fn agrees(self, key: K, hash: u64) -> bool {
        Shard::agrees(self, key, hash)
    }

    closed spec fn ids(self) -> Seq<int> {
        Shard::ids(self)
    }

    open spec fn put_ids(before: Sieve<K, V>, ids: Seq<int>, key: K) -> Seq<int> {
        before.carried(ids, key, before.next_id(ids))
    }

    open spec fn probed(before: Sieve<K, V>, key: K) -> Sieve<K, V> {
        before.touch(key)
    }

    open spec fn counts(self) -> Stats {
        Stats::none()
    }

    open spec fn counting() -> bool {
        false
    }

    proof fn lemma_queue(self) {
        self.lemma_wf();
    }

    proof fn lemma_put(before: Sieve<K, V>, key: K, value: V) {
        before.law_insert(key, value);
        before.law_mark_of_inserted(key, value);
    }

    proof fn lemma_probed(before: Sieve<K, V>, key: K) {
    }

    fn empty_shard(capacity: usize) -> (shard: Self) {
        Shard::new(capacity)
    }

    fn shard_capacity(&self) -> (n: usize) {
        self.capacity()
    }

    fn shard_len(&self) -> (n: usize) {
        self.len()
    }

    fn shard_contains(&mut self, key: &K, hash: u64) -> (held: bool) {
        let ghost b = *self;
        let held: bool = self.contains(key, hash);
        proof {
            b.lemma_touched(*self, *key);
        }
        held
    }

    fn shard_get(&mut self, key: &K, hash: u64) -> (value: Option<V>) {
        let ghost b = *self;
        let value: Option<V> = self.get_by_hash(key, hash);
        proof {
            b.lemma_touched(*self, *key);
        }
        value
    }

    fn shard_insert(&mut self, key: K, value: V, hash: u64) -> (evicted: Option<(K, V)>) {
        let ghost b = *self;
        let evicted: Option<(K, V)> = self.insert(key, value, hash);
        proof {
            b.lemma_inserted(*self, key, value, hash);
        }
        evicted
    }
}

/// A cache of `SHARDS` shards.
pub struct ConcurrentSieveCache<K, V, const SHARDS: usize> {
    shards: ShardArray<Shard<K, V>>,
}

impl<K: CacheKey, V: Clone, const SHARDS: usize> ConcurrentSieveCache<K, V, SHARDS> {
    /// The shards behind the cache.
    pub closed spec fn array(self) -> ShardArray<Shard<K, V>> {
        self.shards
    }

    pub open spec fn wf(self) -> bool {
        self.array().wf() && self.array().queues().len() == SHARDS
    }

    /// The value cached under `key`.
    pub open spec fn lookup(self, key: K) -> Option<V> {
        self.array().lookup(key)
    }

    /// The queue of the shard that `key` belongs to.
    pub open spec fn queue_of(self, key: K) -> Sieve<K, V> {
        self.array().queues()[self.array().route(key)]
    }

    /// The arena slots of the shard that `key` belongs to.
    pub open spec fn ids_of(self, key: K) -> Seq<int> {
        self.array().ids()[self.array().route(key)]
    }

    /// An empty cache of `capacity` items.
    pub fn new(capacity: usize) -> (cache: Self)
        requires
            K::told_apart(),
            is_shard_count(SHARDS),
            SHARDS <= capacity,
            share(capacity as int, SHARDS as int, 0) <= MAX_PER_SHARD,
        ensures
            cache.wf(),
            cache.array().spec_capacity() == capacity,
            cache.array().spec_len() == 0,
            forall|key: K| #[trigger] cache.lookup(key) is None,
            forall|i: int|
                0 <= i < SHARDS ==> #[trigger] cache.array().queues()[i] == Sieve::<K, V>::empty(
                    share(capacity as int, SHARDS as int, i) as nat,
                ),
            cache.array().ids().len() == SHARDS,
            forall|i: int|
                0 <= i < SHARDS ==> #[trigger] cache.array().ids()[i] == Seq::<int>::empty(),
    {
        ConcurrentSieveCache { shards: ShardArray::new(capacity, SHARDS) }
    }

    /// Shard number `i`.
    pub fn shard(&self, i: usize) -> (shard: &Shard<K, V>)
        requires
            self.wf(),
            i < SHARDS,
        ensures
            shard.wf(),
            shard@ == self.array().queues()[i as int],
            shard.ids() == self.array().ids()[i as int],
    {
        self.shards.shard(i)
    }

    pub fn capacity(&self) -> (n: usize)
        requires
            self.wf(),
        ensures
            n == self.array().spec_capacity(),
    {
        self.shards.capacity()
    }

    pub fn len(&self) -> (n: usize)
        requires
            self.wf(),
        ensures
            n == self.array().spec_len(),
            n <= self.array().spec_capacity(),
    {
        self.shards.len()
    }

    pub fn is_empty(&self) -> (empty: bool)
        requires
            self.wf(),
        ensures
            empty == (self.array().spec_len() == 0),
    {
        self.shards.is_empty()
    }

    /// Whether `key` is cached; a hit is marked.
    pub fn contains_key(&mut self, key: &K) -> (held: bool)
        requires
            old(self).wf(),
        ensures
            final(self).wf(),
            held == (old(self).lookup(*key) is Some),
            final(self).array().selector() == old(self).array().selector(),
            final(self).array().queues() == old(self).array().queues().update(
                old(self).array().route(*key),
                old(self).queue_of(*key).touch(*key),
            ),
            final(self).array().ids() == old(self).array().ids(),
    {
        self.shards.contains_key(key)
    }

    /// The value cached under `key`; a hit is marked.
    pub fn get(&mut self, key: &K) -> (value: Option<V>)
        requires
            old(self).wf(),
        ensures
            final(self).wf(),
            read_of(old(self).lookup(*key), value),
            final(self).array().selector() == old(self).array().selector(),
            final(self).array().queues() == old(self).array().queues().update(
                old(self).array().route(*key),
                old(self).queue_of(*key).touch(*key),
            ),
            final(self).array().ids() == old(self).array().ids(),
    {
        self.shards.get(key)
    }

    /// Caches `value` under `key` and returns what that pushed out.
    pub fn insert(&mut self, key: K, value: V) -> (evicted: Option<(K, V)>)
        requires
            old(self).wf(),
        ensures
            final(self).wf(),
            evicted == old(self).queue_of(key).displaced(key),
            final(self).array().selector() == old(self).array().selector(),
            final(self).array().queues() == old(self).array().queues().update(
                old(self).array().route(key),
                old(self).queue_of(key).insert(key, value),
            ),
            final(self).array().ids() == old(self).array().ids().update(
                old(self).array().route(key),
                old(self).queue_of(key).carried(
                    old(self).ids_of(key),
                    key,
                    old(self).queue_of(key).next_id(old(self).ids_of(key)),
                ),
            ),
    {
        self.shards.insert(key, value)
    }
}

impl<K: CacheKey, V: Clone, const SHARDS: usize> ConcurrentCacheImpl<
    K,
    V,
> for ConcurrentSieveCache<K, V, SHARDS> {
    open spec fn valid(self) -> bool {
        self.wf()
    }

    open spec fn contents(self) -> spec_fn(K) -> Option<V> {
        |k: K| self.lookup(k)
    }

    open spec fn count(self) -> int {
        self.array().spec_len()
    }

    open spec fn limit(self) -> int {
        self.array().spec_capacity()
    }

    open spec fn admits(capacity: usize) -> bool {
        &&& K::told_apart()
        &&& is_shard_count(SHARDS)
        &&& SHARDS <= capacity
        &&& share(capacity as int, SHARDS as int, 0) <= MAX_PER_SHARD
    }

    fn with_capacity(capacity: usize) -> (cache: Self) {
        let cache: Self = ConcurrentSieveCache::new(capacity);
        assert forall|k: K| #[trigger] cache.contents()(k) is None by {
            assert(cache.lookup(k) is None);
        }
        cache
    }

    fn capacity(&self) -> (n: usize) {
        self.capacity()
    }

    fn len(&self) -> (n: usize) {
        let n: usize = self.len();
        assert(self.limit() == self.array().spec_capacity());
        n
    }

    fn contains_key(&mut self, key: &K) -> (held: bool) {
        let ghost before = *self;
        let held: bool = self.contains_key(key);
        proof {
            ShardArray::law_get(before.array(), *key, self.array());
            assert forall|k: K| #[trigger] self.contents()(k) == before.contents()(k) by {
                assert(self.array().lookup(k) == before.array().lookup(k));
            }
        }
        held
    }

    fn get(&mut self, key: &K) -> (value: Option<V>) {
        let ghost before = *self;
        let value: Option<V> = self.get(key);
        proof {
            ShardArray::law_get(before.array(), *key, self.array());
            assert forall|k: K| #[trigger] self.contents()(k) == before.contents()(k) by {
                assert(self.array().lookup(k) == before.array().lookup(k));
            }
        }
        value
    }

    fn insert(&mut self, key: K, value: V) -> (evicted: Option<(K, V)>) {
        let ghost before = *self;
        let evicted: Option<(K, V)> = self.insert(key, value);
        proof {
            ShardArray::law_insert(before.array(), key, value, self.array(), evicted);
            ShardArray::lemma_stored(before.array(), key, value, self.array(), evicted);
        }
        evicted
    }
}

} // verus!
