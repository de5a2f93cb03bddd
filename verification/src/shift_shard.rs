//! A SIEVE shard whose queue is an array of tags without gaps.
//!
//! Position `i` of the queue is `tags[i]`; the tag holds the id of the arena slot
//! with the entry. An eviction moves the tags behind the victim down by one and
//! gives the victim's arena slot to the new entry, so that the queue stays in
//! insertion order and the ids in use are `0..len`.
use crate::bits::{bit, has_bit, with_bit, without_bit};
use crate::hash::CacheKey;
use crate::model::{
    cool, lemma_next_cold, lemma_next_cold_bounds, next_cold, Item, Sieve,
};
use crate::needle::tags_agree;
use crate::tag::{
    padded, padded_len, zeroed, TagLayout, EMPTY, LIVE, MAX_PER_SHARD, SPARE,
};
use vstd::prelude::*;

verus! {

/// A key with its value in the arena.
pub struct Entry<K, V> {
    pub key: K,
    pub value: V,
}

/// The shard. Marks are the bits of one word, by position.
pub struct ShiftShard<K, V> {
    capacity: usize,
    layout: TagLayout,
    tags: Vec<u16>,
    entries: Vec<Option<Entry<K, V>>>,
    visited: u64,
    len: usize,
    hand: usize,
}

/// The arena slots after the item at `pos` was taken out: the entry with the highest slot
/// moves into the one that is left.
pub open spec fn ids_without(ids: Seq<int>, pos: int) -> Seq<int> {
    let rest = ids.remove(pos);
    Seq::new(
        rest.len(),
        |i: int|
            if rest[i] == ids.len() - 1 {
                ids[pos]
            } else {
                rest[i]
            },
    )
}

/// With one item taken out, the others still lie in the slots from nought up, each in one of
/// its own, and whatever did not lie in the last slot has not moved.
pub proof fn law_ids_without(ids: Seq<int>, pos: int)
    requires
        0 <= pos < ids.len(),
        forall|i: int| 0 <= i < ids.len() ==> 0 <= #[trigger] ids[i] < ids.len(),
        forall|i: int, j: int|
            0 <= i < ids.len() && 0 <= j < ids.len() && i != j ==> #[trigger] ids[i]
                != #[trigger] ids[j],
    ensures
        ids_without(ids, pos).len() == ids.len() - 1,
        forall|i: int|
            0 <= i < ids.len() - 1 ==> 0 <= #[trigger] ids_without(ids, pos)[i] < ids.len() - 1,
        forall|i: int, j: int|
            0 <= i < ids.len() - 1 && 0 <= j < ids.len() - 1 && i != j
                ==> #[trigger] ids_without(ids, pos)[i] != #[trigger] ids_without(ids, pos)[j],
        forall|i: int|
            0 <= i < pos && #[trigger] ids[i] < ids.len() - 1 ==> ids_without(ids, pos)[i]
                == ids[i],
        forall|i: int|
            pos < i < ids.len() && #[trigger] ids[i] < ids.len() - 1 ==> ids_without(ids, pos)[i
                - 1] == ids[i],
{
    let rest = ids.remove(pos);
    let after = ids_without(ids, pos);
    assert forall|i: int| 0 <= i < ids.len() - 1 implies rest[i] == ids[if i < pos {
        i
    } else {
        i + 1
    }] by {}
    assert forall|i: int| 0 <= i < ids.len() - 1 implies 0 <= #[trigger] after[i] < ids.len()
        - 1 by {
        let s = if i < pos {
            i
        } else {
            i + 1
        };
        assert(rest[i] == ids[s]);
        assert(ids[s] != ids[pos]);
    }
    assert forall|i: int, j: int|
        0 <= i < ids.len() - 1 && 0 <= j < ids.len() - 1 && i != j implies #[trigger] after[i]
        != #[trigger] after[j] by {
        let s = if i < pos {
            i
        } else {
            i + 1
        };
        let t = if j < pos {
            j
        } else {
            j + 1
        };
        assert(rest[i] == ids[s] && rest[j] == ids[t]);
        assert(ids[s] != ids[t]);
        assert(ids[s] != ids[pos] && ids[t] != ids[pos]);
    }
    assert forall|i: int| 0 <= i < pos && #[trigger] ids[i] < ids.len() - 1 implies after[i]
        == ids[i] by {
        assert(rest[i] == ids[i]);
    }
    assert forall|i: int|
        pos < i < ids.len() && #[trigger] ids[i] < ids.len() - 1 implies after[i - 1] == ids[i] by {
        assert(rest[i - 1] == ids[i]);
    }
}

impl<K: CacheKey, V> ShiftShard<K, V> {
    /// The arena slot of position `i`.
    pub open spec fn id_at(self, i: int) -> int {
        self.tag_layout().id(self.tag_at(i))
    }

    /// The arena slots of the queued positions, oldest first.
    pub open spec fn ids(self) -> Seq<int> {
        Seq::new(self.view().len(), |i: int| self.id_at(i))
    }

    /// The hash bits of the queued positions, oldest first.
    pub open spec fn needles(self) -> Seq<u16> {
        Seq::new(
            self.view().len(),
            |i: int| self.tag_at(i) & self.tag_layout().scan_bits(),
        )
    }

    /// Whether `key`, where it is queued, has the hash bits `needle`.
    pub open spec fn carries(self, key: K, needle: u16) -> bool {
        tags_agree(self.view(), self.needles(), key, needle)
    }

    /// The tag of position `i`.
    pub closed spec fn tag_at(self, i: int) -> u16 {
        self.tags@[i]
    }

    pub closed spec fn tag_layout(self) -> TagLayout {
        self.layout
    }

    spec fn entry_at(self, i: int) -> Entry<K, V> {
        self.entries@[self.id_at(i)]->0
    }

    spec fn item_at(self, i: int) -> Item<K, V> {
        Item {
            key: self.entry_at(i).key,
            value: self.entry_at(i).value,
            visited: bit(self.visited, i),
        }
    }

    /// The queue that this shard stands for.
    pub closed spec fn view(self) -> Sieve<K, V> {
        Sieve {
            capacity: self.capacity as nat,
            items: Seq::new(self.len as nat, |i: int| self.item_at(i)),
            hand: self.hand as int,
        }
    }

    spec fn shape_ok(self) -> bool {
        &&& K::told_apart()
        &&& 0 < self.capacity <= MAX_PER_SHARD
        &&& self.layout.wf()
        &&& self.tags@.len() == padded(self.capacity as int)
        &&& self.tags@.len() >= self.capacity
        &&& self.entries@.len() == self.capacity
        &&& self.len <= self.capacity
        &&& self.hand == 0 || self.hand < self.len
    }

    spec fn slots_ok(self) -> bool {
        &&& forall|i: int|
            0 <= i < self.len ==> {
                &&& #[trigger] self.tags@[i] & LIVE != 0
                &&& 0 <= self.id_at(i) < self.len
                &&& self.entries@[self.id_at(i)] is Some
            }
        &&& forall|i: int| self.len <= i < self.tags@.len() ==> #[trigger] self.tags@[i] == EMPTY
        &&& forall|d: int| self.len <= d < self.capacity ==> #[trigger] self.entries@[d] is None
    }

    spec fn ids_distinct(self) -> bool {
        forall|i: int, j: int|
            0 <= i < self.len && 0 <= j < self.len && i != j ==> #[trigger] self.id_at(i)
                != #[trigger] self.id_at(j)
    }

    /// Every queued tag is live and points at its own entry; no two keys are equal.
    pub closed spec fn wf(self) -> bool {
        &&& self.shape_ok()
        &&& self.slots_ok()
        &&& self.ids_distinct()
        &&& self.view().keys_distinct()
    }

    /// The ids in use are `0..len`, each once.
    pub proof fn lemma_ids(self)
        requires
            self.wf(),
        ensures
            forall|i: int|
                0 <= i < self.view().len() ==> 0 <= #[trigger] self.id_at(i) < self.view().len(),
            forall|i: int, j: int|
                0 <= i < self.view().len() && 0 <= j < self.view().len() && i != j
                    ==> #[trigger] self.id_at(i) != #[trigger] self.id_at(j),
    {
        assert forall|i: int| 0 <= i < self.view().len() implies 0 <= #[trigger] self.id_at(i)
            < self.view().len() by {
            assert(self.tags@[i] & LIVE != 0);
        }
    }

    /// A well-formed shard stands for a well-formed queue of at most 64 items.
    pub proof fn lemma_view(self)
        requires
            self.wf(),
        ensures
            K::told_apart(),
            self.view().wf(),
            self.view().capacity <= MAX_PER_SHARD,
            self.tag_layout().wf(),
    {
    }

    /// An empty shard.
    pub fn new(capacity: usize, layout: TagLayout) -> (shard: Self)
        requires
            K::told_apart(),
            0 < capacity <= MAX_PER_SHARD,
            layout.wf(),
        ensures
            shard.wf(),
            shard@ == Sieve::<K, V>::empty(capacity as nat),
            shard.tag_layout() == layout,
            shard.ids() == Seq::<int>::empty(),
            shard.needles() == Seq::<u16>::empty(),
    {
        let order_cap: usize = padded_len(capacity);
        let tags: Vec<u16> = zeroed(order_cap);
        let mut entries: Vec<Option<Entry<K, V>>> = Vec::with_capacity(capacity);
        while entries.len() < capacity
            invariant
                entries@.len() <= capacity,
                forall|i: int| 0 <= i < entries@.len() ==> #[trigger] entries@[i] is None,
            decreases capacity - entries@.len(),
        {
            entries.push(None);
        }
        let shard: Self = ShiftShard { capacity, layout, tags, entries, visited: 0, len: 0, hand: 0 };
        assert(shard@.items =~= Seq::<Item<K, V>>::empty());
        shard
    }

    pub fn capacity(&self) -> (n: usize)
        ensures
            n == self@.capacity,
    {
        self.capacity
    }

    pub fn len(&self) -> (n: usize)
        ensures
            n == self@.len(),
    {
        self.len
    }

    /// The layout of the shard's tags.
    pub fn layout(&self) -> (layout: TagLayout)
        ensures
            layout == self.tag_layout(),
    {
        self.layout
    }

    /// The tag of position `pos`.
    pub fn tag(&self, pos: usize) -> (tag: u16)
        requires
            self.wf(),
            pos < self@.len(),
        ensures
            tag == self.tag_at(pos as int),
            tag & LIVE != 0,
    {
        self.tags[pos]
    }

    /// Whether the item at position `pos` is marked.
    pub fn marked(&self, pos: usize) -> (mark: bool)
        requires
            self.wf(),
            pos < self@.len(),
        ensures
            mark == self@.items[pos as int].visited,
    {
        has_bit(self.visited, pos)
    }

    /// The arena slot of position `pos`.
    pub fn id(&self, pos: usize) -> (id: usize)
        requires
            self.wf(),
            pos < self@.len(),
        ensures
            id == self.id_at(pos as int),
            id < self@.len(),
    {
        assert(self.tags@[pos as int] & LIVE != 0);
        self.layout.id_of(self.tags[pos])
    }

    /// The position of `key`, whose needle is `needle`.
    pub fn find(&self, key: &K, needle: u16) -> (pos: Option<usize>)
        requires
            self.wf(),
            self.carries(*key, needle),
        ensures
            match pos {
                Some(p) => self@.at(p as int, *key),
                None => !self@.holds(*key),
            },
    {
        let mask: u16 = self.layout.scan_mask();
        let mut i: usize = 0;
        while i < self.len
            invariant
                self.wf(),
                i <= self.len,
                mask == self.layout.scan_bits(),
                self.carries(*key, needle),
                forall|j: int| 0 <= j < i ==> #[trigger] self.item_at(j).key != *key,
            decreases self.len - i,
        {
            let t: u16 = self.tags[i];
            assert(self.tags@[i as int] & LIVE != 0);
            assert(self@.items[i as int] == self.item_at(i as int));
            assert(self@.at(i as int, *key) ==> self.needles()[i as int] == needle);
            if t & mask == needle {
                let id: usize = self.layout.id_of(t);
                assert(self.entries@[self.id_at(i as int)] is Some);
                match &self.entries[id] {
                    Some(e) => {
                        if e.key.same_key(key) {
                            assert(self@.items[i as int] == self.item_at(i as int));
                            return Some(i);
                        }
                    },
                    None => {},
                }
            }
            assert(self.item_at(i as int).key != *key);
            i = i + 1;
        }
        assert forall|j: int| !self@.at(j, *key) by {
            if self@.at(j, *key) {
                assert(self@.items[j] == self.item_at(j));
            }
        }
        None
    }

    /// The value at position `pos`.
    pub fn value_at(&self, pos: usize) -> (value: &V)
        requires
            self.wf(),
            pos < self@.len(),
        ensures
            *value == self@.items[pos as int].value,
    {
        let t: u16 = self.tags[pos];
        let id: usize = self.layout.id_of(t);
        assert(self.entries@[self.id_at(pos as int)] is Some);
        assert(self@.items[pos as int] == self.item_at(pos as int));
        &self.entries[id].as_ref().unwrap().value
    }

    /// The key at position `pos`.
    pub fn key_at(&self, pos: usize) -> (key: &K)
        requires
            self.wf(),
            pos < self@.len(),
        ensures
            *key == self@.items[pos as int].key,
    {
        let t: u16 = self.tags[pos];
        let id: usize = self.layout.id_of(t);
        assert(self.entries@[self.id_at(pos as int)] is Some);
        assert(self@.items[pos as int] == self.item_at(pos as int));
        &self.entries[id].as_ref().unwrap().key
    }

    /// A queued tag is live, and carries the hash bits of its key.
    pub proof fn lemma_tag_matches(self, i: int, key: K, needle: u16)
        requires
            self.wf(),
            self.carries(key, needle),
            0 <= i < self.view().len(),
        ensures
            self.tag_at(i) & LIVE != 0,
            self.view().at(i, key) ==> self.tag_layout().matches_needle(self.tag_at(i), needle),
    {
        assert(self.tags@[i] & LIVE != 0);
        if self.view().at(i, key) {
            assert(self.needles()[i] == needle);
        }
    }

    /// Marks position `pos`.
    pub fn mark(&mut self, pos: usize)
        requires
            old(self).wf(),
            pos < old(self)@.len(),
        ensures
            final(self).wf(),
            final(self)@ == (Sieve {
                items: old(self)@.items.update(
                    pos as int,
                    Item { visited: true, ..old(self)@.items[pos as int] },
                ),
                ..old(self)@
            }),
            final(self).tag_layout() == old(self).tag_layout(),
            forall|i: int| #[trigger] final(self).tag_at(i) == old(self).tag_at(i),
            final(self).ids() == old(self).ids(),
            final(self).needles() == old(self).needles(),
    {
        self.visited = with_bit(self.visited, pos);
        assert(self@.items =~= old(self)@.items.update(
            pos as int,
            Item { visited: true, ..old(self)@.items[pos as int] },
        ));
        proof {
            self.lemma_same_keys(*old(self));
        }
    }

    /// Keys stay distinct where they stay the same.
    proof fn lemma_same_keys(self, before: Self)
        requires
            before.view().keys_distinct(),
            self.view().items.len() == before.view().items.len(),
            forall|i: int|
                0 <= i < self.view().items.len() ==> (#[trigger] self.view().items[i]).key
                    == before.view().items[i].key,
        ensures
            self.view().keys_distinct(),
    {
        let s = self.view();
        let b = before.view();
        assert forall|i: int, j: int|
            0 <= i < s.items.len() && 0 <= j < s.items.len() && i != j implies #[trigger] s.items[i].key
            != #[trigger] s.items[j].key by {
            assert(s.items[i].key == b.items[i].key);
            assert(s.items[j].key == b.items[j].key);
        }
    }

    /// Gives position `pos` a new value.
    pub fn set_value(&mut self, pos: usize, value: V)
        requires
            old(self).wf(),
            pos < old(self)@.len(),
        ensures
            final(self).wf(),
            final(self)@ == (Sieve {
                items: old(self)@.items.update(
                    pos as int,
                    Item { value, ..old(self)@.items[pos as int] },
                ),
                ..old(self)@
            }),
            final(self).tag_layout() == old(self).tag_layout(),
            forall|i: int| #[trigger] final(self).tag_at(i) == old(self).tag_at(i),
            final(self).ids() == old(self).ids(),
            final(self).needles() == old(self).needles(),
    {
        let t: u16 = self.tags[pos];
        let id: usize = self.layout.id_of(t);
        let mut slot: Option<Entry<K, V>> = None;
        assert(self.entries@[self.id_at(pos as int)] is Some);
        std::mem::swap(&mut self.entries[id], &mut slot);
        match slot {
            Some(old_entry) => {
                self.entries[id] = Some(Entry { key: old_entry.key, value });
            },
            None => {},
        }
        proof {
            let b = *old(self);
            assert forall|i: int| 0 <= i < self.len implies #[trigger] self.tags@[i] & LIVE != 0 && 0
                <= self.id_at(i) < self.len && self.entries@[self.id_at(i)] is Some
                && self.entry_at(i).key == b.entry_at(i).key && (i != pos ==> self.entry_at(i)
                == b.entry_at(i)) by {
                assert(b.tags@[i] & LIVE != 0);
                if i != pos {
                    assert(b.id_at(i) != b.id_at(pos as int));
                }
            }
            assert(self@.items =~= b@.items.update(
                pos as int,
                Item { value, ..b@.items[pos as int] },
            ));
            self.lemma_same_keys(b);
            assert(self.slots_ok()) by {
                assert forall|d: int| self.len <= d < self.capacity implies #[trigger] self.entries@[d] is None by {
                    assert(b.entries@[d] is None);
                }
            }
            assert(self.ids_distinct()) by {
                assert forall|i: int, j: int|
                    0 <= i < self.len && 0 <= j < self.len && i != j implies #[trigger] self.id_at(i)
                    != #[trigger] self.id_at(j) by {
                    assert(b.id_at(i) != b.id_at(j));
                }
            }
        }
    }

    /// Gives position `pos` a new value and marks it.
    pub fn update_in_place(&mut self, pos: usize, value: V)
        requires
            old(self).wf(),
            pos < old(self)@.len(),
        ensures
            final(self).wf(),
            final(self)@ == old(self)@.update(old(self)@.items[pos as int].key, value),
            final(self).tag_layout() == old(self).tag_layout(),
            forall|i: int| #[trigger] final(self).tag_at(i) == old(self).tag_at(i),
            final(self).ids() == old(self).ids(),
            final(self).needles() == old(self).needles(),
    {
        proof {
            self.lemma_view();
            self@.lemma_position(self@.items[pos as int].key, pos as int);
        }
        self.set_value(pos, value);
        let ghost mid = *self;
        self.mark(pos);
        proof {
            let b = *old(self);
            assert(self@.items =~= b@.update(b@.items[pos as int].key, value).items);
            assert forall|i: int| #[trigger] self.tag_at(i) == b.tag_at(i) by {
                assert(mid.tag_at(i) == b.tag_at(i));
            }
        }
    }

    /// Turns the spare bit of the tag at `pos` over.
    pub fn flip_spare(&mut self, pos: usize)
        requires
            old(self).wf(),
            pos < old(self)@.len(),
            old(self).tag_layout().hash_bits == 8,
        ensures
            final(self).wf(),
            final(self)@ == old(self)@,
            final(self).tag_layout() == old(self).tag_layout(),
            final(self).tag_at(pos as int) & SPARE != old(self).tag_at(pos as int) & SPARE,
            forall|i: int|
                0 <= i < old(self)@.len() && i != pos ==> #[trigger] final(self).tag_at(i)
                    == old(self).tag_at(i),
            final(self).ids() == old(self).ids(),
            final(self).needles() == old(self).needles(),
    {
        let t: u16 = self.tags[pos];
        self.tags.set(pos, self.layout.flip_spare(t));
        proof {
            let b = *old(self);
            assert forall|i: int| 0 <= i < self.len implies #[trigger] self.tags@[i] & LIVE != 0
                && self.id_at(i) == b.id_at(i) && self.entry_at(i) == b.entry_at(i) by {
                assert(b.tags@[i] & LIVE != 0);
            }
            assert(self@.items =~= b@.items);
            assert forall|i: int| 0 <= i < self.len implies #[trigger] self.needles()[i]
                == b.needles()[i] && self.ids()[i] == b.ids()[i] by {
                assert(b.tags@[i] & LIVE != 0);
            }
            assert(self.needles() =~= b.needles());
            assert(self.ids() =~= b.ids());
            assert forall|i: int, j: int|
                0 <= i < self.len && 0 <= j < self.len && i != j implies #[trigger] self.id_at(i)
                != #[trigger] self.id_at(j) by {
                assert(b.id_at(i) != b.id_at(j));
            }
            assert forall|i: int| self.len <= i < self.tags@.len() implies #[trigger] self.tags@[i]
                == EMPTY by {
                assert(b.tags@[i] == EMPTY);
            }
            assert(self.slots_ok());
        }
    }

    /// Queues a new entry at the young end of a shard that is not full. Its id is
    /// the old length.
    pub fn warmup_install(&mut self, key: K, value: V, needle: u16)
        requires
            old(self).wf(),
            !old(self)@.full(),
            !old(self)@.holds(key),
            old(self).tag_layout().is_needle(needle),
        ensures
            final(self).wf(),
            final(self)@ == old(self)@.append(key, value),
            final(self).tag_layout() == old(self).tag_layout(),
            forall|i: int|
                0 <= i < old(self)@.len() ==> #[trigger] final(self).tag_at(i) == old(self).tag_at(i),
            final(self).ids() == old(self).ids().push(old(self)@.len() as int),
            final(self).needles() == old(self).needles().push(needle),
    {
        let pos: usize = self.len;
        self.entries[pos] = Some(Entry { key, value });
        self.visited = without_bit(self.visited, pos);
        self.tags.set(pos, self.layout.encode(pos, needle));
        self.len = pos + 1;
        proof {
            let b = *old(self);
            assert forall|i: int| 0 <= i < pos implies self.tags@[i] == b.tags@[i]
                && #[trigger] self.id_at(i) == b.id_at(i) && 0 <= b.id_at(i) < pos
                && self.entry_at(i) == b.entry_at(i) && b.entries@[b.id_at(i)] is Some by {
                assert(b.tags@[i] & LIVE != 0);
            }
            assert(self@.items =~= b@.append(key, value).items);
            self.lemma_appended(b@, key, value);
            assert(self.slots_ok()) by {
                assert forall|i: int| 0 <= i < self.len implies #[trigger] self.tags@[i] & LIVE != 0
                    && 0 <= self.id_at(i) < self.len && self.entries@[self.id_at(i)] is Some by {
                    if i < pos {
                        assert(b.tags@[i] & LIVE != 0);
                        assert(self.id_at(i) == b.id_at(i));
                    }
                }
                assert forall|d: int| self.len <= d < self.capacity implies #[trigger] self.entries@[d] is None by {
                    assert(b.entries@[d] is None);
                }
            }
            assert forall|i: int, j: int|
                0 <= i < self.len && 0 <= j < self.len && i != j implies #[trigger] self.id_at(i)
                != #[trigger] self.id_at(j) by {
                if i < pos && j < pos {
                    assert(b.id_at(i) != b.id_at(j));
                } else if i < pos {
                    assert(self.id_at(i) == b.id_at(i));
                } else {
                    assert(self.id_at(j) == b.id_at(j));
                }
            }
            assert(self.ids() =~= b.ids().push(pos as int)) by {
                assert forall|i: int| 0 <= i < pos implies self.id_at(i) == b.id_at(i) by {
                    assert(self.tag_at(i) == b.tag_at(i));
                }
            }
            assert(self.needles() =~= b.needles().push(needle)) by {
                assert forall|i: int| 0 <= i < pos implies self.needles()[i] == b.needles()[i] by {
                    assert(self.tag_at(i) == b.tag_at(i));
                }
            }
        }
    }

    /// A new key at the young end leaves keys distinct.
    proof fn lemma_appended(self, before: Sieve<K, V>, key: K, value: V)
        requires
            before.keys_distinct(),
            !before.holds(key),
            self.view().items == before.append(key, value).items,
        ensures
            self.view().keys_distinct(),
    {
        let s = self.view();
        assert forall|i: int, j: int|
            0 <= i < s.items.len() && 0 <= j < s.items.len() && i != j implies #[trigger] s.items[i].key
            != #[trigger] s.items[j].key by {
            let n = before.items.len();
            if i < n && j < n {
                assert(before.items[i].key != before.items[j].key);
            } else if i < n {
                assert(!before.at(i, key));
            } else {
                assert(!before.at(j, key));
            }
        }
    }

    /// The hand's way over `[lo, hi)`: takes marks off up to the first unmarked
    /// position, and returns that position.
    pub fn scan_evict(&mut self, lo: usize, hi: usize) -> (found: Option<usize>)
        requires
            old(self).wf(),
            lo <= hi <= old(self)@.len(),
        ensures
            final(self).wf(),
            final(self).tag_layout() == old(self).tag_layout(),
            forall|i: int| #[trigger] final(self).tag_at(i) == old(self).tag_at(i),
            final(self)@ == (Sieve {
                items: cool(
                    old(self)@.items,
                    lo as int,
                    next_cold(old(self)@.items, lo as int, hi as int),
                ),
                ..old(self)@
            }),
            match found {
                Some(p) => p < hi && p == next_cold(old(self)@.items, lo as int, hi as int),
                None => next_cold(old(self)@.items, lo as int, hi as int) == hi,
            },
    {
        let mut i: usize = lo;
        while i < hi
            invariant
                old(self).wf(),
                lo <= i <= hi <= self.len,
                self.capacity == old(self).capacity,
                self.layout == old(self).layout,
                self.tags == old(self).tags,
                self.entries == old(self).entries,
                self.len == old(self).len,
                self.hand == old(self).hand,
                forall|j: int| lo <= j < i ==> #[trigger] bit(old(self).visited, j),
                forall|j: int|
                    0 <= j < 64 ==> #[trigger] bit(self.visited, j) == (bit(old(self).visited, j)
                        && !(lo <= j < i)),
            ensures
                lo <= i <= hi,
                i < hi ==> !bit(old(self).visited, i as int),
                self.capacity == old(self).capacity,
                self.layout == old(self).layout,
                self.tags == old(self).tags,
                self.entries == old(self).entries,
                self.len == old(self).len,
                self.hand == old(self).hand,
                forall|j: int| lo <= j < i ==> #[trigger] bit(old(self).visited, j),
                forall|j: int|
                    0 <= j < 64 ==> #[trigger] bit(self.visited, j) == (bit(old(self).visited, j)
                        && !(lo <= j < i)),
            decreases hi - i,
        {
            if !has_bit(self.visited, i) {
                break;
            }
            self.visited = without_bit(self.visited, i);
            i = i + 1;
        }
        proof {
            let b = *old(self);
            assert forall|j: int| lo <= j < i implies (#[trigger] b@.items[j]).visited by {
                assert(bit(b.visited, j));
            }
            lemma_next_cold(b@.items, lo as int, hi as int, i as int);
            assert(self@.items =~= cool(b@.items, lo as int, i as int));
            self.lemma_same_keys(b);
            self.lemma_same_slots(b);
        }
        if i < hi {
            Some(i)
        } else {
            None
        }
    }

    /// Only the marks may differ.
    proof fn lemma_same_slots(self, before: Self)
        requires
            before.slots_ok(),
            before.ids_distinct(),
            self.layout == before.layout,
            self.tags == before.tags,
            self.entries == before.entries,
            self.len == before.len,
            self.capacity == before.capacity,
        ensures
            self.slots_ok(),
            self.ids_distinct(),
    {
        assert forall|i: int| self.id_at(i) == before.id_at(i) && self.entry_at(i)
            == before.entry_at(i) by {}
        assert(self.ids_distinct()) by {
            assert forall|i: int, j: int|
                0 <= i < self.len && 0 <= j < self.len && i != j implies #[trigger] self.id_at(i)
                != #[trigger] self.id_at(j) by {
                assert(before.id_at(i) != before.id_at(j));
            }
        }
        assert(self.slots_ok()) by {
            assert forall|i: int| 0 <= i < self.len implies #[trigger] self.tags@[i] & LIVE != 0 && 0
                <= self.id_at(i) < self.len && self.entries@[self.id_at(i)] is Some by {
                assert(before.tags@[i] & LIVE != 0);
                assert(self.entry_at(i) == before.entry_at(i));
            }
        }
    }

    /// The hand's whole way: from the hand to the young end, then from the old
    /// end to the hand. If all were marked, the hand's own position.
    pub fn find_evict_pos(&mut self) -> (pos: usize)
        requires
            old(self).wf(),
            old(self)@.len() > 0,
        ensures
            final(self).wf(),
            final(self).tag_layout() == old(self).tag_layout(),
            forall|i: int| #[trigger] final(self).tag_at(i) == old(self).tag_at(i),
            final(self)@ == (Sieve { items: old(self)@.swept(), ..old(self)@ }),
            pos == old(self)@.victim(),
            pos < old(self)@.len(),
    {
        let hand: usize = self.hand;
        let n: usize = self.len;
        let ghost before = self@.items;
        proof {
            lemma_next_cold_bounds(before, hand as int, n as int);
            lemma_next_cold_bounds(before, 0, hand as int);
        }
        match self.scan_evict(hand, n) {
            Some(p) => p,
            None => {
                let ghost mid = self@.items;
                proof {
                    let q = next_cold(before, 0, hand as int);
                    assert forall|j: int| 0 <= j < q implies (#[trigger] mid[j]).visited by {
                        assert(before[j].visited);
                    }
                    lemma_next_cold(mid, 0, hand as int, q);
                }
                match self.scan_evict(0, hand) {
                    Some(q) => q,
                    None => {
                        assert(self@.items =~= cool(before, 0, n as int));
                        hand
                    },
                }
            },
        }
    }

    /// Moves the tags and marks of `pos + 1..len` down by one. The tag and the mark
    /// of the youngest position stay there too.
    fn shift_down(&mut self, pos: usize)
        requires
            old(self).len <= MAX_PER_SHARD,
            old(self).len <= old(self).tags@.len(),
            pos < old(self).len,
        ensures
            final(self).capacity == old(self).capacity,
            final(self).layout == old(self).layout,
            final(self).entries == old(self).entries,
            final(self).len == old(self).len,
            final(self).hand == old(self).hand,
            final(self).tags@.len() == old(self).tags@.len(),
            forall|j: int|
                0 <= j < pos || old(self).len - 1 <= j < old(self).tags@.len()
                    ==> #[trigger] final(self).tags@[j] == old(self).tags@[j],
            forall|j: int|
                pos <= j < old(self).len - 1 ==> #[trigger] final(self).tags@[j]
                    == old(self).tags@[j + 1],
            forall|j: int|
                0 <= j < pos ==> #[trigger] bit(final(self).visited, j) == bit(
                    old(self).visited,
                    j,
                ),
            forall|j: int|
                pos <= j < old(self).len - 1 ==> #[trigger] bit(final(self).visited, j) == bit(
                    old(self).visited,
                    j + 1,
                ),
    {
        let mut i: usize = pos;
        let last: usize = self.len - 1;
        while i < last
            invariant
                pos <= i <= last,
                last == old(self).len - 1,
                last < 64,
                last < old(self).tags@.len(),
                self.capacity == old(self).capacity,
                self.layout == old(self).layout,
                self.entries == old(self).entries,
                self.len == old(self).len,
                self.hand == old(self).hand,
                self.tags@.len() == old(self).tags@.len(),
                forall|j: int|
                    0 <= j < pos || i <= j < old(self).tags@.len() ==> #[trigger] self.tags@[j]
                        == old(self).tags@[j],
                forall|j: int|
                    pos <= j < i ==> #[trigger] self.tags@[j] == old(self).tags@[j + 1],
                forall|j: int|
                    0 <= j < pos || i < j < 64 ==> #[trigger] bit(self.visited, j) == bit(
                        old(self).visited,
                        j,
                    ),
                forall|j: int|
                    pos <= j < i ==> #[trigger] bit(self.visited, j) == bit(
                        old(self).visited,
                        j + 1,
                    ),
            decreases last - i,
        {
            let next_tag: u16 = self.tags[i + 1];
            self.tags.set(i, next_tag);
            let was_visited: bool = has_bit(self.visited, i + 1);
            self.visited = without_bit(self.visited, i + 1);
            if was_visited {
                self.visited = with_bit(self.visited, i);
            } else {
                self.visited = without_bit(self.visited, i);
            }
            i = i + 1;
        }
    }

    /// Evicts the victim of the hand and queues a new entry at the young end, in
    /// the arena slot that the victim leaves. Returns the victim and that slot's id.
    pub fn evict_and_install(&mut self, key: K, value: V, needle: u16) -> (evicted: (K, V, usize))
        requires
            old(self).wf(),
            old(self)@.full(),
            !old(self)@.holds(key),
            old(self).tag_layout().is_needle(needle),
        ensures
            final(self).wf(),
            final(self)@ == old(self)@.evict().append(key, value),
            Some((evicted.0, evicted.1)) == old(self)@.displaced(key),
            evicted.2 == old(self).id_at(old(self)@.victim()),
            evicted.2 < old(self)@.capacity,
            final(self).tag_layout() == old(self).tag_layout(),
            final(self).id_at(old(self)@.len() - 1) == evicted.2,
            final(self).ids() == old(self).ids().remove(old(self)@.victim()).push(
                old(self).ids()[old(self)@.victim()],
            ),
            final(self).needles() == old(self).needles().remove(old(self)@.victim()).push(needle),
            forall|i: int|
                0 <= i < old(self)@.victim() ==> #[trigger] final(self).tag_at(i)
                    == old(self).tag_at(i),
            forall|i: int|
                old(self)@.victim() <= i < old(self)@.len() - 1 ==> #[trigger] final(self).tag_at(i)
                    == old(self).tag_at(i + 1),
    {
        let ghost start = self@;
        let evict_pos: usize = self.find_evict_pos();
        let ghost mid = *self;
        proof {
            start.lemma_sweep();
            assert(mid@.items.len() == mid.len);
            assert(mid.tag_at(evict_pos as int) == old(self).tag_at(evict_pos as int));
        }
        let evict_id: usize = self.layout.id_of(self.tags[evict_pos]);
        assert(mid.tags@[evict_pos as int] & LIVE != 0);
        let mut slot: Option<Entry<K, V>> = Some(Entry { key, value });
        std::mem::swap(&mut self.entries[evict_id], &mut slot);
        self.shift_down(evict_pos);
        let last: usize = self.len - 1;
        self.tags.set(last, self.layout.encode(evict_id, needle));
        self.visited = without_bit(self.visited, last);
        self.hand = if evict_pos < last {
            evict_pos
        } else {
            0
        };
        proof {
            self.lemma_replaced(mid, evict_pos as int, key, value);
            assert(start.items[evict_pos as int].key == mid@.items[evict_pos as int].key);
            let gone = Sieve { items: mid@.items.remove(evict_pos as int), ..mid@ };
            assert(!gone.holds(key)) by {
                assert forall|i: int| !gone.at(i, key) by {
                    if gone.at(i, key) {
                        let j = if i < evict_pos {
                            i
                        } else {
                            i + 1
                        };
                        assert(mid@.items[j].key == key);
                        assert(start.at(j, key));
                    }
                }
            }
            assert(gone.keys_distinct()) by {
                assert forall|i: int, j: int|
                    0 <= i < gone.items.len() && 0 <= j < gone.items.len() && i
                        != j implies #[trigger] gone.items[i].key != #[trigger] gone.items[j].key by {
                    let i2 = if i < evict_pos {
                        i
                    } else {
                        i + 1
                    };
                    let j2 = if j < evict_pos {
                        j
                    } else {
                        j + 1
                    };
                    assert(mid@.items[i2].key != mid@.items[j2].key);
                }
            }
            self.lemma_appended(gone, key, value);
            let b = *old(self);
            let v = evict_pos as int;
            assert forall|i: int| 0 <= i < v implies #[trigger] self.tag_at(i) == b.tag_at(i) by {
                assert(self.tags@[i] == mid.tags@[i]);
                assert(mid.tag_at(i) == b.tag_at(i));
            }
            assert forall|i: int| v <= i < last implies #[trigger] self.tag_at(i) == b.tag_at(
                i + 1,
            ) by {
                assert(self.tags@[i] == mid.tags@[i + 1]);
                assert(mid.tag_at(i + 1) == b.tag_at(i + 1));
            }
            assert(self@.len() == b@.len());
            assert(b.ids()[v] == evict_id);
            assert(self.ids() =~= b.ids().remove(v).push(b.ids()[v])) by {
                assert forall|i: int| 0 <= i < last implies self.ids()[i] == b.ids().remove(v)[i] by {
                    assert(self.tag_at(i) == b.tag_at(if i < v {
                        i
                    } else {
                        i + 1
                    }));
                }
            }
            assert(self.needles() =~= b.needles().remove(v).push(needle)) by {
                assert forall|i: int| 0 <= i < last implies self.needles()[i]
                    == b.needles().remove(v)[i] by {
                    assert(self.tag_at(i) == b.tag_at(if i < v {
                        i
                    } else {
                        i + 1
                    }));
                }
            }
        }
        let entry: Entry<K, V> = slot.unwrap();
        (entry.key, entry.value, evict_id)
    }

    /// What the steps of an eviction make of the shard `mid` that the hand left.
    proof fn lemma_replaced(self, mid: Self, pos: int, key: K, value: V)
        requires
            mid.wf(),
            0 <= pos < mid.len,
            self.capacity == mid.capacity,
            self.layout == mid.layout,
            self.len == mid.len,
            self.tags@.len() == mid.tags@.len(),
            self.entries@ == mid.entries@.update(mid.id_at(pos), Some(Entry { key, value })),
            self.id_at(mid.len - 1) == mid.id_at(pos),
            self.tags@[mid.len - 1] & LIVE != 0,
            forall|j: int|
                0 <= j < pos || mid.len <= j < mid.tags@.len() ==> #[trigger] self.tags@[j]
                    == mid.tags@[j],
            forall|j: int| pos <= j < mid.len - 1 ==> #[trigger] self.tags@[j] == mid.tags@[j + 1],
            forall|j: int|
                0 <= j < pos ==> #[trigger] bit(self.visited, j) == bit(mid.visited, j),
            forall|j: int|
                pos <= j < mid.len - 1 ==> #[trigger] bit(self.visited, j) == bit(
                    mid.visited,
                    j + 1,
                ),
            !bit(self.visited, mid.len - 1),
        ensures
            self.slots_ok(),
            self.ids_distinct(),
            self.view().items == mid.view().items.remove(pos).push(
                Item { key, value, visited: false },
            ),
    {
        let n = mid.len as int;
        assert(mid.tags@[pos] & LIVE != 0);
        assert forall|i: int| 0 <= i < n - 1 implies ({
            let o = if i < pos {
                i
            } else {
                i + 1
            };
            &&& #[trigger] self.tags@[i] == mid.tags@[o]
            &&& self.id_at(i) == mid.id_at(o)
            &&& self.entry_at(i) == mid.entry_at(o)
            &&& mid.tags@[o] & LIVE != 0
            &&& 0 <= mid.id_at(o) < n
            &&& mid.id_at(o) != mid.id_at(pos)
            &&& self.entries@[self.id_at(i)] is Some
        }) by {
            let o = if i < pos {
                i
            } else {
                i + 1
            };
            assert(mid.tags@[o] & LIVE != 0);
            assert(mid.id_at(o) != mid.id_at(pos));
        }
        assert(self.slots_ok()) by {
            assert forall|i: int| 0 <= i < self.len implies #[trigger] self.tags@[i] & LIVE != 0 && 0
                <= self.id_at(i) < self.len && self.entries@[self.id_at(i)] is Some by {
                if i < n - 1 {
                    let o = if i < pos {
                        i
                    } else {
                        i + 1
                    };
                    assert(self.tags@[i] == mid.tags@[o]);
                    assert(mid.tags@[o] & LIVE != 0);
                }
            }
            assert forall|d: int| self.len <= d < self.capacity implies #[trigger] self.entries@[d] is None by {
                assert(mid.entries@[d] is None);
            }
        }
        assert(self.ids_distinct()) by {
            assert forall|i: int, j: int|
                0 <= i < self.len && 0 <= j < self.len && i != j implies #[trigger] self.id_at(i)
                != #[trigger] self.id_at(j) by {
                let i2 = if i < pos {
                    i
                } else if i < n - 1 {
                    i + 1
                } else {
                    pos
                };
                let j2 = if j < pos {
                    j
                } else if j < n - 1 {
                    j + 1
                } else {
                    pos
                };
                if i < n - 1 {
                    assert(self.tags@[i] == mid.tags@[i2]);
                }
                if j < n - 1 {
                    assert(self.tags@[j] == mid.tags@[j2]);
                }
                assert(mid.id_at(i2) != mid.id_at(j2));
            }
        }
        let want = mid.view().items.remove(pos).push(Item { key, value, visited: false });
        assert(self.view().items =~= want) by {
            assert forall|i: int| 0 <= i < n implies self.view().items[i] == want[i] by {
                assert(self.view().items[i] == self.item_at(i));
                if i < n - 1 {
                    let o = if i < pos {
                        i
                    } else {
                        i + 1
                    };
                    assert(self.tags@[i] == mid.tags@[o]);
                    assert(mid.view().items[o] == mid.item_at(o));
                    assert(bit(self.visited, i) == bit(mid.visited, o));
                }
            }
        }
    }

    /// Every id below the length is in use.
    proof fn lemma_ids_cover(self, id: int) -> (pos: int)
        requires
            self.wf(),
            0 <= id < self.len,
        ensures
            0 <= pos < self.len,
            self.id_at(pos) == id,
    {
        let n = self.len as int;
        let ids = Seq::new(n as nat, |i: int| self.id_at(i));
        assert forall|i: int, j: int| 0 <= i < n && 0 <= j < n && i != j implies ids[i] != ids[j] by {
            assert(self.id_at(i) != self.id_at(j));
        }
        ids.unique_seq_to_set();
        vstd::set_lib::lemma_int_range(0, n);
        assert forall|x: int| ids.to_set().contains(x) implies vstd::set_lib::set_int_range(
            0,
            n,
        ).contains(x) by {
            let i = choose|i: int| 0 <= i < ids.len() && ids[i] == x;
            assert(self.tags@[i] & LIVE != 0);
        }
        vstd::set_lib::lemma_subset_equality(
            ids.to_set(),
            vstd::set_lib::set_int_range(0, n),
        );
        assert(ids.to_set().contains(id));
        let pos = choose|i: int| 0 <= i < ids.len() && ids[i] == id;
        pos
    }

    /// Takes the entry at `pos` out. The entry with the highest id moves into the
    /// arena slot that is left, so that the ids in use stay `0..len`.
    #[verifier::spinoff_prover]
    #[verifier::rlimit(50)]
    pub fn remove_at(&mut self, pos: usize) -> (entry: (K, V))
        requires
            old(self).wf(),
            pos < old(self)@.len(),
        ensures
            final(self).wf(),
            final(self)@ == old(self)@.remove(old(self)@.items[pos as int].key),
            entry.0 == old(self)@.items[pos as int].key,
            entry.1 == old(self)@.items[pos as int].value,
            final(self).tag_layout() == old(self).tag_layout(),
            final(self).ids() == ids_without(old(self).ids(), pos as int),
            final(self).needles() == old(self).needles().remove(pos as int),
    {
        let ghost before = *self;
        let t: u16 = self.tags[pos];
        let id: usize = self.layout.id_of(t);
        let last: usize = self.len - 1;
        assert(before.tags@[pos as int] & LIVE != 0);
        self.shift_down(pos);
        self.tags.set(last, EMPTY);
        self.visited = without_bit(self.visited, last);
        let mut slot: Option<Entry<K, V>> = None;
        std::mem::swap(&mut self.entries[id], &mut slot);
        let ghost shifted = *self;
        let ghost from = |i: int|
            if i < pos {
                i
            } else {
                i + 1
            };
        assert forall|i: int| 0 <= i < last implies #[trigger] self.tags@[i] == before.tags@[from(i)]
            && 0 <= before.id_at(from(i)) < before.len && before.id_at(from(i)) != id
            && before.tags@[from(i)] & LIVE != 0 && before.entries@[before.id_at(from(i))] is Some by {
            assert(before.tags@[from(i)] & LIVE != 0);
            assert(before.id_at(from(i)) != before.id_at(pos as int));
        }
        self.len = last;
        if id != last {
            let ghost top = before.lemma_ids_cover(last as int);
            let mut j: usize = 0;
            while j < last && self.layout.id_of(self.tags[j]) != last
                invariant
                    before.wf(),
                    last == before.len - 1,
                    pos <= last,
                    from == |i: int|
                        if i < pos {
                            i
                        } else {
                            i + 1
                        },
                    self.layout == before.layout,
                    self.tags@.len() == before.tags@.len(),
                    forall|i: int|
                        0 <= i < last ==> #[trigger] self.tags@[i] == before.tags@[from(i)],
                    forall|i: int| 0 <= i < j ==> #[trigger] self.id_at(i) != last,
                decreases last - j,
            {
                assert(self.id_at(j as int) != last);
                j = j + 1;
            }
            proof {
                let k = if top < pos {
                    top
                } else {
                    top - 1
                };
                assert(top != pos);
                assert(from(k) == top);
                assert(self.tags@[k] == before.tags@[from(k)]);
                assert(self.id_at(k) == last);
                assert(j < last);
            }
            let mut moved: Option<Entry<K, V>> = None;
            std::mem::swap(&mut self.entries[last], &mut moved);
            self.entries[id] = moved;
            let fixed: u16 = self.layout.with_id(self.tags[j], id);
            self.tags.set(j, fixed);
            proof {
                assert(before.id_at(from(j as int)) == last);
                assert forall|i: int| 0 <= i < last && i != j implies before.id_at(#[trigger] from(i))
                    != last by {
                    assert(before.id_at(from(i)) != before.id_at(from(j as int)));
                }
            }
        }
        if self.hand >= self.len {
            self.hand = 0;
        }
        proof {
            let b = before;
            assert forall|i: int| 0 <= i < last implies ({
                &&& #[trigger] self.tags@[i] & LIVE != 0
                &&& 0 <= self.id_at(i) < last
                &&& self.entries@[self.id_at(i)] is Some
                &&& self.entry_at(i) == b.entry_at(from(i))
                &&& self.tags@[i] & self.layout.scan_bits() == b.tags@[from(i)]
                    & b.layout.scan_bits()
            }) by {
                assert(shifted.tags@[i] == b.tags@[from(i)]);
                assert(b.tags@[from(i)] & LIVE != 0);
                if id == last {
                    assert(b.id_at(from(i)) != b.id_at(pos as int));
                }
            }
            assert(self.slots_ok()) by {
                assert forall|i: int| 0 <= i < self.len implies #[trigger] self.tags@[i] & LIVE != 0
                    && 0 <= self.id_at(i) < self.len && self.entries@[self.id_at(i)] is Some by {
                    assert(b.tags@[from(i)] & LIVE != 0);
                }
                assert forall|i: int| self.len <= i < self.tags@.len() implies #[trigger] self.tags@[i]
                    == EMPTY by {
                    if i > last {
                        assert(b.tags@[i] == EMPTY);
                    }
                }
                assert forall|d: int| self.len <= d < self.capacity implies #[trigger] self.entries@[d] is None by {
                    if d > last {
                        assert(b.entries@[d] is None);
                    }
                }
            }
            assert(self.ids_distinct()) by {
                assert forall|i: int, k: int|
                    0 <= i < self.len && 0 <= k < self.len && i != k implies #[trigger] self.id_at(i)
                    != #[trigger] self.id_at(k) by {
                    assert(shifted.tags@[i] == b.tags@[from(i)]);
                    assert(shifted.tags@[k] == b.tags@[from(k)]);
                    assert(b.id_at(from(i)) != b.id_at(from(k)));
                    assert(b.id_at(from(i)) != id);
                    assert(b.id_at(from(k)) != id);
                }
            }
            assert(self@.items =~= b@.items.remove(pos as int)) by {
                assert forall|i: int| 0 <= i < last implies self@.items[i]
                    == b@.items.remove(pos as int)[i] by {
                    assert(self@.items[i] == self.item_at(i));
                    assert(self.tags@[i] & LIVE != 0);
                    assert(b@.items[from(i)] == b.item_at(from(i)));
                    assert(bit(self.visited, i) == bit(b.visited, from(i)));
                }
            }
            assert(self.needles() =~= b.needles().remove(pos as int)) by {
                assert forall|i: int| 0 <= i < last implies self.needles()[i]
                    == b.needles()[from(i)] by {
                    assert(self.tags@[i] & LIVE != 0);
                }
            }
            assert(self.ids() =~= ids_without(b.ids(), pos as int)) by {
                assert forall|i: int| 0 <= i < last implies self.ids()[i] == ids_without(
                    b.ids(),
                    pos as int,
                )[i] by {
                    assert(shifted.tags@[i] == b.tags@[from(i)]);
                    assert(b.ids().remove(pos as int)[i] == b.id_at(from(i)));
                    assert(self.ids()[i] == self.id_at(i));
                    if id == last {
                        assert(b.id_at(from(i)) != b.id_at(pos as int));
                    }
                }
            }
            let key = b@.items[pos as int].key;
            b@.lemma_position(key, pos as int);
            assert(self@.keys_distinct()) by {
                let s = self@;
                assert forall|i: int, k: int|
                    0 <= i < s.items.len() && 0 <= k < s.items.len() && i
                        != k implies #[trigger] s.items[i].key != #[trigger] s.items[k].key by {
                    assert(b@.items[from(i)].key != b@.items[from(k)].key);
                }
            }
        }
        let entry: Entry<K, V> = slot.unwrap();
        (entry.key, entry.value)
    }

    /// The number of live tags among the queued positions.
    pub fn live_count(&self) -> (n: usize)
        requires
            self.wf(),
        ensures
            n == self@.len(),
    {
        let mut n: usize = 0;
        let mut i: usize = 0;
        while i < self.len
            invariant
                self.wf(),
                n == i <= self.len,
            decreases self.len - i,
        {
            if self.tags[i] & LIVE != 0 {
                n = n + 1;
            }
            i = i + 1;
        }
        n
    }

    /// The ids of the queued positions, oldest first.
    pub fn live_ids(&self) -> (ids: Vec<usize>)
        requires
            self.wf(),
        ensures
            ids@.len() == self@.len(),
            forall|i: int| 0 <= i < ids@.len() ==> #[trigger] ids@[i] == self.id_at(i),
    {
        let mut ids: Vec<usize> = Vec::new();
        let mut i: usize = 0;
        while i < self.len
            invariant
                self.wf(),
                ids@.len() == i <= self.len,
                forall|j: int| 0 <= j < i ==> #[trigger] ids@[j] == self.id_at(j),
            decreases self.len - i,
        {
            if self.tags[i] & LIVE != 0 {
                ids.push(self.layout.id_of(self.tags[i]));
            }
            i = i + 1;
        }
        ids
    }
}

} // verus!
