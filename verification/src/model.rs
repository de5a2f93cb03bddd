//! The abstract SIEVE queue that every cache of this crate is measured against.
//!
//! A SIEVE cache is a queue of items in insertion order, a `visited` mark on
//! each item and one hand. A hit marks the item. A full cache that takes a new
//! key sends the hand over the queue, from older to newer and round the end: a
//! marked item loses its mark and stays, the first unmarked one leaves.
use vstd::prelude::*;

verus! {

/// One queued item.
#[verifier::ext_equal]
pub struct Item<K, V> {
    pub key: K,
    pub value: V,
    pub visited: bool,
}

/// The queue, oldest item first, with the position of the hand.
#[verifier::ext_equal]
pub struct Sieve<K, V> {
    pub capacity: nat,
    pub items: Seq<Item<K, V>>,
    pub hand: int,
}

/// The first position of `[lo, hi)` whose item is not marked, or `hi`.
pub open spec fn next_cold<K, V>(items: Seq<Item<K, V>>, lo: int, hi: int) -> int
    decreases hi - lo,
{
    if lo >= hi {
        hi
    } else if !items[lo].visited {
        lo
    } else {
        next_cold(items, lo + 1, hi)
    }
}

/// The queue with the marks of `[lo, hi)` taken off.
pub open spec fn cool<K, V>(items: Seq<Item<K, V>>, lo: int, hi: int) -> Seq<Item<K, V>> {
    Seq::new(
        items.len(),
        |i: int|
            if lo <= i < hi {
                Item { visited: false, ..items[i] }
            } else {
                items[i]
            },
    )
}

impl<K, V> Sieve<K, V> {
    /// The empty cache.
    pub open spec fn empty(capacity: nat) -> Self {
        Sieve { capacity, items: Seq::empty(), hand: 0 }
    }

    /// What holds of every reachable queue.
    pub open spec fn wf(self) -> bool {
        &&& 0 < self.capacity
        &&& self.items.len() <= self.capacity
        &&& 0 <= self.hand
        &&& self.hand == 0 || self.hand < self.items.len()
        &&& self.keys_distinct()
    }

    pub open spec fn keys_distinct(self) -> bool {
        forall|i: int, j: int|
            0 <= i < self.items.len() && 0 <= j < self.items.len() && i != j
                ==> #[trigger] self.items[i].key != #[trigger] self.items[j].key
    }

    pub open spec fn len(self) -> nat {
        self.items.len()
    }

    pub open spec fn full(self) -> bool {
        self.items.len() == self.capacity
    }

    /// Whether `key` stands at position `i`.
    pub open spec fn at(self, i: int, key: K) -> bool {
        0 <= i < self.items.len() && self.items[i].key == key
    }

    pub open spec fn holds(self, key: K) -> bool {
        exists|i: int| self.at(i, key)
    }

    /// The position of a key that the cache holds.
    pub open spec fn position(self, key: K) -> int {
        choose|i: int| self.at(i, key)
    }

    /// The value cached under `key`.
    pub open spec fn lookup(self, key: K) -> Option<V> {
        if self.holds(key) {
            Some(self.items[self.position(key)].value)
        } else {
            None
        }
    }

    /// Whether `key` is cached and marked.
    pub open spec fn marked(self, key: K) -> bool {
        self.holds(key) && self.items[self.position(key)].visited
    }

    /// The cache after a read of `key`: a hit is marked, a miss changes nothing.
    pub open spec fn touch(self, key: K) -> Self {
        if self.holds(key) {
            let i = self.position(key);
            Sieve {
                items: self.items.update(i, Item { visited: true, ..self.items[i] }),
                ..self
            }
        } else {
            self
        }
    }

    /// The cache after a new value for a key that it holds: the item is marked
    /// and stays where it is.
    pub open spec fn update(self, key: K, value: V) -> Self {
        let i = self.position(key);
        Sieve {
            items: self.items.update(
                i,
                Item { key: self.items[i].key, value, visited: true },
            ),
            ..self
        }
    }

    /// The cache with a new unmarked item at the young end.
    pub open spec fn append(self, key: K, value: V) -> Self {
        Sieve { items: self.items.push(Item { key, value, visited: false }), ..self }
    }

    /// The position at which the hand stops.
    pub open spec fn victim(self) -> int {
        let n = self.items.len() as int;
        let p = next_cold(self.items, self.hand, n);
        if p < n {
            p
        } else {
            let q = next_cold(self.items, 0, self.hand);
            if q < self.hand {
                q
            } else {
                self.hand
            }
        }
    }

    /// The queue after the hand's way to the victim: what it passed is unmarked.
    pub open spec fn swept(self) -> Seq<Item<K, V>> {
        let n = self.items.len() as int;
        let p = next_cold(self.items, self.hand, n);
        if p < n {
            cool(self.items, self.hand, p)
        } else {
            let q = next_cold(self.items, 0, self.hand);
            if q < self.hand {
                cool(cool(self.items, self.hand, n), 0, q)
            } else {
                cool(self.items, 0, n)
            }
        }
    }

    /// The cache after one eviction. The hand stays at the place that the victim
    /// left, or goes back to the oldest item if that was the youngest.
    pub open spec fn evict(self) -> Self {
        let v = self.victim();
        Sieve {
            items: self.swept().remove(v),
            hand: if v < self.items.len() - 1 {
                v
            } else {
                0
            },
            ..self
        }
    }

    /// The cache after `insert(key, value)`.
    pub open spec fn insert(self, key: K, value: V) -> Self {
        if self.holds(key) {
            self.update(key, value)
        } else if self.full() {
            self.evict().append(key, value)
        } else {
            self.append(key, value)
        }
    }

    /// The cache after `insert(key, value)` where the new item takes the victim's
    /// place in the queue and the hand goes one further.
    pub open spec fn insert_in_place(self, key: K, value: V) -> Self {
        if self.holds(key) {
            self.update(key, value)
        } else if self.full() {
            let v = self.victim();
            Sieve {
                items: self.swept().update(v, Item { key, value, visited: false }),
                hand: if v + 1 < self.items.len() {
                    v + 1
                } else {
                    0
                },
                ..self
            }
        } else {
            self.append(key, value)
        }
    }

    /// A sequence with one value for each queued item, after an insert of `key`: what
    /// stays keeps its values in order, and a new item has `new`.
    pub open spec fn carried<A>(self, along: Seq<A>, key: K, new: A) -> Seq<A> {
        if self.holds(key) {
            along
        } else if self.full() {
            along.remove(self.victim()).push(new)
        } else {
            along.push(new)
        }
    }

    /// The same for an insert that keeps the victim's place.
    pub open spec fn carried_in_place<A>(self, along: Seq<A>, key: K, new: A) -> Seq<A> {
        if self.holds(key) {
            along
        } else if self.full() {
            along.update(self.victim(), new)
        } else {
            along.push(new)
        }
    }

    /// The same for a removal of `key`.
    pub open spec fn carried_off<A>(self, along: Seq<A>, key: K) -> Seq<A> {
        if self.holds(key) {
            along.remove(self.position(key))
        } else {
            along
        }
    }

    /// The arena slot that a new item takes: that of the victim, or the first that was
    /// never used.
    pub open spec fn next_id(self, ids: Seq<int>) -> int {
        if self.full() {
            ids[self.victim()]
        } else {
            self.len() as int
        }
    }

    /// What `insert` of `key` pushes out.
    pub open spec fn displaced(self, key: K) -> Option<(K, V)> {
        if !self.holds(key) && self.full() {
            let item = self.items[self.victim()];
            Some((item.key, item.value))
        } else {
            None
        }
    }

    /// The cache without `key`. The hand keeps its place, or goes back to the
    /// oldest item where that place is gone.
    pub open spec fn remove(self, key: K) -> Self {
        if self.holds(key) {
            let items = self.items.remove(self.position(key));
            Sieve {
                items,
                hand: if self.hand < items.len() {
                    self.hand
                } else {
                    0
                },
                ..self
            }
        } else {
            self
        }
    }
}

/// `next_cold` is what its name says.
pub proof fn lemma_next_cold<K, V>(items: Seq<Item<K, V>>, lo: int, hi: int, p: int)
    requires
        lo <= p <= hi,
        forall|j: int| lo <= j < p ==> (#[trigger] items[j]).visited,
        p < hi ==> !items[p].visited,
    ensures
        next_cold(items, lo, hi) == p,
    decreases p - lo,
{
    if lo < p {
        assert(items[lo].visited);
        lemma_next_cold(items, lo + 1, hi, p);
    }
}

/// `next_cold` lies in its range, everything before it is marked, and it is not.
pub proof fn lemma_next_cold_bounds<K, V>(items: Seq<Item<K, V>>, lo: int, hi: int)
    requires
        lo <= hi,
    ensures
        lo <= next_cold(items, lo, hi) <= hi,
        forall|j: int| lo <= j < next_cold(items, lo, hi) ==> (#[trigger] items[j]).visited,
        next_cold(items, lo, hi) < hi ==> !items[next_cold(items, lo, hi)].visited,
    decreases hi - lo,
{
    if lo < hi && items[lo].visited {
        lemma_next_cold_bounds(items, lo + 1, hi);
    }
}

impl<K, V> Sieve<K, V> {
    /// A key stands at one position only.
    pub proof fn lemma_position(self, key: K, i: int)
        requires
            self.keys_distinct(),
            self.at(i, key),
        ensures
            self.holds(key),
            self.position(key) == i,
            self.lookup(key) == Some(self.items[i].value),
    {
        let p = self.position(key);
        assert(self.at(p, key));
        if p != i {
            assert(self.items[p].key != self.items[i].key);
        }
    }

    /// The victim is an item of the queue, and the sweep leaves keys and values alone.
    pub proof fn lemma_sweep(self)
        requires
            self.wf(),
            self.items.len() > 0,
        ensures
            0 <= self.victim() < self.items.len(),
            self.swept().len() == self.items.len(),
            !self.swept()[self.victim()].visited,
            forall|i: int|
                0 <= i < self.items.len() ==> (#[trigger] self.swept()[i]).key == self.items[i].key
                    && self.swept()[i].value == self.items[i].value,
    {
        lemma_next_cold_bounds(self.items, self.hand, self.items.len() as int);
        lemma_next_cold_bounds(self.items, 0, self.hand);
    }
}

/// What an insert owes whatever the order of the queue is: the new value is there,
/// nothing but the displaced key is lost, nothing else changes value.
pub open spec fn accepts<K, V>(before: Sieve<K, V>, key: K, value: V, after: Sieve<K, V>) -> bool {
    &&& after.wf()
    &&& after.capacity == before.capacity
    &&& after.lookup(key) == Some(value)
    &&& after.len() == if before.holds(key) || before.full() {
        before.len()
    } else {
        before.len() + 1
    }
    &&& match before.displaced(key) {
        None => forall|k: K| k != key ==> #[trigger] after.lookup(k) == before.lookup(k),
        Some((k0, v0)) => {
            &&& k0 != key
            &&& before.lookup(k0) == Some(v0)
            &&& after.lookup(k0) is None
            &&& forall|k: K| k != key && k != k0 ==> #[trigger] after.lookup(k) == before.lookup(k)
        },
    }
}

/// `to` holds exactly the keys that stand in `from` outside of `skip`, with their
/// values, and `key` with `value`: so they agree on every other lookup.
proof fn lemma_lookups<K, V>(
    from: Sieve<K, V>,
    to: Sieve<K, V>,
    skip: int,
    new_pos: int,
    key: K,
    value: V,
    map: spec_fn(int) -> int,
    back: spec_fn(int) -> int,
)
    requires
        from.keys_distinct(),
        to.keys_distinct(),
        to.at(new_pos, key),
        to.items[new_pos].value == value,
        forall|i: int|
            0 <= i < from.items.len() && i != skip && from.items[i].key != key ==> {
                &&& 0 <= #[trigger] map(i) < to.items.len()
                &&& to.items[map(i)].key == from.items[i].key
                &&& to.items[map(i)].value == from.items[i].value
            },
        forall|i: int|
            0 <= i < to.items.len() && i != new_pos ==> {
                &&& 0 <= #[trigger] back(i) < from.items.len()
                &&& back(i) != skip
                &&& from.items[back(i)].key == to.items[i].key
            },
    ensures
        to.lookup(key) == Some(value),
        forall|k: K|
            k != key && !(0 <= skip < from.items.len() && from.items[skip].key == k)
                ==> #[trigger] to.lookup(k) == from.lookup(k),
        0 <= skip < from.items.len() && from.items[skip].key != key ==> to.lookup(
            from.items[skip].key,
        ) is None,
{
    to.lemma_position(key, new_pos);
    assert forall|k: K|
        k != key && !(0 <= skip < from.items.len() && from.items[skip].key
            == k) implies #[trigger] to.lookup(k) == from.lookup(k) by {
        if from.holds(k) {
            let i = from.position(k);
            assert(from.at(i, k));
            assert(to.at(map(i), k));
            to.lemma_position(k, map(i));
        } else if to.holds(k) {
            let i = to.position(k);
            assert(to.at(i, k));
            assert(from.at(back(i), k));
        }
    }
    if 0 <= skip < from.items.len() && from.items[skip].key != key {
        let k = from.items[skip].key;
        if to.holds(k) {
            let i = to.position(k);
            assert(to.at(i, k));
            assert(from.items[back(i)].key == from.items[skip].key);
        }
    }
}

impl<K, V> Sieve<K, V> {
    /// A read finds what the cache holds under the key and changes no lookup; it
    /// keeps length, capacity, hand and order.
    pub proof fn law_touch(self, key: K)
        requires
            self.wf(),
        ensures
            self.touch(key).wf(),
            self.touch(key).capacity == self.capacity,
            self.touch(key).len() == self.len(),
            self.touch(key).hand == self.hand,
            forall|k: K| #[trigger] self.touch(key).lookup(k) == self.lookup(k),
            self.holds(key) ==> self.touch(key).marked(key),
            forall|i: int|
                0 <= i < self.len() ==> (#[trigger] self.touch(key).items[i]).key
                    == self.items[i].key,
    {
        let to = self.touch(key);
        if self.holds(key) {
            let p = self.position(key);
            assert(self.at(p, key));
            assert(to.keys_distinct()) by {
                assert forall|i: int, j: int|
                    0 <= i < to.items.len() && 0 <= j < to.items.len() && i
                        != j implies #[trigger] to.items[i].key != #[trigger] to.items[j].key by {
                    assert(self.items[i].key != self.items[j].key);
                }
            }
            assert(to.at(p, key));
            to.lemma_position(key, p);
            assert forall|k: K| #[trigger] to.lookup(k) == self.lookup(k) by {
                if self.holds(k) {
                    let i = self.position(k);
                    assert(self.at(i, k));
                    assert(to.at(i, k));
                    to.lemma_position(k, i);
                } else if to.holds(k) {
                    let i = to.position(k);
                    assert(to.at(i, k));
                    assert(self.at(i, k));
                }
            }
        }
    }

    /// A new value for a cached key displaces nothing, marks the item and keeps its
    /// place in the queue.
    pub proof fn law_update(self, key: K, value: V)
        requires
            self.wf(),
            self.holds(key),
        ensures
            self.displaced(key) is None,
            accepts(self, key, value, self.update(key, value)),
            self.update(key, value).marked(key),
            self.update(key, value).hand == self.hand,
            forall|i: int|
                0 <= i < self.len() ==> (#[trigger] self.update(key, value).items[i]).key
                    == self.items[i].key,
    {
        let to = self.update(key, value);
        let p = self.position(key);
        assert(self.at(p, key));
        assert(to.keys_distinct()) by {
            assert forall|i: int, j: int|
                0 <= i < to.items.len() && 0 <= j < to.items.len() && i != j implies #[trigger] to.items[i].key
                != #[trigger] to.items[j].key by {
                assert(self.items[i].key != self.items[j].key);
            }
        }
        assert(to.at(p, key));
        to.lemma_position(key, p);
        lemma_lookups(self, to, -1, p, key, value, |i: int| i, |i: int| i);
    }

    proof fn lemma_append(self, key: K, value: V)
        requires
            self.wf(),
            !self.holds(key),
            !self.full(),
        ensures
            accepts(self, key, value, self.append(key, value)),
    {
        let to = self.append(key, value);
        let n = self.items.len() as int;
        assert(to.keys_distinct()) by {
            assert forall|i: int, j: int|
                0 <= i < to.items.len() && 0 <= j < to.items.len() && i != j implies #[trigger] to.items[i].key
                != #[trigger] to.items[j].key by {
                if i < n && j < n {
                    assert(self.items[i].key != self.items[j].key);
                } else if i < n {
                    assert(!self.at(i, key));
                } else {
                    assert(!self.at(j, key));
                }
            }
        }
        assert(to.at(n, key));
        lemma_lookups(self, to, -1, n, key, value, |i: int| i, |i: int| i);
    }

    /// A read after a write gives what was written; a write loses the displaced key
    /// and no other, and leaves all other values alone; a full cache stays full and
    /// no cache outgrows its capacity.
    pub proof fn law_insert(self, key: K, value: V)
        requires
            self.wf(),
        ensures
            accepts(self, key, value, self.insert(key, value)),
    {
        if self.holds(key) {
            self.law_update(key, value);
        } else if !self.full() {
            self.lemma_append(key, value);
        } else {
            self.lemma_sweep();
            let v = self.victim();
            let to = self.insert(key, value);
            let n = self.items.len() as int;
            let map = |i: int|
                if i < v {
                    i
                } else {
                    i - 1
                };
            let back = |i: int|
                if i < v {
                    i
                } else {
                    i + 1
                };
            assert forall|i: int| 0 <= i < n - 1 implies #[trigger] to.items[i].key
                == self.items[back(i)].key && to.items[i].value == self.items[back(i)].value by {
                assert(to.items[i] == self.swept()[back(i)]);
            }
            assert(to.keys_distinct()) by {
                assert forall|i: int, j: int|
                    0 <= i < to.items.len() && 0 <= j < to.items.len() && i
                        != j implies #[trigger] to.items[i].key != #[trigger] to.items[j].key by {
                    if i < n - 1 && j < n - 1 {
                        assert(self.items[back(i)].key != self.items[back(j)].key);
                    } else if i < n - 1 {
                        assert(!self.at(back(i), key));
                    } else {
                        assert(!self.at(back(j), key));
                    }
                }
            }
            assert(to.at(n - 1, key));
            assert(!self.at(v, key));
            self.lemma_position(self.items[v].key, v);
            lemma_lookups(self, to, v, n - 1, key, value, map, back);
        }
    }

    /// The same of an insert that keeps the victim's place.
    pub proof fn law_insert_in_place(self, key: K, value: V)
        requires
            self.wf(),
        ensures
            accepts(self, key, value, self.insert_in_place(key, value)),
    {
        if self.holds(key) {
            self.law_update(key, value);
        } else if !self.full() {
            self.lemma_append(key, value);
        } else {
            self.lemma_sweep();
            let v = self.victim();
            let to = self.insert_in_place(key, value);
            let n = self.items.len() as int;
            assert forall|i: int| 0 <= i < n && i != v implies #[trigger] to.items[i].key
                == self.items[i].key && to.items[i].value == self.items[i].value by {
                assert(to.items[i] == self.swept()[i]);
            }
            assert(to.keys_distinct()) by {
                assert forall|i: int, j: int|
                    0 <= i < to.items.len() && 0 <= j < to.items.len() && i
                        != j implies #[trigger] to.items[i].key != #[trigger] to.items[j].key by {
                    if i != v && j != v {
                        assert(self.items[i].key != self.items[j].key);
                    } else if i != v {
                        assert(!self.at(i, key));
                    } else {
                        assert(!self.at(j, key));
                    }
                }
            }
            assert(to.at(v, key));
            assert(!self.at(v, key));
            self.lemma_position(self.items[v].key, v);
            lemma_lookups(self, to, v, v, key, value, |i: int| i, |i: int| i);
        }
    }

    /// An eviction keeps a queue well formed.
    pub proof fn lemma_evict_wf(self)
        requires
            self.wf(),
            0 < self.len(),
        ensures
            self.evict().wf(),
    {
        self.law_evict_keeps_order();
        self.lemma_sweep();
        let v = self.victim();
        let e = self.evict();
        assert forall|i: int, j: int|
            0 <= i < e.items.len() && 0 <= j < e.items.len() && i != j implies #[trigger] e.items[i].key
            != #[trigger] e.items[j].key by {
            let i2 = if i < v {
                i
            } else {
                i + 1
            };
            let j2 = if j < v {
                j
            } else {
                j + 1
            };
            assert(e.items[i].key == self.items[i2].key);
            assert(e.items[j].key == self.items[j2].key);
        }
    }

    /// An eviction adds no key.
    pub proof fn lemma_evicted_lacks(self, key: K)
        requires
            self.wf(),
            0 < self.len(),
            !self.holds(key),
        ensures
            !self.evict().holds(key),
    {
        self.lemma_sweep();
        let v = self.victim();
        let e = self.evict();
        assert forall|i: int| !e.at(i, key) by {
            if e.at(i, key) {
                let o = if i < v {
                    i
                } else {
                    i + 1
                };
                assert(e.items[i] == self.swept()[o]);
                assert(self.at(o, key));
            }
        }
    }

    /// A removed key is gone, and nothing else is.
    pub proof fn law_remove(self, key: K)
        requires
            self.wf(),
        ensures
            self.remove(key).wf(),
            self.remove(key).lookup(key) is None,
            self.remove(key).len() == if self.holds(key) {
                (self.len() - 1) as nat
            } else {
                self.len()
            },
            forall|k: K| k != key ==> #[trigger] self.remove(key).lookup(k) == self.lookup(k),
    {
        let to = self.remove(key);
        if self.holds(key) {
            let p = self.position(key);
            assert(self.at(p, key));
            let back = |i: int|
                if i < p {
                    i
                } else {
                    i + 1
                };
            assert forall|i: int| 0 <= i < to.items.len() implies #[trigger] to.items[i]
                == self.items[back(i)] && back(i) != p by {}
            assert(to.keys_distinct()) by {
                assert forall|i: int, j: int|
                    0 <= i < to.items.len() && 0 <= j < to.items.len() && i
                        != j implies #[trigger] to.items[i].key != #[trigger] to.items[j].key by {
                    assert(self.items[back(i)].key != self.items[back(j)].key);
                }
            }
            assert forall|k: K| k != key implies #[trigger] to.lookup(k) == self.lookup(k) by {
                if self.holds(k) {
                    let i = self.position(k);
                    assert(self.at(i, k));
                    let m = if i < p {
                        i
                    } else {
                        i - 1
                    };
                    assert(to.items[m] == self.items[back(m)]);
                    assert(to.at(m, k));
                    to.lemma_position(k, m);
                } else if to.holds(k) {
                    let i = to.position(k);
                    assert(to.at(i, k));
                    assert(self.at(back(i), k));
                }
            }
            if to.holds(key) {
                let i = to.position(key);
                assert(to.at(i, key));
                assert(self.items[back(i)].key != self.items[p].key);
            }
        }
    }

    /// A marked item is passed over as long as any item is unmarked.
    pub proof fn law_second_chance(self, i: int)
        requires
            self.wf(),
            0 <= i < self.len(),
            !self.items[i].visited,
        ensures
            !self.items[self.victim()].visited,
    {
        lemma_next_cold_bounds(self.items, self.hand, self.items.len() as int);
        lemma_next_cold_bounds(self.items, 0, self.hand);
    }

    /// Where all items are marked, the one at the hand leaves, and all marks are
    /// gone.
    pub proof fn law_all_marked(self)
        requires
            self.wf(),
            0 < self.len(),
            forall|i: int| 0 <= i < self.len() ==> (#[trigger] self.items[i]).visited,
        ensures
            self.victim() == self.hand,
            forall|i: int|
                0 <= i < self.evict().len() ==> !(#[trigger] self.evict().items[i]).visited,
    {
        lemma_next_cold(self.items, self.hand, self.items.len() as int, self.items.len() as int);
        lemma_next_cold(self.items, 0, self.hand, self.hand);
    }

    /// Without a mark in the queue the item at the hand leaves: with the hand at the
    /// old end, eviction is first in, first out.
    pub proof fn law_none_marked(self)
        requires
            self.wf(),
            0 < self.len(),
            forall|i: int| 0 <= i < self.len() ==> !(#[trigger] self.items[i]).visited,
        ensures
            self.victim() == self.hand,
    {
        lemma_next_cold(self.items, self.hand, self.items.len() as int, self.hand);
    }

    /// An eviction keeps the order of what stays.
    pub proof fn law_evict_keeps_order(self)
        requires
            self.wf(),
            0 < self.len(),
        ensures
            self.evict().len() == self.len() - 1,
            forall|i: int|
                0 <= i < self.evict().len() ==> (#[trigger] self.evict().items[i]).key
                    == self.items[if i < self.victim() {
                    i
                } else {
                    i + 1
                }].key,
    {
        self.lemma_sweep();
        let v = self.victim();
        assert forall|i: int| 0 <= i < self.evict().len() implies (#[trigger] self.evict().items[i]).key
            == self.items[if i < v {
            i
        } else {
            i + 1
        }].key by {
            assert(self.evict().items[i] == self.swept()[if i < v {
                i
            } else {
                i + 1
            }]);
        }
    }
}

} // verus!
