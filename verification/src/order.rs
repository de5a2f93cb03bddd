//! What reads, inserts and removals do to the marks of a queue, to its order and to its hand.
//!
//! These laws fix which item leaves a full cache: the first one without a mark that the hand
//! meets on its way from older to newer items and round the end.
use crate::model::{lemma_next_cold_bounds, Sieve};
use vstd::prelude::*;

verus! {

impl<K, V> Sieve<K, V> {
    proof fn lemma_marked(self, key: K, i: int)
        requires
            self.keys_distinct(),
            self.at(i, key),
        ensures
            self.holds(key),
            self.position(key) == i,
            self.marked(key) == self.items[i].visited,
    {
        self.lemma_position(key, i);
    }

    /// An empty cache holds nothing and has the room that it was made with.
    pub proof fn law_empty(capacity: nat, key: K)
        ensures
            Self::empty(capacity).lookup(key) is None,
            !Self::empty(capacity).marked(key),
            Self::empty(capacity).len() == 0,
            Self::empty(capacity).capacity == capacity,
            Self::empty(capacity).hand == 0,
            0 < capacity ==> Self::empty(capacity).wf(),
    {
    }

    /// A read marks the key that it finds and no other; where it finds none, nothing changes.
    pub proof fn law_touch_marks(self, key: K)
        requires
            self.wf(),
        ensures
            forall|k: K| #[trigger]
                self.touch(key).marked(k) == (self.marked(k) || k == key && self.lookup(key) is Some),
            self.lookup(key) is None ==> self.touch(key) == self,
    {
        let to = self.touch(key);
        self.law_touch(key);
        assert forall|k: K| #[trigger] to.marked(k) == (self.marked(k) || k == key && self.lookup(
            key,
        ) is Some) by {
            if self.holds(k) {
                let i = self.position(k);
                assert(self.at(i, k));
                self.lemma_marked(k, i);
                assert(to.at(i, k));
                to.lemma_marked(k, i);
                if self.holds(key) {
                    let p = self.position(key);
                    assert(self.at(p, key));
                    self.lemma_marked(key, p);
                }
            } else {
                assert(self.lookup(k) is None);
                assert(to.lookup(k) is None);
            }
        }
    }

    /// A new value for a cached key marks this key and leaves all other marks alone.
    pub proof fn law_update_marks(self, key: K, value: V)
        requires
            self.wf(),
            self.lookup(key) is Some,
        ensures
            self.insert(key, value).marked(key),
            self.insert_in_place(key, value).marked(key),
            forall|k: K|
                k != key ==> #[trigger] self.insert(key, value).marked(k) == self.marked(k),
            self.insert_in_place(key, value) == self.insert(key, value),
            self.insert(key, value).hand == self.hand,
            forall|i: int|
                0 <= i < self.len() ==> (#[trigger] self.insert(key, value).items[i]).key
                    == self.items[i].key,
    {
        let to = self.update(key, value);
        self.law_update(key, value);
        assert forall|k: K| k != key implies #[trigger] self.insert(key, value).marked(k)
            == self.marked(k) by {
            if self.holds(k) {
                let i = self.position(k);
                assert(self.at(i, k));
                self.lemma_marked(k, i);
                assert(to.at(i, k));
                to.lemma_marked(k, i);
                let p = self.position(key);
                assert(self.at(p, key));
            } else {
                assert(self.lookup(k) is None);
                assert(to.lookup(k) is None);
            }
        }
    }

    /// Where there is room, a new item comes in without a mark, behind all others, which stay
    /// in their places with their marks; the hand stays too.
    pub proof fn law_append_marks(self, key: K, value: V)
        requires
            self.wf(),
            self.lookup(key) is None,
            self.len() < self.capacity,
        ensures
            !self.insert(key, value).marked(key),
            forall|k: K|
                k != key ==> #[trigger] self.insert(key, value).marked(k) == self.marked(k),
            self.insert_in_place(key, value) == self.insert(key, value),
            self.insert(key, value).hand == self.hand,
            self.insert(key, value).at(self.len() as int, key),
            forall|i: int|
                0 <= i < self.len() ==> (#[trigger] self.insert(key, value).items[i]).key
                    == self.items[i].key,
    {
        let to = self.insert(key, value);
        self.law_insert(key, value);
        assert(to.at(self.len() as int, key));
        to.lemma_marked(key, self.len() as int);
        assert forall|k: K| k != key implies #[trigger] to.marked(k) == self.marked(k) by {
            if self.holds(k) {
                let i = self.position(k);
                assert(self.at(i, k));
                self.lemma_marked(k, i);
                assert(to.at(i, k));
                to.lemma_marked(k, i);
            } else {
                assert(self.lookup(k) is None);
                assert(to.lookup(k) is None);
            }
        }
    }

    /// The hand stops at the first item without a mark: all that it passes are marked. Where
    /// every item is marked it goes round once and takes the one that it started at.
    pub proof fn law_victim(self)
        requires
            self.wf(),
            0 < self.len(),
        ensures
            0 <= self.victim() < self.len(),
            self.hand <= self.victim() ==> forall|i: int|
                self.hand <= i < self.victim() ==> (#[trigger] self.items[i]).visited,
            self.victim() < self.hand ==> forall|i: int|
                self.hand <= i < self.len() || 0 <= i < self.victim() ==> (
                #[trigger] self.items[i]).visited,
            self.items[self.victim()].visited ==> self.victim() == self.hand && forall|i: int|
                0 <= i < self.len() ==> (#[trigger] self.items[i]).visited,
    {
        lemma_next_cold_bounds(self.items, self.hand, self.len() as int);
        lemma_next_cold_bounds(self.items, 0, self.hand);
    }

    /// The hand takes the marks of what it passes, and of nothing else. Where every item is
    /// marked, it takes all marks.
    proof fn lemma_swept(self)
        requires
            self.wf(),
            0 < self.len(),
        ensures
            self.swept().len() == self.len(),
            forall|i: int|
                0 <= i < self.len() ==> (#[trigger] self.swept()[i]).visited == (
                self.items[i].visited && !self.passed(i)),
    {
        self.law_victim();
        lemma_next_cold_bounds(self.items, self.hand, self.len() as int);
        lemma_next_cold_bounds(self.items, 0, self.hand);
    }

    /// Whether the hand goes over position `i` on its way to the next victim.
    pub open spec fn passed(self, i: int) -> bool {
        if self.items[self.victim()].visited {
            true
        } else if self.hand <= self.victim() {
            self.hand <= i < self.victim()
        } else {
            self.hand <= i || i < self.victim()
        }
    }

    /// A new item comes into a full cache without a mark. What stays keeps its mark unless the
    /// hand went over it.
    pub proof fn law_insert_marks(self, key: K, value: V)
        requires
            self.wf(),
            self.lookup(key) is None,
            self.len() == self.capacity,
        ensures
            !self.insert(key, value).marked(key),
            !self.insert_in_place(key, value).marked(key),
            forall|i: int|
                0 <= i < self.len() && i != self.victim() ==> {
                    &&& self.insert(key, value).marked(#[trigger] self.items[i].key) == (
                    self.items[i].visited && !self.passed(i))
                    &&& self.insert_in_place(key, value).marked(self.items[i].key) == (
                    self.items[i].visited && !self.passed(i))
                },
    {
        self.lemma_swept();
        self.law_victim();
        self.law_insert(key, value);
        self.law_insert_in_place(key, value);
        let a = self.insert(key, value);
        let b = self.insert_in_place(key, value);
        let v = self.victim();
        let n = self.len() as int;
        assert(a.at(n - 1, key));
        a.lemma_marked(key, n - 1);
        assert(b.at(v, key));
        b.lemma_marked(key, v);
        assert forall|i: int| 0 <= i < n && i != v implies a.marked(#[trigger] self.items[i].key)
            == (self.items[i].visited && !self.passed(i)) && b.marked(self.items[i].key) == (
        self.items[i].visited && !self.passed(i)) by {
            let k = self.items[i].key;
            self.lemma_sweep();
            let m = if i < v {
                i
            } else {
                i - 1
            };
            assert(a.items[m] == self.swept()[i]);
            assert(a.at(m, k));
            a.lemma_marked(k, m);
            assert(b.at(i, k));
            b.lemma_marked(k, i);
        }
    }

    /// An insert marks a key that was cached, and brings in one that was not without a mark.
    pub proof fn law_mark_of_inserted(self, key: K, value: V)
        requires
            self.wf(),
        ensures
            self.insert(key, value).marked(key) == (self.lookup(key) is Some),
            self.insert_in_place(key, value).marked(key) == (self.lookup(key) is Some),
    {
        if self.lookup(key) is Some {
            self.law_update_marks(key, value);
        } else if self.len() == self.capacity {
            self.law_insert_marks(key, value);
        } else {
            self.law_append_marks(key, value);
        }
    }

    /// After an insert the key has its value, wherever it was put. A key that is pushed out is
    /// not cached any more; every other key has the value that it had.
    pub proof fn law_insert_values(self, key: K, value: V, k: K)
        requires
            self.wf(),
        ensures
            self.insert(key, value).lookup(key) == Some(value),
            self.insert_in_place(key, value).lookup(key) == Some(value),
            k != key ==> self.insert(key, value).lookup(k) == (match self.displaced(key) {
                Some((gone, _)) => if k == gone {
                    None
                } else {
                    self.lookup(k)
                },
                None => self.lookup(k),
            }),
            k != key ==> self.insert_in_place(key, value).lookup(k) == self.insert(
                key,
                value,
            ).lookup(k),
            self.insert(key, value).len() == self.insert_in_place(key, value).len(),
            self.insert(key, value).len() == self.len() + if self.lookup(key) is None
                && self.displaced(key) is None {
                1nat
            } else {
                0
            },
            self.insert(key, value).capacity == self.capacity,
            self.insert_in_place(key, value).capacity == self.capacity,
    {
        self.law_insert(key, value);
        self.law_insert_in_place(key, value);
    }

    /// A new item of a full cache comes in behind all others, which keep their order. The hand
    /// then stands at the item that followed the victim, or at the oldest where none did.
    pub proof fn law_insert_order(self, key: K, value: V)
        requires
            self.wf(),
            self.lookup(key) is None,
            self.len() == self.capacity,
        ensures
            self.insert(key, value).at(self.len() - 1, key),
            forall|i: int|
                0 <= i < self.victim() ==> self.insert(key, value).at(
                    i,
                    #[trigger] self.items[i].key,
                ),
            forall|i: int|
                self.victim() < i < self.len() ==> self.insert(key, value).at(
                    i - 1,
                    #[trigger] self.items[i].key,
                ),
            self.victim() < self.len() - 1 ==> self.insert(key, value).at(
                self.insert(key, value).hand,
                self.items[self.victim() + 1].key,
            ),
            self.victim() == self.len() - 1 ==> self.insert(key, value).hand == 0,
    {
        self.law_victim();
        self.lemma_sweep();
        let a = self.insert(key, value);
        assert forall|i: int| 0 <= i < self.victim() implies a.at(
            i,
            #[trigger] self.items[i].key,
        ) by {
            assert(a.items[i] == self.swept()[i]);
        }
        assert forall|i: int| self.victim() < i < self.len() implies a.at(
            i - 1,
            #[trigger] self.items[i].key,
        ) by {
            assert(a.items[i - 1] == self.swept()[i]);
        }
        if self.victim() < self.len() - 1 {
            assert(a.at(self.victim(), self.items[self.victim() + 1].key));
        }
    }

    /// An insert that keeps the victim's place puts the new item there and moves no other. The
    /// hand goes to the item behind it, or to the oldest where there is none.
    pub proof fn law_in_place_order(self, key: K, value: V)
        requires
            self.wf(),
            self.lookup(key) is None,
            self.len() == self.capacity,
        ensures
            self.insert_in_place(key, value).at(self.victim(), key),
            forall|i: int|
                0 <= i < self.len() && i != self.victim() ==> self.insert_in_place(key, value).at(
                    i,
                    #[trigger] self.items[i].key,
                ),
            self.victim() < self.len() - 1 ==> self.insert_in_place(key, value).at(
                self.insert_in_place(key, value).hand,
                self.items[self.victim() + 1].key,
            ),
            self.victim() == self.len() - 1 ==> self.insert_in_place(key, value).hand == 0,
    {
        self.law_victim();
        self.lemma_sweep();
        let b = self.insert_in_place(key, value);
        assert forall|i: int| 0 <= i < self.len() && i != self.victim() implies b.at(
            i,
            #[trigger] self.items[i].key,
        ) by {
            assert(b.items[i] == self.swept()[i]);
        }
    }

    /// What a full cache pushes out for a new key is the item at which the hand stops.
    pub proof fn law_displaced(self, key: K)
        requires
            self.wf(),
        ensures
            self.displaced(key) is Some <==> self.lookup(key) is None && self.len()
                == self.capacity,
            self.displaced(key) matches Some((k, v)) ==> self.at(self.victim(), k) && self.lookup(k)
                == Some(v),
    {
        if !self.holds(key) && self.full() {
            self.law_victim();
            self.lemma_position(self.items[self.victim()].key, self.victim());
        }
    }

    /// Of a full cache in which every key but one is marked, that one leaves next.
    pub proof fn law_only_unmarked_leaves(self, cold: K, key: K)
        requires
            self.wf(),
            self.len() == self.capacity,
            self.lookup(cold) is Some,
            !self.marked(cold),
            forall|k: K| k != cold && self.lookup(k) is Some ==> #[trigger] self.marked(k),
            self.lookup(key) is None,
        ensures
            self.displaced(key) == Some((cold, self.lookup(cold)->0)),
    {
        let p = self.position(cold);
        assert(self.at(p, cold));
        self.lemma_marked(cold, p);
        self.law_second_chance(p);
        self.law_victim();
        let v = self.victim();
        let k = self.items[v].key;
        assert(self.at(v, k));
        self.lemma_marked(k, v);
        if k != cold {
            assert(self.lookup(k) is Some);
            assert(self.marked(k));
        }
    }

    /// A key that was never read since it came into a full cache, while all others were, is the
    /// next to leave, wherever in the queue it was put.
    pub proof fn law_unread_newcomer_leaves(
        self,
        fresh: K,
        value: V,
        put: Self,
        later: Self,
        key: K,
    )
        requires
            self.wf(),
            self.lookup(fresh) is None,
            self.len() == self.capacity,
            put == self.insert(fresh, value) || put == self.insert_in_place(fresh, value),
            later.wf(),
            later.capacity == put.capacity,
            later.len() == put.len(),
            forall|k: K| #[trigger] later.lookup(k) == put.lookup(k),
            later.marked(fresh) == put.marked(fresh),
            forall|k: K| k != fresh && later.lookup(k) is Some ==> #[trigger] later.marked(k),
            later.lookup(key) is None,
        ensures
            later.displaced(key) == Some((fresh, value)),
    {
        self.law_insert(fresh, value);
        self.law_insert_in_place(fresh, value);
        self.law_insert_marks(fresh, value);
        later.law_only_unmarked_leaves(fresh, key);
    }

    /// A removal takes no mark and changes no order; the hand keeps its place in the queue, or
    /// goes to the oldest item where that place is gone.
    pub proof fn law_remove_order(self, key: K)
        requires
            self.wf(),
        ensures
            self.remove(key).capacity == self.capacity,
            forall|k: K| k != key ==> #[trigger] self.remove(key).marked(k) == self.marked(k),
            forall|i: int, j: int|
                0 <= i < j < self.len() && #[trigger] self.items[i].key != key
                    && #[trigger] self.items[j].key != key ==> self.remove(key).position(
                    self.items[i].key,
                ) < self.remove(key).position(self.items[j].key),
            self.hand < self.remove(key).len() ==> self.remove(key).hand == self.hand,
            self.hand >= self.remove(key).len() ==> self.remove(key).hand == 0,
            self.lookup(key) is None ==> self.remove(key) == self,
    {
        let to = self.remove(key);
        self.law_remove(key);
        if self.holds(key) {
            let p = self.position(key);
            assert(self.at(p, key));
            assert forall|i: int|
                0 <= i < self.len() && (#[trigger] self.items[i]).key != key implies to.at(
                if i < p {
                    i
                } else {
                    i - 1
                },
                self.items[i].key,
            ) && to.position(self.items[i].key) == if i < p {
                i
            } else {
                i - 1
            } by {
                let m = if i < p {
                    i
                } else {
                    i - 1
                };
                assert(to.items[m] == self.items[i]);
                assert(to.at(m, self.items[i].key));
                to.lemma_marked(self.items[i].key, m);
            }
            assert forall|k: K| k != key implies #[trigger] to.marked(k) == self.marked(k) by {
                if self.holds(k) {
                    let i = self.position(k);
                    assert(self.at(i, k));
                    assert(self.items[i].key != key);
                    let m = if i < p {
                        i
                    } else {
                        i - 1
                    };
                    assert(to.items[m] == self.items[i]);
                    to.lemma_marked(k, m);
                } else {
                    assert(self.lookup(k) is None);
                    assert(to.lookup(k) is None);
                }
            }
        } else {
            assert forall|i: int, j: int|
                0 <= i < j < self.len() && #[trigger] self.items[i].key != key
                    && #[trigger] self.items[j].key != key implies to.position(self.items[i].key)
                < to.position(self.items[j].key) by {
                self.lemma_position(self.items[i].key, i);
                self.lemma_position(self.items[j].key, j);
            }
        }
    }

    /// The keys of the queue, oldest first.
    pub open spec fn keys(self) -> Seq<K> {
        Seq::new(self.len(), |i: int| self.items[i].key)
    }

    /// What is carried along with the items goes where the items go: carried along, the keys
    /// themselves are again the keys.
    pub proof fn law_carried(self, key: K, value: V)
        requires
            self.wf(),
        ensures
            self.carried(self.keys(), key, key) == self.insert(key, value).keys(),
            self.carried_in_place(self.keys(), key, key) == self.insert_in_place(key, value).keys(),
            self.carried_off(self.keys(), key) == self.remove(key).keys(),
    {
        let a = self.insert(key, value);
        let b = self.insert_in_place(key, value);
        let c = self.remove(key);
        if self.holds(key) {
            let p = self.position(key);
            assert(self.at(p, key));
            assert(self.keys() =~= a.keys());
            assert(self.keys() =~= b.keys());
            assert(self.keys().remove(p) =~= c.keys());
        } else if self.full() {
            self.law_victim();
            self.lemma_sweep();
            let v = self.victim();
            assert(self.keys().remove(v).push(key) =~= a.keys());
            assert(self.keys().update(v, key) =~= b.keys());
        } else {
            assert(self.keys().push(key) =~= a.keys());
            assert(self.keys().push(key) =~= b.keys());
        }
    }

    /// Whether `ids` gives every queued item an arena slot of its own, the first ones as long
    /// as the cache is not full.
    pub open spec fn slotted(self, ids: Seq<int>) -> bool {
        &&& ids.len() == self.len()
        &&& forall|i: int| 0 <= i < ids.len() ==> 0 <= #[trigger] ids[i] < self.capacity
        &&& self.len() < self.capacity ==> forall|i: int|
            0 <= i < ids.len() ==> #[trigger] ids[i] < self.len()
        &&& forall|i: int, j: int|
            0 <= i < ids.len() && 0 <= j < ids.len() && i != j ==> #[trigger] ids[i]
                != #[trigger] ids[j]
    }

    /// An insert keeps every item in an arena slot of its own. What is pushed out leaves its
    /// slot to the new item.
    pub proof fn law_slots(self, ids: Seq<int>, key: K, value: V)
        requires
            self.wf(),
            self.slotted(ids),
        ensures
            self.insert(key, value).slotted(self.carried(ids, key, self.next_id(ids))),
            self.insert_in_place(key, value).slotted(
                self.carried_in_place(ids, key, self.next_id(ids)),
            ),
            self.displaced(key) matches Some((k, _)) ==> self.next_id(ids) == ids[self.position(k)],
    {
        let a = self.insert(key, value);
        let b = self.insert_in_place(key, value);
        self.law_insert(key, value);
        self.law_insert_in_place(key, value);
        if self.holds(key) {
        } else if self.full() {
            self.law_victim();
            let v = self.victim();
            self.lemma_position(self.items[v].key, v);
            let x = ids.remove(v).push(ids[v]);
            assert forall|i: int, j: int|
                0 <= i < x.len() && 0 <= j < x.len() && i != j implies #[trigger] x[i]
                != #[trigger] x[j] by {
                let i2 = if i == x.len() - 1 {
                    v
                } else if i < v {
                    i
                } else {
                    i + 1
                };
                let j2 = if j == x.len() - 1 {
                    v
                } else if j < v {
                    j
                } else {
                    j + 1
                };
                assert(x[i] == ids[i2] && x[j] == ids[j2]);
            }
            assert forall|i: int| 0 <= i < x.len() implies 0 <= #[trigger] x[i] < self.capacity by {
                let i2 = if i == x.len() - 1 {
                    v
                } else if i < v {
                    i
                } else {
                    i + 1
                };
                assert(x[i] == ids[i2]);
            }
            assert(ids.update(v, ids[v]) =~= ids);
        } else {
            let x = ids.push(self.len() as int);
            assert forall|i: int, j: int|
                0 <= i < x.len() && 0 <= j < x.len() && i != j implies #[trigger] x[i]
                != #[trigger] x[j] by {
                if i < ids.len() {
                    assert(x[i] == ids[i]);
                }
                if j < ids.len() {
                    assert(x[j] == ids[j]);
                }
            }
        }
    }
}

} // verus!
