//! One shard by itself.
use crate::hash::CacheKey;
use crate::model::{accepts, Sieve};
use crate::shard::read_of;
use vstd::prelude::*;

pub mod adapters;
pub mod workload;

verus! {

/// What one shard offers.
pub trait SingleShard<K: CacheKey, V: Clone>: Sized {
    /// What holds of every shard.
    spec fn valid(self) -> bool;

    /// The queue that the shard stands for.
    spec fn queue(self) -> Sieve<K, V>;

    /// The queue after an insert.
    spec fn put(before: Sieve<K, V>, key: K, value: V) -> Sieve<K, V>;

    /// A valid shard stands for a well-formed queue.
    proof fn lemma_valid(self)
        requires
            self.valid(),
        ensures
            self.queue().wf(),
    ;

    /// An insert does to a well-formed queue what every insert does, wherever it puts the
    /// new item.
    proof fn lemma_put(before: Sieve<K, V>, key: K, value: V)
        requires
            before.wf(),
        ensures
            accepts(before, key, value, Self::put(before, key, value)),
            Self::put(before, key, value).marked(key) == (before.lookup(key) is Some),
    ;

    fn new(capacity: usize) -> (shard: Self)
        requires
            K::told_apart(),
            0 < capacity <= crate::tag::MAX_PER_SHARD,
        ensures
            shard.valid(),
            shard.queue() == Sieve::<K, V>::empty(capacity as nat),
    ;

    fn capacity(&self) -> (n: usize)
        requires
            self.valid(),
        ensures
            n == self.queue().capacity,
    ;

    fn len(&self) -> (n: usize)
        requires
            self.valid(),
        ensures
            n == self.queue().len(),
    ;

    fn is_empty(&self) -> (empty: bool)
        requires
            self.valid(),
        ensures
            empty == (self.queue().len() == 0),
    {
        self.len() == 0
    }

    /// Hands the value of `key` to `f` and returns what `f` makes of it; a hit is marked.
    fn read<R, F: FnOnce(&V) -> R>(&mut self, key: &K, f: F) -> (result: Option<R>)
        requires
            old(self).valid(),
            forall|v: V| #[trigger] call_requires(f, (&v,)),
        ensures
            final(self).valid(),
            final(self).queue() == old(self).queue().touch(*key),
            match old(self).queue().lookup(*key) {
                Some(v) => result matches Some(r) && read_through(v, f, r),
                None => result is None,
            },
    ;

    /// Caches `value` under `key`. Returns whether that pushed anything out.
    fn insert(&mut self, key: K, value: V) -> (evicted: bool)
        requires
            old(self).valid(),
        ensures
            final(self).valid(),
            final(self).queue() == Self::put(old(self).queue(), key, value),
            evicted == (old(self).queue().displaced(key) is Some),
    ;

    /// The value cached under `key`; a hit is marked.
    fn get(&mut self, key: &K) -> (value: Option<V>)
        requires
            old(self).valid(),
        ensures
            final(self).valid(),
            final(self).queue() == old(self).queue().touch(*key),
            read_of(old(self).queue().lookup(*key), value),
    ;
}

/// Whether `result` is what `f` makes of a clone of `value`.
pub open spec fn read_through<V: Clone, R, F: FnOnce(&V) -> R>(value: V, f: F, result: R) -> bool {
    exists|c: V| cloned(value, c) && #[trigger] call_ensures(f, (&c,), result)
}

} // verus!
