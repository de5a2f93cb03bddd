//! The cache variants, and what they have in common.
use crate::hash::CacheKey;
use crate::model::Sieve;
use crate::shard::{read_of, stored};
use vstd::prelude::*;

pub mod concurrent_test_suite;
pub mod routing_hint;
pub mod sieve_c10s;
pub mod sieve_c12s;
pub mod sieve_c16s;
pub mod sieve_c17s;
pub mod sieve_c9;
pub mod sieve_r3;
pub mod sieve_r4;
pub mod sieve_v0;
pub mod sieve_v3;
pub mod tls_id;

verus! {

/// A cache for one thread.
pub trait CacheImpl<K: CacheKey, V>: Sized {
    /// What holds of every cache.
    spec fn valid(self) -> bool;

    /// The queue that the cache stands for.
    spec fn queue(self) -> Sieve<K, V>;

    /// Whether keys of this type can be indexed by the cache.
    spec fn keys_ok() -> bool;

    proof fn lemma_valid(self)
        requires
            self.valid(),
        ensures
            self.queue().wf(),
    ;

    fn new(capacity: usize) -> (cache: Self)
        requires
            0 < capacity,
            2 * capacity <= usize::MAX,
            Self::keys_ok(),
        ensures
            cache.valid(),
            cache.queue() == Sieve::<K, V>::empty(capacity as nat),
    ;

    fn capacity(&self) -> (n: usize)
        requires
            self.valid(),
        ensures
            n == self.queue().capacity,
    ;

    fn len(&self) -> (n: usize)
        requires
            self.valid(),
        ensures
            n == self.queue().len(),
    ;

    fn is_empty(&self) -> (empty: bool)
        requires
            self.valid(),
        ensures
            empty == (self.queue().len() == 0),
    {
        self.len() == 0
    }

    fn get(&mut self, key: &K) -> (value: Option<&V>)
        requires
            old(self).valid(),
        ensures
            final(self).valid(),
            final(self).queue() == old(self).queue().touch(*key),
            match value {
                Some(v) => old(self).queue().lookup(*key) == Some(*v),
                None => old(self).queue().lookup(*key) is None,
            },
    ;

    fn insert(&mut self, key: K, value: V) -> (evicted: Option<(K, V)>)
        requires
            old(self).valid(),
        ensures
            final(self).valid(),
            final(self).queue() == old(self).queue().insert(key, value),
            evicted == old(self).queue().displaced(key),
    ;

    fn contains_key(&self, key: &K) -> (held: bool)
        requires
            self.valid(),
        ensures
            held == self.queue().holds(*key),
    ;
}

/// A cache whose operations can come from many threads, as one of them sees it while it
/// has the cache to itself.
pub trait ConcurrentCacheImpl<K: CacheKey, V: Clone>: Sized {
    /// What holds of every cache.
    spec fn valid(self) -> bool;

    /// What is cached under each key.
    spec fn contents(self) -> spec_fn(K) -> Option<V>;

    /// The number of cached items.
    spec fn count(self) -> int;

    /// The number of items that there is room for.
    spec fn limit(self) -> int;

    /// The capacities that a cache can have.
    spec fn admits(capacity: usize) -> bool;

    fn with_capacity(capacity: usize) -> (cache: Self)
        requires
            Self::admits(capacity),
        ensures
            cache.valid(),
            cache.limit() == capacity,
            cache.count() == 0,
            forall|k: K| #[trigger] cache.contents()(k) is None,
    ;

    fn capacity(&self) -> (n: usize)
        requires
            self.valid(),
        ensures
            n == self.limit(),
    ;

    fn len(&self) -> (n: usize)
        requires
            self.valid(),
        ensures
            n == self.count(),
            n <= self.limit(),
    ;

    fn is_empty(&self) -> (empty: bool)
        requires
            self.valid(),
        ensures
            empty == (self.count() == 0),
    {
        self.len() == 0
    }

    fn contains_key(&mut self, key: &K) -> (held: bool)
        requires
            old(self).valid(),
        ensures
            final(self).valid(),
            held == (old(self).contents()(*key) is Some),
            forall|k: K| #[trigger] final(self).contents()(k) == old(self).contents()(k),
            final(self).count() == old(self).count(),
            final(self).limit() == old(self).limit(),
    ;

    fn get(&mut self, key: &K) -> (value: Option<V>)
        requires
            old(self).valid(),
        ensures
            final(self).valid(),
            read_of(old(self).contents()(*key), value),
            forall|k: K| #[trigger] final(self).contents()(k) == old(self).contents()(k),
            final(self).count() == old(self).count(),
            final(self).limit() == old(self).limit(),
    ;

    fn insert(&mut self, key: K, value: V) -> (evicted: Option<(K, V)>)
        requires
            old(self).valid(),
        ensures
            final(self).valid(),
            stored(old(self).contents(), key, value, final(self).contents(), evicted),
            final(self).count() == old(self).count() + if old(self).contents()(key) is Some
                || evicted is Some {
                0int
            } else {
                1
            },
            final(self).limit() == old(self).limit(),
    ;
}

} // verus!
