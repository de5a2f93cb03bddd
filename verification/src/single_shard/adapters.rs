//! The variants as single shards.
use crate::experimental::{sieve_c10s, sieve_c12s, sieve_c9};
use crate::hash::{hash_key, key_hash, CacheKey};
use crate::model::Sieve;
use crate::sharded::{total_capacity, total_len};
use crate::single_shard::SingleShard;
use vstd::prelude::*;

verus! {

/// The shard with gaps.
pub struct C10sSingleShard<K, V> {
    shard: sieve_c10s::Shard<K, V>,
}

impl<K: CacheKey, V: Clone> SingleShard<K, V> for C10sSingleShard<K, V> {
    closed spec fn valid(self) -> bool {
        self.shard.wf() && forall|k: K| #[trigger] self.shard.agrees(k, key_hash(k))
    }

    closed spec fn queue(self) -> Sieve<K, V> {
        self.shard@
    }

    open spec fn put(before: Sieve<K, V>, key: K, value: V) -> Sieve<K, V> {
        before.insert(key, value)
    }

    proof fn lemma_valid(self) {
        self.shard.lemma_wf();
    }

    proof fn lemma_put(before: Sieve<K, V>, key: K, value: V) {
        before.law_insert(key, value);
        before.law_mark_of_inserted(key, value);
    }

    fn new(capacity: usize) -> (shard: Self) {
        C10sSingleShard { shard: sieve_c10s::Shard::new(capacity) }
    }

    fn capacity(&self) -> (n: usize) {
        self.shard.capacity()
    }

    fn len(&self) -> (n: usize) {
        self.shard.len()
    }

    fn read<R, F: FnOnce(&V) -> R>(&mut self, key: &K, f: F) -> (result: Option<R>) {
        match self.get(key) {
            Some(v) => Some(f(&v)),
            None => None,
        }
    }

    fn insert(&mut self, key: K, value: V) -> (evicted: bool) {
        let hash: u64 = hash_key(&key);
        let ghost b = self.shard;
        let evicted: Option<(K, V)> = self.shard.insert(key, value, hash);
        proof {
            b.lemma_inserted(self.shard, key, value, hash);
            assert forall|k: K| #[trigger] self.shard.agrees(k, key_hash(k)) by {
                assert(b.agrees(k, key_hash(k)));
            }
        }
        evicted.is_some()
    }

    fn get(&mut self, key: &K) -> (value: Option<V>) {
        let hash: u64 = hash_key(key);
        let ghost b = self.shard;
        let value: Option<V> = self.shard.get_by_hash(key, hash);
        proof {
            b.lemma_touched(self.shard, *key);
            assert forall|k: K| #[trigger] self.shard.agrees(k, key_hash(k)) by {
                assert(b.agrees(k, key_hash(k)));
            }
        }
        value
    }
}

/// The shard without order upkeep.
pub struct C12sSingleShard<K, V> {
    shard: sieve_c12s::Shard<K, V>,
}

impl<K: CacheKey, V: Clone> SingleShard<K, V> for C12sSingleShard<K, V> {
    closed spec fn valid(self) -> bool {
        self.shard.wf() && forall|k: K| #[trigger] self.shard.agrees(k, key_hash(k))
    }

    closed spec fn queue(self) -> Sieve<K, V> {
        self.shard@
    }

    open spec fn put(before: Sieve<K, V>, key: K, value: V) -> Sieve<K, V> {
        before.insert_in_place(key, value)
    }

    proof fn lemma_valid(self) {
        self.shard.lemma_wf();
    }

    proof fn lemma_put(before: Sieve<K, V>, key: K, value: V) {
        before.law_insert_in_place(key, value);
        before.law_mark_of_inserted(key, value);
    }

    fn new(capacity: usize) -> (shard: Self) {
        C12sSingleShard { shard: sieve_c12s::Shard::new(capacity) }
    }

    fn capacity(&self) -> (n: usize) {
        self.shard.capacity()
    }

    fn len(&self) -> (n: usize) {
        self.shard.len()
    }

    fn read<R, F: FnOnce(&V) -> R>(&mut self, key: &K, f: F) -> (result: Option<R>) {
        match self.get(key) {
            Some(v) => Some(f(&v)),
            None => None,
        }
    }

    fn insert(&mut self, key: K, value: V) -> (evicted: bool) {
        let hash: u64 = hash_key(&key);
        let ghost b = self.shard;
        let evicted: Option<(K, V)> = self.shard.insert(key, value, hash);
        proof {
            b.lemma_inserted(self.shard, key, value, hash);
            assert forall|k: K| #[trigger] self.shard.agrees(k, key_hash(k)) by {
                assert(b.agrees(k, key_hash(k)));
            }
        }
        evicted.is_some()
    }

    fn get(&mut self, key: &K) -> (value: Option<V>) {
        let hash: u64 = hash_key(key);
        let ghost b = self.shard;
        let value: Option<V> = self.shard.get_by_hash(key, hash);
        proof {
            b.lemma_touched(self.shard, *key);
            assert forall|k: K| #[trigger] self.shard.agrees(k, key_hash(k)) by {
                assert(b.agrees(k, key_hash(k)));
            }
        }
        value
    }
}

/// The counting cache with one shard.
pub struct C9SingleShard<K, V> {
    cache: sieve_c9::ConcurrentSieveCache<K, V>,
}

impl<K: CacheKey, V: Clone> SingleShard<K, V> for C9SingleShard<K, V> {
    closed spec fn valid(self) -> bool {
        self.cache.wf() && self.cache.array().queues().len() == 1
    }

    closed spec fn queue(self) -> Sieve<K, V> {
        self.cache.array().queues()[0]
    }

    open spec fn put(before: Sieve<K, V>, key: K, value: V) -> Sieve<K, V> {
        before.insert(key, value)
    }

    proof fn lemma_valid(self) {
        self.cache.array().lemma_wf();
    }

    proof fn lemma_put(before: Sieve<K, V>, key: K, value: V) {
        before.law_insert(key, value);
        before.law_mark_of_inserted(key, value);
    }

    fn new(capacity: usize) -> (shard: Self) {
        assert(1usize & 0usize == 0) by (bit_vector);
        let shard: Self = C9SingleShard {
            cache: sieve_c9::ConcurrentSieveCache::with_shards(capacity, 1),
        };
        shard
    }

    fn capacity(&self) -> (n: usize) {
        proof {
            reveal_with_fuel(total_capacity, 2);
        }
        self.cache.capacity()
    }

    fn len(&self) -> (n: usize) {
        proof {
            reveal_with_fuel(total_len, 2);
        }
        self.cache.len()
    }

    fn read<R, F: FnOnce(&V) -> R>(&mut self, key: &K, f: F) -> (result: Option<R>) {
        match self.get(key) {
            Some(v) => Some(f(&v)),
            None => None,
        }
    }

    fn insert(&mut self, key: K, value: V) -> (evicted: bool) {
        proof {
            self.cache.array().lemma_wf();
            assert(0 <= self.cache.array().route(key) < 1);
        }
        self.cache.insert(key, value).is_some()
    }

    fn get(&mut self, key: &K) -> (value: Option<V>) {
        proof {
            self.cache.array().lemma_wf();
            assert(0 <= self.cache.array().route(*key) < 1);
        }
        self.cache.get(key)
    }
}

} // verus!
