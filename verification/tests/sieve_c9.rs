//! The cache `sieve_c9`.

use senba_research::experimental::sieve_c9::{next_shard_count, ConcurrentSieveCache, Shard, VISITED};
use senba_research::tag::LIVE;

/// A queue of items with their marks, oldest first, and the item at which the
/// next search for a victim starts.
struct Reference {
    capacity: usize,
    items: Vec<(u64, u64, bool)>,
    hand: Option<u64>,
}

impl Reference {
    fn new(capacity: usize) -> Self {
        Reference { capacity, items: Vec::new(), hand: None }
    }

    fn place(&self, key: u64) -> Option<usize> {
        self.items.iter().position(|item| item.0 == key)
    }

    fn get(&mut self, key: u64) -> Option<u64> {
        let at = self.place(key)?;
        self.items[at].2 = true;
        Some(self.items[at].1)
    }

    fn insert(&mut self, key: u64, value: u64) -> Option<(u64, u64)> {
        if let Some(at) = self.place(key) {
            self.items[at].1 = value;
            self.items[at].2 = true;
            return None;
        }
        let evicted = if self.items.len() == self.capacity {
            let mut at = match self.hand {
                Some(key) => self.place(key).unwrap(),
                None => 0,
            };
            while self.items[at].2 {
                self.items[at].2 = false;
                at = if at + 1 < self.items.len() { at + 1 } else { 0 };
            }
            self.hand = self.items.get(at + 1).map(|item| item.0);
            let (k, v, _) = self.items.remove(at);
            Some((k, v))
        } else {
            None
        };
        self.items.push((key, value, false));
        evicted
    }
}

#[test]
fn sieve_c9_cache_initially_empty() {
    let cache: ConcurrentSieveCache<i32, i32> = ConcurrentSieveCache::with_shards(64, 8);
    assert_eq!(cache.len(), 0);
    assert_eq!(cache.capacity(), 64);
    assert!(cache.is_empty());
    assert_eq!(cache.shards(), 8);
}

#[test]
fn sieve_c9_insert_then_get() {
    let mut cache: ConcurrentSieveCache<i32, i32> = ConcurrentSieveCache::with_shards(64, 8);
    assert!(cache.insert(1, 10).is_none());
    assert_eq!(cache.get(&1), Some(10));
    assert_eq!(cache.len(), 1);
}

#[test]
fn sieve_c9_get_missing_returns_none() {
    let mut cache: ConcurrentSieveCache<i32, i32> = ConcurrentSieveCache::with_shards(64, 8);
    cache.insert(1, 10);
    assert_eq!(cache.get(&2), None);
}

#[test]
fn sieve_c9_contains_key_reflects_insertions() {
    let mut cache: ConcurrentSieveCache<i32, i32> = ConcurrentSieveCache::with_shards(64, 8);
    assert!(!cache.contains_key(&1));
    cache.insert(1, 10);
    assert!(cache.contains_key(&1));
    assert!(!cache.contains_key(&2));
}

#[test]
fn sieve_c9_insert_existing_key_updates_value() {
    let mut cache: ConcurrentSieveCache<i32, i32> = ConcurrentSieveCache::with_shards(64, 8);
    cache.insert(1, 10);
    assert!(cache.insert(1, 20).is_none());
    assert_eq!(cache.get(&1), Some(20));
    assert_eq!(cache.len(), 1);
}

#[test]
fn sieve_c9_evicts_oldest_when_full_and_unvisited() {
    let mut cache: ConcurrentSieveCache<i32, i32> = ConcurrentSieveCache::with_shards(2, 1);
    cache.insert(1, 10);
    cache.insert(2, 20);
    let evicted = cache.insert(3, 30);
    assert_eq!(evicted, Some((1, 10)));
    assert_eq!(cache.len(), 2);
    assert!(!cache.contains_key(&1));
    assert!(cache.contains_key(&2));
    assert!(cache.contains_key(&3));
}

#[test]
fn sieve_c9_visited_entry_survives_first_pass() {
    let mut cache: ConcurrentSieveCache<i32, i32> = ConcurrentSieveCache::with_shards(2, 1);
    cache.insert(1, 10);
    cache.insert(2, 20);
    cache.get(&1);
    let evicted = cache.insert(3, 30);
    assert_eq!(evicted, Some((2, 20)));
}

#[test]
fn sieve_c9_all_visited_clears_bits_then_evicts() {
    let mut cache: ConcurrentSieveCache<i32, i32> = ConcurrentSieveCache::with_shards(2, 1);
    cache.insert(1, 10);
    cache.insert(2, 20);
    cache.get(&1);
    cache.get(&2);
    let evicted = cache.insert(3, 30);
    assert_eq!(evicted, Some((1, 10)));
}

#[test]
fn sieve_c9_total_capacity_is_respected_under_churn() {
    let cap: usize = 128;
    let mut cache: ConcurrentSieveCache<u64, u64> = ConcurrentSieveCache::with_shards(cap, 8);
    for k in 0..10_000u64 {
        cache.insert(k, k);
        assert!(cache.len() <= cap);
    }
    assert_eq!(cache.len(), cap);
}

#[test]
fn sieve_c9_churn_keeps_a_full_capacity_set() {
    let cap: usize = 128;
    let mut cache: ConcurrentSieveCache<u64, u64> = ConcurrentSieveCache::with_shards(cap, 8);
    for k in 0..50_000u64 {
        cache.insert(k, k * 3);
    }
    assert_eq!(cache.len(), cap);
    let mut alive = 0;
    for k in 0..50_000u64 {
        if cache.get(&k) == Some(k * 3) {
            alive += 1;
        }
    }
    assert_eq!(alive, cap);
}

#[test]
fn sieve_c9_per_shard_at_max_works() {
    let mut cache: ConcurrentSieveCache<u64, u64> = ConcurrentSieveCache::with_shards(64, 1);
    for k in 0..200u64 {
        cache.insert(k, k * 11);
    }
    assert_eq!(cache.len(), 64);
}

#[test]
fn sieve_c9_self_insert_self_get_visibility() {
    let mut cache: ConcurrentSieveCache<u64, u64> = ConcurrentSieveCache::with_shards(256, 8);
    for k in 0..200u64 {
        cache.insert(k, k * 17);
        assert_eq!(cache.get(&k), Some(k * 17), "key {k}");
    }
}

#[test]
fn sieve_c9_distinct_keys_full_per_shard_all_hit() {
    let mut cache: ConcurrentSieveCache<u64, u64> = ConcurrentSieveCache::with_shards(64, 1);
    for k in 0..64u64 {
        cache.insert(k, k * 7);
    }
    for k in 0..64u64 {
        assert_eq!(cache.get(&k), Some(k * 7), "key {k}");
    }
}

#[test]
fn sieve_c9_matches_sieve_orig_externally_1shard() {
    let cap = 64usize;
    let mut a = Reference::new(cap);
    let mut b: ConcurrentSieveCache<u64, u64> = ConcurrentSieveCache::with_shards(cap, 1);
    for k in 0..10_000u64 {
        let key = (k.wrapping_mul(2654435761)) % 256;
        let _ = a.insert(key, key);
        let _ = b.insert(key, key);
    }
    for k in 0..256u64 {
        assert_eq!(a.get(k), b.get(&k), "key {k}");
    }
}

#[test]
fn sieve_c9_warm_up_to_steady_transition() {
    let mut cache: ConcurrentSieveCache<u64, u64> = ConcurrentSieveCache::with_shards(4, 1);
    assert_eq!(cache.insert(1, 100), None);
    assert_eq!(cache.insert(2, 200), None);
    assert_eq!(cache.insert(3, 300), None);
    assert_eq!(cache.insert(4, 400), None);
    assert_eq!(cache.len(), 4);
    let evicted = cache.insert(5, 500);
    assert!(evicted.is_some());
    assert_eq!(cache.len(), 4);
    assert_eq!(cache.get(&5), Some(500));
}

#[test]
fn auto_shard_picks_power_of_two() {
    let cache: ConcurrentSieveCache<u64, u64> = ConcurrentSieveCache::new(1000);
    assert!(cache.shards().is_power_of_two());
    assert_eq!(cache.capacity(), 1000);
}

#[test]
fn sieve_c9_bit_layout_exclusivity_u64_u64() {
    let layout = Shard::<u64, u64>::new(1).layout();
    assert_eq!(layout.id_shift, 4);
    assert_eq!(layout.id_mask, 0x03f0);
    assert_eq!(layout.hash_mask, 0x3c0f);
    assert_eq!(layout.hash_mask.count_ones(), 8);
    assert_eq!(layout.scan_mask(), LIVE | layout.hash_mask);
    assert_eq!(LIVE | VISITED | layout.id_mask | layout.hash_mask, 0xFFFF);
    assert_eq!(LIVE & VISITED, 0);
    assert_eq!(VISITED & layout.id_mask, 0);
    assert_eq!(VISITED & layout.hash_mask, 0);
    assert_eq!(layout.scan_mask() & VISITED, 0);
    assert_eq!(LIVE & layout.id_mask, 0);
    assert_eq!(LIVE & layout.hash_mask, 0);
    assert_eq!(layout.id_mask & layout.hash_mask, 0);
}

#[test]
fn works_with_string_value() {
    let mut cache: ConcurrentSieveCache<u64, String> = ConcurrentSieveCache::with_shards(8, 1);
    cache.insert(1, "hello".to_string());
    cache.insert(2, "world".to_string());
    assert_eq!(cache.get(&1), Some("hello".to_string()));
    assert_eq!(cache.get(&2), Some("world".to_string()));
    assert_eq!(cache.get(&3), None);
}

#[test]
fn stats_track_hits_misses_evictions() {
    let mut cache: ConcurrentSieveCache<u64, u64> = ConcurrentSieveCache::with_shards(2, 1);
    cache.insert(1, 10);
    cache.insert(2, 20);
    cache.get(&1);
    cache.get(&999);
    cache.insert(3, 30);
    let s = cache.stats();
    assert_eq!(s.hits, 1);
    assert_eq!(s.misses, 1);
    assert_eq!(s.insertions, 3);
    assert_eq!(s.evictions, 1);
}

#[test]
fn matches_senba_cache_externally_1shard() {
    let cap = 64usize;
    let mut a = Reference::new(cap);
    let mut b: ConcurrentSieveCache<u64, u64> = ConcurrentSieveCache::with_shards(cap, 1);
    for k in 0..10_000u64 {
        let key = (k.wrapping_mul(2654435761)) % 256;
        let _ = a.insert(key, key);
        let _ = b.insert(key, key);
    }
    for k in 0..256u64 {
        assert_eq!(a.get(k), b.get(&k), "key {k}");
    }
}

#[test]
fn c9_contains_key_is_not_counted() {
    let mut cache: ConcurrentSieveCache<u64, u64> = ConcurrentSieveCache::with_shards(8, 2);
    cache.insert(1, 10);
    assert!(cache.contains_key(&1));
    assert!(!cache.contains_key(&2));
    let s = cache.stats();
    assert_eq!((s.hits, s.misses, s.insertions, s.evictions), (0, 0, 1, 0));
}

#[test]
fn c9_shares_of_an_uneven_capacity() {
    let cache: ConcurrentSieveCache<u64, u64> = ConcurrentSieveCache::with_shards(13, 4);
    let shares: Vec<usize> = (0..4).map(|i| cache.shard(i).capacity()).collect();
    assert_eq!(shares, vec![4, 3, 3, 3]);
    assert_eq!(cache.capacity(), 13);
}

#[test]
fn c9_smallest_shard_count_that_fits() {
    assert_eq!(next_shard_count(1), 1);
    assert_eq!(next_shard_count(3), 4);
    assert_eq!(next_shard_count(16), 16);
    assert_eq!(next_shard_count(17), 32);
}

#[test]
fn c9_two_keys_may_share_a_given_hash() {
    let mut shard: Shard<u64, u64> = Shard::new(4);
    let hash = 0xabcd_0000_0000_1234;
    assert_eq!(shard.insert(1, 10, hash), None);
    assert_eq!(shard.insert(2, 20, hash), None);
    assert_eq!(shard.get(&1, hash).copied(), Some(10));
    assert_eq!(shard.get(&2, hash).copied(), Some(20));
    assert_eq!(shard.get(&3, hash).copied(), None);
    assert_eq!(shard.insert(1, 11, hash), None);
    assert_eq!(shard.get(&1, hash).copied(), Some(11));
    assert_eq!(shard.len(), 2);
}

#[test]
fn c9_keys_may_be_texts() {
    let mut cache: ConcurrentSieveCache<String, u64> = ConcurrentSieveCache::with_shards(4, 1);
    for i in 0..4u64 {
        assert_eq!(cache.insert(format!("key {i}"), i), None);
    }
    assert_eq!(cache.get(&"key 0".to_string()), Some(0));
    assert_eq!(cache.get(&"key 4".to_string()), None);
    assert_eq!(cache.insert("key 4".to_string(), 4), Some(("key 1".to_string(), 1)));
    assert_eq!(cache.insert("key 0".to_string(), 9), None);
    assert_eq!(cache.get(&"key 0".to_string()), Some(9));
    assert_eq!(cache.len(), 4);
}
