//! The cache `sieve_c10s`.

use senba_research::experimental::sieve_c10s::{ConcurrentSieveCache, DEFAULT_SHARDS, Shard};
use senba_research::tag::LIVE;

/// A queue of items with their marks, oldest first, and the item at which the
/// next search for a victim starts.
struct Reference {
    capacity: usize,
    items: Vec<(u64, u64, bool)>,
    hand: Option<u64>,
}

impl Reference {
    fn new(capacity: usize) -> Self {
        Reference { capacity, items: Vec::new(), hand: None }
    }

    fn place(&self, key: u64) -> Option<usize> {
        self.items.iter().position(|item| item.0 == key)
    }

    fn get(&mut self, key: u64) -> Option<u64> {
        let at = self.place(key)?;
        self.items[at].2 = true;
        Some(self.items[at].1)
    }

    fn insert(&mut self, key: u64, value: u64) -> Option<(u64, u64)> {
        if let Some(at) = self.place(key) {
            self.items[at].1 = value;
            self.items[at].2 = true;
            return None;
        }
        let evicted = if self.items.len() == self.capacity {
            let mut at = match self.hand {
                Some(key) => self.place(key).unwrap(),
                None => 0,
            };
            while self.items[at].2 {
                self.items[at].2 = false;
                at = if at + 1 < self.items.len() { at + 1 } else { 0 };
            }
            self.hand = self.items.get(at + 1).map(|item| item.0);
            let (k, v, _) = self.items.remove(at);
            Some((k, v))
        } else {
            None
        };
        self.items.push((key, value, false));
        evicted
    }
}

#[test]
fn sieve_c10s_cache_initially_empty() {
    let cache: ConcurrentSieveCache<i32, i32, DEFAULT_SHARDS> = ConcurrentSieveCache::new(DEFAULT_SHARDS * 4);
    assert_eq!(cache.len(), 0);
    assert_eq!(cache.capacity(), DEFAULT_SHARDS * 4);
    assert!(cache.is_empty());
}

#[test]
fn sieve_c10s_insert_then_get() {
    let mut cache: ConcurrentSieveCache<i32, i32, DEFAULT_SHARDS> = ConcurrentSieveCache::new(DEFAULT_SHARDS * 4);
    assert!(cache.insert(1, 10).is_none());
    assert_eq!(cache.get(&1), Some(10));
    assert_eq!(cache.len(), 1);
}

#[test]
fn sieve_c10s_get_missing_returns_none() {
    let mut cache: ConcurrentSieveCache<i32, i32, DEFAULT_SHARDS> = ConcurrentSieveCache::new(DEFAULT_SHARDS * 4);
    cache.insert(1, 10);
    assert_eq!(cache.get(&2), None);
}

#[test]
fn sieve_c10s_contains_key_reflects_insertions() {
    let mut cache: ConcurrentSieveCache<i32, i32, DEFAULT_SHARDS> = ConcurrentSieveCache::new(DEFAULT_SHARDS * 4);
    assert!(!cache.contains_key(&1));
    cache.insert(1, 10);
    assert!(cache.contains_key(&1));
    assert!(!cache.contains_key(&2));
}

#[test]
fn sieve_c10s_insert_existing_key_updates_value() {
    let mut cache: ConcurrentSieveCache<i32, i32, DEFAULT_SHARDS> = ConcurrentSieveCache::new(DEFAULT_SHARDS * 4);
    cache.insert(1, 10);
    assert!(cache.insert(1, 20).is_none());
    assert_eq!(cache.get(&1), Some(20));
    assert_eq!(cache.len(), 1);
}

#[test]
fn sieve_c10s_evicts_oldest_when_full_and_unvisited() {
    let mut cache: ConcurrentSieveCache<i32, i32, 1> = ConcurrentSieveCache::new(2);
    cache.insert(1, 10);
    cache.insert(2, 20);
    let evicted = cache.insert(3, 30);
    assert_eq!(evicted, Some((1, 10)));
    assert_eq!(cache.len(), 2);
    assert!(!cache.contains_key(&1));
    assert!(cache.contains_key(&2));
    assert!(cache.contains_key(&3));
}

#[test]
fn sieve_c10s_visited_entry_survives_first_pass() {
    let mut cache: ConcurrentSieveCache<i32, i32, 1> = ConcurrentSieveCache::new(2);
    cache.insert(1, 10);
    cache.insert(2, 20);
    cache.get(&1);
    let evicted = cache.insert(3, 30);
    assert_eq!(evicted, Some((2, 20)));
}

#[test]
fn sieve_c10s_all_visited_clears_bits_then_evicts() {
    let mut cache: ConcurrentSieveCache<i32, i32, 1> = ConcurrentSieveCache::new(2);
    cache.insert(1, 10);
    cache.insert(2, 20);
    cache.get(&1);
    cache.get(&2);
    let evicted = cache.insert(3, 30);
    assert_eq!(evicted, Some((1, 10)));
}

#[test]
fn sieve_c10s_total_capacity_is_respected_under_churn() {
    let cap: usize = 128;
    let mut cache: ConcurrentSieveCache<u64, u64, DEFAULT_SHARDS> = ConcurrentSieveCache::new(cap);
    for k in 0..10_000u64 {
        cache.insert(k, k);
        assert!(cache.len() <= cap);
    }
    assert_eq!(cache.len(), cap);
}

#[test]
fn sieve_c10s_churn_keeps_a_full_capacity_set() {
    let cap: usize = 128;
    let mut cache: ConcurrentSieveCache<u64, u64, DEFAULT_SHARDS> = ConcurrentSieveCache::new(cap);
    for k in 0..50_000u64 {
        cache.insert(k, k * 3);
    }
    assert_eq!(cache.len(), cap);
    let mut alive = 0;
    for k in 0..50_000u64 {
        if cache.get(&k) == Some(k * 3) {
            alive += 1;
        }
    }
    assert_eq!(alive, cap);
}

#[test]
fn sieve_c10s_per_shard_at_max_works() {
    let mut cache: ConcurrentSieveCache<u64, u64, 1> = ConcurrentSieveCache::new(64);
    for k in 0..200u64 {
        cache.insert(k, k * 11);
    }
    assert_eq!(cache.len(), 64);
}

#[test]
fn sieve_c10s_self_insert_self_get_visibility() {
    let mut cache: ConcurrentSieveCache<u64, u64, 8> = ConcurrentSieveCache::new(256);
    for k in 0..200u64 {
        cache.insert(k, k * 17);
        assert_eq!(cache.get(&k), Some(k * 17), "key {k}");
    }
}

#[test]
fn sieve_c10s_distinct_keys_full_per_shard_all_hit() {
    let mut cache: ConcurrentSieveCache<u64, u64, 1> = ConcurrentSieveCache::new(64);
    for k in 0..64u64 {
        cache.insert(k, k * 7);
    }
    for k in 0..64u64 {
        assert_eq!(cache.get(&k), Some(k * 7), "key {k}");
    }
}

#[test]
fn sieve_c10s_matches_sieve_orig_externally_1shard() {
    let cap = 64usize;
    let mut a = Reference::new(cap);
    let mut b: ConcurrentSieveCache<u64, u64, 1> = ConcurrentSieveCache::new(cap);
    for k in 0..10_000u64 {
        let key = (k.wrapping_mul(2654435761)) % 256;
        let _ = a.insert(key, key);
        let _ = b.insert(key, key);
    }
    for k in 0..256u64 {
        assert_eq!(a.get(k), b.get(&k), "key {k}");
    }
}

#[test]
fn sieve_c10s_matches_j8_externally_1shard() {
    let cap = 64usize;
    let mut a = Reference::new(cap);
    let mut b: ConcurrentSieveCache<u64, u64, 1> = ConcurrentSieveCache::new(cap);
    for k in 0..10_000u64 {
        let key = (k.wrapping_mul(2654435761)) % 256;
        let _ = a.insert(key, key);
        let _ = b.insert(key, key);
    }
    for k in 0..256u64 {
        assert_eq!(a.get(k), b.get(&k), "key {k}");
    }
}

#[test]
fn sieve_c10s_warm_up_to_steady_transition() {
    let mut cache: ConcurrentSieveCache<u64, u64, 1> = ConcurrentSieveCache::new(4);
    assert_eq!(cache.insert(1, 100), None);
    assert_eq!(cache.insert(2, 200), None);
    assert_eq!(cache.insert(3, 300), None);
    assert_eq!(cache.insert(4, 400), None);
    assert_eq!(cache.len(), 4);
    let evicted = cache.insert(5, 500);
    assert!(evicted.is_some());
    assert_eq!(cache.len(), 4);
    assert_eq!(cache.get(&5), Some(500));
}

#[test]
fn sieve_c10s_update_existing_key_sets_visited_like_oracle() {
    let mut cache: ConcurrentSieveCache<i32, i32, 1> = ConcurrentSieveCache::new(2);
    cache.insert(1, 10);
    cache.insert(2, 20);
    cache.insert(1, 11);
    let evicted = cache.insert(3, 30);
    assert_eq!(evicted, Some((2, 20)));
    assert!(cache.contains_key(&1));
    assert!(!cache.contains_key(&2));
    assert!(cache.contains_key(&3));
}

#[test]
fn sieve_c10s_reader_hit_does_not_modify_tag() {
    let mut cache: ConcurrentSieveCache<u64, u64, 1> = ConcurrentSieveCache::new(4);
    cache.insert(1, 100);
    let tag_before = cache.shard(0).tag(0);
    assert!(!cache.shard(0).marked(0));
    assert_eq!(cache.get(&1), Some(100));
    let tag_after = cache.shard(0).tag(0);
    assert_eq!(tag_before, tag_after);
    assert!(cache.shard(0).marked(0));
}

#[test]
fn sieve_c10s_works_with_non_default_shards() {
    let mut cache_2: ConcurrentSieveCache<u64, u64, 2> = ConcurrentSieveCache::new(64);
    let mut cache_16: ConcurrentSieveCache<u64, u64, 16> = ConcurrentSieveCache::new(64);
    for k in 0..1000u64 {
        cache_2.insert(k, k);
        cache_16.insert(k, k);
    }
    assert!(cache_2.len() <= 64);
    assert!(cache_16.len() <= 64);
    assert_eq!(cache_2.capacity(), 64);
    assert_eq!(cache_16.capacity(), 64);
}

#[test]
fn sieve_c10s_bit_layout_exclusivity_u64_u64() {
    let layout = Shard::<u64, u64>::new(1).layout();
    assert_eq!(layout.id_shift, 4);
    assert_eq!(layout.id_mask, 0x03f0);
    assert_eq!(layout.hash_mask, 0x7c0f);
    assert_eq!(layout.hash_mask.count_ones(), 9);
    assert_eq!(layout.scan_mask(), LIVE | layout.hash_mask);
    assert_eq!(LIVE | layout.id_mask | layout.hash_mask, 0xFFFF);
    assert_eq!(LIVE & layout.id_mask, 0);
    assert_eq!(LIVE & layout.hash_mask, 0);
    assert_eq!(layout.id_mask & layout.hash_mask, 0);
}

#[test]
fn compact_preserves_id_mapping() {
    let mut cache: ConcurrentSieveCache<u64, u64, 1> = ConcurrentSieveCache::new(4);
    for k in 0..40u64 {
        cache.insert(k, k * 13);
    }
    let mut alive = 0;
    for k in 0..40u64 {
        if cache.get(&k) == Some(k * 13) {
            alive += 1;
        }
    }
    assert_eq!(alive, 4);
}

#[test]
fn c10s_ids_stay_distinct_through_compaction() {
    let mut cache: ConcurrentSieveCache<u64, u64, 1> = ConcurrentSieveCache::new(8);
    for k in 0..500u64 {
        cache.insert(k, k);
        if k % 3 == 0 {
            cache.get(&(k / 2));
        }
        let shard = cache.shard(0);
        let mut ids = shard.live_ids();
        assert_eq!(ids.len(), shard.live_count());
        assert_eq!(ids.len(), shard.len());
        assert!(shard.slots_used() <= 16);
        ids.sort();
        ids.dedup();
        assert_eq!(ids.len(), shard.len());
    }
}

#[test]
fn c10s_two_keys_may_share_a_given_hash() {
    let mut shard: Shard<u64, u64> = Shard::new(4);
    let hash = 0xabcd_0000_0000_1234;
    assert_eq!(shard.insert(1, 10, hash), None);
    assert_eq!(shard.insert(2, 20, hash), None);
    assert_eq!(shard.get_by_hash(&1, hash), Some(10));
    assert_eq!(shard.get_by_hash(&2, hash), Some(20));
    assert_eq!(shard.get_by_hash(&3, hash), None);
    assert_eq!(shard.insert(1, 11, hash), None);
    assert_eq!(shard.get_by_hash(&1, hash), Some(11));
    assert_eq!(shard.len(), 2);
}

#[test]
fn c10s_keys_may_be_texts() {
    let mut cache: ConcurrentSieveCache<String, u64, 1> = ConcurrentSieveCache::new(4);
    for i in 0..4u64 {
        assert_eq!(cache.insert(format!("key {i}"), i), None);
    }
    assert_eq!(cache.get(&"key 0".to_string()), Some(0));
    assert_eq!(cache.get(&"key 4".to_string()), None);
    assert_eq!(cache.insert("key 4".to_string(), 4), Some(("key 1".to_string(), 1)));
    assert_eq!(cache.insert("key 0".to_string(), 9), None);
    assert_eq!(cache.get(&"key 0".to_string()), Some(9));
    assert_eq!(cache.len(), 4);
}
