//! The cache `sieve_r4`.

use senba_research::experimental::sieve_r4::{ConcurrentSieveCache, Shard};
use senba_research::tag::LIVE;

/// A queue of items with their marks, oldest first, and the item at which the
/// next search for a victim starts.
struct Reference {
    capacity: usize,
    items: Vec<(u64, u64, bool)>,
    hand: Option<u64>,
}

impl Reference {
    fn new(capacity: usize) -> Self {
        Reference { capacity, items: Vec::new(), hand: None }
    }

    fn place(&self, key: u64) -> Option<usize> {
        self.items.iter().position(|item| item.0 == key)
    }

    fn get(&mut self, key: u64) -> Option<u64> {
        let at = self.place(key)?;
        self.items[at].2 = true;
        Some(self.items[at].1)
    }

    fn insert(&mut self, key: u64, value: u64) -> Option<(u64, u64)> {
        if let Some(at) = self.place(key) {
            self.items[at].1 = value;
            self.items[at].2 = true;
            return None;
        }
        let evicted = if self.items.len() == self.capacity {
            let mut at = match self.hand {
                Some(key) => self.place(key).unwrap(),
                None => 0,
            };
            while self.items[at].2 {
                self.items[at].2 = false;
                at = if at + 1 < self.items.len() { at + 1 } else { 0 };
            }
            self.hand = self.items.get(at + 1).map(|item| item.0);
            let (k, v, _) = self.items.remove(at);
            Some((k, v))
        } else {
            None
        };
        self.items.push((key, value, false));
        evicted
    }
}

#[test]
fn sieve_r4_evicts_oldest_when_full_and_unvisited() {
    let mut cache: ConcurrentSieveCache<i32, i32, 1> = ConcurrentSieveCache::new(2);
    cache.insert(1, 10);
    cache.insert(2, 20);
    let evicted = cache.insert(3, 30);
    assert_eq!(evicted, Some((1, 10)));
    assert_eq!(cache.len(), 2);
    assert!(!cache.contains_key(&1));
    assert!(cache.contains_key(&2));
    assert!(cache.contains_key(&3));
}

#[test]
fn sieve_r4_visited_entry_survives_first_pass() {
    let mut cache: ConcurrentSieveCache<i32, i32, 1> = ConcurrentSieveCache::new(2);
    cache.insert(1, 10);
    cache.insert(2, 20);
    cache.get(&1);
    let evicted = cache.insert(3, 30);
    assert_eq!(evicted, Some((2, 20)));
}

#[test]
fn sieve_r4_all_visited_clears_bits_then_evicts() {
    let mut cache: ConcurrentSieveCache<i32, i32, 1> = ConcurrentSieveCache::new(2);
    cache.insert(1, 10);
    cache.insert(2, 20);
    cache.get(&1);
    cache.get(&2);
    let evicted = cache.insert(3, 30);
    assert_eq!(evicted, Some((1, 10)));
}

#[test]
fn sieve_r4_distinct_keys_full_per_shard_all_hit() {
    let mut cache: ConcurrentSieveCache<u64, u64, 1> = ConcurrentSieveCache::new(64);
    for k in 0..64u64 {
        cache.insert(k, k * 7);
    }
    for k in 0..64u64 {
        assert_eq!(cache.get(&k), Some(k * 7), "key {k}");
    }
}

#[test]
fn sieve_r4_matches_sieve_orig_externally_1shard() {
    let cap = 64usize;
    let mut a = Reference::new(cap);
    let mut b: ConcurrentSieveCache<u64, u64, 1> = ConcurrentSieveCache::new(cap);
    for k in 0..10_000u64 {
        let key = (k.wrapping_mul(2654435761)) % 256;
        let _ = a.insert(key, key);
        let _ = b.insert(key, key);
    }
    for k in 0..256u64 {
        assert_eq!(a.get(k), b.get(&k), "key {k}");
    }
}

#[test]
fn sieve_r4_warm_up_to_steady_transition() {
    let mut cache: ConcurrentSieveCache<u64, u64, 1> = ConcurrentSieveCache::new(4);
    assert_eq!(cache.insert(1, 100), None);
    assert_eq!(cache.insert(2, 200), None);
    assert_eq!(cache.insert(3, 300), None);
    assert_eq!(cache.insert(4, 400), None);
    assert_eq!(cache.len(), 4);
    let evicted = cache.insert(5, 500);
    assert!(evicted.is_some());
    assert_eq!(cache.len(), 4);
    assert_eq!(cache.get(&5), Some(500));
}

#[test]
fn sieve_r4_update_existing_key_sets_visited_like_oracle() {
    let mut cache: ConcurrentSieveCache<i32, i32, 1> = ConcurrentSieveCache::new(2);
    cache.insert(1, 10);
    cache.insert(2, 20);
    cache.insert(1, 11);
    let evicted = cache.insert(3, 30);
    assert_eq!(evicted, Some((2, 20)));
    assert!(cache.contains_key(&1));
    assert!(!cache.contains_key(&2));
    assert!(cache.contains_key(&3));
}

#[test]
fn sieve_r4_reader_hit_does_not_modify_tag() {
    let mut cache: ConcurrentSieveCache<u64, u64, 1> = ConcurrentSieveCache::new(4);
    cache.insert(1, 100);
    let tag_before = cache.shard(0).tag(0);
    assert!(!cache.shard(0).marked(0));
    assert_eq!(cache.get(&1), Some(100));
    let tag_after = cache.shard(0).tag(0);
    assert_eq!(tag_before, tag_after);
    assert!(cache.shard(0).marked(0));
}

#[test]
fn sieve_r4_update_via_path_a_preserves_id_and_tag() {
    let mut cache: ConcurrentSieveCache<u64, u64, 1> = ConcurrentSieveCache::new(4);
    cache.insert(1, 10);
    cache.insert(2, 20);
    cache.insert(3, 30);
    cache.insert(4, 40);
    let ids_before = cache.shard(0).live_ids();
    let tags_before: Vec<u16> = (0..4).map(|i| cache.shard(0).tag(i)).collect();
    cache.insert(2, 222);
    let ids_after = cache.shard(0).live_ids();
    let tags_after: Vec<u16> = (0..4).map(|i| cache.shard(0).tag(i)).collect();
    assert_eq!(ids_before, ids_after);
    assert_eq!(tags_before, tags_after);
    assert_eq!(cache.get(&2), Some(222));
}

#[test]
fn sieve_r4_path_a_increments_entry_version_by_two() {
    let mut cache: ConcurrentSieveCache<u64, u64, 1> = ConcurrentSieveCache::new(4);
    cache.insert(1, 10);
    let v0 = cache.shard(0).version(0);
    cache.insert(1, 100);
    let v1 = cache.shard(0).version(0);
    cache.insert(1, 1000);
    let v2 = cache.shard(0).version(0);
    assert_eq!(v1, v0.wrapping_add(2));
    assert_eq!(v2, v0.wrapping_add(4));
    assert_eq!(v1 & 1, 0);
    assert_eq!(v2 & 1, 0);
    assert_eq!(cache.get(&1), Some(1000));
}

#[test]
fn sieve_r4_evict_reuses_id_at_tail_position_and_bumps_epoch() {
    let mut cache: ConcurrentSieveCache<u64, u64, 1> = ConcurrentSieveCache::new(4);
    for k in 0..4u64 {
        cache.insert(k, k * 10);
    }
    let epoch_before = cache.shard(0).evictions();
    assert_eq!(cache.shard(0).live_count(), 4);
    assert_eq!(cache.shard(0).live_ids(), vec![0, 1, 2, 3]);
    let evicted = cache.insert(99, 9900);
    assert!(evicted.is_some());
    assert_eq!(cache.shard(0).live_count(), 4);
    let last_tag = cache.shard(0).tag(3);
    let last_id = cache.shard(0).layout().id_of(last_tag);
    assert_eq!(last_id, 0);
    let epoch_after = cache.shard(0).evictions();
    assert!(epoch_after > epoch_before);
}

#[test]
fn sieve_r4_path_a_does_not_evict() {
    let mut cache: ConcurrentSieveCache<u64, u64, 1> = ConcurrentSieveCache::new(4);
    for k in 0..4u64 {
        assert_eq!(cache.insert(k, k), None);
    }
    for _ in 0..100 {
        for k in 0..4u64 {
            assert_eq!(cache.insert(k, k * 1000), None);
        }
    }
    for k in 0..4u64 {
        assert_eq!(cache.get(&k), Some(k * 1000));
    }
}

#[test]
fn sieve_r4_bit_layout_exclusivity_u64_u64() {
    let layout = Shard::<u64, u64>::new(1).layout();
    assert_eq!(layout.id_shift, 5);
    assert_eq!(layout.id_mask, 0x07E0);
    assert_eq!(layout.hash_mask, 0x781F);
    assert_eq!(layout.hash_mask.count_ones(), 9);
    assert_eq!(layout.scan_mask(), LIVE | layout.hash_mask);
    assert_eq!(LIVE | layout.id_mask | layout.hash_mask, 0xFFFF);
    assert_eq!(LIVE & layout.id_mask, 0);
    assert_eq!(LIVE & layout.hash_mask, 0);
    assert_eq!(layout.id_mask & layout.hash_mask, 0);
}

#[test]
fn r4_values_that_own_memory() {
    let mut cache: ConcurrentSieveCache<u64, String, 1> = ConcurrentSieveCache::new(2);
    cache.insert(1, "one".to_string());
    cache.insert(2, "two".to_string());
    assert_eq!(cache.get(&1), Some("one".to_string()));
    assert_eq!(cache.insert(3, "three".to_string()), Some((2, "two".to_string())));
    assert_eq!(cache.get(&2), None);
}

#[test]
fn r4_the_id_of_the_victim_moves_to_the_back() {
    let mut cache: ConcurrentSieveCache<u64, u64, 1> = ConcurrentSieveCache::new(4);
    for k in 0..4u64 {
        cache.insert(k, k);
    }
    assert_eq!(cache.insert(4, 4), Some((0, 0)));
    assert_eq!(cache.shard(0).live_ids(), vec![1, 2, 3, 0]);
    assert_eq!(cache.insert(5, 5), Some((1, 1)));
    assert_eq!(cache.shard(0).live_ids(), vec![2, 3, 0, 1]);
}

#[test]
fn r4_two_keys_may_share_a_given_hash() {
    let mut shard: Shard<u64, u64> = Shard::new(4);
    let hash = 0xabcd_0000_0000_1234;
    assert_eq!(shard.insert(1, 10, hash), None);
    assert_eq!(shard.insert(2, 20, hash), None);
    assert_eq!(shard.get_by_hash(&1, hash), Some(10));
    assert_eq!(shard.get_by_hash(&2, hash), Some(20));
    assert_eq!(shard.get_by_hash(&3, hash), None);
    assert_eq!(shard.insert(1, 11, hash), None);
    assert_eq!(shard.get_by_hash(&1, hash), Some(11));
    assert_eq!(shard.len(), 2);
}

#[test]
fn r4_keys_may_be_texts() {
    let mut cache: ConcurrentSieveCache<String, u64, 1> = ConcurrentSieveCache::new(4);
    for i in 0..4u64 {
        assert_eq!(cache.insert(format!("key {i}"), i), None);
    }
    assert_eq!(cache.get(&"key 0".to_string()), Some(0));
    assert_eq!(cache.get(&"key 4".to_string()), None);
    assert_eq!(cache.insert("key 4".to_string(), 4), Some(("key 1".to_string(), 1)));
    assert_eq!(cache.insert("key 0".to_string(), 9), None);
    assert_eq!(cache.get(&"key 0".to_string()), Some(9));
    assert_eq!(cache.len(), 4);
}
