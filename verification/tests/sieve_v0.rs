//! The cache `sieve_v0` and its bit sets.

use senba_research::bitset::BitSet;
use senba_research::experimental::sieve_v0::SieveCache;

#[test]
fn initially_empty() {
    let bs = BitSet::new(128);
    assert!((0..128).all(|i| !bs.get(i)));
}

#[test]
fn set_isolates_target_bit() {
    let mut bs = BitSet::new(64);
    bs.set(7);
    assert!(bs.get(7) && !bs.get(6) && !bs.get(8));
}

#[test]
fn set_spans_word_boundary() {
    let mut bs = BitSet::new(128);
    bs.set(63);
    bs.set(64);
    assert!(bs.get(63) && bs.get(64) && !bs.get(62) && !bs.get(65));
}

#[test]
fn multiple_sets_are_independent() {
    let mut bs = BitSet::new(256);
    for i in [0, 1, 63, 64, 127, 255] {
        bs.set(i);
    }
    for i in [0, 1, 63, 64, 127, 255] {
        assert!(bs.get(i), "bit {i}");
    }
}

#[test]
fn clear_resets_bit() {
    let mut bs = BitSet::new(64);
    bs.set(7);
    bs.clear(7);
    assert!(!bs.get(7));
}

#[test]
fn clear_isolates_target_bit() {
    let mut bs = BitSet::new(64);
    bs.set(6);
    bs.set(7);
    bs.set(8);
    bs.clear(7);
    assert!(!bs.get(7) && bs.get(6) && bs.get(8));
}

#[test]
fn clear_spans_word_boundary() {
    let mut bs = BitSet::new(128);
    bs.set(63);
    bs.set(64);
    bs.clear(63);
    assert!(!bs.get(63) && bs.get(64));
}

#[test]
fn clear_already_unset_is_noop() {
    let mut bs = BitSet::new(64);
    bs.set(5);
    bs.clear(3);
    assert!(bs.get(5) && !bs.get(3));
}

#[test]
fn sieve_v0_cache_initially_empty() {
    let cache: SieveCache<i32, i32> = SieveCache::new(4);
    assert_eq!(cache.len(), 0);
    assert_eq!(cache.capacity(), 4);
}

#[test]
fn sieve_v0_insert_then_get() {
    let mut cache: SieveCache<i32, &str> = SieveCache::new(4);
    assert!(cache.insert(1, "a").is_none());
    assert_eq!(cache.get(&1), Some(&"a"));
    assert_eq!(cache.len(), 1);
}

#[test]
fn sieve_v0_get_missing_returns_none() {
    let mut cache: SieveCache<i32, &str> = SieveCache::new(4);
    cache.insert(1, "a");
    assert_eq!(cache.get(&2), None);
}

#[test]
fn sieve_v0_contains_key_reflects_insertions() {
    let mut cache: SieveCache<i32, i32> = SieveCache::new(4);
    assert!(!cache.contains_key(&1));
    cache.insert(1, 10);
    assert!(cache.contains_key(&1));
    assert!(!cache.contains_key(&2));
}

#[test]
fn sieve_v0_insert_existing_key_updates_value() {
    let mut cache: SieveCache<i32, &str> = SieveCache::new(4);
    cache.insert(1, "a");
    assert!(cache.insert(1, "b").is_none());
    assert_eq!(cache.get(&1), Some(&"b"));
    assert_eq!(cache.len(), 1);
}

#[test]
fn insert_under_capacity_does_not_evict() {
    let mut cache: SieveCache<i32, i32> = SieveCache::new(3);
    assert!(cache.insert(1, 10).is_none());
    assert!(cache.insert(2, 20).is_none());
    assert!(cache.insert(3, 30).is_none());
    assert_eq!(cache.len(), 3);
}

#[test]
fn sieve_v0_evicts_oldest_when_full_and_unvisited() {
    let mut cache: SieveCache<i32, &str> = SieveCache::new(2);
    cache.insert(1, "a");
    cache.insert(2, "b");
    let evicted = cache.insert(3, "c");
    assert_eq!(evicted, Some((1, "a")));
    assert_eq!(cache.len(), 2);
    assert!(!cache.contains_key(&1));
    assert!(cache.contains_key(&2));
    assert!(cache.contains_key(&3));
}

#[test]
fn sieve_v0_visited_entry_survives_first_pass() {
    let mut cache: SieveCache<i32, &str> = SieveCache::new(2);
    cache.insert(1, "a");
    cache.insert(2, "b");
    cache.get(&1);
    let evicted = cache.insert(3, "c");
    assert_eq!(evicted, Some((2, "b")));
    assert!(cache.contains_key(&1));
    assert!(!cache.contains_key(&2));
    assert!(cache.contains_key(&3));
}

#[test]
fn sieve_v0_all_visited_clears_bits_then_evicts() {
    let mut cache: SieveCache<i32, &str> = SieveCache::new(2);
    cache.insert(1, "a");
    cache.insert(2, "b");
    cache.get(&1);
    cache.get(&2);
    let evicted = cache.insert(3, "c");
    assert_eq!(evicted, Some((1, "a")));
    assert!(!cache.contains_key(&1));
    assert!(cache.contains_key(&2));
    assert!(cache.contains_key(&3));
}

#[test]
fn sieve_v0_churn_triggers_compaction_and_keeps_recent() {
    let mut cache: SieveCache<i32, i32> = SieveCache::new(3);
    for i in 0..100 {
        cache.insert(i, i * 10);
        assert!(cache.len() <= cache.capacity());
    }
    assert_eq!(cache.len(), 3);
    for i in 97..100 {
        assert_eq!(cache.get(&i), Some(&(i * 10)));
    }
    for i in 0..97 {
        assert!(!cache.contains_key(&i));
    }
}

#[test]
fn sieve_v0_reinsert_after_eviction_works() {
    let mut cache: SieveCache<i32, &str> = SieveCache::new(2);
    cache.insert(1, "a");
    cache.insert(2, "b");
    cache.insert(3, "c");
    assert!(!cache.contains_key(&1));
    let evicted = cache.insert(1, "a2");
    assert!(evicted.is_some());
    assert_eq!(cache.get(&1), Some(&"a2"));
    assert_eq!(cache.len(), 2);
}
