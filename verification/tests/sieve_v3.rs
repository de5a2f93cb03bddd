//! The cache `sieve_v3` and its scan.

use senba_research::bitset::{bit_range_mask, BitSet};
use senba_research::experimental::sieve_v3::{find_victim_in_range, SieveCache};

#[test]
fn bit_range_mask_basics() {
    assert_eq!(bit_range_mask(0, 0), 0);
    assert_eq!(bit_range_mask(0, 64), !0u64);
    assert_eq!(bit_range_mask(8, 16), 0xFF00);
}

#[test]
fn scan_finds_victim_and_first_live() {
    let mut visited = BitSet::new(8);
    let tombstone = BitSet::new(8);
    for i in 0..3 {
        visited.set(i);
    }
    let r = find_victim_in_range(&mut visited, &tombstone, 0, 8);
    assert_eq!(r.victim, Some(3));
    assert_eq!(r.first_live, Some(3));
    for i in 0..3 {
        assert!(!visited.get(i));
    }
}

#[test]
fn scan_all_visited_returns_none_and_clears() {
    let mut visited = BitSet::new(40);
    let tombstone = BitSet::new(40);
    for i in 0..30 {
        visited.set(i);
    }
    let r = find_victim_in_range(&mut visited, &tombstone, 0, 30);
    assert_eq!(r.victim, None);
    assert_eq!(r.first_live, Some(0));
    for i in 0..30 {
        assert!(!visited.get(i));
    }
}

#[test]
fn scan_skips_tombstones_for_first_live() {
    let mut visited = BitSet::new(20);
    let mut tombstone = BitSet::new(20);
    for i in 0..3 {
        tombstone.set(i);
    }
    let r = find_victim_in_range(&mut visited, &tombstone, 0, 10);
    assert_eq!(r.victim, Some(3));
    assert_eq!(r.first_live, Some(3));
}

#[test]
fn scan_remembers_the_first_live_slot_of_an_earlier_word() {
    let mut visited = BitSet::new(192);
    let mut tombstone = BitSet::new(192);
    tombstone.set(5);
    for i in 6..100 {
        visited.set(i);
    }
    let r = find_victim_in_range(&mut visited, &tombstone, 5, 150);
    assert_eq!(r.victim, Some(100));
    assert_eq!(r.first_live, Some(6));
    assert!((6..100).all(|i| !visited.get(i)));
}

#[test]
fn sieve_v3_cache_initially_empty() {
    let cache: SieveCache<i32, i32> = SieveCache::new(4);
    assert_eq!(cache.len(), 0);
    assert_eq!(cache.capacity(), 4);
}

#[test]
fn sieve_v3_insert_then_get() {
    let mut cache: SieveCache<i32, &str> = SieveCache::new(4);
    assert!(cache.insert(1, "a").is_none());
    assert_eq!(cache.get(&1), Some(&"a"));
    assert_eq!(cache.len(), 1);
}

#[test]
fn sieve_v3_evicts_oldest_when_full_and_unvisited() {
    let mut cache: SieveCache<i32, &str> = SieveCache::new(2);
    cache.insert(1, "a");
    cache.insert(2, "b");
    let evicted = cache.insert(3, "c");
    assert_eq!(evicted, Some((1, "a")));
    assert_eq!(cache.len(), 2);
    assert!(!cache.contains_key(&1));
}

#[test]
fn sieve_v3_visited_entry_survives_first_pass() {
    let mut cache: SieveCache<i32, &str> = SieveCache::new(2);
    cache.insert(1, "a");
    cache.insert(2, "b");
    cache.get(&1);
    let evicted = cache.insert(3, "c");
    assert_eq!(evicted, Some((2, "b")));
}

#[test]
fn sieve_v3_all_visited_clears_bits_then_evicts() {
    let mut cache: SieveCache<i32, &str> = SieveCache::new(2);
    cache.insert(1, "a");
    cache.insert(2, "b");
    cache.get(&1);
    cache.get(&2);
    let evicted = cache.insert(3, "c");
    assert_eq!(evicted, Some((1, "a")));
}

#[test]
fn sieve_v3_churn_triggers_compaction_and_keeps_recent() {
    let mut cache: SieveCache<i32, i32> = SieveCache::new(3);
    for i in 0..100 {
        cache.insert(i, i * 10);
        assert!(cache.len() <= cache.capacity());
    }
    assert_eq!(cache.len(), 3);
    for i in 97..100 {
        assert_eq!(cache.get(&i), Some(&(i * 10)));
    }
    for i in 0..97 {
        assert!(!cache.contains_key(&i));
    }
}

#[test]
fn sieve_v3_reinsert_after_eviction_works() {
    let mut cache: SieveCache<i32, &str> = SieveCache::new(2);
    cache.insert(1, "a");
    cache.insert(2, "b");
    cache.insert(3, "c");
    assert!(!cache.contains_key(&1));
    let evicted = cache.insert(1, "a2");
    assert!(evicted.is_some());
    assert_eq!(cache.get(&1), Some(&"a2"));
    assert_eq!(cache.len(), 2);
}
