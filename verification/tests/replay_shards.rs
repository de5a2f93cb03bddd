//! Traces through caches of shards.

use senba_research::experimental::sieve_c12s;
use senba_research::experimental::sieve_c17s;
use senba_research::experimental::sieve_c9;
use senba_research::experimental::sieve_v0::SieveCache;
use senba_research::harness::replay::{drive, Tally};
use senba_research::harness::replay_shards::{replay_shards, replay_shards_places};
use senba_research::shard::CacheShard;
use senba_research::sharded::ShardArray;

fn mixed_trace(len: u64) -> Vec<u64> {
    let mut x: u64 = 88172645463325252;
    let mut trace = Vec::new();
    for _ in 0..len {
        x ^= x << 13;
        x ^= x >> 7;
        x ^= x << 17;
        trace.push(x % 23 * (x % 5));
    }
    trace
}

#[test]
fn one_shard_replays_as_one_queue() {
    let trace = mixed_trace(4000);
    for cap in [1usize, 2, 7, 16, 64] {
        let expected: Tally = drive::<SieveCache<u64, u64>>(&trace, cap);
        let mut c9 = ShardArray::<sieve_c9::Shard<u64, u64>>::new(cap, 1);
        assert_eq!(replay_shards(&mut c9, &trace), expected);
        let mut c17s = ShardArray::<sieve_c17s::Shard<u64, u64>>::new(cap, 1);
        assert_eq!(replay_shards(&mut c17s, &trace), expected);
    }
}

#[test]
fn replay_counts_over_shards() {
    let trace: Vec<u64> = (0..8).chain(0..8).collect();
    let mut cache = ShardArray::<sieve_c9::Shard<u64, u64>>::new(256, 4);
    assert_eq!(replay_shards(&mut cache, &trace), Tally { hits: 8, misses: 8, evictions: 0 });
    assert_eq!(replay_shards(&mut cache, &trace), Tally { hits: 16, misses: 0, evictions: 0 });
    assert_eq!(cache.len(), 8);
    let none: Vec<u64> = Vec::new();
    assert_eq!(replay_shards(&mut cache, &none), Tally { hits: 0, misses: 0, evictions: 0 });
}

#[test]
fn a_shard_that_fills_gaps_need_not_keep_the_order() {
    let trace: Vec<u64> = vec![1, 2, 3, 1, 2, 4, 5, 1, 6, 2, 1, 4];
    let mut cache = ShardArray::<sieve_c12s::Shard<u64, u64>>::new(3, 1);
    let tally = replay_shards(&mut cache, &trace);
    assert_eq!(tally.hits + tally.misses, 12);
    assert_eq!(tally.misses - tally.evictions, 3);
    assert_eq!(cache.len(), 3);
}

#[test]
fn shards_come_out_with_what_they_hold() {
    let trace: Vec<u64> = (0..100).collect();
    let mut cache = ShardArray::<sieve_c9::Shard<u64, u64>>::new(130, 4);
    replay_shards(&mut cache, &trace);
    let len = cache.len();
    let shards = cache.into_shards();
    assert_eq!(shards.len(), 4);
    let capacities: Vec<usize> = shards.iter().map(|s| s.shard_capacity()).collect();
    assert_eq!(capacities, vec![33, 33, 32, 32]);
    assert_eq!(shards.iter().map(|s| s.shard_len()).sum::<usize>(), len);
}

#[test]
fn text_keys_replay_through_shards() {
    let numbers = mixed_trace(4000);
    let texts: Vec<String> = numbers.iter().map(|n| format!("k{n}")).collect();
    for cap in [1usize, 7, 64] {
        let mut cache = ShardArray::<sieve_c9::Shard<String, u64>>::new(cap, 1);
        assert_eq!(replay_shards_places(&mut cache, &texts), drive::<SieveCache<u64, u64>>(&numbers, cap));
    }
    let mut cache = ShardArray::<sieve_c9::Shard<String, u64>>::new(256, 4);
    let t = replay_shards_places(&mut cache, &texts);
    let different: std::collections::HashSet<&String> = texts.iter().collect();
    assert_eq!(t.misses, different.len() as u64);
    assert_eq!(t.hits + t.misses, 4000);
    assert_eq!(t.evictions, 0);
}
