//! Numbers for threads, and key streams for one shard.

use senba_research::experimental::routing_hint::{routing_hint, RoutingHints};
use senba_research::experimental::tls_id::{current_tls_id, TlsIds};
use senba_research::single_shard::adapters::{C10sSingleShard, C12sSingleShard, C9SingleShard};
use senba_research::single_shard::workload::{AdversarialHot, UniformDisjoint};
use senba_research::single_shard::SingleShard;

#[test]
fn same_thread_returns_same_hint() {
    let mut all = RoutingHints::new();
    let mut cell = u32::MAX;
    let a = routing_hint(&mut cell, &mut all);
    let b = routing_hint(&mut cell, &mut all);
    assert_eq!(a, b);
}

#[test]
fn hints_of_several_cells_are_distinct() {
    let mut all = RoutingHints::new();
    let mut hints: Vec<u32> = Vec::new();
    for _ in 0..8 {
        let mut cell = u32::MAX;
        hints.push(routing_hint(&mut cell, &mut all));
    }
    hints.sort();
    hints.dedup();
    assert_eq!(hints.len(), 8);
}

#[test]
fn same_thread_returns_same_id() {
    let mut all = TlsIds::new();
    let mut cell = u32::MAX;
    let a = current_tls_id(&mut cell, &mut all);
    let b = current_tls_id(&mut cell, &mut all);
    assert_eq!(a, b);
}

#[test]
fn ids_of_several_cells_are_distinct() {
    let mut all = TlsIds::new();
    let mut ids: Vec<u32> = Vec::new();
    for _ in 0..8 {
        let mut cell = u32::MAX;
        ids.push(current_tls_id(&mut cell, &mut all));
    }
    ids.sort();
    ids.dedup();
    assert_eq!(ids.len(), 8);
}

#[test]
fn adversarial_hot_returns_zero() {
    let mut it = AdversarialHot;
    for _ in 0..100 {
        assert_eq!(it.next(), Some(0));
    }
}

#[test]
fn uniform_disjoint_threads_have_no_overlap() {
    let threads = 4u64;
    let total = 100u64;
    let mut seen = std::collections::HashSet::<u64>::new();
    for tid in 0..threads {
        let mut it = UniformDisjoint::new(tid, threads, total);
        let span = total.div_ceil(threads);
        for _ in 0..span {
            let k = it.next().unwrap();
            assert!(seen.insert(k), "key {k} twice");
        }
    }
}

#[test]
fn uniform_disjoint_cycles_within_range() {
    let mut it = UniformDisjoint::new(0, 4, 100);
    let span = 100u64.div_ceil(4);
    let first: Vec<_> = (0..span).map(|_| it.next().unwrap()).collect();
    let second: Vec<_> = (0..span).map(|_| it.next().unwrap()).collect();
    assert_eq!(first, second);
}

#[test]
fn uniform_disjoint_ranges_are_equally_long() {
    let mut it = UniformDisjoint::new(2, 4, 5);
    let keys: Vec<_> = (0..3).map(|_| it.next()).collect();
    assert_eq!(keys, vec![Some(4), Some(5), Some(4)]);
    let mut it = UniformDisjoint::new(2, 3, 7);
    let keys: Vec<_> = (0..4).map(|_| it.next().unwrap()).collect();
    assert_eq!(keys, vec![6, 7, 8, 6]);
}

#[test]
fn uniform_disjoint_beyond_the_keys_keeps_its_range() {
    let mut it = UniformDisjoint::new(3, 4, 2);
    let keys: Vec<_> = (0..3).map(|_| it.next().unwrap()).collect();
    assert_eq!(keys, vec![3, 3, 3]);
}

#[test]
fn c9_single_shard_basic() {
    let mut s = C9SingleShard::<u64, u64>::new(64);
    assert_eq!(s.capacity(), 64);
    assert!(!SingleShard::insert(&mut s, 1u64, 10u64));
    assert_eq!(SingleShard::get(&mut s, &1), Some(10u64));
    assert_eq!(SingleShard::get(&mut s, &999u64), None);
}

#[test]
fn c10s_single_shard_reads_through_a_closure() {
    let mut s = C10sSingleShard::<u64, u64>::new(64);
    assert_eq!(s.capacity(), 64);
    assert_eq!(s.len(), 0);
    assert!(s.is_empty());
    assert!(!s.insert(1, 10));
    assert_eq!(s.len(), 1);
    assert_eq!(s.get(&1), Some(10));
    assert_eq!(s.read(&1, |v| *v * 2), Some(20));
    assert_eq!(s.read(&999, |v| *v * 2), None);
}

#[test]
fn c12s_single_shard_reports_an_eviction() {
    let mut s = C12sSingleShard::<u64, u64>::new(4);
    for k in 0..4u64 {
        assert!(!s.insert(k, k * 10));
    }
    assert_eq!(s.len(), 4);
    assert!(s.insert(100, 1000));
    assert_eq!(s.len(), 4);
    assert_eq!(s.get(&100), Some(1000));
}
