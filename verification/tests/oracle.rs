//! The caches against a plain queue, and against each other.

use senba_research::experimental::sieve_c10s::ConcurrentSieveCache as C10s;
use senba_research::experimental::sieve_c16s::ConcurrentSieveCache as C16s;
use senba_research::experimental::sieve_c17s::ConcurrentSieveCache as C17s;
use senba_research::experimental::sieve_c9::ConcurrentSieveCache as C9;
use senba_research::experimental::sieve_r3::ConcurrentSieveR3 as R3;
use senba_research::experimental::sieve_r4::ConcurrentSieveCache as R4;
use senba_research::experimental::{sieve_v0, sieve_v3};
use senba_research::harness::replay::{drive, eviction_stream};

/// A queue of items with their marks, oldest first, and the place at which the
/// next search for a victim starts.
struct Reference {
    capacity: usize,
    items: Vec<(u64, u64, bool)>,
    hand: usize,
}

impl Reference {
    fn new(capacity: usize) -> Self {
        Reference { capacity, items: Vec::new(), hand: 0 }
    }

    fn place(&self, key: u64) -> Option<usize> {
        self.items.iter().position(|item| item.0 == key)
    }

    fn get(&mut self, key: u64) -> Option<u64> {
        let at = self.place(key)?;
        self.items[at].2 = true;
        Some(self.items[at].1)
    }

    fn insert(&mut self, key: u64, value: u64) -> Option<(u64, u64)> {
        if let Some(at) = self.place(key) {
            self.items[at].1 = value;
            self.items[at].2 = true;
            return None;
        }
        let evicted = if self.items.len() == self.capacity {
            let mut at = self.hand;
            while self.items[at].2 {
                self.items[at].2 = false;
                at = if at + 1 < self.items.len() { at + 1 } else { 0 };
            }
            self.hand = if at + 1 < self.items.len() { at } else { 0 };
            let (k, v, _) = self.items.remove(at);
            Some((k, v))
        } else {
            None
        };
        self.items.push((key, value, false));
        evicted
    }

    fn remove(&mut self, key: u64) -> Option<u64> {
        let at = self.place(key)?;
        let value = self.items.remove(at).1;
        if self.hand >= self.items.len() {
            self.hand = 0;
        }
        Some(value)
    }
}

fn reference_stream(trace: &[u64], cap: usize) -> Vec<Option<(u64, u64)>> {
    let mut c = Reference::new(cap);
    trace.iter().map(|&k| c.insert(k, k)).collect()
}

/// Keys of which the small ones are frequent.
fn skewed(len: usize, keys: u64, seed: u64) -> Vec<u64> {
    let mut state = seed.wrapping_mul(0x9E37_79B9_7F4A_7C15) | 1;
    (0..len)
        .map(|_| {
            state ^= state << 13;
            state ^= state >> 7;
            state ^= state << 17;
            let u = (state >> 11) as f64 / (1u64 << 53) as f64;
            ((keys as f64).powf(u) as u64) % keys
        })
        .collect()
}

#[test]
fn v0_diverges_when_victim_is_newest_entry() {
    let trace: Vec<u64> = vec![1, 2, 3, 1, 2, 4, 5];
    let v0 = eviction_stream::<sieve_v0::SieveCache<u64, u64>>(&trace, 3);
    assert_eq!(reference_stream(&trace, 3), v0);
    assert_eq!(v0, vec![None, None, None, None, None, Some((3, 3)), Some((1, 1))]);
}

#[test]
fn v3_diverges_when_victim_is_newest_entry() {
    let trace: Vec<u64> = vec![1, 2, 3, 1, 2, 4, 5];
    let v3 = eviction_stream::<sieve_v3::SieveCache<u64, u64>>(&trace, 3);
    assert_eq!(reference_stream(&trace, 3), v3);
}

#[test]
fn v0_and_v3_match_the_reference_on_skewed_keys() {
    for (cap, seed) in [(64usize, 1u64), (128, 2), (256, 3), (1024, 4)] {
        let trace = skewed(50_000, 10_000, seed);
        let want = reference_stream(&trace, cap);
        assert!(want == eviction_stream::<sieve_v0::SieveCache<u64, u64>>(&trace, cap), "v0 {cap}");
        assert!(want == eviction_stream::<sieve_v3::SieveCache<u64, u64>>(&trace, cap), "v3 {cap}");
    }
}

#[test]
fn one_shard_caches_match_the_reference_on_skewed_keys() {
    for (cap, seed) in [(16usize, 5u64), (32, 6), (64, 7)] {
        let trace = skewed(50_000, 1_000, seed);
        let want = reference_stream(&trace, cap);
        let mut c9: C9<u64, u64> = C9::with_shards(cap, 1);
        let mut c10s: C10s<u64, u64, 1> = C10s::new(cap);
        let mut c16s: C16s<u64, u64, 1> = C16s::new(cap);
        let mut c17s: C17s<u64, u64, 1> = C17s::new(cap);
        let mut r3: R3<u64, u64, 1> = R3::new(cap);
        let mut r4: R4<u64, u64, 1> = R4::new(cap);
        for (i, &k) in trace.iter().enumerate() {
            assert_eq!(want[i], c9.insert(k, k), "c9 at {i}");
            assert_eq!(want[i], c10s.insert(k, k), "c10s at {i}");
            assert_eq!(want[i], c16s.insert(k, k), "c16s at {i}");
            assert_eq!(want[i], c17s.insert(k, k), "c17s at {i}");
            assert_eq!(want[i], r3.insert(k, k), "r3 at {i}");
            assert_eq!(want[i], r4.insert(k, k), "r4 at {i}");
        }
    }
}

#[test]
fn matches_sieve_orig_per_slot() {
    let cap = 32usize;
    let mut oracle = Reference::new(cap);
    let mut c9: C9<u64, u64> = C9::with_shards(cap, 1);
    let mut r3: R3<u64, u64, 1> = R3::new(cap);
    let mut r4: R4<u64, u64, 1> = R4::new(cap);
    for k in 0..5_000u64 {
        let key = (k.wrapping_mul(2654435761)) % 128;
        oracle.insert(key, key);
        c9.insert(key, key);
        r3.insert(key, key);
        r4.insert(key, key);
    }
    for k in 0..128u64 {
        let g = oracle.get(k);
        assert_eq!(c9.get(&k), g, "key {k}");
        assert_eq!(r3.get(&k), g, "key {k}");
        assert_eq!(r4.get(&k), g, "key {k}");
    }
}

#[test]
fn remove_during_churn_oracle_match() {
    let cap = 32usize;
    let mut a = Reference::new(cap);
    let mut b: R3<u64, u64, 1> = R3::new(cap);
    for k in 0..3_000u64 {
        let key = (k.wrapping_mul(2654435761)) % 128;
        assert_eq!(a.insert(key, key), b.insert(key, key), "step {k}");
        if k % 5 == 0 {
            let rk = (k.wrapping_mul(11400714819323198485)) % 128;
            assert_eq!(a.remove(rk), b.remove(&rk), "step {k}");
        }
    }
    for k in 0..128u64 {
        assert_eq!(a.get(k), b.get(&k), "key {k}");
    }
}

#[test]
fn find_avx2_low_fill_matches_oracle() {
    let cap = 64usize;
    let mut a = Reference::new(cap);
    let mut b: C9<u64, u64> = C9::with_shards(cap, 1);
    for k in 0..8u64 {
        a.insert(k, k * 7);
        b.insert(k, k * 7);
    }
    for k in 0..256u64 {
        assert_eq!(a.get(k), b.get(&k), "key {k}");
    }
}

#[test]
fn final_contents_match_sieve_orig_single_shard_zipf1() {
    for cap in [16usize, 32, 64] {
        let mut oracle = Reference::new(cap);
        let mut cc: C17s<u64, u64, 1> = C17s::new(cap);
        for i in 0..20_000u64 {
            let key = (i.wrapping_mul(2654435761)) % (cap as u64 * 4);
            oracle.insert(key, key);
            cc.insert(key, key);
        }
        for k in 0..cap as u64 * 4 {
            assert_eq!(oracle.get(k), cc.get(&k), "cap {cap} key {k}");
        }
    }
}

#[test]
fn final_contents_match_sieve_orig_single_shard_high_skew() {
    for cap in [16usize, 32, 64] {
        let mut oracle = Reference::new(cap);
        let mut cc: C17s<u64, u64, 1> = C17s::new(cap);
        let universe = (cap as u64) / 2;
        for i in 0..10_000u64 {
            let key = (i.wrapping_mul(2654435761)) % universe.max(1);
            oracle.insert(key, key);
            cc.insert(key, key);
            if i % 3 == 0 {
                let g = (i.wrapping_mul(11400714819323198485)) % universe.max(1);
                let _ = oracle.get(g);
                let _ = cc.get(&g);
            }
        }
        for k in 0..universe {
            assert_eq!(oracle.get(k), cc.get(&k), "cap {cap} key {k}");
        }
    }
}

#[test]
fn remove_during_churn_matches_oracle() {
    let cap = 64usize;
    let mut oracle = Reference::new(cap);
    let mut cc: R3<u64, u64, 1> = R3::new(cap);
    for i in 0..3_000u64 {
        let key = (i.wrapping_mul(2654435761)) % 256;
        oracle.insert(key, key);
        cc.insert(key, key);
        if i % 5 == 0 {
            let rk = (i.wrapping_mul(11400714819323198485)) % 256;
            assert_eq!(oracle.remove(rk), cc.remove(&rk), "step {i} key {rk}");
        }
    }
    for k in 0..256u64 {
        assert_eq!(oracle.get(k), cc.get(&k), "key {k}");
    }
}

#[test]
fn the_hand_keeps_its_place_on_a_removal_before_it() {
    let mut a = Reference::new(4);
    let mut b: R3<u64, u64, 1> = R3::new(4);
    for k in 0..4u64 {
        a.insert(k, k);
        b.insert(k, k);
    }
    a.get(0);
    assert_eq!(b.get(&0), Some(0));
    assert_eq!(b.insert(4, 4), Some((1, 1)));
    assert_eq!(a.insert(4, 4), Some((1, 1)));
    assert_eq!(b.remove(&0), Some(0));
    assert_eq!(a.remove(0), Some(0));
    assert_eq!(b.insert(5, 5), None);
    assert_eq!(a.insert(5, 5), None);
    assert_eq!(b.insert(6, 6), Some((3, 3)));
    assert_eq!(a.insert(6, 6), Some((3, 3)));
}

#[test]
fn marks_and_removals_match_the_reference() {
    for cap in [4usize, 16, 64] {
        let mut a = Reference::new(cap);
        let mut b: R3<u64, u64, 1> = R3::new(cap);
        let trace = skewed(20_000, 4 * cap as u64, cap as u64);
        for (i, &k) in trace.iter().enumerate() {
            match i % 7 {
                0 | 3 => assert_eq!(a.get(k), b.get(&k), "step {i}"),
                5 => assert_eq!(a.remove(k), b.remove(&k), "step {i}"),
                _ => assert_eq!(a.insert(k, i as u64), b.insert(k, i as u64), "step {i}"),
            }
        }
    }
}

#[test]
fn replays_count_the_same_in_every_cache() {
    let trace = skewed(20_000, 500, 9);
    let a = drive::<sieve_v0::SieveCache<u64, u64>>(&trace, 50);
    let b = drive::<sieve_v3::SieveCache<u64, u64>>(&trace, 50);
    assert_eq!(a, b);
    assert_eq!(a.hits + a.misses, 20_000);
    assert_eq!(a.misses - a.evictions, 50);

    let mut q = Reference::new(50);
    let mut hits = 0;
    for &k in &trace {
        if q.get(k).is_some() {
            hits += 1;
        } else {
            q.insert(k, k);
        }
    }
    assert_eq!(a.hits, hits);
}
