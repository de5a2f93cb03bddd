//! Scenarios that every [`ConcurrentCacheImpl`] goes through.
//!
//! Each makes a cache of the given type and says whether the cache did as it should; for
//! most of them the contract of the trait already fixes the answer.
use crate::experimental::ConcurrentCacheImpl;
use crate::totals::{lemma_sum_push, sum};
use vstd::prelude::*;

verus! {

pub const TEST_CAP_SMALL: usize = 32;

pub const TEST_CAP_CHURN: usize = 128;

pub const TEST_CAP_VISIBILITY: usize = 256;

/// A new cache is empty and has the capacity that was asked for.
pub fn cache_initially_empty<C: ConcurrentCacheImpl<u64, u64>>() -> (ok: bool)
    requires
        C::admits(TEST_CAP_SMALL),
    ensures
        ok,
{
    let cache: C = C::with_capacity(TEST_CAP_SMALL);
    cache.len() == 0 && cache.capacity() == TEST_CAP_SMALL && cache.is_empty()
}

/// What was inserted is found.
pub fn insert_then_get<C: ConcurrentCacheImpl<u64, u64>>() -> (ok: bool)
    requires
        C::admits(TEST_CAP_SMALL),
    ensures
        ok,
{
    let mut cache: C = C::with_capacity(TEST_CAP_SMALL);
    let ghost fresh = cache;
    let first: Option<(u64, u64)> = cache.insert(1, 10);
    proof {
        assert(fresh.contents()(1) is None);
        if let Some((k0, _v0)) = first {
            assert(fresh.contents()(k0) is None);
        }
    }
    let value: Option<u64> = cache.get(&1);
    first.is_none() && is_value(value, 10) && cache.len() == 1
}

/// A key that was not inserted is not found.
pub fn get_missing_returns_none<C: ConcurrentCacheImpl<u64, u64>>() -> (ok: bool)
    requires
        C::admits(TEST_CAP_SMALL),
    ensures
        ok,
{
    let mut cache: C = C::with_capacity(TEST_CAP_SMALL);
    let ghost fresh = cache;
    let _first: Option<(u64, u64)> = cache.insert(1, 10);
    proof {
        assert(fresh.contents()(2) is None);
        assert(cache.contents()(2) is None);
    }
    cache.get(&2).is_none()
}

/// `contains_key` tells what was inserted from what was not.
pub fn contains_key_reflects_insertions<C: ConcurrentCacheImpl<u64, u64>>() -> (ok: bool)
    requires
        C::admits(TEST_CAP_SMALL),
    ensures
        ok,
{
    let mut cache: C = C::with_capacity(TEST_CAP_SMALL);
    let ghost fresh = cache;
    let before: bool = cache.contains_key(&1);
    let ghost probed = cache;
    let _first: Option<(u64, u64)> = cache.insert(1, 10);
    proof {
        assert(fresh.contents()(1) is None);
        assert(fresh.contents()(2) is None);
        assert(probed.contents()(2) is None);
        assert(cache.contents()(2) is None);
    }
    let one: bool = cache.contains_key(&1);
    let two: bool = cache.contains_key(&2);
    !before && one && !two
}

/// An insert of a cached key replaces its value and pushes nothing out.
pub fn insert_existing_key_updates_value<C: ConcurrentCacheImpl<u64, u64>>() -> (ok: bool)
    requires
        C::admits(TEST_CAP_SMALL),
    ensures
        ok,
{
    let mut cache: C = C::with_capacity(TEST_CAP_SMALL);
    let ghost fresh = cache;
    let first: Option<(u64, u64)> = cache.insert(1, 10);
    proof {
        assert(fresh.contents()(1) is None);
        if let Some((k0, _v0)) = first {
            assert(fresh.contents()(k0) is None);
        }
    }
    let second: Option<(u64, u64)> = cache.insert(1, 20);
    let value: Option<u64> = cache.get(&1);
    second.is_none() && is_value(value, 20) && cache.len() == 1
}

/// Whether a read gave `want`.
fn is_value(read: Option<u64>, want: u64) -> (same: bool)
    ensures
        same == (read == Some(want)),
{
    match read {
        Some(v) => v == want,
        None => false,
    }
}

/// The number of keys below `n` that are cached.
pub open spec fn cached_below(contents: spec_fn(u64) -> Option<u64>, n: int) -> int
    decreases n,
{
    if n <= 0 {
        0
    } else {
        cached_below(contents, n - 1) + if contents((n - 1) as u64) is Some {
            1int
        } else {
            0
        }
    }
}

proof fn lemma_cached_same(a: spec_fn(u64) -> Option<u64>, b: spec_fn(u64) -> Option<u64>, n: int)
    requires
        0 <= n <= u64::MAX,
        forall|k: u64| k < n ==> (#[trigger] a(k) is Some <==> b(k) is Some),
    ensures
        cached_below(a, n) == cached_below(b, n),
    decreases n,
{
    if n > 0 {
        lemma_cached_same(a, b, n - 1);
        assert(a((n - 1) as u64) is Some <==> b((n - 1) as u64) is Some);
    }
}

proof fn lemma_cached_lost(
    a: spec_fn(u64) -> Option<u64>,
    b: spec_fn(u64) -> Option<u64>,
    gone: u64,
    n: int,
)
    requires
        0 <= gone < n <= u64::MAX,
        a(gone) is Some,
        b(gone) is None,
        forall|k: u64| k < n && k != gone ==> (#[trigger] a(k) is Some <==> b(k) is Some),
    ensures
        cached_below(b, n) == cached_below(a, n) - 1,
    decreases n,
{
    if gone == n - 1 {
        lemma_cached_same(a, b, n - 1);
    } else {
        lemma_cached_lost(a, b, gone, n - 1);
        assert(a((n - 1) as u64) is Some <==> b((n - 1) as u64) is Some);
    }
}

/// What churn has made of a cache after `n` keys.
pub open spec fn churned<C: ConcurrentCacheImpl<u64, u64>>(cache: C, n: int, factor: int) -> bool {
    &&& cache.valid()
    &&& cache.count() == cached_below(cache.contents(), n)
    &&& forall|k: u64|
        k < n ==> (#[trigger] cache.contents()(k) is None || cache.contents()(k) == Some(
            (k * factor) as u64,
        ))
    &&& forall|k: u64| k >= n ==> #[trigger] cache.contents()(k) is None
}

/// A cache of `limit` items before and after each of the inserts of a churn: it never
/// holds more than there is room for, and every insert stores its key.
pub open spec fn churn_history<C: ConcurrentCacheImpl<u64, u64>>(
    h: Seq<C>,
    n: int,
    factor: int,
    limit: int,
) -> bool {
    &&& h.len() == n + 1
    &&& forall|i: int|
        0 <= i <= n ==> {
            &&& churned(#[trigger] h[i], i, factor)
            &&& h[i].limit() == limit
            &&& h[i].count() <= limit
        }
    &&& forall|i: int|
        0 <= i < n ==> (#[trigger] h[i + 1]).contents()(i as u64) == Some((i * factor) as u64)
}

/// In the course of a churn the cache never holds more than it has room for. Right after its
/// insert a key reads as its number times `factor`; from then on it reads as that or as nothing,
/// and before its insert it reads as nothing.
pub proof fn law_churn<C: ConcurrentCacheImpl<u64, u64>>(
    h: Seq<C>,
    n: int,
    factor: int,
    limit: int,
    i: int,
    k: u64,
)
    requires
        churn_history(h, n, factor, limit),
        0 <= i <= n,
    ensures
        h[i].limit() == limit,
        h[i].count() <= h[i].limit(),
        i <= k ==> h[i].contents()(k) is None,
        k < n <= u64::MAX && k + 1 == i ==> h[i].contents()(k) == Some((k * factor) as u64),
        h[i].contents()(k) matches Some(v) ==> k < i && v == (k * factor) as u64,
{
    assert(churned(h[i], i, factor));
    if k + 1 == i {
        let j: int = k as int;
        assert(h[j + 1].contents()(j as u64) == Some((j * factor) as u64));
    }
}

/// Inserts the keys `0..n` into an empty cache, each with `factor` times itself as value.
/// After each insert the cache keeps to its room. In the end it holds some of the keys,
/// each with its value, the last among them, and as many as were not pushed out again.
/// Returns how many were pushed out.
pub fn churn<C: ConcurrentCacheImpl<u64, u64>>(cache: &mut C, n: u64, factor: u64) -> (evicted: u64)
    requires
        old(cache).valid(),
        old(cache).count() == 0,
        forall|k: u64| #[trigger] old(cache).contents()(k) is None,
        n * factor <= u64::MAX,
    ensures
        churned(*final(cache), n as int, factor as int),
        final(cache).limit() == old(cache).limit(),
        final(cache).count() + evicted == n,
        n > 0 ==> final(cache).contents()((n - 1) as u64) == Some(((n - 1) * factor) as u64),
        exists|h: Seq<C>| #[trigger]
            churn_history(h, n as int, factor as int, old(cache).limit()) && h[0] == *old(cache)
                && h[n as int] == *final(cache),
{
    let mut k: u64 = 0;
    let mut evicted: u64 = 0;
    let _empty: usize = cache.len();
    let ghost mut h: Seq<C> = seq![*cache];
    while k < n
        invariant
            k <= n,
            n * factor <= u64::MAX,
            churned(*cache, k as int, factor as int),
            cache.limit() == old(cache).limit(),
            cache.count() + evicted == k,
            evicted <= k,
            k > 0 ==> cache.contents()((k - 1) as u64) == Some(((k - 1) * factor) as u64),
            churn_history(h, k as int, factor as int, old(cache).limit()),
            h[0] == *old(cache),
            h[k as int] == *cache,
        decreases n - k,
    {
        let ghost before = *cache;
        assert(k * factor <= n * factor) by (nonlinear_arith)
            requires
                k <= n,
        ;
        let out: Option<(u64, u64)> = cache.insert(k, k * factor);
        proof {
            let a = before.contents();
            let b = cache.contents();
            assert(a(k) is None);
            match out {
                None => {
                    assert forall|j: u64| j < k implies (#[trigger] a(j) is Some <==> b(j) is Some) by {
                        assert(b(j) == a(j));
                    }
                    lemma_cached_same(a, b, k as int);
                },
                Some((k0, v0)) => {
                    assert(k0 < k) by {
                        if k0 >= k {
                            assert(a(k0) is None);
                        }
                    }
                    assert forall|j: u64| j < k && j != k0 implies (#[trigger] a(j) is Some
                        <==> b(j) is Some) by {
                        assert(b(j) == a(j));
                    }
                    lemma_cached_lost(a, b, k0, k as int);
                },
            }
            assert forall|j: u64| j < k + 1 implies (#[trigger] b(j) is None || b(j) == Some(
                (j * factor) as u64,
            )) by {
                if j < k {
                    assert(a(j) is None || a(j) == Some((j * factor) as u64));
                }
            }
            assert forall|j: u64| j >= k + 1 implies #[trigger] b(j) is None by {
                assert(a(j) is None);
            }
        }
        if out.is_some() {
            evicted = evicted + 1;
        }
        let _len: usize = cache.len();
        proof {
            let b = h;
            h = h.push(*cache);
            assert forall|i: int| 0 <= i < k + 1 implies (#[trigger] h[i + 1]).contents()(i as u64)
                == Some((i * factor) as u64) by {
                if i < k {
                    assert(h[i + 1] == b[i + 1]);
                }
            }
        }
        k = k + 1;
    }
    evicted
}

/// However many keys pass through, the cache keeps to its capacity after every one of them.
/// Returns the length in the end, which is the capacity where every shard has seen as many keys as it holds.
pub fn total_capacity_is_respected_under_churn<C: ConcurrentCacheImpl<u64, u64>>() -> (len: usize)
    requires
        C::admits(TEST_CAP_CHURN),
    ensures
        0 < len <= TEST_CAP_CHURN,
        exists|h: Seq<C>| #[trigger]
            churn_history(h, 10_000, 1, TEST_CAP_CHURN as int) && h[0].count() == 0 && len
                == h[10_000].count(),
{
    let mut cache: C = C::with_capacity(TEST_CAP_CHURN);
    let _evicted: u64 = churn(&mut cache, 10_000, 1);
    proof {
        lemma_cached_positive(cache.contents(), 9_999, 10_000);
    }
    cache.len()
}

proof fn lemma_cached_positive(contents: spec_fn(u64) -> Option<u64>, k: u64, n: int)
    requires
        k < n <= u64::MAX,
        contents(k) is Some,
    ensures
        cached_below(contents, n) > 0,
    decreases n,
{
    lemma_cached_nonneg(contents, n - 1);
    if k < n - 1 {
        lemma_cached_positive(contents, k, n - 1);
    }
}

proof fn lemma_cached_nonneg(contents: spec_fn(u64) -> Option<u64>, n: int)
    ensures
        0 <= cached_below(contents, n),
        n >= 0 ==> cached_below(contents, n) <= n,
    decreases n,
{
    if n > 0 {
        lemma_cached_nonneg(contents, n - 1);
    }
}

/// After much churn the cache holds as many of the keys, with their right values, as it
/// says it holds. Returns that number.
pub fn churn_keeps_a_full_capacity_set<C: ConcurrentCacheImpl<u64, u64>>() -> (alive: (usize, usize))
    requires
        C::admits(TEST_CAP_CHURN),
    ensures
        0 < alive.0 <= TEST_CAP_CHURN,
        alive.1 == alive.0,
        exists|c: C| #[trigger]
            churned(c, 50_000, 3) && c.limit() == TEST_CAP_CHURN && alive.0 == c.count()
                && alive.1 == cached_below(c.contents(), 50_000),
{
    let mut cache: C = C::with_capacity(TEST_CAP_CHURN);
    let n: u64 = 50_000;
    let _evicted: u64 = churn(&mut cache, n, 3);
    proof {
        lemma_cached_positive(cache.contents(), 49_999, 50_000);
    }
    let len: usize = cache.len();
    let mut alive: usize = 0;
    let mut k: u64 = 0;
    let ghost full = cache.contents();
    let ghost churned_cache = cache;
    while k < n
        invariant
            n == 50_000,
            k <= n,
            cache.valid(),
            forall|j: u64| #[trigger] cache.contents()(j) == full(j),
            forall|j: u64| j < n ==> (#[trigger] full(j) is None || full(j) == Some((j * 3) as u64)),
            alive == cached_below(full, k as int),
            alive <= k,
        decreases n - k,
    {
        assert(cache.contents()(k) == full(k));
        let value: Option<u64> = cache.get(&k);
        if is_value(value, k * 3) {
            alive = alive + 1;
        }
        k = k + 1;
    }
    assert(churned(churned_cache, 50_000, 3));
    (len, alive)
}

/// A key can be read right after it was inserted.
pub fn self_insert_self_get_visibility<C: ConcurrentCacheImpl<u64, u64>>() -> (ok: bool)
    requires
        C::admits(TEST_CAP_VISIBILITY),
    ensures
        ok,
{
    let mut cache: C = C::with_capacity(TEST_CAP_VISIBILITY);
    let mut k: u64 = 0;
    let mut ok: bool = true;
    while k < 200
        invariant
            k <= 200,
            cache.valid(),
            ok,
        decreases 200 - k,
    {
        let _out: Option<(u64, u64)> = cache.insert(k, k * 17);
        let value: Option<u64> = cache.get(&k);
        ok = ok && is_value(value, k * 17);
        k = k + 1;
    }
    ok
}

/// The keys that are cached are counted one by one.
pub proof fn law_cached_below(contents: spec_fn(u64) -> Option<u64>, n: int)
    requires
        0 <= n <= u64::MAX,
    ensures
        cached_below(contents, n) == sum(
            Seq::new(
                n as nat,
                |k: int|
                    if contents(k as u64) is Some {
                        1int
                    } else {
                        0
                    },
            ),
        ),
    decreases n,
{
    let one = |k: int|
        if contents(k as u64) is Some {
            1int
        } else {
            0
        };
    if n > 0 {
        law_cached_below(contents, n - 1);
        let front = Seq::new((n - 1) as nat, one);
        assert(Seq::new(n as nat, one) =~= front.push(one(n - 1)));
        lemma_sum_push(front, one(n - 1));
    } else {
        lemma_sum_push(Seq::empty(), 0);
        assert(Seq::new(0, one) =~= Seq::empty());
    }
}

} // verus!
