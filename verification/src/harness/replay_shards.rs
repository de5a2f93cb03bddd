//! Replaying a trace through a cache of shards.

use vstd::prelude::*;

use crate::harness::replay;
use crate::harness::replay::{places, Tally};
use crate::hash::{key_hash, shard_index, CacheKey};
use crate::model::Sieve;
use crate::shard::CacheShard;
use crate::sharded::{lemma_len_update, total_len, ShardArray};

verus! {

/// The shard that a key belongs to.
pub open spec fn home<K: CacheKey>(mask: usize, k: K) -> int {
    shard_index(key_hash(k), mask) as int
}

/// The shards after one key of a trace: in the shard that the key belongs to, a hit is
/// marked and a miss inserted; the others stay as they are.
pub open spec fn step<S: CacheShard<Value = u64>>(
    queues: Seq<Sieve<S::Key, u64>>,
    mask: usize,
    k: S::Key,
    v: u64,
) -> Seq<Sieve<S::Key, u64>> {
    let i = home(mask, k);
    if queues[i].holds(k) {
        queues.update(i, queues[i].touch(k))
    } else {
        queues.update(i, S::put(queues[i], k, v))
    }
}

/// The shards after a trace.
pub open spec fn after<S: CacheShard<Value = u64>>(
    queues: Seq<Sieve<S::Key, u64>>,
    mask: usize,
    trace: Seq<S::Key>,
    values: Seq<u64>,
) -> Seq<Sieve<S::Key, u64>>
    decreases trace.len(),
{
    if trace.len() == 0 {
        queues
    } else {
        step::<S>(after::<S>(queues, mask, trace.drop_last(), values.drop_last()), mask, trace.last(), values.last())
    }
}

/// The number of keys of a trace that are cached when their turn comes.
pub open spec fn hits<S: CacheShard<Value = u64>>(
    queues: Seq<Sieve<S::Key, u64>>,
    mask: usize,
    trace: Seq<S::Key>,
    values: Seq<u64>,
) -> nat
    decreases trace.len(),
{
    if trace.len() == 0 {
        0
    } else {
        let before = after::<S>(queues, mask, trace.drop_last(), values.drop_last());
        hits::<S>(queues, mask, trace.drop_last(), values.drop_last()) + if before[home(mask, trace.last())].holds(
            trace.last(),
        ) {
            1nat
        } else {
            0
        }
    }
}

/// The number of keys of a trace whose insertion pushes another out.
pub open spec fn evictions<S: CacheShard<Value = u64>>(
    queues: Seq<Sieve<S::Key, u64>>,
    mask: usize,
    trace: Seq<S::Key>,
    values: Seq<u64>,
) -> nat
    decreases trace.len(),
{
    if trace.len() == 0 {
        0
    } else {
        let before = after::<S>(queues, mask, trace.drop_last(), values.drop_last());
        evictions::<S>(queues, mask, trace.drop_last(), values.drop_last()) + if before[home(mask, trace.last())].displaced(
            trace.last(),
        ) is Some {
            1nat
        } else {
            0
        }
    }
}

/// Replays `trace` through `cache`: reads each key and inserts it where it is missing.
pub fn replay_shards<S: CacheShard<Key = u64, Value = u64>>(
    cache: &mut ShardArray<S>,
    trace: &Vec<u64>,
) -> (t: Tally)
    requires
        old(cache).wf(),
    ensures
        final(cache).wf(),
        final(cache).selector() == old(cache).selector(),
        final(cache).queues() == after::<S>(old(cache).queues(), old(cache).selector(), trace@, trace@),
        t.hits == hits::<S>(old(cache).queues(), old(cache).selector(), trace@, trace@),
        t.evictions == evictions::<S>(old(cache).queues(), old(cache).selector(), trace@, trace@),
        t.hits + t.misses == trace@.len(),
{
    let ghost queues = cache.queues();
    let ghost mask = cache.selector();
    let mut t = Tally::new();
    let mut i: usize = 0;
    while i < trace.len()
        invariant
            i <= trace@.len(),
            cache.wf(),
            cache.selector() == mask,
            cache.queues() == after::<S>(queues, mask, trace@.take(i as int), trace@.take(i as int)),
            t.hits == hits::<S>(queues, mask, trace@.take(i as int), trace@.take(i as int)),
            t.evictions == evictions::<S>(queues, mask, trace@.take(i as int), trace@.take(i as int)),
            t.hits + t.misses == i,
            t.evictions <= t.misses,
        decreases trace@.len() - i,
    {
        let k = trace[i];
        let ghost before = cache.queues();
        proof {
            assert(trace@.take(i + 1).drop_last() =~= trace@.take(i as int));
            assert(trace@.take(i + 1).last() == k);
            cache.lemma_wf();
            assert(0 <= cache.route(k) < cache.queues().len());
        }
        let found = cache.get(&k).is_some();
        if found {
            t.hit();
        } else {
            assert(cache.queues() =~= before);
            let evicted = cache.insert(k, k).is_some();
            t.miss(evicted);
        }
        i += 1;
    }
    assert(trace@.take(i as int) =~= trace@);
    t
}

/// Replays a trace of keys of any kind through `cache`; the value of a key is its place in
/// the trace.
pub fn replay_shards_places<S: CacheShard<Value = u64>>(
    cache: &mut ShardArray<S>,
    trace: &Vec<S::Key>,
) -> (t: Tally)
    requires
        old(cache).wf(),
    ensures
        final(cache).wf(),
        final(cache).selector() == old(cache).selector(),
        final(cache).queues() == after::<S>(old(cache).queues(), old(cache).selector(), trace@, places(trace@.len())),
        t.hits == hits::<S>(old(cache).queues(), old(cache).selector(), trace@, places(trace@.len())),
        t.evictions == evictions::<S>(old(cache).queues(), old(cache).selector(), trace@, places(trace@.len())),
        t.hits + t.misses == trace@.len(),
{
    let ghost queues = cache.queues();
    let ghost mask = cache.selector();
    let mut t = Tally::new();
    let mut i: usize = 0;
    while i < trace.len()
        invariant
            i <= trace@.len(),
            cache.wf(),
            cache.selector() == mask,
            cache.queues() == after::<S>(queues, mask, trace@.take(i as int), places(i as nat)),
            t.hits == hits::<S>(queues, mask, trace@.take(i as int), places(i as nat)),
            t.evictions == evictions::<S>(queues, mask, trace@.take(i as int), places(i as nat)),
            t.hits + t.misses == i,
            t.evictions <= t.misses,
        decreases trace@.len() - i,
    {
        let ghost k = trace@[i as int];
        let ghost before = cache.queues();
        proof {
            assert(trace@.take(i + 1).drop_last() =~= trace@.take(i as int));
            assert(trace@.take(i + 1).last() == k);
            assert(places((i + 1) as nat).drop_last() =~= places(i as nat));
            cache.lemma_wf();
            assert(0 <= cache.route(k) < cache.queues().len());
        }
        let found = cache.get(&trace[i]).is_some();
        if found {
            t.hit();
        } else {
            assert(cache.queues() =~= before);
            let evicted = cache.insert(trace[i].duplicate(), i as u64).is_some();
            t.miss(evicted);
        }
        i += 1;
    }
    assert(trace@.take(i as int) =~= trace@);
    t
}

/// Over any number of shards, every read is a hit or a miss, every miss adds an item, and
/// every eviction takes one away again.
pub proof fn law_conservation<S: CacheShard<Value = u64>>(
    queues: Seq<Sieve<S::Key, u64>>,
    mask: usize,
    trace: Seq<S::Key>,
    values: Seq<u64>,
)
    requires
        forall|i: int| 0 <= i < queues.len() ==> (#[trigger] queues[i]).wf(),
        forall|k: S::Key| 0 <= #[trigger] home(mask, k) < queues.len(),
    ensures
        after::<S>(queues, mask, trace, values).len() == queues.len(),
        forall|i: int|
            0 <= i < queues.len() ==> (#[trigger] after::<S>(queues, mask, trace, values)[i]).wf(),
        hits::<S>(queues, mask, trace, values) <= trace.len(),
        evictions::<S>(queues, mask, trace, values) <= trace.len() - hits::<S>(
            queues,
            mask,
            trace,
            values,
        ),
        total_len(after::<S>(queues, mask, trace, values), queues.len() as int) + evictions::<S>(
            queues,
            mask,
            trace,
            values,
        ) + hits::<S>(queues, mask, trace, values) == total_len(queues, queues.len() as int)
            + trace.len(),
    decreases trace.len(),
{
    if trace.len() > 0 {
        let front = trace.drop_last();
        let early = values.drop_last();
        let k = trace.last();
        let v = values.last();
        law_conservation::<S>(queues, mask, front, early);
        let p = after::<S>(queues, mask, front, early);
        let i = home(mask, k);
        assert(p[i].wf());
        p[i].law_touch(k);
        p[i].law_displaced(k);
        S::lemma_put(p[i], k, v);
        lemma_len_update(p, i, p[i].touch(k), p.len() as int);
        lemma_len_update(p, i, S::put(p[i], k, v), p.len() as int);
    }
}

/// A trace of one key asks the shard that the key belongs to, and changes no other. It hits
/// exactly where that shard holds the key, which it marks, and pushes something out exactly
/// where the key is missing and the shard is full; a missing key comes in unmarked.
pub proof fn law_one_key<S: CacheShard<Value = u64>>(
    queues: Seq<Sieve<S::Key, u64>>,
    mask: usize,
    k: S::Key,
    v: u64,
)
    requires
        0 <= home(mask, k) < queues.len(),
        queues[home(mask, k)].wf(),
    ensures
        hits::<S>(queues, mask, seq![k], seq![v]) == if queues[home(mask, k)].lookup(k) is Some {
            1nat
        } else {
            0
        },
        evictions::<S>(queues, mask, seq![k], seq![v]) == if queues[home(mask, k)].lookup(k) is None
            && queues[home(mask, k)].len() == queues[home(mask, k)].capacity {
            1nat
        } else {
            0
        },
        after::<S>(queues, mask, seq![k], seq![v]).len() == queues.len(),
        forall|i: int|
            0 <= i < queues.len() && i != home(mask, k) ==> #[trigger] after::<S>(
                queues,
                mask,
                seq![k],
                seq![v],
            )[i] == queues[i],
        after::<S>(queues, mask, seq![k], seq![v])[home(mask, k)].lookup(k) == if queues[home(
            mask,
            k,
        )].lookup(k) is Some {
            queues[home(mask, k)].lookup(k)
        } else {
            Some(v)
        },
        after::<S>(queues, mask, seq![k], seq![v])[home(mask, k)].marked(k) == (queues[home(
            mask,
            k,
        )].lookup(k) is Some),
        queues[home(mask, k)].lookup(k) is Some ==> forall|x: S::Key| #[trigger]
            after::<S>(queues, mask, seq![k], seq![v])[home(mask, k)].marked(x) == (x == k
                || queues[home(mask, k)].marked(x)),
{
    let t = seq![k];
    let w = seq![v];
    reveal_with_fuel(hits, 2);
    reveal_with_fuel(evictions, 2);
    reveal_with_fuel(after, 2);
    assert(t.drop_last() =~= Seq::empty());
    assert(w.drop_last() =~= Seq::empty());
    let q = queues[home(mask, k)];
    q.law_touch(k);
    q.law_touch_marks(k);
    S::lemma_put(q, k, v);
}

/// A trace can be played in two parts: the second goes on with the shards that the first left,
/// and the counts add up.
pub proof fn law_two_parts<S: CacheShard<Value = u64>>(
    queues: Seq<Sieve<S::Key, u64>>,
    mask: usize,
    a: Seq<S::Key>,
    b: Seq<S::Key>,
    va: Seq<u64>,
    vb: Seq<u64>,
)
    requires
        a.len() == va.len(),
        b.len() == vb.len(),
    ensures
        after::<S>(queues, mask, a + b, va + vb) == after::<S>(
            after::<S>(queues, mask, a, va),
            mask,
            b,
            vb,
        ),
        hits::<S>(queues, mask, a + b, va + vb) == hits::<S>(queues, mask, a, va) + hits::<S>(
            after::<S>(queues, mask, a, va),
            mask,
            b,
            vb,
        ),
        evictions::<S>(queues, mask, a + b, va + vb) == evictions::<S>(queues, mask, a, va)
            + evictions::<S>(after::<S>(queues, mask, a, va), mask, b, vb),
    decreases b.len(),
{
    if b.len() == 0 {
        assert(a + b =~= a);
        assert(va + vb =~= va);
    } else {
        law_two_parts::<S>(queues, mask, a, b.drop_last(), va, vb.drop_last());
        assert((a + b).drop_last() =~= a + b.drop_last());
        assert((va + vb).drop_last() =~= va + vb.drop_last());
        assert((a + b).last() == b.last());
        assert((va + vb).last() == vb.last());
    }
}

/// One shard that appends its new items, as a single queue does, replays every trace
/// as that queue: the same hits, the same evictions, the same items in the same order.
pub proof fn law_one_shard_is_one_queue<S: CacheShard<Value = u64>>(
    q: Sieve<S::Key, u64>,
    trace: Seq<S::Key>,
    values: Seq<u64>,
)
    requires
        forall|p: Sieve<S::Key, u64>, k: S::Key, v: u64| #[trigger]
            S::put(p, k, v) == p.insert(k, v),
    ensures
        after::<S>(seq![q], 0, trace, values) == seq![replay::after(q, trace, values)],
        hits::<S>(seq![q], 0, trace, values) == replay::hits(q, trace, values),
        evictions::<S>(seq![q], 0, trace, values) == replay::evictions(q, trace, values),
    decreases trace.len(),
{
    if trace.len() > 0 {
        let front = trace.drop_last();
        let early = values.drop_last();
        let k = trace.last();
        let v = values.last();
        law_one_shard_is_one_queue::<S>(q, front, early);
        let hash = key_hash(k) as usize;
        assert(hash & 0 == 0) by (bit_vector);
        assert(home(0, k) == 0);
        let p = replay::after(q, front, early);
        assert(seq![p][0] == p);
        assert(seq![p].update(0, p.touch(k)) =~= seq![p.touch(k)]);
        assert(seq![p].update(0, p.insert(k, v)) =~= seq![p.insert(k, v)]);
    }
}

} // verus!
