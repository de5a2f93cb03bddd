//! Replaying a trace through a cache: read each key, insert it where it is
//! missing, and count.

use vstd::prelude::*;

use crate::experimental::CacheImpl;
use crate::hash::CacheKey;
use crate::model::Sieve;
use crate::text::strings;

verus! {

/// What a replay counts.
#[derive(Clone, Copy, Debug, PartialEq, Eq, Structural)]
pub struct Tally {
    pub hits: u64,
    pub misses: u64,
    pub evictions: u64,
}

impl Tally {
    pub fn new() -> (t: Self)
        ensures
            t == (Tally { hits: 0, misses: 0, evictions: 0 }),
    {
        Tally { hits: 0, misses: 0, evictions: 0 }
    }

    pub open spec fn reads(self) -> int {
        self.hits + self.misses
    }

    /// Counts one read that found its key.
    pub fn hit(&mut self)
        requires
            old(self).hits < u64::MAX,
        ensures
            *final(self) == (Tally { hits: (old(self).hits + 1) as u64, ..*old(self) }),
    {
        self.hits += 1;
    }

    /// Counts one read that did not, and whether the insert after it pushed
    /// something out.
    pub fn miss(&mut self, evicted: bool)
        requires
            old(self).misses < u64::MAX,
            old(self).evictions < u64::MAX,
        ensures
            *final(self) == (Tally {
                misses: (old(self).misses + 1) as u64,
                evictions: (old(self).evictions + if evicted {
                    1int
                } else {
                    0
                }) as u64,
                ..*old(self)
            }),
    {
        self.misses += 1;
        if evicted {
            self.evictions += 1;
        }
    }

    /// The number of reads counted so far.
    pub fn total_reads(&self) -> (n: u64)
        requires
            self.reads() <= u64::MAX,
        ensures
            n == self.reads(),
    {
        self.hits + self.misses
    }
}

/// The cache after one key of a trace: a hit is marked, a miss inserted.
pub open spec fn step<K>(q: Sieve<K, u64>, k: K, v: u64) -> Sieve<K, u64> {
    if q.holds(k) {
        q.touch(k)
    } else {
        q.insert(k, v)
    }
}

/// The cache after a trace with a value for each of its places.
pub open spec fn after<K>(q: Sieve<K, u64>, trace: Seq<K>, values: Seq<u64>) -> Sieve<K, u64>
    decreases trace.len(),
{
    if trace.len() == 0 {
        q
    } else {
        step(after(q, trace.drop_last(), values.drop_last()), trace.last(), values.last())
    }
}

/// The number of keys of a trace that are cached when their turn comes.
pub open spec fn hits<K>(q: Sieve<K, u64>, trace: Seq<K>, values: Seq<u64>) -> nat
    decreases trace.len(),
{
    if trace.len() == 0 {
        0
    } else {
        let before = after(q, trace.drop_last(), values.drop_last());
        hits(q, trace.drop_last(), values.drop_last()) + if before.holds(trace.last()) {
            1nat
        } else {
            0
        }
    }
}

/// The number of keys of a trace whose insertion pushes another out.
pub open spec fn evictions<K>(q: Sieve<K, u64>, trace: Seq<K>, values: Seq<u64>) -> nat
    decreases trace.len(),
{
    if trace.len() == 0 {
        0
    } else {
        let before = after(q, trace.drop_last(), values.drop_last());
        evictions(q, trace.drop_last(), values.drop_last()) + if before.displaced(
            trace.last(),
        ) is Some {
            1nat
        } else {
            0
        }
    }
}

/// The places of a trace of `n` keys.
pub open spec fn places(n: nat) -> Seq<u64> {
    Seq::new(n, |i: int| i as u64)
}

/// The cache after inserting every key of a trace, with the key as its value.
pub open spec fn filled(q: Sieve<u64, u64>, trace: Seq<u64>) -> Sieve<u64, u64>
    decreases trace.len(),
{
    if trace.len() == 0 {
        q
    } else {
        filled(q, trace.drop_last()).insert(trace.last(), trace.last())
    }
}

/// What each insertion of a trace pushes out.
pub open spec fn displacements(q: Sieve<u64, u64>, trace: Seq<u64>) -> Seq<Option<(u64, u64)>>
    decreases trace.len(),
{
    if trace.len() == 0 {
        Seq::empty()
    } else {
        displacements(q, trace.drop_last()).push(
            filled(q, trace.drop_last()).displaced(trace.last()),
        )
    }
}

proof fn lemma_counts<K>(q: Sieve<K, u64>, trace: Seq<K>, values: Seq<u64>)
    requires
        q.wf(),
    ensures
        after(q, trace, values).wf(),
        after(q, trace, values).capacity == q.capacity,
        hits(q, trace, values) <= trace.len(),
        evictions(q, trace, values) <= trace.len() - hits(q, trace, values),
        after(q, trace, values).len() == q.len() + (trace.len() - hits(q, trace, values))
            - evictions(q, trace, values),
    decreases trace.len(),
{
    if trace.len() > 0 {
        let p = after(q, trace.drop_last(), values.drop_last());
        let k = trace.last();
        lemma_counts(q, trace.drop_last(), values.drop_last());
        p.law_touch(k);
        p.law_insert(k, values.last());
    }
}

/// Every read is a hit or a miss, every miss adds an item, and every eviction
/// takes one away again.
pub proof fn law_conservation<K>(q: Sieve<K, u64>, trace: Seq<K>, values: Seq<u64>)
    requires
        q.wf(),
    ensures
        hits(q, trace, values) <= trace.len(),
        evictions(q, trace, values) <= trace.len() - hits(q, trace, values),
        after(q, trace, values).len() + evictions(q, trace, values) + hits(q, trace, values)
            == q.len() + trace.len(),
{
    lemma_counts(q, trace, values);
}

/// A trace of one key hits exactly where the key is cached. A hit is marked and changes no
/// value; a miss brings the key in unmarked, and pushes something out exactly where the cache
/// is full.
pub proof fn law_one_key<K>(q: Sieve<K, u64>, k: K, v: u64)
    requires
        q.wf(),
    ensures
        hits(q, seq![k], seq![v]) == if q.lookup(k) is Some {
            1nat
        } else {
            0
        },
        evictions(q, seq![k], seq![v]) == if q.lookup(k) is None && q.len() == q.capacity {
            1nat
        } else {
            0
        },
        after(q, seq![k], seq![v]).wf(),
        after(q, seq![k], seq![v]).capacity == q.capacity,
        after(q, seq![k], seq![v]).lookup(k) == if q.lookup(k) is Some {
            q.lookup(k)
        } else {
            Some(v)
        },
        after(q, seq![k], seq![v]).marked(k) == (q.lookup(k) is Some),
        after(q, seq![k], seq![v]).len() == q.len() + if q.lookup(k) is Some || q.len()
            == q.capacity {
            0nat
        } else {
            1
        },
{
    let t = seq![k];
    let w = seq![v];
    reveal_with_fuel(hits, 2);
    reveal_with_fuel(evictions, 2);
    reveal_with_fuel(after, 2);
    assert(t.drop_last() =~= Seq::empty());
    assert(w.drop_last() =~= Seq::empty());
    q.law_touch(k);
    q.law_touch_marks(k);
    q.law_insert(k, v);
    if q.lookup(k) is None {
        if q.len() == q.capacity {
            q.law_insert_marks(k, v);
        } else {
            q.law_append_marks(k, v);
        }
    }
}

/// A trace can be played in two parts: the second goes on with the cache that the first left,
/// and the counts add up.
pub proof fn law_two_parts<K>(
    q: Sieve<K, u64>,
    a: Seq<K>,
    b: Seq<K>,
    va: Seq<u64>,
    vb: Seq<u64>,
)
    requires
        a.len() == va.len(),
        b.len() == vb.len(),
    ensures
        after(q, a + b, va + vb) == after(after(q, a, va), b, vb),
        hits(q, a + b, va + vb) == hits(q, a, va) + hits(after(q, a, va), b, vb),
        evictions(q, a + b, va + vb) == evictions(q, a, va) + evictions(after(q, a, va), b, vb),
    decreases b.len(),
{
    if b.len() == 0 {
        assert(a + b =~= a);
        assert(va + vb =~= va);
    } else {
        law_two_parts(q, a, b.drop_last(), va, vb.drop_last());
        assert((a + b).drop_last() =~= a + b.drop_last());
        assert((va + vb).drop_last() =~= va + vb.drop_last());
        assert((a + b).last() == b.last());
        assert((va + vb).last() == vb.last());
    }
}

/// An insertion of one key tells what the queue pushes out for it, and the key is cached then.
/// A row of insertions can be made in two parts.
pub proof fn law_displacements(q: Sieve<u64, u64>, k: u64, a: Seq<u64>, b: Seq<u64>)
    requires
        q.wf(),
    ensures
        displacements(q, seq![k]).len() == 1,
        displacements(q, seq![k])[0] is Some <==> q.lookup(k) is None && q.len() == q.capacity,
        displacements(q, seq![k])[0] matches Some((x, y)) ==> q.lookup(x) == Some(y) && filled(
            q,
            seq![k],
        ).lookup(x) is None,
        filled(q, seq![k]).lookup(k) == Some(k),
        filled(q, seq![k]).wf(),
        displacements(q, a + b) == displacements(q, a) + displacements(filled(q, a), b),
        filled(q, a + b) == filled(filled(q, a), b),
    decreases b.len(),
{
    let t = seq![k];
    reveal_with_fuel(displacements, 2);
    reveal_with_fuel(filled, 2);
    assert(t.drop_last() =~= Seq::empty());
    q.law_insert(k, k);
    q.law_displaced(k);
    if b.len() == 0 {
        assert(a + b =~= a);
        assert(displacements(q, a) + displacements(filled(q, a), b) =~= displacements(q, a));
    } else {
        law_displacements(q, k, a, b.drop_last());
        assert((a + b).drop_last() =~= a + b.drop_last());
        assert((a + b).last() == b.last());
        assert(displacements(q, a + b) =~= displacements(q, a) + displacements(filled(q, a), b));
    }
}

/// Replays `trace` through `cache`. The counts depend on the queue that the cache
/// stands for and on nothing else of it: every cache counts the same.
pub fn replay<C: CacheImpl<u64, u64>>(cache: &mut C, trace: &Vec<u64>) -> (t: Tally)
    requires
        old(cache).valid(),
    ensures
        final(cache).valid(),
        final(cache).queue() == after(old(cache).queue(), trace@, trace@),
        t.hits == hits(old(cache).queue(), trace@, trace@),
        t.evictions == evictions(old(cache).queue(), trace@, trace@),
        t.hits + t.misses == trace@.len(),
{
    let ghost q = cache.queue();
    proof {
        cache.lemma_valid();
    }
    let mut t = Tally::new();
    let mut i: usize = 0;
    while i < trace.len()
        invariant
            i <= trace@.len(),
            q.wf(),
            cache.valid(),
            cache.queue() == after(q, trace@.take(i as int), trace@.take(i as int)),
            t.hits == hits(q, trace@.take(i as int), trace@.take(i as int)),
            t.evictions == evictions(q, trace@.take(i as int), trace@.take(i as int)),
            t.hits + t.misses == i,
            t.evictions <= t.misses,
        decreases trace@.len() - i,
    {
        let k = trace[i];
        let ghost before = trace@.take(i as int);
        let ghost p = after(q, before, before);
        proof {
            assert(trace@.take(i + 1).drop_last() =~= before);
            assert(trace@.take(i + 1).last() == k);
            lemma_counts(q, trace@.take(i + 1), trace@.take(i + 1));
        }
        let found = cache.get(&k).is_some();
        if found {
            t.hit();
        } else {
            assert(cache.queue() == p);
            let evicted = cache.insert(k, k).is_some();
            t.miss(evicted);
        }
        i += 1;
    }
    assert(trace@.take(i as int) =~= trace@);
    t
}

/// Replays a trace of keys of any kind through `cache`; the value of a key is its place in
/// the trace. The counts depend on the queue that the cache stands for and on nothing
/// else of it.
pub fn replay_places<K: CacheKey, C: CacheImpl<K, u64>>(cache: &mut C, trace: &Vec<K>) -> (t: Tally)
    requires
        old(cache).valid(),
    ensures
        final(cache).valid(),
        final(cache).queue() == after(old(cache).queue(), trace@, places(trace@.len())),
        t.hits == hits(old(cache).queue(), trace@, places(trace@.len())),
        t.evictions == evictions(old(cache).queue(), trace@, places(trace@.len())),
        t.hits + t.misses == trace@.len(),
{
    let ghost q = cache.queue();
    proof {
        cache.lemma_valid();
    }
    let mut t = Tally::new();
    let mut i: usize = 0;
    while i < trace.len()
        invariant
            i <= trace@.len(),
            q.wf(),
            cache.valid(),
            cache.queue() == after(q, trace@.take(i as int), places(i as nat)),
            t.hits == hits(q, trace@.take(i as int), places(i as nat)),
            t.evictions == evictions(q, trace@.take(i as int), places(i as nat)),
            t.hits + t.misses == i,
            t.evictions <= t.misses,
        decreases trace@.len() - i,
    {
        let ghost before = trace@.take(i as int);
        let ghost p = after(q, before, places(i as nat));
        proof {
            assert(trace@.take(i + 1).drop_last() =~= before);
            assert(trace@.take(i + 1).last() == trace@[i as int]);
            assert(places((i + 1) as nat).drop_last() =~= places(i as nat));
            lemma_counts(q, trace@.take(i + 1), places((i + 1) as nat));
        }
        let found = cache.get(&trace[i]).is_some();
        if found {
            t.hit();
        } else {
            assert(cache.queue() == p);
            let evicted = cache.insert(trace[i].duplicate(), i as u64).is_some();
            t.miss(evicted);
        }
        i += 1;
    }
    assert(trace@.take(i as int) =~= trace@);
    t
}

/// Replays `trace` through a new cache.
pub fn drive<C: CacheImpl<u64, u64>>(trace: &Vec<u64>, cap: usize) -> (t: Tally)
    requires
        0 < cap,
        2 * cap <= usize::MAX,
        C::keys_ok(),
    ensures
        t.hits == hits(Sieve::empty(cap as nat), trace@, trace@),
        t.evictions == evictions(Sieve::empty(cap as nat), trace@, trace@),
        t.hits + t.misses == trace@.len(),
{
    let mut cache = C::new(cap);
    replay(&mut cache, trace)
}

/// What each insertion of `trace` into a new cache pushes out. This does not
/// depend on the kind of cache: any two give the same stream.
pub fn eviction_stream<C: CacheImpl<u64, u64>>(trace: &Vec<u64>, cap: usize) -> (v: Vec<
    Option<(u64, u64)>,
>)
    requires
        0 < cap,
        2 * cap <= usize::MAX,
        C::keys_ok(),
    ensures
        v@ == displacements(Sieve::empty(cap as nat), trace@),
{
    let mut cache = C::new(cap);
    let ghost q = Sieve::<u64, u64>::empty(cap as nat);
    let mut v: Vec<Option<(u64, u64)>> = Vec::new();
    let mut i: usize = 0;
    while i < trace.len()
        invariant
            i <= trace@.len(),
            cache.valid(),
            cache.queue() == filled(q, trace@.take(i as int)),
            v@ == displacements(q, trace@.take(i as int)),
        decreases trace@.len() - i,
    {
        let k = trace[i];
        proof {
            assert(trace@.take(i + 1).drop_last() =~= trace@.take(i as int));
            assert(trace@.take(i + 1).last() == k);
        }
        v.push(cache.insert(k, k));
        i += 1;
    }
    assert(trace@.take(i as int) =~= trace@);
    v
}

/// A trace played `n` times.
pub open spec fn repeated<K>(once: Seq<K>, n: nat) -> Seq<K>
    decreases n,
{
    if n == 0 {
        Seq::empty()
    } else {
        repeated(once, (n - 1) as nat) + once
    }
}

/// The trace `once`, `n` times in a row.
pub fn repeat_trace(once: Vec<u64>, n: u32) -> (v: Vec<u64>)
    requires
        n > 0,
    ensures
        v@ == repeated(once@, n as nat),
{
    if n == 1 {
        proof {
            reveal_with_fuel(repeated, 2);
            assert(repeated(once@, 1) =~= once@);
        }
        return once;
    }
    let mut v: Vec<u64> = Vec::new();
    let mut r: u32 = 0;
    while r < n
        invariant
            r <= n,
            v@ == repeated(once@, r as nat),
        decreases n - r,
    {
        let ghost base = v@;
        let mut i: usize = 0;
        while i < once.len()
            invariant
                i <= once@.len(),
                v@ == base + once@.take(i as int),
            decreases once@.len() - i,
        {
            assert(once@.take(i + 1) =~= once@.take(i as int).push(once@[i as int]));
            v.push(once[i]);
            i += 1;
        }
        assert(once@.take(i as int) =~= once@);
        assert(repeated(once@, (r + 1) as nat) == repeated(once@, r as nat) + once@);
        r += 1;
    }
    v
}

/// The texts `once`, `n` times in a row.
pub fn repeat_texts(once: Vec<String>, n: u32) -> (v: Vec<String>)
    requires
        n > 0,
    ensures
        strings(v@) == repeated(strings(once@), n as nat),
{
    let ghost texts = strings(once@);
    if n == 1 {
        proof {
            reveal_with_fuel(repeated, 2);
            assert(repeated(texts, 1) =~= texts);
        }
        return once;
    }
    let mut v: Vec<String> = Vec::new();
    let mut r: u32 = 0;
    assert(strings(v@) =~= Seq::empty());
    while r < n
        invariant
            r <= n,
            texts == strings(once@),
            strings(v@) == repeated(texts, r as nat),
        decreases n - r,
    {
        let ghost base = strings(v@);
        let mut i: usize = 0;
        assert(base + texts.take(0) =~= base);
        while i < once.len()
            invariant
                i <= once@.len(),
                texts == strings(once@),
                strings(v@) == base + texts.take(i as int),
            decreases once@.len() - i,
        {
            let ghost held = v@;
            v.push(once[i].clone());
            proof {
                assert(strings(v@) =~= strings(held).push(texts[i as int]));
                assert(texts.take(i + 1) =~= texts.take(i as int).push(texts[i as int]));
                assert(base + texts.take(i + 1) =~= (base + texts.take(i as int)).push(
                    texts[i as int],
                ));
            }
            i += 1;
        }
        assert(texts.take(i as int) =~= texts);
        assert(repeated(texts, (r + 1) as nat) == repeated(texts, r as nat) + texts);
        r += 1;
    }
    v
}

/// Position `i` of a repeated trace holds what position `i` modulo the length
/// holds in the trace itself.
pub proof fn law_repeated<K>(once: Seq<K>, n: nat)
    ensures
        repeated(once, n).len() == n * once.len(),
        forall|i: int|
            0 <= i < repeated(once, n).len() ==> #[trigger] repeated(once, n)[i] == once[i
                % (once.len() as int)],
    decreases n,
{
    if n > 0 {
        let m = (n - 1) as nat;
        let len = once.len() as int;
        law_repeated(once, m);
        assert(n * once.len() == m * once.len() + once.len()) by (nonlinear_arith)
            requires
                n == m + 1,
        ;
        assert forall|i: int| 0 <= i < repeated(once, n).len() implies #[trigger] repeated(once, n)[i]
            == once[i % len] by {
            if i >= m * len {
                let j = i - m * len;
                assert(i % len == j) by {
                    vstd::arithmetic::div_mod::lemma_fundamental_div_mod_converse_mod(i, len, m as int, j);
                }
            }
        }
    } else {
        assert(n * once.len() == 0) by (nonlinear_arith)
            requires
                n == 0,
        ;
    }
}

/// The value of a key is its place in the trace, counted from nought.
pub proof fn law_places(n: nat)
    requires
        n <= u64::MAX,
    ensures
        places(n).len() == n,
        forall|i: int| 0 <= i < n ==> #[trigger] places(n)[i] == i,
{
}

/// A read that is counted is a hit or a miss.
pub proof fn law_reads(t: Tally)
    ensures
        t.reads() - t.hits == t.misses,
{
}

} // verus!
