//! What the shards of a cache come to together: counters, lengths and capacities.
use crate::model::Sieve;
use crate::shard::CacheShard;
use crate::sharded::{
    share, total_capacity, total_counts, total_len, ShardArray,
};
use crate::stats::Stats;
use vstd::prelude::*;

verus! {

/// The sum of some numbers.
pub open spec fn sum(s: Seq<int>) -> int {
    s.fold_left(0int, |a: int, b: int| a + b)
}

/// One more number adds to the sum; nothing sums up to nought.
pub proof fn lemma_sum_push(s: Seq<int>, x: int)
    ensures
        sum(s.push(x)) == sum(s) + x,
        sum(Seq::<int>::empty()) == 0,
{
    assert(s.push(x).drop_last() =~= s);
    reveal_with_fuel(Seq::fold_left, 2);
}

impl Stats {
    /// A read counts once, as a hit or as a miss, and as nothing else.
    pub proof fn law_read(self, hit: bool)
        requires
            self.hits < u64::MAX,
            self.misses < u64::MAX,
        ensures
            self.read(hit).hits == self.hits + if hit {
                1int
            } else {
                0
            },
            self.read(hit).misses == self.misses + if hit {
                0int
            } else {
                1
            },
            self.read(hit).insertions == self.insertions,
            self.read(hit).evictions == self.evictions,
    {
    }

    /// An insert counts once, and a second time as an eviction where it pushes something out.
    pub proof fn law_inserted(self, evicted: bool)
        requires
            self.insertions < u64::MAX,
            self.evictions < u64::MAX,
        ensures
            self.inserted(evicted).insertions == self.insertions + 1,
            self.inserted(evicted).evictions == self.evictions + if evicted {
                1int
            } else {
                0
            },
            self.inserted(evicted).hits == self.hits,
            self.inserted(evicted).misses == self.misses,
    {
    }
}

/// Each counter of the total is the sum of that counter over the shards, as far as 64 bits go.
pub proof fn law_total_counts(counts: Seq<Stats>, n: int)
    requires
        0 <= n <= counts.len(),
    ensures
        total_counts(counts, n).hits == sum(
            counts.take(n).map_values(|s: Stats| s.hits as int),
        ) % 0x1_0000_0000_0000_0000,
        total_counts(counts, n).misses == sum(
            counts.take(n).map_values(|s: Stats| s.misses as int),
        ) % 0x1_0000_0000_0000_0000,
        total_counts(counts, n).insertions == sum(
            counts.take(n).map_values(|s: Stats| s.insertions as int),
        ) % 0x1_0000_0000_0000_0000,
        total_counts(counts, n).evictions == sum(
            counts.take(n).map_values(|s: Stats| s.evictions as int),
        ) % 0x1_0000_0000_0000_0000,
    decreases n,
{
    let a = |s: Stats| s.hits as int;
    let b = |s: Stats| s.misses as int;
    let c = |s: Stats| s.insertions as int;
    let d = |s: Stats| s.evictions as int;
    let all = counts.take(n);
    if n > 0 {
        law_total_counts(counts, n - 1);
        let front = counts.take(n - 1);
        let last = counts[n - 1];
        assert(all.map_values(a) =~= front.map_values(a).push(last.hits as int));
        assert(all.map_values(b) =~= front.map_values(b).push(last.misses as int));
        assert(all.map_values(c) =~= front.map_values(c).push(last.insertions as int));
        assert(all.map_values(d) =~= front.map_values(d).push(last.evictions as int));
        lemma_sum_push(front.map_values(a), last.hits as int);
        lemma_sum_push(front.map_values(b), last.misses as int);
        lemma_sum_push(front.map_values(c), last.insertions as int);
        lemma_sum_push(front.map_values(d), last.evictions as int);
    } else {
        lemma_sum_push(Seq::empty(), 0);
        assert(all.map_values(a) =~= Seq::empty());
        assert(all.map_values(b) =~= Seq::empty());
        assert(all.map_values(c) =~= Seq::empty());
        assert(all.map_values(d) =~= Seq::empty());
    }
}

proof fn lemma_same_counts(a: Seq<Stats>, b: Seq<Stats>, n: int)
    requires
        0 <= n <= a.len(),
        n <= b.len(),
        forall|i: int| 0 <= i < n ==> #[trigger] a[i] == b[i],
    ensures
        total_counts(a, n) == total_counts(b, n),
    decreases n,
{
    if n > 0 {
        lemma_same_counts(a, b, n - 1);
    }
}

/// One read or insert in any shard is one read or insert of the whole cache.
pub proof fn law_one_more_call(counts: Seq<Stats>, i: int, n: int, yes: bool)
    requires
        0 <= i < n <= counts.len(),
    ensures
        total_counts(counts.update(i, counts[i].read(yes)), n) == total_counts(counts, n).read(yes),
        total_counts(counts.update(i, counts[i].inserted(yes)), n) == total_counts(
            counts,
            n,
        ).inserted(yes),
    decreases n,
{
    let r = counts.update(i, counts[i].read(yes));
    let w = counts.update(i, counts[i].inserted(yes));
    if i < n - 1 {
        law_one_more_call(counts, i, n - 1, yes);
    } else {
        lemma_same_counts(r, counts, n - 1);
        lemma_same_counts(w, counts, n - 1);
    }
}

/// The length of shards together is the sum of their lengths, and the same holds of their
/// capacities.
pub proof fn law_totals<K, V>(queues: Seq<Sieve<K, V>>, n: int)
    requires
        0 <= n <= queues.len(),
    ensures
        total_len(queues, n) == sum(queues.take(n).map_values(|q: Sieve<K, V>| q.len() as int)),
        total_capacity(queues, n) == sum(
            queues.take(n).map_values(|q: Sieve<K, V>| q.capacity as int),
        ),
    decreases n,
{
    let a = |q: Sieve<K, V>| q.len() as int;
    let b = |q: Sieve<K, V>| q.capacity as int;
    let all = queues.take(n);
    if n > 0 {
        law_totals(queues, n - 1);
        let front = queues.take(n - 1);
        let last = queues[n - 1];
        assert(all.map_values(a) =~= front.map_values(a).push(last.len() as int));
        assert(all.map_values(b) =~= front.map_values(b).push(last.capacity as int));
        lemma_sum_push(front.map_values(a), last.len() as int);
        lemma_sum_push(front.map_values(b), last.capacity as int);
    } else {
        lemma_sum_push(Seq::empty(), 0);
        assert(all.map_values(a) =~= Seq::empty());
        assert(all.map_values(b) =~= Seq::empty());
    }
}

proof fn lemma_some_shares(capacity: int, shards: int, n: int)
    requires
        0 < shards,
        0 <= capacity,
        0 <= n <= shards,
    ensures
        sum(Seq::new(n as nat, |i: int| share(capacity, shards, i))) == n * (capacity / shards)
            + if n < capacity % shards {
            n
        } else {
            capacity % shards
        },
    decreases n,
{
    let s = Seq::new(n as nat, |i: int| share(capacity, shards, i));
    if n > 0 {
        lemma_some_shares(capacity, shards, n - 1);
        let front = Seq::new((n - 1) as nat, |i: int| share(capacity, shards, i));
        assert(s =~= front.push(share(capacity, shards, n - 1)));
        lemma_sum_push(front, share(capacity, shards, n - 1));
        let each = capacity / shards;
        assert(n * each == (n - 1) * each + each) by (nonlinear_arith);
    } else {
        assert(s =~= Seq::empty());
        lemma_sum_push(Seq::empty(), 0);
        let each = capacity / shards;
        assert(n * each == 0) by (nonlinear_arith)
            requires
                n == 0,
        ;
    }
}

/// All shares together are the capacity. No two differ by more than one, and an earlier shard
/// has no less than a later one.
pub proof fn law_shares(capacity: int, shards: int)
    requires
        0 < shards,
        0 <= capacity,
    ensures
        sum(Seq::new(shards as nat, |i: int| share(capacity, shards, i))) == capacity,
        forall|i: int, j: int|
            0 <= i <= j < shards ==> #[trigger] share(capacity, shards, j) <= #[trigger] share(
                capacity,
                shards,
                i,
            ) <= share(capacity, shards, j) + 1,
{
    lemma_some_shares(capacity, shards, shards);
    vstd::arithmetic::div_mod::lemma_fundamental_div_mod(capacity, shards);
    vstd::arithmetic::div_mod::lemma_mod_bound(capacity, shards);
}

impl<S: CacheShard> ShardArray<S> {
    /// A read counts once for the whole cache, whichever shard it goes to; an insert does so
    /// too.
    pub proof fn law_counts(before: Self, key: S::Key, yes: bool, read: Self, written: Self)
        requires
            before.wf(),
            read.counts() == before.counts().update(
                before.route(key),
                before.counts()[before.route(key)].read(yes),
            ),
            written.counts() == before.counts().update(
                before.route(key),
                before.counts()[before.route(key)].inserted(yes),
            ),
        ensures
            total_counts(read.counts(), before.queues().len() as int) == total_counts(
                before.counts(),
                before.queues().len() as int,
            ).read(yes),
            total_counts(written.counts(), before.queues().len() as int) == total_counts(
                before.counts(),
                before.queues().len() as int,
            ).inserted(yes),
    {
        before.lemma_wf();
        assert(0 <= before.route(key) < before.queues().len());
        law_one_more_call(
            before.counts(),
            before.route(key),
            before.queues().len() as int,
            yes,
        );
    }
}

} // verus!
