//! Where each thread of a concurrent benchmark takes its keys from: a seed of its
//! own for a generator, or a slice of its own of a common trace, played round and
//! round.

use vstd::prelude::*;
use vstd::arithmetic::div_mod::{
    lemma_div_is_ordered, lemma_div_multiples_vanish, lemma_fundamental_div_mod, lemma_mod_bound,
    lemma_small_mod,
};

verus! {

/// What tells the generator of the insertions from that of the reads.
pub const INSERT_SEED: u64 = 0x00C0_FFEE_DEAD_BEEF;

/// The seed for the reads of thread `tid`.
pub fn read_seed(seed: u64, tid: u64) -> (s: u64)
    ensures
        s == seed ^ tid,
{
    seed ^ tid
}

/// The seed for the insertions of thread `tid`.
pub fn insert_seed(seed: u64, tid: u64) -> (s: u64)
    ensures
        s == (seed ^ tid) ^ INSERT_SEED,
{
    (seed ^ tid) ^ INSERT_SEED
}

/// Threads have different seeds, and the insertions of a thread a different one
/// from its reads.
pub proof fn law_seeds_differ(seed: u64, a: u64, b: u64)
    ensures
        a != b ==> seed ^ a != seed ^ b,
        a != b ==> (seed ^ a) ^ INSERT_SEED != (seed ^ b) ^ INSERT_SEED,
        (seed ^ a) ^ INSERT_SEED != seed ^ a,
{
    assert(a != b ==> seed ^ a != seed ^ b) by (bit_vector);
    assert(a != b ==> (seed ^ a) ^ 0x00C0_FFEE_DEAD_BEEFu64 != (seed ^ b) ^ 0x00C0_FFEE_DEAD_BEEFu64)
        by (bit_vector);
    assert((seed ^ a) ^ 0x00C0_FFEE_DEAD_BEEFu64 != seed ^ a) by (bit_vector);
}

/// Where the slice of thread `t` starts, of a trace of `n` keys for `threads`.
pub open spec fn slice_start(t: int, n: int, threads: int) -> int {
    (t * n) / threads
}

/// The slice of one thread. Its reads and its insertions each go round it.
#[derive(Clone, Copy, Debug, PartialEq, Eq, Structural)]
pub struct TraceFeed {
    pub start: usize,
    pub end: usize,
    pub pos_get: usize,
    pub pos_ins: usize,
}

fn boundary(t: usize, n: usize, threads: usize) -> (b: usize)
    requires
        t <= threads,
        threads > 0,
    ensures
        b == slice_start(t as int, n as int, threads as int),
        b <= n,
{
    proof {
        assert(t as int * n as int <= threads as int * n as int) by (nonlinear_arith)
            requires
                t <= threads,
                0 <= n,
        ;
        assert(0 <= t as int * n as int) by (nonlinear_arith);
        assert(t as int * n as int <= u64::MAX as int * u64::MAX as int) by (nonlinear_arith)
            requires
                0 <= t <= u64::MAX,
                0 <= n <= u64::MAX,
        ;
        lemma_div_is_ordered(t as int * n as int, threads as int * n as int, threads as int);
        lemma_div_multiples_vanish(n as int, threads as int);
        assert(threads as int * n as int == n as int * threads as int) by (nonlinear_arith);
    }
    let product: u128 = t as u128 * n as u128;
    (product / threads as u128) as usize
}

impl TraceFeed {
    /// What holds of every feed for a trace of `n` keys.
    pub open spec fn wf(self, n: int) -> bool {
        &&& self.start < self.end <= n
        &&& self.pos_get < self.end - self.start
        &&& self.pos_ins < self.end - self.start
    }

    /// The slice of thread `tid`, or `None` where there are too few keys for the
    /// thread to have any.
    pub fn build(tid: usize, n: usize, threads: usize) -> (r: Option<Self>)
        requires
            tid < threads,
        ensures
            ({
                let start = slice_start(tid as int, n as int, threads as int);
                let end = slice_start(tid + 1, n as int, threads as int);
                match r {
                    Some(f) => {
                        &&& f.wf(n as int)
                        &&& f.start == start
                        &&& f.end == end
                        &&& f.pos_get == 0
                        &&& f.pos_ins == 0
                    },
                    None => end <= start,
                }
            }),
    {
        let start = boundary(tid, n, threads);
        let end = boundary(tid + 1, n, threads);
        if end > start {
            Some(TraceFeed { start, end, pos_get: 0, pos_ins: 0 })
        } else {
            None
        }
    }

    /// The next key to read.
    pub fn next_get(&mut self, trace: &Vec<u64>) -> (k: u64)
        requires
            old(self).wf(trace@.len() as int),
        ensures
            final(self).wf(trace@.len() as int),
            k == trace@[old(self).start + old(self).pos_get],
            final(self).pos_get == (old(self).pos_get + 1) % (old(self).end - old(self).start),
            *final(self) == (TraceFeed { pos_get: final(self).pos_get, ..*old(self) }),
    {
        let k = trace[self.start + self.pos_get];
        self.pos_get = round(self.pos_get, self.end - self.start);
        k
    }

    /// The next key to insert.
    pub fn next_ins(&mut self, trace: &Vec<u64>) -> (k: u64)
        requires
            old(self).wf(trace@.len() as int),
        ensures
            final(self).wf(trace@.len() as int),
            k == trace@[old(self).start + old(self).pos_ins],
            final(self).pos_ins == (old(self).pos_ins + 1) % (old(self).end - old(self).start),
            *final(self) == (TraceFeed { pos_ins: final(self).pos_ins, ..*old(self) }),
    {
        let k = trace[self.start + self.pos_ins];
        self.pos_ins = round(self.pos_ins, self.end - self.start);
        k
    }
}

fn round(pos: usize, len: usize) -> (next: usize)
    requires
        pos < len,
    ensures
        next == (pos + 1) % (len as int),
        next < len,
{
    if pos + 1 == len {
        0
    } else {
        proof {
            lemma_small_mod((pos + 1) as nat, len as nat);
        }
        pos + 1
    }
}

/// The slices of the threads lie one behind the other and make up the trace.
pub proof fn law_slices_cover(t: int, n: int, threads: int)
    requires
        0 <= t < threads,
        0 <= n,
    ensures
        slice_start(0, n, threads) == 0,
        slice_start(threads, n, threads) == n,
        0 <= slice_start(t, n, threads) <= slice_start(t + 1, n, threads) <= n,
{
    assert(threads * n == n * threads) by (nonlinear_arith);
    assert(0 * n == 0);
    lemma_div_multiples_vanish(n, threads);
    lemma_slice_order(0, t, n, threads);
    lemma_slice_order(t, t + 1, n, threads);
    lemma_slice_order(t + 1, threads, n, threads);
}

proof fn lemma_slice_order(a: int, b: int, n: int, threads: int)
    requires
        a <= b,
        0 <= n,
        0 < threads,
    ensures
        slice_start(a, n, threads) <= slice_start(b, n, threads),
{
    assert(a * n <= b * n) by (nonlinear_arith)
        requires
            a <= b,
            0 <= n,
    ;
    lemma_div_is_ordered(a * n, b * n, threads);
}

/// The slices are cut where the even parts of the trace end, rounded down, so that no two
/// differ in length by more than one key.
pub proof fn law_even_slices(t: int, n: int, threads: int)
    requires
        0 <= t < threads,
        0 <= n,
    ensures
        threads * slice_start(t, n, threads) <= t * n < threads * (slice_start(t, n, threads) + 1),
        n / threads <= slice_start(t + 1, n, threads) - slice_start(t, n, threads) <= n / threads
            + 1,
{
    let a = t * n;
    let b = (t + 1) * n;
    assert(b == a + n) by (nonlinear_arith)
        requires
            a == t * n,
            b == (t + 1) * n,
    ;
    lemma_fundamental_div_mod(a, threads);
    lemma_fundamental_div_mod(b, threads);
    lemma_fundamental_div_mod(n, threads);
    lemma_mod_bound(a, threads);
    lemma_mod_bound(b, threads);
    lemma_mod_bound(n, threads);
    let x = a / threads;
    let y = b / threads;
    let z = n / threads;
    assert(threads * (x + 1) == threads * x + threads) by (nonlinear_arith);
    assert(z <= y - x <= z + 1) by (nonlinear_arith)
        requires
            threads > 0,
            b == a + n,
            a == threads * x + a % threads,
            b == threads * y + b % threads,
            n == threads * z + n % threads,
            0 <= a % threads < threads,
            0 <= b % threads < threads,
            0 <= n % threads < threads,
    ;
}

/// Every thread has a key where there are as many keys as threads.
pub proof fn law_enough_keys(t: int, n: int, threads: int)
    requires
        0 <= t < threads,
        threads <= n,
    ensures
        slice_start(t, n, threads) < slice_start(t + 1, n, threads),
{
    assert((t + 1) * n == t * n + n) by (nonlinear_arith);
    lemma_div_is_ordered(t * n + threads, (t + 1) * n, threads);
    assert((t * n + threads) / threads == (t * n) / threads + 1) by (nonlinear_arith)
        requires
            threads > 0,
    ;
}

/// The position after `k` steps round a slice of `len` keys.
pub open spec fn position_after(k: nat, len: int) -> int
    decreases k,
{
    if k == 0 {
        0
    } else {
        (position_after((k - 1) as nat, len) + 1) % len
    }
}

/// The reads go round the slice: the `k`-th key read is that at `k` modulo the
/// length.
pub proof fn law_round_robin(k: nat, len: int)
    requires
        0 < len,
    ensures
        position_after(k, len) == k as int % len,
    decreases k,
{
    if k == 0 {
        lemma_small_mod(0, len as nat);
    } else {
        law_round_robin((k - 1) as nat, len);
        vstd::arithmetic::div_mod::lemma_add_mod_noop_right(1, k - 1, len);
    }
}

} // verus!
