//! Key streams for one shard.
use vstd::prelude::*;

verus! {

/// The stream of one hot key.
pub struct AdversarialHot;

impl AdversarialHot {
    /// The next key: always zero.
    pub fn next(&mut self) -> (key: Option<u64>)
        ensures
            key == Some(0u64),
    {
        Some(0)
    }
}

/// The stream of a thread that goes round a range of its own.
pub struct UniformDisjoint {
    cursor: u64,
    start: u64,
    end: u64,
}

/// The number of keys of each thread's range: the keys divided by the threads, rounded
/// up.
pub open spec fn span_of(threads: u64, total_keys: u64) -> int {
    (total_keys + threads - 1) / (threads as int)
}

impl UniformDisjoint {
    /// The first key of the range.
    pub closed spec fn first(self) -> int {
        self.start as int
    }

    /// The end of the range.
    pub closed spec fn end_key(self) -> int {
        self.end as int
    }

    /// The key that comes next.
    pub closed spec fn upcoming(self) -> int {
        self.cursor as int
    }

    pub open spec fn wf(self) -> bool {
        0 <= self.first() <= self.upcoming() < self.end_key() <= u64::MAX
    }

    /// The stream of thread `tid` of `threads` over `total_keys` keys: its range is as long as
    /// that of every other thread, and so may end behind the last of the keys.
    pub fn new(tid: u64, threads: u64, total_keys: u64) -> (stream: Self)
        requires
            threads > 0,
            total_keys > 0,
            (tid + 1) * span_of(threads, total_keys) <= u64::MAX,
        ensures
            stream.wf(),
            stream.first() == tid * span_of(threads, total_keys),
            stream.upcoming() == stream.first(),
            stream.end_key() == (tid + 1) * span_of(threads, total_keys),
    {
        let span: u64 = if total_keys % threads == 0 {
            total_keys / threads
        } else {
            assert(total_keys / threads < u64::MAX) by (nonlinear_arith)
                requires
                    threads > 1,
                    total_keys <= u64::MAX,
            ;
            total_keys / threads + 1
        };
        proof {
            lemma_span(threads, total_keys, span);
            assert(tid + 1 <= (tid + 1) * span) by (nonlinear_arith)
                requires
                    span >= 1,
            ;
            assert((tid + 1) * span == tid * span + span) by (nonlinear_arith);
            assert(tid * span >= 0) by (nonlinear_arith);
        }
        let start: u64 = tid * span;
        let end: u64 = (tid + 1) * span;
        UniformDisjoint { cursor: start, start, end }
    }

    /// The next key; behind the end of the range, its first.
    pub fn next(&mut self) -> (key: Option<u64>)
        requires
            old(self).wf(),
        ensures
            final(self).wf(),
            key == Some(old(self).upcoming() as u64),
            final(self).first() == old(self).first(),
            final(self).end_key() == old(self).end_key(),
            final(self).upcoming() == (if old(self).upcoming() + 1 < old(self).end_key() {
                old(self).upcoming() + 1
            } else {
                old(self).first()
            }),
    {
        let k: u64 = self.cursor;
        self.cursor = k + 1;
        if self.cursor >= self.end {
            self.cursor = self.start;
        }
        Some(k)
    }

    /// The key that a stream at `upcoming` gives after `n` more keys.
    pub open spec fn after(self, n: int) -> int {
        self.first() + (self.upcoming() - self.first() + n) % (self.end_key() - self.first())
    }

    /// One step moves the stream by one.
    pub proof fn law_step(self, next: Self, n: int)
        requires
            self.wf(),
            n >= 0,
            next.first() == self.first(),
            next.end_key() == self.end_key(),
            next.upcoming() == (if self.upcoming() + 1 < self.end_key() {
                self.upcoming() + 1
            } else {
                self.first()
            }),
        ensures
            next.after(n) == self.after(n + 1),
            self.after(0) == self.upcoming(),
    {
        let len = self.end_key() - self.first();
        let at = self.upcoming() - self.first();
        vstd::arithmetic::div_mod::lemma_small_mod(at as nat, len as nat);
        if self.upcoming() + 1 >= self.end_key() {
            assert(at + 1 == len);
            vstd::arithmetic::div_mod::lemma_mod_add_multiples_vanish(n, len);
            assert(at + (n + 1) == len + n);
        }
    }

    /// The stream repeats itself with the length of its range, and stays in it.
    pub proof fn law_cycle(self, n: int)
        requires
            self.wf(),
            n >= 0,
        ensures
            self.after(n + (self.end_key() - self.first())) == self.after(n),
            self.first() <= self.after(n) < self.end_key(),
    {
        let len = self.end_key() - self.first();
        let at = self.upcoming() - self.first();
        vstd::arithmetic::div_mod::lemma_mod_add_multiples_vanish(at + n, len);
        vstd::arithmetic::div_mod::lemma_mod_bound(at + n, len);
        assert(at + (n + len) == len + (at + n));
    }
}

proof fn lemma_span(threads: u64, total_keys: u64, span: u64)
    requires
        threads > 0,
        total_keys > 0,
        span == (if total_keys % threads == 0 {
            (total_keys / threads) as int
        } else {
            total_keys / threads + 1
        }),
    ensures
        span == span_of(threads, total_keys),
        span >= 1,
{
    let t = threads as int;
    let n = total_keys as int;
    let q = n / t;
    let r = n % t;
    vstd::arithmetic::div_mod::lemma_fundamental_div_mod(n, t);
    assert(n == t * q + r && 0 <= r < t) by (nonlinear_arith)
        requires
            n == t * (n / t) + n % t,
            q == n / t,
            r == n % t,
            t > 0,
    ;
    if r == 0 {
        vstd::arithmetic::div_mod::lemma_fundamental_div_mod_converse(n + t - 1, t, q, t - 1);
        assert(q >= 1) by (nonlinear_arith)
            requires
                n == t * q + r,
                r == 0,
                n > 0,
                t > 0,
        ;
    } else {
        assert(n + t - 1 == t * (q + 1) + (r - 1)) by (nonlinear_arith)
            requires
                n == t * q + r,
        ;
        vstd::arithmetic::div_mod::lemma_fundamental_div_mod_converse(n + t - 1, t, q + 1, r - 1);
        assert(q >= 0) by (nonlinear_arith)
            requires
                q == n / t,
                n > 0,
                t > 0,
        ;
    }
}

/// Two threads have no key in common.
pub proof fn law_disjoint(a: u64, b: u64, threads: u64, total_keys: u64, key: int)
    requires
        threads > 0,
        total_keys > 0,
        a != b,
        a * span_of(threads, total_keys) <= key < (a + 1) * span_of(
            threads,
            total_keys,
        ),
    ensures
        !(b * span_of(threads, total_keys) <= key < (b + 1) * span_of(threads, total_keys)),
{
    let span = span_of(threads, total_keys);
    assert(span >= 1) by (nonlinear_arith)
        requires
            span == (total_keys + threads - 1) / (threads as int),
            threads > 0,
            total_keys > 0,
    ;
    if a < b {
        assert((a + 1) * span <= b * span) by (nonlinear_arith)
            requires
                a + 1 <= b,
                span >= 1,
        ;
    } else {
        assert((b + 1) * span <= a * span) by (nonlinear_arith)
            requires
                b + 1 <= a,
                span >= 1,
        ;
    }
}

/// Together the threads cover every key.
pub proof fn law_cover(threads: u64, total_keys: u64, key: int) -> (tid: int)
    requires
        threads > 0,
        0 <= key < total_keys,
    ensures
        0 <= tid < threads,
        tid * span_of(threads, total_keys) <= key,
        key < (tid + 1) * span_of(threads, total_keys),
{
    let span = span_of(threads, total_keys);
    let t = threads as int;
    let n = total_keys as int;
    assert(span >= 1 && span * t >= n) by (nonlinear_arith)
        requires
            span == (n + t - 1) / t,
            t > 0,
            n > 0,
    ;
    let tid = key / span;
    vstd::arithmetic::div_mod::lemma_fundamental_div_mod(key, span);
    assert(tid * span <= key < (tid + 1) * span) by (nonlinear_arith)
        requires
            key == span * (key / span) + key % span,
            0 <= key % span < span,
            tid == key / span,
    ;
    assert(0 <= tid < t) by (nonlinear_arith)
        requires
            tid * span <= key < (tid + 1) * span,
            0 <= key < n,
            span * t >= n,
            span >= 1,
    ;
    tid
}

/// The ranges are as short as they can be: all together hold the keys, and with one key less
/// in each they would not.
pub proof fn law_span(threads: u64, total_keys: u64)
    requires
        threads > 0,
    ensures
        threads * span_of(threads, total_keys) >= total_keys,
        total_keys > 0 ==> threads * (span_of(threads, total_keys) - 1) < total_keys,
{
    let span = span_of(threads, total_keys);
    let t = threads as int;
    let n = total_keys as int;
    assert(t * span >= n && (n > 0 ==> t * (span - 1) < n)) by (nonlinear_arith)
        requires
            span == (n + t - 1) / t,
            t > 0,
            n >= 0,
    ;
}

} // verus!
