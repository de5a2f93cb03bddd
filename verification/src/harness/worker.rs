//! One thread of a concurrent benchmark: which operations it makes, and what it
//! counts.

use vstd::prelude::*;
use vstd::arithmetic::div_mod::lemma_fundamental_div_mod;

use crate::totals::{lemma_sum_push, sum};

verus! {

/// The number of operations whose mean latency is taken together.
pub const CHUNK_OPS: usize = 1024;

/// Among the operations of a read-heavy mix, one in so many is an insertion.
pub const READ_HEAVY_INSERT_EVERY: usize = 20;

/// How reads and insertions are mixed.
#[derive(Clone, Copy, Debug, PartialEq, Eq, Structural)]
pub enum OpMix {
    /// Reads alone.
    ReadOnly,
    /// One insertion in twenty operations, the rest reads.
    ReadHeavy,
    /// Reads, and an insertion after each that misses.
    Gim,
}

impl OpMix {
    pub open spec fn name(self) -> Seq<char> {
        match self {
            OpMix::ReadOnly => "read-only"@,
            OpMix::ReadHeavy => "read-heavy"@,
            OpMix::Gim => "gim"@,
        }
    }

    pub fn as_str(self) -> (s: &'static str)
        ensures
            s@ == self.name(),
    {
        match self {
            OpMix::ReadOnly => "read-only",
            OpMix::ReadHeavy => "read-heavy",
            OpMix::Gim => "gim",
        }
    }
}

/// One operation.
#[derive(Clone, Copy, Debug, PartialEq, Eq, Structural)]
pub enum Op {
    /// Read the next key of the reads.
    Read,
    /// Read the next key of the reads, and insert it where it is missing.
    ReadOrInsert,
    /// Insert the next key of the insertions.
    Insert,
}

/// The operation number `i` of a mix.
pub open spec fn op_at(mix: OpMix, i: nat) -> Op {
    match mix {
        OpMix::ReadOnly => Op::Read,
        OpMix::ReadHeavy => if i % (READ_HEAVY_INSERT_EVERY as nat) == 0 {
            Op::Insert
        } else {
            Op::Read
        },
        OpMix::Gim => Op::ReadOrInsert,
    }
}

/// One call on a cache.
#[derive(Clone, Copy, Debug, PartialEq, Eq, Structural)]
pub enum Call {
    Read,
    Insert,
}

/// The calls that an operation makes, all with one key, where a read of it answers `hit`.
pub open spec fn calls_of(op: Op, hit: bool) -> Seq<Call> {
    match op {
        Op::Read => seq![Call::Read],
        Op::Insert => seq![Call::Insert],
        Op::ReadOrInsert => if hit {
            seq![Call::Read]
        } else {
            seq![Call::Read, Call::Insert]
        },
    }
}

/// The call with which an operation begins.
pub fn first_call(op: Op) -> (call: Call)
    ensures
        forall|hit: bool| #[trigger] calls_of(op, hit)[0] == call,
        call is Insert <==> op is Insert,
{
    match op {
        Op::Insert => Call::Insert,
        _ => Call::Read,
    }
}

/// Whether an operation whose read answered `hit` goes on to insert the key.
pub fn inserts_after(op: Op, hit: bool) -> (r: bool)
    ensures
        r == (op is ReadOrInsert && !hit),
        r == (calls_of(op, hit).len() == 2),
        r ==> calls_of(op, hit)[1] is Insert,
{
    match op {
        Op::ReadOrInsert => !hit,
        _ => false,
    }
}

/// The calls of a thread whose operation number `i` is answered `answers[i]`.
pub open spec fn calls(mix: OpMix, answers: Seq<bool>) -> Seq<Call>
    decreases answers.len(),
{
    if answers.len() == 0 {
        Seq::empty()
    } else {
        calls(mix, answers.drop_last()) + calls_of(
            op_at(mix, (answers.len() - 1) as nat),
            answers.last(),
        )
    }
}

/// How often `call` stands in a sequence of calls.
pub open spec fn times(cs: Seq<Call>, call: Call) -> nat
    decreases cs.len(),
{
    if cs.len() == 0 {
        0
    } else {
        times(cs.drop_last(), call) + if cs.last() == call {
            1nat
        } else {
            0
        }
    }
}

/// The number of answers that are no.
pub open spec fn misses(answers: Seq<bool>) -> nat
    decreases answers.len(),
{
    if answers.len() == 0 {
        0
    } else {
        misses(answers.drop_last()) + if answers.last() {
            0nat
        } else {
            1
        }
    }
}

proof fn lemma_times(cs: Seq<Call>, op: Op, hit: bool, call: Call)
    ensures
        times(cs + calls_of(op, hit), call) == times(cs, call) + times(calls_of(op, hit), call),
{
    reveal_with_fuel(times, 3);
    let more = calls_of(op, hit);
    assert((cs + more).drop_last() =~= cs + more.drop_last());
    if more.len() == 2 {
        assert((cs + more.drop_last()).drop_last() =~= cs);
        assert(more.drop_last().drop_last() =~= Seq::<Call>::empty());
        assert((cs + more).drop_last().drop_last() =~= cs);
    } else {
        assert(more.drop_last() =~= Seq::<Call>::empty());
        assert((cs + more).drop_last() =~= cs);
    }
}

/// With a mix that inserts after each miss, a thread reads once in every operation and
/// inserts exactly as often as a read misses.
pub proof fn law_inserts_are_misses(answers: Seq<bool>)
    ensures
        times(calls(OpMix::Gim, answers), Call::Read) == answers.len(),
        times(calls(OpMix::Gim, answers), Call::Insert) == misses(answers),
    decreases answers.len(),
{
    if answers.len() > 0 {
        let front = answers.drop_last();
        let hit = answers.last();
        law_inserts_are_misses(front);
        lemma_times(calls(OpMix::Gim, front), Op::ReadOrInsert, hit, Call::Read);
        lemma_times(calls(OpMix::Gim, front), Op::ReadOrInsert, hit, Call::Insert);
        reveal_with_fuel(times, 3);
        let more = calls_of(Op::ReadOrInsert, hit);
        if hit {
            assert(more.drop_last() =~= Seq::<Call>::empty());
        } else {
            assert(more.drop_last() =~= seq![Call::Read]);
            assert(more.drop_last().drop_last() =~= Seq::<Call>::empty());
        }
    }
}

/// The number of insertions without a read among the first `n` operations.
pub open spec fn inserts(mix: OpMix, n: nat) -> nat
    decreases n,
{
    if n == 0 {
        0
    } else {
        inserts(mix, (n - 1) as nat) + if op_at(mix, (n - 1) as nat) is Insert {
            1nat
        } else {
            0
        }
    }
}

/// A read-heavy mix holds one insertion for every twenty operations begun, the
/// other mixes none that no read asked for.
pub proof fn law_insert_share(mix: OpMix, n: nat)
    ensures
        inserts(mix, n) == if mix is ReadHeavy {
            (n + READ_HEAVY_INSERT_EVERY - 1) / (READ_HEAVY_INSERT_EVERY as int)
        } else {
            0
        },
    decreases n,
{
    if n > 0 {
        law_insert_share(mix, (n - 1) as nat);
    }
}

/// Of any twenty operations in a row of a read-heavy mix one is an insertion, the first of all
/// among them, and the others are reads. The other mixes make one kind of operation.
pub proof fn law_ops(mix: OpMix, i: nat)
    ensures
        op_at(OpMix::ReadOnly, i) is Read,
        op_at(OpMix::Gim, i) is ReadOrInsert,
        op_at(OpMix::ReadHeavy, 0) is Insert,
        op_at(OpMix::ReadHeavy, i + 20) == op_at(OpMix::ReadHeavy, i),
        0 < i < 20 ==> op_at(OpMix::ReadHeavy, i) is Read,
        mix is ReadHeavy ==> inserts(mix, i + 20) == inserts(mix, i) + 1,
{
    law_insert_share(mix, i);
    law_insert_share(mix, i + 20);
}

/// An operation without a read-or-insert makes one call; that with one makes a second call
/// exactly where its read missed, and it is an insertion.
pub proof fn law_calls(op: Op, hit: bool)
    ensures
        calls_of(Op::Read, hit) == seq![Call::Read],
        calls_of(Op::Insert, hit) == seq![Call::Insert],
        calls_of(op, hit).len() == if op is ReadOrInsert && !hit {
            2nat
        } else {
            1
        },
        op is ReadOrInsert ==> calls_of(op, hit)[0] is Read && (!hit ==> calls_of(op, hit)[1] is Insert),
{
}

/// A chunk is closed with every 1024th operation.
pub proof fn law_chunks(made: usize)
    ensures
        made % CHUNK_OPS == 0 <==> made % 1024 == 0,
{
}

/// The counts of the threads together are the sums of their counts.
pub proof fn law_sums(s: Seq<ThreadCount>)
    ensures
        sum_hits(s) == sum(s.map_values(|t: ThreadCount| t.hits as int)),
        sum_misses(s) == sum(s.map_values(|t: ThreadCount| t.misses as int)),
    decreases s.len(),
{
    let a = |t: ThreadCount| t.hits as int;
    let b = |t: ThreadCount| t.misses as int;
    if s.len() > 0 {
        let front = s.drop_last();
        law_sums(front);
        assert(s.map_values(a) =~= front.map_values(a).push(s.last().hits as int));
        assert(s.map_values(b) =~= front.map_values(b).push(s.last().misses as int));
        lemma_sum_push(front.map_values(a), s.last().hits as int);
        lemma_sum_push(front.map_values(b), s.last().misses as int);
    } else {
        lemma_sum_push(Seq::empty(), 0);
        assert(s.map_values(a) =~= Seq::empty());
        assert(s.map_values(b) =~= Seq::empty());
    }
}

/// What each of `threads` threads does of `total` operations.
pub fn per_thread(total: usize, threads: usize) -> (n: usize)
    requires
        threads > 0,
    ensures
        n == total / threads,
{
    total / threads
}

/// Where the threads divide the operations evenly, they make all of them.
pub proof fn law_threads_make_all(total: int, threads: int)
    requires
        threads > 0,
        total % threads == 0,
    ensures
        threads * (total / threads) == total,
{
    lemma_fundamental_div_mod(total, threads);
}

/// What a thread still has to do, and what it has counted.
pub struct Worker {
    pub mix: OpMix,
    pub ops: usize,
    pub made: usize,
    pub hits: u64,
    pub in_chunk: usize,
}

impl Worker {
    /// What holds of every worker.
    pub open spec fn wf(self) -> bool {
        &&& self.made <= self.ops
        &&& self.hits <= self.made
        &&& self.in_chunk == self.made % CHUNK_OPS
    }

    /// A worker that makes `ops` operations.
    pub fn new(mix: OpMix, ops: usize) -> (w: Self)
        ensures
            w.wf(),
            w == (Worker { mix, ops, made: 0, hits: 0, in_chunk: 0 }),
    {
        Worker { mix, ops, made: 0, hits: 0, in_chunk: 0 }
    }

    /// The next operation, or `None` where all are made.
    pub fn next_op(&self) -> (r: Option<Op>)
        requires
            self.wf(),
        ensures
            r == if self.made < self.ops {
                Some(op_at(self.mix, self.made as nat))
            } else {
                None
            },
    {
        if self.made < self.ops {
            Some(
                match self.mix {
                    OpMix::ReadOnly => Op::Read,
                    OpMix::ReadHeavy => if self.made % READ_HEAVY_INSERT_EVERY == 0 {
                        Op::Insert
                    } else {
                        Op::Read
                    },
                    OpMix::Gim => Op::ReadOrInsert,
                },
            )
        } else {
            None
        }
    }

    /// Notes that the next operation was made, and whether it was a read that found
    /// its key. Tells whether that closes a chunk.
    pub fn record(&mut self, hit: bool) -> (closed: bool)
        requires
            old(self).wf(),
            old(self).made < old(self).ops,
        ensures
            final(self).wf(),
            final(self).mix == old(self).mix,
            final(self).ops == old(self).ops,
            final(self).made == old(self).made + 1,
            final(self).hits == old(self).hits + if hit {
                1int
            } else {
                0
            },
            closed == (final(self).made % CHUNK_OPS == 0),
    {
        self.made += 1;
        if hit {
            self.hits += 1;
        }
        self.in_chunk += 1;
        if self.in_chunk == CHUNK_OPS {
            self.in_chunk = 0;
            true
        } else {
            false
        }
    }
}

/// What one thread reports.
#[derive(Clone, Copy, Debug, PartialEq, Eq, Structural)]
pub struct ThreadCount {
    pub elapsed_ns: u128,
    pub hits: u64,
    pub misses: u64,
}

/// The sum of the hits of the threads.
pub open spec fn sum_hits(s: Seq<ThreadCount>) -> nat
    decreases s.len(),
{
    if s.len() == 0 {
        0
    } else {
        sum_hits(s.drop_last()) + s.last().hits as nat
    }
}

/// The sum of the misses of the threads.
pub open spec fn sum_misses(s: Seq<ThreadCount>) -> nat
    decreases s.len(),
{
    if s.len() == 0 {
        0
    } else {
        sum_misses(s.drop_last()) + s.last().misses as nat
    }
}

/// The time of the slowest thread.
pub open spec fn slowest(s: Seq<ThreadCount>) -> nat
    decreases s.len(),
{
    if s.len() == 0 {
        0
    } else if s.last().elapsed_ns as nat > slowest(s.drop_last()) {
        s.last().elapsed_ns as nat
    } else {
        slowest(s.drop_last())
    }
}

proof fn lemma_sums_grow(s: Seq<ThreadCount>, i: int)
    requires
        0 <= i <= s.len(),
    ensures
        sum_hits(s.take(i)) <= sum_hits(s),
        sum_misses(s.take(i)) <= sum_misses(s),
    decreases s.len() - i,
{
    if i < s.len() {
        lemma_sums_grow(s, i + 1);
        assert(s.take(i + 1).drop_last() =~= s.take(i));
    } else {
        assert(s.take(i) =~= s);
    }
}

/// The threads together: the time of the slowest, the sums of the counts.
pub fn aggregate(threads: &Vec<ThreadCount>) -> (r: ThreadCount)
    requires
        sum_hits(threads@) <= u64::MAX,
        sum_misses(threads@) <= u64::MAX,
    ensures
        r.elapsed_ns == slowest(threads@),
        r.hits == sum_hits(threads@),
        r.misses == sum_misses(threads@),
{
    let mut r = ThreadCount { elapsed_ns: 0, hits: 0, misses: 0 };
    let mut i: usize = 0;
    while i < threads.len()
        invariant
            i <= threads@.len(),
            sum_hits(threads@) <= u64::MAX,
            sum_misses(threads@) <= u64::MAX,
            r.elapsed_ns == slowest(threads@.take(i as int)),
            r.hits == sum_hits(threads@.take(i as int)),
            r.misses == sum_misses(threads@.take(i as int)),
        decreases threads@.len() - i,
    {
        let t = threads[i];
        proof {
            assert(threads@.take(i + 1).drop_last() =~= threads@.take(i as int));
            assert(threads@.take(i + 1).last() == t);
            lemma_sums_grow(threads@, i + 1);
        }
        if t.elapsed_ns > r.elapsed_ns {
            r.elapsed_ns = t.elapsed_ns;
        }
        r.hits = r.hits + t.hits;
        r.misses = r.misses + t.misses;
        i += 1;
    }
    assert(threads@.take(i as int) =~= threads@);
    r
}

/// No thread takes longer than the slowest, and where there is any, one takes
/// just as long.
pub proof fn law_slowest(s: Seq<ThreadCount>)
    ensures
        forall|i: int| 0 <= i < s.len() ==> (#[trigger] s[i]).elapsed_ns as nat <= slowest(s),
        s.len() > 0 ==> exists|i: int|
            0 <= i < s.len() && (#[trigger] s[i]).elapsed_ns as nat == slowest(s),
    decreases s.len(),
{
    if s.len() > 0 {
        let front = s.drop_last();
        law_slowest(front);
        assert forall|i: int| 0 <= i < s.len() implies (#[trigger] s[i]).elapsed_ns as nat
            <= slowest(s) by {
            if i < s.len() - 1 {
                assert(front[i] == s[i]);
            }
        }
        if s.last().elapsed_ns as nat > slowest(front) {
            assert(s[s.len() - 1].elapsed_ns as nat == slowest(s));
        } else if front.len() > 0 {
            let i = choose|i: int|
                0 <= i < front.len() && (#[trigger] front[i]).elapsed_ns as nat == slowest(front);
            assert(s[i] == front[i]);
        } else {
            assert(s[0].elapsed_ns as nat == slowest(s));
        }
    }
}

} // verus!
