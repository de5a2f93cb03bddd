//! Caches of other crates, replayed with the same traces for comparison.
//!
//! Which entries such a cache keeps when it is full is its own affair: it admits and
//! evicts by estimated frequencies, and may do so at any call. What is known of it
//! here is that it holds nothing that was not put into it, that it finds what it
//! holds, and that it keeps everything for as long as there is room.
//!
//! A cache stands for its only handle: none of them is cloned here.

use vstd::prelude::*;
use vstd::seq_lib::seq_to_set_is_finite;
use vstd::set_lib::lemma_len_subset;
use std::collections::hash_map::RandomState;
use xxhash_rust::xxh3::Xxh3DefaultBuilder;

use crate::harness::replay::Tally;

verus! {

/// `moka::sync::Cache`.
#[verifier::external_type_specification]
#[verifier::external_body]
#[verifier::reject_recursive_types(K)]
#[verifier::reject_recursive_types(V)]
#[verifier::reject_recursive_types(S)]
pub struct ExMoka<K, V, S>(moka::sync::Cache<K, V, S>);

/// `mini_moka::sync::Cache`.
#[verifier::external_type_specification]
#[verifier::external_body]
#[verifier::reject_recursive_types(K)]
#[verifier::reject_recursive_types(V)]
#[verifier::reject_recursive_types(S)]
pub struct ExMiniMokaSync<K, V, S>(mini_moka::sync::Cache<K, V, S>);

/// `mini_moka::unsync::Cache`.
#[verifier::external_type_specification]
#[verifier::external_body]
#[verifier::reject_recursive_types(K)]
#[verifier::reject_recursive_types(V)]
#[verifier::reject_recursive_types(S)]
pub struct ExMiniMokaUnsync<K, V, S>(mini_moka::unsync::Cache<K, V, S>);

/// `xxhash_rust::xxh3::Xxh3DefaultBuilder`.
#[verifier::external_type_specification]
#[verifier::external_body]
pub struct ExXxh3DefaultBuilder(Xxh3DefaultBuilder);

/// No entry at all.
pub open spec fn nothing() -> Map<u64, u64> {
    Map::empty()
}

/// Whether every entry of `a` is one of `b`.
pub open spec fn within<K>(a: Map<K, u64>, b: Map<K, u64>) -> bool {
    forall|k: K| #[trigger] a.dom().contains(k) ==> b.dom().contains(k) && a[k] == b[k]
}

/// The value that `m` has under a key.
pub open spec fn held<K>(m: Map<K, u64>, key: K) -> Option<u64> {
    if m.dom().contains(key) {
        Some(m[key])
    } else {
        None
    }
}

/// Whether entries fit into a cache of `limit` entries.
pub open spec fn fits<K>(m: Map<K, u64>, limit: u64) -> bool {
    m.dom().finite() && m.dom().len() <= limit
}

/// What a moka cache holds.
pub uninterp spec fn moka_entries(c: moka::sync::Cache<u64, u64, RandomState>) -> Map<u64, u64>;

/// The number of entries that a moka cache was made for.
pub uninterp spec fn moka_limit(c: moka::sync::Cache<u64, u64, RandomState>) -> u64;

/// Whether nothing that was put into a moka cache has left it or was turned away.
pub uninterp spec fn moka_whole(c: moka::sync::Cache<u64, u64, RandomState>) -> bool;

/// Whether no read and no insertion waits in the logs of a moka cache.
pub uninterp spec fn moka_settled(c: moka::sync::Cache<u64, u64, RandomState>) -> bool;

/// `moka::sync::Cache::new`: an empty cache for `capacity` entries, each of which
/// counts as one. Its logs are empty.
#[verifier::external_body]
fn moka_new(capacity: u64) -> (cache: moka::sync::Cache<u64, u64, RandomState>)
    ensures
        moka_entries(cache) == nothing(),
        moka_limit(cache) == capacity,
        moka_whole(cache),
        moka_settled(cache),
{
    moka::sync::Cache::new(capacity)
}

/// `moka::sync::Cache::get`: the value held under the key. Entries may leave the cache,
/// none is added or changed; where all fit and none has left so far, none leaves.
#[verifier::external_body]
fn moka_get(c: &mut moka::sync::Cache<u64, u64, RandomState>, key: u64) -> (r: Option<u64>)
    ensures
        r == held(moka_entries(*old(c)), key),
        within(moka_entries(*final(c)), moka_entries(*old(c))),
        moka_limit(*final(c)) == moka_limit(*old(c)),
        moka_whole(*old(c)) && fits(moka_entries(*old(c)), moka_limit(*old(c)))
            ==> moka_whole(*final(c)) && moka_entries(*final(c)) == moka_entries(*old(c)),
{
    c.get(&key)
}

/// `moka::sync::Cache::insert`: the entry may be added, others may leave. Where all
/// fit with the new one and none has left so far, it is added and none leaves.
#[verifier::external_body]
fn moka_insert(c: &mut moka::sync::Cache<u64, u64, RandomState>, key: u64, value: u64)
    ensures
        within(moka_entries(*final(c)), moka_entries(*old(c)).insert(key, value)),
        moka_limit(*final(c)) == moka_limit(*old(c)),
        moka_whole(*old(c)) && fits(
            moka_entries(*old(c)).insert(key, value),
            moka_limit(*old(c)),
        ) ==> moka_whole(*final(c)) && moka_entries(*final(c)) == moka_entries(*old(c)).insert(
            key,
            value,
        ),
{
    c.insert(key, value);
}

/// `moka::sync::Cache::run_pending_tasks`: applies what waits in the logs. Entries may
/// leave the cache, none is added or changed; where all fit and none has left so far,
/// none leaves.
#[verifier::external_body]
fn moka_run_pending_tasks(c: &mut moka::sync::Cache<u64, u64, RandomState>)
    ensures
        moka_settled(*final(c)),
        within(moka_entries(*final(c)), moka_entries(*old(c))),
        moka_limit(*final(c)) == moka_limit(*old(c)),
        moka_whole(*old(c)) && fits(moka_entries(*old(c)), moka_limit(*old(c)))
            ==> moka_whole(*final(c)) && moka_entries(*final(c)) == moka_entries(*old(c)),
{
    c.run_pending_tasks();
}

/// What a mini-moka cache for several threads holds.
pub uninterp spec fn mini_sync_entries(
    c: mini_moka::sync::Cache<u64, u64, Xxh3DefaultBuilder>,
) -> Map<u64, u64>;

/// The number of entries that a mini-moka cache for several threads was made for.
pub uninterp spec fn mini_sync_limit(
    c: mini_moka::sync::Cache<u64, u64, Xxh3DefaultBuilder>,
) -> u64;

/// Whether nothing that was put into a mini-moka cache for several threads has left it or was
/// turned away.
pub uninterp spec fn mini_sync_whole(
    c: mini_moka::sync::Cache<u64, u64, Xxh3DefaultBuilder>,
) -> bool;

/// Whether no read and no insertion waits in the logs of a mini-moka cache for several
/// threads.
pub uninterp spec fn mini_sync_settled(
    c: mini_moka::sync::Cache<u64, u64, Xxh3DefaultBuilder>,
) -> bool;

/// `mini_moka::sync::CacheBuilder`, with a capacity and the XXH3 hasher alone: an
/// empty cache for `capacity` entries, each of which counts as one. Its logs are empty.
#[verifier::external_body]
fn mini_sync_new(capacity: u64) -> (cache: mini_moka::sync::Cache<u64, u64, Xxh3DefaultBuilder>)
    ensures
        mini_sync_entries(cache) == nothing(),
        mini_sync_limit(cache) == capacity,
        mini_sync_whole(cache),
        mini_sync_settled(cache),
{
    mini_moka::sync::Cache::builder().max_capacity(capacity).build_with_hasher(Xxh3DefaultBuilder)
}

/// `mini_moka::sync::Cache::get`: the value held under the key. Entries may leave
/// the cache, none is added or changed; where all fit and none has left so far, none
/// leaves.
#[verifier::external_body]
fn mini_sync_get(c: &mut mini_moka::sync::Cache<u64, u64, Xxh3DefaultBuilder>, key: u64) -> (r: Option<u64>)
    ensures
        r == held(mini_sync_entries(*old(c)), key),
        within(mini_sync_entries(*final(c)), mini_sync_entries(*old(c))),
        mini_sync_limit(*final(c)) == mini_sync_limit(*old(c)),
        mini_sync_whole(*old(c)) && fits(mini_sync_entries(*old(c)), mini_sync_limit(*old(c)))
            ==> mini_sync_whole(*final(c)) && mini_sync_entries(*final(c)) == mini_sync_entries(*old(c)),
{
    c.get(&key)
}

/// `mini_moka::sync::Cache::insert`: the entry may be added, others may leave. Where all
/// fit with the new one and none has left so far, it is added and none leaves.
#[verifier::external_body]
fn mini_sync_insert(c: &mut mini_moka::sync::Cache<u64, u64, Xxh3DefaultBuilder>, key: u64, value: u64)
    ensures
        within(mini_sync_entries(*final(c)), mini_sync_entries(*old(c)).insert(key, value)),
        mini_sync_limit(*final(c)) == mini_sync_limit(*old(c)),
        mini_sync_whole(*old(c)) && fits(
            mini_sync_entries(*old(c)).insert(key, value),
            mini_sync_limit(*old(c)),
        ) ==> mini_sync_whole(*final(c)) && mini_sync_entries(*final(c)) == mini_sync_entries(*old(c)).insert(
            key,
            value,
        ),
{
    c.insert(key, value);
}

/// `mini_moka::sync::ConcurrentCacheExt::sync`: applies what waits in the logs. Entries may
/// leave the cache, none is added or changed; where all fit and none has left so far,
/// none leaves.
#[verifier::external_body]
fn mini_sync_flush(c: &mut mini_moka::sync::Cache<u64, u64, Xxh3DefaultBuilder>)
    ensures
        mini_sync_settled(*final(c)),
        within(mini_sync_entries(*final(c)), mini_sync_entries(*old(c))),
        mini_sync_limit(*final(c)) == mini_sync_limit(*old(c)),
        mini_sync_whole(*old(c)) && fits(mini_sync_entries(*old(c)), mini_sync_limit(*old(c)))
            ==> mini_sync_whole(*final(c)) && mini_sync_entries(*final(c)) == mini_sync_entries(*old(c)),
{
    mini_moka::sync::ConcurrentCacheExt::sync(&*c);
}

/// What a mini-moka cache for one thread holds.
pub uninterp spec fn mini_unsync_entries(
    c: mini_moka::unsync::Cache<u64, u64, Xxh3DefaultBuilder>,
) -> Map<u64, u64>;

/// The number of entries that a mini-moka cache for one thread was made for.
pub uninterp spec fn mini_unsync_limit(
    c: mini_moka::unsync::Cache<u64, u64, Xxh3DefaultBuilder>,
) -> u64;

/// Whether nothing that was put into a mini-moka cache for one thread has left it or was
/// turned away.
pub uninterp spec fn mini_unsync_whole(
    c: mini_moka::unsync::Cache<u64, u64, Xxh3DefaultBuilder>,
) -> bool;

/// `mini_moka::unsync::CacheBuilder`, with a capacity and the XXH3 hasher alone: an
/// empty cache for `capacity` entries, each of which counts as one.
#[verifier::external_body]
fn mini_unsync_new(capacity: u64) -> (cache: mini_moka::unsync::Cache<u64, u64, Xxh3DefaultBuilder>)
    ensures
        mini_unsync_entries(cache) == nothing(),
        mini_unsync_limit(cache) == capacity,
        mini_unsync_whole(cache),
{
    mini_moka::unsync::Cache::builder().max_capacity(capacity).build_with_hasher(Xxh3DefaultBuilder)
}

/// `mini_moka::unsync::Cache::get`: the value held under the key. Entries may leave
/// the cache, none is added or changed; where all fit and none has left so far, none
/// leaves.
#[verifier::external_body]
fn mini_unsync_get(c: &mut mini_moka::unsync::Cache<u64, u64, Xxh3DefaultBuilder>, key: u64) -> (r: Option<u64>)
    ensures
        r == held(mini_unsync_entries(*old(c)), key),
        within(mini_unsync_entries(*final(c)), mini_unsync_entries(*old(c))),
        mini_unsync_limit(*final(c)) == mini_unsync_limit(*old(c)),
        mini_unsync_whole(*old(c)) && fits(mini_unsync_entries(*old(c)), mini_unsync_limit(*old(c)))
            ==> mini_unsync_whole(*final(c)) && mini_unsync_entries(*final(c)) == mini_unsync_entries(*old(c)),
{
    c.get(&key).copied()
}

/// `mini_moka::unsync::Cache::insert`: the entry may be added, others may leave. Where all
/// fit with the new one and none has left so far, it is added and none leaves.
#[verifier::external_body]
fn mini_unsync_insert(
    c: &mut mini_moka::unsync::Cache<u64, u64, Xxh3DefaultBuilder>,
    key: u64,
    value: u64,
)
    ensures
        within(mini_unsync_entries(*final(c)), mini_unsync_entries(*old(c)).insert(key, value)),
        mini_unsync_limit(*final(c)) == mini_unsync_limit(*old(c)),
        mini_unsync_whole(*old(c)) && fits(
            mini_unsync_entries(*old(c)).insert(key, value),
            mini_unsync_limit(*old(c)),
        ) ==> mini_unsync_whole(*final(c)) && mini_unsync_entries(*final(c)) == mini_unsync_entries(*old(c)).insert(
            key,
            value,
        ),
{
    c.insert(key, value);
}

/// One call on a cache: a read with its answer, or an entry that was offered.
pub enum RivalCall<K> {
    Read(K, bool),
    Store(K, u64),
}

/// A cache that may drop what it likes.
pub trait Rival: Sized {
    /// What the cache holds.
    spec fn entries(self) -> Map<u64, u64>;

    /// The number of entries that the cache was made for.
    spec fn limit(self) -> u64;

    /// Whether nothing that was put into the cache has left it or was turned away.
    spec fn whole(self) -> bool;

    /// Whether the cache has no outstanding work.
    spec fn settled(self) -> bool;

    /// The calls that were made on the cache.
    spec fn log(self) -> Seq<RivalCall<u64>>;

    /// An empty cache for `capacity` entries.
    fn new(capacity: usize) -> (cache: Self)
        ensures
            cache.entries() == nothing(),
            cache.limit() == capacity as u64,
            cache.whole(),
            cache.settled(),
            cache.log().len() == 0,
    ;

    /// Reads `key` and lets the cache do its outstanding work; tells whether the key
    /// was found.
    fn read(&mut self, key: u64) -> (hit: bool)
        ensures
            hit == old(self).entries().dom().contains(key),
            final(self).log() == old(self).log().push(RivalCall::Read(key, hit)),
            final(self).settled(),
            within(final(self).entries(), old(self).entries()),
            final(self).limit() == old(self).limit(),
            old(self).whole() && fits(old(self).entries(), old(self).limit())
                ==> final(self).whole() && final(self).entries() == old(self).entries(),
    ;

    /// Offers an entry to the cache and lets it do its outstanding work.
    fn store(&mut self, key: u64, value: u64)
        ensures
            final(self).log() == old(self).log().push(RivalCall::Store(key, value)),
            final(self).settled(),
            within(final(self).entries(), old(self).entries().insert(key, value)),
            final(self).limit() == old(self).limit(),
            old(self).whole() && fits(old(self).entries().insert(key, value), old(self).limit())
                ==> final(self).whole() && final(self).entries() == old(self).entries().insert(
                key,
                value,
            ),
    ;
}

/// moka, brought up to date after every operation.
pub struct Moka {
    inner: moka::sync::Cache<u64, u64, RandomState>,
    log: Ghost<Seq<RivalCall<u64>>>,
}

impl Rival for Moka {
    closed spec fn entries(self) -> Map<u64, u64> {
        moka_entries(self.inner)
    }

    closed spec fn limit(self) -> u64 {
        moka_limit(self.inner)
    }

    closed spec fn whole(self) -> bool {
        moka_whole(self.inner)
    }

    closed spec fn settled(self) -> bool {
        moka_settled(self.inner)
    }

    closed spec fn log(self) -> Seq<RivalCall<u64>> {
        self.log@
    }

    fn new(capacity: usize) -> (cache: Self) {
        Moka { inner: moka_new(capacity as u64), log: Ghost(Seq::empty()) }
    }

    fn read(&mut self, key: u64) -> (hit: bool) {
        let hit = moka_get(&mut self.inner, key).is_some();
        moka_run_pending_tasks(&mut self.inner);
        self.log = Ghost(self.log@.push(RivalCall::Read(key, hit)));
        hit
    }

    fn store(&mut self, key: u64, value: u64) {
        moka_insert(&mut self.inner, key, value);
        moka_run_pending_tasks(&mut self.inner);
        self.log = Ghost(self.log@.push(RivalCall::Store(key, value)));
    }
}

/// mini-moka for several threads, brought up to date after every operation.
pub struct MiniMokaSync {
    inner: mini_moka::sync::Cache<u64, u64, Xxh3DefaultBuilder>,
    log: Ghost<Seq<RivalCall<u64>>>,
}

impl Rival for MiniMokaSync {
    closed spec fn entries(self) -> Map<u64, u64> {
        mini_sync_entries(self.inner)
    }

    closed spec fn limit(self) -> u64 {
        mini_sync_limit(self.inner)
    }

    closed spec fn whole(self) -> bool {
        mini_sync_whole(self.inner)
    }

    closed spec fn settled(self) -> bool {
        mini_sync_settled(self.inner)
    }

    closed spec fn log(self) -> Seq<RivalCall<u64>> {
        self.log@
    }

    fn new(capacity: usize) -> (cache: Self) {
        MiniMokaSync { inner: mini_sync_new(capacity as u64), log: Ghost(Seq::empty()) }
    }

    fn read(&mut self, key: u64) -> (hit: bool) {
        let hit = mini_sync_get(&mut self.inner, key).is_some();
        mini_sync_flush(&mut self.inner);
        self.log = Ghost(self.log@.push(RivalCall::Read(key, hit)));
        hit
    }

    fn store(&mut self, key: u64, value: u64) {
        mini_sync_insert(&mut self.inner, key, value);
        mini_sync_flush(&mut self.inner);
        self.log = Ghost(self.log@.push(RivalCall::Store(key, value)));
    }
}

/// mini-moka for one thread. It keeps no log, so it has no outstanding work.
pub struct MiniMokaUnsync {
    inner: mini_moka::unsync::Cache<u64, u64, Xxh3DefaultBuilder>,
    log: Ghost<Seq<RivalCall<u64>>>,
}

impl Rival for MiniMokaUnsync {
    closed spec fn entries(self) -> Map<u64, u64> {
        mini_unsync_entries(self.inner)
    }

    closed spec fn limit(self) -> u64 {
        mini_unsync_limit(self.inner)
    }

    closed spec fn whole(self) -> bool {
        mini_unsync_whole(self.inner)
    }

    closed spec fn settled(self) -> bool {
        true
    }

    closed spec fn log(self) -> Seq<RivalCall<u64>> {
        self.log@
    }

    fn new(capacity: usize) -> (cache: Self) {
        MiniMokaUnsync { inner: mini_unsync_new(capacity as u64), log: Ghost(Seq::empty()) }
    }

    fn read(&mut self, key: u64) -> (hit: bool) {
        let hit = mini_unsync_get(&mut self.inner, key).is_some();
        self.log = Ghost(self.log@.push(RivalCall::Read(key, hit)));
        hit
    }

    fn store(&mut self, key: u64, value: u64) {
        mini_unsync_insert(&mut self.inner, key, value);
        self.log = Ghost(self.log@.push(RivalCall::Store(key, value)));
    }
}

/// The number of places of a trace whose key stood there before.
pub open spec fn repeats<K>(trace: Seq<K>) -> nat
    decreases trace.len(),
{
    if trace.len() == 0 {
        0
    } else {
        repeats(trace.drop_last()) + if trace.drop_last().contains(trace.last()) {
            1nat
        } else {
            0
        }
    }
}

/// What one key of a trace makes of the entries: where the key was held, others may leave;
/// where it was not, its entry may be added too.
pub open spec fn moved<K>(a: Map<K, u64>, b: Map<K, u64>, key: K, value: u64) -> bool {
    if a.dom().contains(key) {
        within(b, a)
    } else {
        within(b, a.insert(key, value))
    }
}

/// What a cache holds before and after each key of a trace.
pub open spec fn history<K>(h: Seq<Map<K, u64>>, trace: Seq<K>, values: Seq<u64>) -> bool {
    &&& h.len() == trace.len() + 1
    &&& forall|i: int|
        0 <= i < trace.len() ==> moved(#[trigger] h[i], h[i + 1], trace[i], values[i])
}

/// A trace as it is played: what the cache holds before and after each key, and whether
/// the read of each key found it.
pub open spec fn played<K>(
    h: Seq<Map<K, u64>>,
    answers: Seq<bool>,
    trace: Seq<K>,
    values: Seq<u64>,
) -> bool {
    &&& history(h, trace, values)
    &&& answers.len() == trace.len()
    &&& forall|i: int|
        0 <= i < trace.len() ==> #[trigger] answers[i] == h[i].dom().contains(trace[i])
}

/// The calls that a trace makes where the reads are answered so: one read for each key, and
/// an entry offered after each read that did not find its key.
pub open spec fn calls<K>(trace: Seq<K>, answers: Seq<bool>, values: Seq<u64>) -> Seq<RivalCall<K>>
    decreases trace.len(),
{
    if trace.len() == 0 {
        Seq::empty()
    } else {
        calls(trace.drop_last(), answers.drop_last(), values.drop_last()) + if answers.last() {
            seq![RivalCall::Read(trace.last(), true)]
        } else {
            seq![
                RivalCall::Read(trace.last(), false),
                RivalCall::Store(trace.last(), values.last()),
            ]
        }
    }
}

/// The number of answers that are yes.
pub open spec fn yeses(answers: Seq<bool>) -> nat
    decreases answers.len(),
{
    if answers.len() == 0 {
        0
    } else {
        yeses(answers.drop_last()) + if answers.last() {
            1nat
        } else {
            0
        }
    }
}

/// A trace of one key is read once, and its entry offered exactly where the read did not find
/// it. A longer trace makes the calls of its first part and then those of the rest.
pub proof fn law_calls<K>(
    k: K,
    v: u64,
    a: Seq<K>,
    b: Seq<K>,
    xa: Seq<bool>,
    xb: Seq<bool>,
    va: Seq<u64>,
    vb: Seq<u64>,
)
    requires
        a.len() == xa.len() == va.len(),
        b.len() == xb.len() == vb.len(),
    ensures
        calls(seq![k], seq![true], seq![v]) == seq![RivalCall::Read(k, true)],
        calls(seq![k], seq![false], seq![v]) == seq![
            RivalCall::Read(k, false),
            RivalCall::Store(k, v),
        ],
        calls(a + b, xa + xb, va + vb) == calls(a, xa, va) + calls(b, xb, vb),
    decreases b.len(),
{
    reveal_with_fuel(calls, 2);
    assert(seq![k].drop_last() =~= Seq::empty());
    assert(calls(seq![k], seq![true], seq![v]) =~= seq![RivalCall::Read(k, true)]);
    assert(calls(seq![k], seq![false], seq![v]) =~= seq![
        RivalCall::Read(k, false),
        RivalCall::Store(k, v),
    ]);
    if b.len() > 0 {
        law_calls(
            k,
            v,
            a,
            b.drop_last(),
            xa,
            xb.drop_last(),
            va,
            vb.drop_last(),
        );
        assert((a + b).drop_last() =~= a + b.drop_last());
        assert((xa + xb).drop_last() =~= xa + xb.drop_last());
        assert((va + vb).drop_last() =~= va + vb.drop_last());
        assert(calls(a + b, xa + xb, va + vb) =~= calls(a, xa, va) + calls(b, xb, vb));
    } else {
        assert(a + b =~= a);
        assert(xa + xb =~= xa);
        assert(va + vb =~= va);
        assert(calls(a, xa, va) + calls(b, xb, vb) =~= calls(a, xa, va));
    }
}

/// The answers that are yes are counted one by one.
pub proof fn law_yeses(a: Seq<bool>, b: Seq<bool>)
    ensures
        yeses(seq![true]) == 1,
        yeses(seq![false]) == 0,
        yeses(a + b) == yeses(a) + yeses(b),
    decreases b.len(),
{
    reveal_with_fuel(yeses, 2);
    assert(seq![true].drop_last() =~= Seq::empty());
    assert(seq![false].drop_last() =~= Seq::empty());
    if b.len() > 0 {
        law_yeses(a, b.drop_last());
        assert((a + b).drop_last() =~= a + b.drop_last());
    } else {
        assert(a + b =~= a);
    }
}

/// Every place of a trace holds a key for the first time or again.
pub proof fn law_repeats<K>(trace: Seq<K>)
    ensures
        repeats(trace) + trace.to_set().len() == trace.len(),
    decreases trace.len(),
{
    if trace.len() > 0 {
        let front = trace.drop_last();
        let n = trace.len() - 1;
        law_repeats(front);
        lemma_start(trace, n);
        assert(trace.take(n) =~= front);
        assert(trace.take(n + 1) =~= trace);
        if front.contains(trace.last()) {
            assert(trace.to_set() =~= front.to_set());
        }
    } else {
        assert(trace.to_set() =~= Set::empty());
    }
}

/// The calls of a trace tell how each of its reads was answered.
pub proof fn law_calls_tell_the_answers<K>(
    trace: Seq<K>,
    a: Seq<bool>,
    b: Seq<bool>,
    values: Seq<u64>,
)
    requires
        a.len() == trace.len(),
        b.len() == trace.len(),
        calls(trace, a, values) == calls(trace, b, values),
    ensures
        a == b,
    decreases trace.len(),
{
    if trace.len() > 0 {
        let front = trace.drop_last();
        let v = values.drop_last();
        let x = calls(trace, a, values);
        assert(x.last() is Read == a.last());
        assert(x.last() is Read == b.last());
        let n = if a.last() {
            1int
        } else {
            2
        };
        assert(calls(front, a.drop_last(), v) =~= x.take(x.len() - n));
        assert(calls(front, b.drop_last(), v) =~= x.take(x.len() - n));
        law_calls_tell_the_answers(front, a.drop_last(), b.drop_last(), v);
        assert(a =~= a.drop_last().push(a.last()));
        assert(b =~= b.drop_last().push(b.last()));
    }
}

/// One more key adds its calls and its answer.
pub proof fn lemma_played_on<K>(
    h: Seq<Map<K, u64>>,
    answers: Seq<bool>,
    trace: Seq<K>,
    values: Seq<u64>,
    key: K,
    value: u64,
    hit: bool,
    next: Map<K, u64>,
)
    requires
        played(h, answers, trace, values),
        values.len() == trace.len(),
        hit == h.last().dom().contains(key),
        moved(h.last(), next, key, value),
    ensures
        played(h.push(next), answers.push(hit), trace.push(key), values.push(value)),
        yeses(answers.push(hit)) == yeses(answers) + if hit {
            1nat
        } else {
            0
        },
        calls(trace.push(key), answers.push(hit), values.push(value)) == (if hit {
            calls(trace, answers, values).push(RivalCall::Read(key, true))
        } else {
            calls(trace, answers, values).push(RivalCall::Read(key, false)).push(
                RivalCall::Store(key, value),
            )
        }),
{
    let h2 = h.push(next);
    let t2 = trace.push(key);
    let a2 = answers.push(hit);
    let v2 = values.push(value);
    assert(t2.drop_last() =~= trace);
    assert(a2.drop_last() =~= answers);
    assert(v2.drop_last() =~= values);
    assert forall|i: int| 0 <= i < t2.len() implies moved(
        #[trigger] h2[i],
        h2[i + 1],
        t2[i],
        v2[i],
    ) by {
        if i < trace.len() {
            assert(h2[i] == h[i] && h2[i + 1] == h[i + 1]);
        }
    }
    assert forall|i: int| 0 <= i < t2.len() implies #[trigger] a2[i] == h2[i].dom().contains(
        t2[i],
    ) by {
        if i < trace.len() {
            assert(a2[i] == answers[i] && h2[i] == h[i] && t2[i] == trace[i]);
        }
    }
    assert(calls(t2, a2, v2) =~= if hit {
        calls(trace, answers, values).push(RivalCall::Read(key, true))
    } else {
        calls(trace, answers, values).push(RivalCall::Read(key, false)).push(
            RivalCall::Store(key, value),
        )
    });
}

/// The start of a trace has no more different keys than the trace.
pub proof fn lemma_start<K>(trace: Seq<K>, i: int)
    requires
        0 <= i <= trace.len(),
    ensures
        trace.take(i).to_set().finite(),
        trace.take(i).to_set().len() <= trace.to_set().len(),
        i < trace.len() ==> trace.take(i + 1).to_set() == trace.take(i).to_set().insert(trace[i]),
{
    let front = trace.take(i);
    seq_to_set_is_finite(trace);
    seq_to_set_is_finite(front);
    assert(front.to_set().subset_of(trace.to_set())) by {
        assert forall|k: K| front.to_set().contains(k) implies trace.to_set().contains(k) by {
            let j = choose|j: int| 0 <= j < front.len() && front[j] == k;
            assert(trace[j] == k);
        }
    }
    lemma_len_subset(front.to_set(), trace.to_set());
    if i < trace.len() {
        let next = trace.take(i + 1);
        assert(next =~= front.push(trace[i]));
        assert forall|k: K| next.to_set().contains(k) == front.to_set().insert(
            trace[i],
        ).contains(k) by {
            if next.contains(k) {
                let j = choose|j: int| 0 <= j < next.len() && next[j] == k;
                if j < i {
                    assert(front[j] == k);
                }
            }
            if front.contains(k) {
                let j = choose|j: int| 0 <= j < front.len() && front[j] == k;
                assert(next[j] == k);
            }
            assert(next[i] == trace[i]);
        }
        assert(next.to_set() =~= front.to_set().insert(trace[i]));
    }
}

/// Replays `trace` through `cache`: reads each key and stores it where it is
/// missing. Such a cache does not tell what it drops, so no eviction is counted.
/// A read hits exactly where the cache holds the key, and the calls on the cache are
/// those that the trace makes with these answers. The first read of a key never hits.
/// Where the cache has room for all keys of the trace, every later one does, and all keys
/// are cached in the end; where it has not, which keys it still holds is up to the cache.
pub fn replay_rival<R: Rival>(cache: &mut R, trace: &Vec<u64>) -> (t: Tally)
    requires
        old(cache).entries() == nothing(),
    ensures
        t.hits + t.misses == trace@.len(),
        t.evictions == 0,
        t.hits <= repeats(trace@),
        final(cache).limit() == old(cache).limit(),
        forall|k: u64| #[trigger] final(cache).entries().dom().contains(k) ==> trace@.contains(k),
        old(cache).whole() && trace@.to_set().len() <= old(cache).limit() ==> t.hits == repeats(
            trace@,
        ) && final(cache).entries().dom() == trace@.to_set(),
        old(cache).settled() ==> final(cache).settled(),
        exists|h: Seq<Map<u64, u64>>, answers: Seq<bool>| #[trigger]
            played(h, answers, trace@, trace@) && h[0] == nothing() && h.last()
                == final(cache).entries() && final(cache).log() == old(cache).log() + calls(
                trace@,
                answers,
                trace@,
            ) && t.hits == yeses(answers),
{
    let mut t = Tally::new();
    let mut i: usize = 0;
    let ghost roomy = cache.whole() && trace@.to_set().len() <= cache.limit();
    let ghost limit = cache.limit();
    let ghost mut h: Seq<Map<u64, u64>> = seq![cache.entries()];
    let ghost mut answers: Seq<bool> = Seq::empty();
    let ghost log = cache.log();
    assert(log + Seq::<RivalCall<u64>>::empty() =~= log);
    assert(trace@.take(0).to_set() =~= Set::empty());
    while i < trace.len()
        invariant
            i <= trace@.len(),
            t.hits + t.misses == i,
            t.evictions == 0,
            t.hits <= repeats(trace@.take(i as int)),
            cache.limit() == limit,
            old(cache).settled() ==> cache.settled(),
            played(h, answers, trace@.take(i as int), trace@.take(i as int)),
            h[0] == nothing(),
            h.last() == cache.entries(),
            log == old(cache).log(),
            cache.log() == log + calls(trace@.take(i as int), answers, trace@.take(i as int)),
            t.hits == yeses(answers),
            forall|k: u64| #[trigger]
                cache.entries().dom().contains(k) ==> trace@.take(i as int).contains(k),
            roomy ==> trace@.to_set().len() <= limit && cache.whole() && t.hits == repeats(
                trace@.take(i as int),
            ) && cache.entries().dom() == trace@.take(i as int).to_set(),
        decreases trace@.len() - i,
    {
        let k = trace[i];
        let ghost front = trace@.take(i as int);
        let ghost next = trace@.take(i + 1);
        let ghost before = cache.entries();
        proof {
            assert(next.drop_last() =~= front);
            assert(next =~= front.push(k));
            assert(next[i as int] == k);
            assert forall|x: u64| front.contains(x) implies #[trigger] next.contains(x) by {
                let j = choose|j: int| 0 <= j < front.len() && front[j] == x;
                assert(next[j] == x);
            }
            lemma_start(trace@, i as int);
            lemma_start(trace@, i + 1);
            if roomy {
                assert(before.dom().contains(k) == front.contains(k));
                assert(before.insert(k, k).dom() =~= next.to_set());
            }
        }
        let hit = cache.read(k);
        if hit {
            t.hit();
            proof {
                if roomy {
                    assert(next.to_set() =~= front.to_set());
                }
            }
        } else {
            cache.store(k, k);
            t.miss(false);
        }
        proof {
            lemma_played_on(h, answers, front, front, k, k, hit, cache.entries());
            assert(cache.log() =~= log + calls(next, answers.push(hit), next));
            h = h.push(cache.entries());
            answers = answers.push(hit);
        }
        i += 1;
    }
    assert(trace@.take(i as int) =~= trace@);
    t
}

} // verus!
