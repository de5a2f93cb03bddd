//! What a sharded cache asks of a shard.
use crate::hash::CacheKey;
use crate::model::{accepts, Sieve};
use crate::shift_shard::ids_without;
use crate::stats::Stats;
use crate::tag::MAX_PER_SHARD;
use vstd::prelude::*;

verus! {

/// A shard of a cache: a queue of at most 64 items, of which `put` says where a
/// new item goes.
pub trait CacheShard: Sized {
    type Key: CacheKey;

    type Value: Clone;

    spec fn wf(self) -> bool;

    /// The queue that the shard stands for.
    spec fn queue(self) -> Sieve<Self::Key, Self::Value>;

    /// The queue after an insert.
    spec fn put(
        before: Sieve<Self::Key, Self::Value>,
        key: Self::Key,
        value: Self::Value,
    ) -> Sieve<Self::Key, Self::Value>;

    /// Whether `key`, where it is cached, was stored under a hash that the shard cannot
    /// tell from `hash`.
    spec fn agrees(self, key: Self::Key, hash: u64) -> bool;

    /// The arena slots of the queued items, oldest first.
    spec fn ids(self) -> Seq<int>;

    /// The arena slots after an insert.
    spec fn put_ids(
        before: Sieve<Self::Key, Self::Value>,
        ids: Seq<int>,
        key: Self::Key,
    ) -> Seq<int>;

    /// The queue after a membership test.
    spec fn probed(before: Sieve<Self::Key, Self::Value>, key: Self::Key) -> Sieve<
        Self::Key,
        Self::Value,
    >;

    /// The traffic of the shard so far; a shard that does not count has none.
    spec fn counts(self) -> Stats;

    /// Whether shards of this type count their traffic.
    spec fn counting() -> bool;

    proof fn lemma_queue(self)
        requires
            self.wf(),
        ensures
            self.queue().wf(),
    ;

    proof fn lemma_put(
        before: Sieve<Self::Key, Self::Value>,
        key: Self::Key,
        value: Self::Value,
    )
        requires
            before.wf(),
        ensures
            accepts(before, key, value, Self::put(before, key, value)),
            Self::put(before, key, value).marked(key) == (before.lookup(key) is Some),
    ;

    proof fn lemma_probed(before: Sieve<Self::Key, Self::Value>, key: Self::Key)
        requires
            before.wf(),
        ensures
            Self::probed(before, key) == before || Self::probed(before, key) == before.touch(key),
    ;

    fn empty_shard(capacity: usize) -> (shard: Self)
        requires
            Self::Key::told_apart(),
            0 < capacity <= MAX_PER_SHARD,
        ensures
            shard.wf(),
            shard.queue() == Sieve::<Self::Key, Self::Value>::empty(capacity as nat),
            shard.counts() == Stats::none(),
            shard.ids() == Seq::<int>::empty(),
            forall|k: Self::Key, h: u64| #[trigger] shard.agrees(k, h),
    ;

    fn shard_capacity(&self) -> (n: usize)
        requires
            self.wf(),
        ensures
            n == self.queue().capacity,
    ;

    fn shard_len(&self) -> (n: usize)
        requires
            self.wf(),
        ensures
            n == self.queue().len(),
    ;

    fn shard_contains(&mut self, key: &Self::Key, hash: u64) -> (held: bool)
        requires
            old(self).wf(),
            old(self).agrees(*key, hash),
        ensures
            final(self).wf(),
            held == old(self).queue().holds(*key),
            final(self).queue() == Self::probed(old(self).queue(), *key),
            final(self).counts() == old(self).counts(),
            final(self).ids() == old(self).ids(),
            forall|k: Self::Key, h: u64|
                old(self).agrees(k, h) ==> #[trigger] final(self).agrees(k, h),
    ;

    fn shard_get(&mut self, key: &Self::Key, hash: u64) -> (value: Option<Self::Value>)
        requires
            old(self).wf(),
            old(self).agrees(*key, hash),
        ensures
            final(self).wf(),
            final(self).queue() == old(self).queue().touch(*key),
            read_of(old(self).queue().lookup(*key), value),
            final(self).counts() == (if Self::counting() {
                old(self).counts().read(old(self).queue().holds(*key))
            } else {
                old(self).counts()
            }),
            final(self).ids() == old(self).ids(),
            forall|k: Self::Key, h: u64|
                old(self).agrees(k, h) ==> #[trigger] final(self).agrees(k, h),
    ;

    fn shard_insert(&mut self, key: Self::Key, value: Self::Value, hash: u64) -> (evicted: Option<
        (Self::Key, Self::Value),
    >)
        requires
            old(self).wf(),
            old(self).agrees(key, hash),
        ensures
            final(self).wf(),
            final(self).queue() == Self::put(old(self).queue(), key, value),
            evicted == old(self).queue().displaced(key),
            final(self).counts() == (if Self::counting() {
                old(self).counts().inserted(old(self).queue().displaced(key) is Some)
            } else {
                old(self).counts()
            }),
            final(self).ids() == Self::put_ids(old(self).queue(), old(self).ids(), key),
            final(self).agrees(key, hash),
            forall|k: Self::Key, h: u64|
                k != key && old(self).agrees(k, h) ==> #[trigger] final(self).agrees(k, h),
    ;
}

/// A shard that counts its traffic.
pub trait CountingShard: CacheShard {
    fn shard_stats(&self) -> (stats: Stats)
        requires
            self.wf(),
        ensures
            stats == self.counts(),
    ;
}

/// A shard from which keys can be removed.
pub trait RemovingShard: CacheShard {
    fn shard_remove(&mut self, key: &Self::Key, hash: u64) -> (value: Option<Self::Value>)
        requires
            old(self).wf(),
            old(self).agrees(*key, hash),
        ensures
            final(self).wf(),
            final(self).queue() == old(self).queue().remove(*key),
            value == old(self).queue().lookup(*key),
            final(self).ids() == (if old(self).queue().holds(*key) {
                ids_without(old(self).ids(), old(self).queue().position(*key))
            } else {
                old(self).ids()
            }),
            forall|k: Self::Key, h: u64|
                old(self).agrees(k, h) ==> #[trigger] final(self).agrees(k, h),
    ;
}

/// Whether `read` is a clone of what is `cached`: nothing of nothing, and of a
/// value what its `clone` gives.
pub open spec fn read_of<V: Clone>(cached: Option<V>, read: Option<V>) -> bool {
    match cached {
        Some(v) => read matches Some(r) && cloned(v, r),
        None => read is None,
    }
}

/// A read of a cached number gives the number, and a read of nothing gives nothing.
pub proof fn law_numbers_read_back(cached: Option<u64>, read: Option<u64>)
    requires
        read_of(cached, read),
    ensures
        read == cached,
{
}

/// A read gives a value exactly where one is cached.
pub proof fn law_read_of<V: Clone>(cached: Option<V>, read: Option<V>)
    requires
        read_of(cached, read),
    ensures
        cached is Some <==> read is Some,
        read matches Some(r) ==> cloned(cached->0, r),
{
}

/// What an insert of `value` under `key` owes its caller: the key has the value
/// afterwards, what was pushed out was cached and is not any more, and no other key
/// changes.
pub open spec fn stored<K, V>(
    before: spec_fn(K) -> Option<V>,
    key: K,
    value: V,
    after: spec_fn(K) -> Option<V>,
    evicted: Option<(K, V)>,
) -> bool {
    &&& after(key) == Some(value)
    &&& before(key) is Some ==> evicted is None
    &&& match evicted {
        None => forall|k: K| k != key ==> #[trigger] after(k) == before(k),
        Some((k0, v0)) => {
            &&& k0 != key
            &&& before(k0) == Some(v0)
            &&& after(k0) is None
            &&& forall|k: K| k != key && k != k0 ==> #[trigger] after(k) == before(k)
        },
    }
}

/// An insert stores its value and costs at most one other key its place, the one that is
/// handed out with what was cached under it. Whatever else is cached was cached before, with
/// the same value.
pub proof fn law_stored<K, V>(
    before: spec_fn(K) -> Option<V>,
    key: K,
    value: V,
    after: spec_fn(K) -> Option<V>,
    evicted: Option<(K, V)>,
    other: K,
)
    requires
        stored(before, key, value, after, evicted),
    ensures
        after(key) == Some(value),
        other != key && after(other) is Some ==> after(other) == before(other),
        other != key && after(other) is None && before(other) is Some ==> evicted == Some(
            (other, before(other)->0),
        ),
        evicted matches Some(pair) ==> (pair.0 == other ==> other != key && before(other) == Some(
            pair.1,
        ) && after(other) is None && before(key) is None),
{
}

} // verus!
