//! A cache made of shards.
//!
//! The capacity is spread over the shards as evenly as it goes, and the low bits
//! of a key's hash say which shard the key belongs to.
use crate::hash::{hash_key, key_hash, shard_index, shard_of_hash, CacheKey};
use crate::model::Sieve;
use crate::shift_shard::ids_without;
use crate::shard::{read_of, stored, CacheShard, CountingShard, RemovingShard};
use crate::stats::Stats;
use crate::tag::MAX_PER_SHARD;
use vstd::prelude::*;

verus! {

/// The shards of a cache. Their number is `mask + 1`.
pub struct ShardArray<S> {
    shards: Vec<S>,
    mask: usize,
}

/// Whether a number of shards can be selected by a bit mask.
pub open spec fn is_shard_count(shards: usize) -> bool {
    shards > 0 && shards & ((shards - 1) as usize) == 0
}

/// The part of `capacity` that falls to shard `i` of `shards`.
pub open spec fn share(capacity: int, shards: int, i: int) -> int {
    capacity / shards + if i < capacity % shards {
        1int
    } else {
        0
    }
}

/// The capacities of the first `n` queues together.
pub open spec fn total_capacity<K, V>(queues: Seq<Sieve<K, V>>, n: int) -> int
    decreases n,
{
    if n <= 0 {
        0
    } else {
        total_capacity(queues, n - 1) + queues[n - 1].capacity
    }
}

/// The lengths of the first `n` queues together.
pub open spec fn total_len<K, V>(queues: Seq<Sieve<K, V>>, n: int) -> int
    decreases n,
{
    if n <= 0 {
        0
    } else {
        total_len(queues, n - 1) + queues[n - 1].len()
    }
}

proof fn lemma_totals<K, V>(queues: Seq<Sieve<K, V>>, n: int)
    requires
        0 <= n <= queues.len(),
        forall|i: int| 0 <= i < queues.len() ==> (#[trigger] queues[i]).wf(),
    ensures
        0 <= total_len(queues, n) <= total_capacity(queues, n) <= total_capacity(
            queues,
            queues.len() as int,
        ),
    decreases queues.len() - n, n,
{
    lemma_prefix_totals(queues, n);
    if n < queues.len() {
        lemma_totals(queues, n + 1);
        assert(queues[n].wf());
    }
}

proof fn lemma_prefix_totals<K, V>(queues: Seq<Sieve<K, V>>, n: int)
    requires
        0 <= n <= queues.len(),
        forall|i: int| 0 <= i < queues.len() ==> (#[trigger] queues[i]).wf(),
    ensures
        0 <= total_len(queues, n) <= total_capacity(queues, n),
    decreases n,
{
    if n > 0 {
        lemma_prefix_totals(queues, n - 1);
        assert(queues[n - 1].wf());
    }
}

/// All shares together are the capacity.
proof fn lemma_shares<K, V>(queues: Seq<Sieve<K, V>>, capacity: int, shards: int, n: int)
    requires
        0 < shards,
        0 <= capacity,
        0 <= n <= shards,
        n <= queues.len(),
        forall|i: int|
            0 <= i < n ==> (#[trigger] queues[i]).capacity == share(capacity, shards, i),
    ensures
        total_capacity(queues, n) == n * (capacity / shards) + if n < capacity % shards {
            n
        } else {
            capacity % shards
        },
        total_capacity(queues, n) <= capacity,
        n == shards ==> total_capacity(queues, n) == capacity,
    decreases n,
{
    let base = capacity / shards;
    let extra = capacity % shards;
    assert(shards * base + extra == capacity && 0 <= extra < shards && 0 <= base)
        by (nonlinear_arith)
        requires
            0 < shards,
            0 <= capacity,
            base == capacity / shards,
            extra == capacity % shards,
    ;
    if n > 0 {
        lemma_shares(queues, capacity, shards, n - 1);
        assert(queues[n - 1].capacity == share(capacity, shards, n - 1));
        assert(n * base == (n - 1) * base + base) by (nonlinear_arith);
    } else {
        assert(0 * base == 0);
    }
    assert(n * base <= shards * base) by (nonlinear_arith)
        requires
            n <= shards,
            0 <= base,
    ;
}

impl<S: CacheShard> ShardArray<S> {
    /// The queues of the shards.
    pub closed spec fn queues(self) -> Seq<Sieve<S::Key, S::Value>> {
        Seq::new(self.shards@.len(), |i: int| self.shards@[i].queue())
    }

    /// The traffic of each shard.
    pub closed spec fn counts(self) -> Seq<Stats> {
        Seq::new(self.shards@.len(), |i: int| self.shards@[i].counts())
    }

    /// The arena slots of the items of each shard.
    pub closed spec fn ids(self) -> Seq<Seq<int>> {
        Seq::new(self.shards@.len(), |i: int| self.shards@[i].ids())
    }

    pub closed spec fn selector(self) -> usize {
        self.mask
    }

    /// The number of the shard that `key` belongs to.
    pub open spec fn route(self, key: S::Key) -> int {
        shard_index(key_hash(key), self.selector()) as int
    }

    /// The value cached under `key`.
    pub open spec fn lookup(self, key: S::Key) -> Option<S::Value> {
        self.queues()[self.route(key)].lookup(key)
    }

    pub open spec fn spec_capacity(self) -> int {
        total_capacity(self.queues(), self.queues().len() as int)
    }

    pub open spec fn spec_len(self) -> int {
        total_len(self.queues(), self.queues().len() as int)
    }

    /// Each shard is well formed and every key stands in the shard it belongs to.
    pub closed spec fn wf(self) -> bool {
        &&& self.shards@.len() == self.mask + 1
        &&& self.spec_capacity() <= usize::MAX
        &&& forall|i: int| 0 <= i < self.shards@.len() ==> (#[trigger] self.shards@[i]).wf()
        &&& forall|i: int, key: S::Key|
            0 <= i < self.shards@.len() ==> #[trigger] self.shards@[i].agrees(key, key_hash(key))
        &&& forall|i: int, key: S::Key|
            0 <= i < self.queues().len() && #[trigger] self.queues()[i].holds(key)
                ==> self.route(key) == i
    }

    /// A key routes to a shard that is there, and each queue is well formed.
    pub proof fn lemma_wf(self)
        requires
            self.wf(),
        ensures
            self.queues().len() == self.selector() + 1,
            self.counts().len() == self.queues().len(),
            self.ids().len() == self.queues().len(),
            forall|i: int| 0 <= i < self.queues().len() ==> (#[trigger] self.queues()[i]).wf(),
            forall|key: S::Key| 0 <= #[trigger] self.route(key) < self.queues().len(),
            forall|i: int, key: S::Key|
                0 <= i < self.queues().len() && #[trigger] self.queues()[i].holds(key)
                    ==> self.route(key) == i,
            0 <= self.spec_len() <= self.spec_capacity() <= usize::MAX,
    {
        assert forall|i: int| 0 <= i < self.queues().len() implies (#[trigger] self.queues()[i]).wf() by {
            self.shards@[i].lemma_queue();
        }
        assert forall|key: S::Key| 0 <= #[trigger] self.route(key) < self.queues().len() by {
            let h = key_hash(key) as usize;
            let m = self.mask;
            assert(h & m <= m) by (bit_vector);
        }
        lemma_totals(self.queues(), self.queues().len() as int);
    }

    /// An empty cache of `capacity` items in `shards` shards.
    pub fn new(capacity: usize, shards: usize) -> (cache: Self)
        requires
            S::Key::told_apart(),
            is_shard_count(shards),
            shards <= capacity,
            share(capacity as int, shards as int, 0) <= MAX_PER_SHARD,
        ensures
            cache.wf(),
            cache.queues().len() == shards,
            cache.spec_capacity() == capacity,
            cache.spec_len() == 0,
            forall|i: int|
                0 <= i < shards ==> #[trigger] cache.queues()[i] == Sieve::<
                    S::Key,
                    S::Value,
                >::empty(share(capacity as int, shards as int, i) as nat),
            forall|key: S::Key| #[trigger] cache.lookup(key) is None,
            cache.counts().len() == shards,
            forall|i: int| 0 <= i < shards ==> #[trigger] cache.counts()[i] == Stats::none(),
            cache.ids().len() == shards,
            forall|i: int| 0 <= i < shards ==> #[trigger] cache.ids()[i] == Seq::<int>::empty(),
    {
        let base: usize = capacity / shards;
        let extra: usize = capacity % shards;
        assert(base >= 1) by (nonlinear_arith)
            requires
                base == capacity / shards,
                0 < shards <= capacity,
        ;
        let mut list: Vec<S> = Vec::with_capacity(shards);
        let mut i: usize = 0;
        while i < shards
            invariant
                S::Key::told_apart(),
                0 < shards <= capacity,
                base == capacity / shards,
                extra == capacity % shards,
                base >= 1,
                share(capacity as int, shards as int, 0) <= MAX_PER_SHARD,
                list@.len() == i <= shards,
                forall|j: int|
                    0 <= j < i ==> (#[trigger] list@[j]).wf() && list@[j].queue() == Sieve::<
                        S::Key,
                        S::Value,
                    >::empty(share(capacity as int, shards as int, j) as nat),
                forall|j: int| 0 <= j < i ==> (#[trigger] list@[j]).counts() == Stats::none(),
                forall|j: int| 0 <= j < i ==> (#[trigger] list@[j]).ids() == Seq::<int>::empty(),
                forall|j: int, k: S::Key, h: u64| 0 <= j < i ==> #[trigger] list@[j].agrees(k, h),
            decreases shards - i,
        {
            assert(base + 1 <= usize::MAX) by (nonlinear_arith)
                requires
                    base == capacity / shards,
                    0 < shards,
                    share(capacity as int, shards as int, 0) <= MAX_PER_SHARD,
                    capacity / shards <= share(capacity as int, shards as int, 0),
            ;
            let cap_i: usize = if i < extra {
                base + 1
            } else {
                base
            };
            list.push(S::empty_shard(cap_i));
            i = i + 1;
        }
        let cache: Self = ShardArray { shards: list, mask: shards - 1 };
        proof {
            let q = cache.queues();
            assert forall|j: int| 0 <= j < shards implies #[trigger] q[j] == Sieve::<
                S::Key,
                S::Value,
            >::empty(share(capacity as int, shards as int, j) as nat) by {
                assert(cache.shards@[j].wf());
            }
            assert forall|j: int| 0 <= j < shards implies (#[trigger] q[j]).wf() && q[j].len() == 0
                && q[j].capacity == share(capacity as int, shards as int, j) by {
                cache.shards@[j].lemma_queue();
            }
            lemma_shares(q, capacity as int, shards as int, shards as int);
            lemma_empty_len(q, q.len() as int);
            assert forall|j: int, key: S::Key|
                0 <= j < q.len() && #[trigger] q[j].holds(key) implies cache.route(key) == j by {
                let p = q[j].position(key);
                assert(q[j].at(p, key));
            }
            cache.lemma_wf();
            assert forall|key: S::Key| #[trigger] cache.lookup(key) is None by {
                let r = cache.route(key);
                assert(q[r].len() == 0);
                if q[r].holds(key) {
                    let p = q[r].position(key);
                    assert(q[r].at(p, key));
                }
            }
        }
        cache
    }

    /// The number of shards.
    pub fn shard_count(&self) -> (n: usize)
        requires
            self.wf(),
        ensures
            n == self.queues().len(),
    {
        self.shards.len()
    }

    /// The shards by themselves.
    pub fn into_shards(self) -> (shards: Vec<S>)
        requires
            self.wf(),
        ensures
            shards@.len() == self.queues().len(),
            forall|i: int|
                0 <= i < shards@.len() ==> (#[trigger] shards@[i]).wf() && shards@[i].queue()
                    == self.queues()[i] && shards@[i].ids() == self.ids()[i],
            forall|i: int, key: S::Key|
                0 <= i < shards@.len() ==> #[trigger] shards@[i].agrees(key, key_hash(key)),
    {
        self.shards
    }

    /// Shard number `i`.
    pub fn shard(&self, i: usize) -> (shard: &S)
        requires
            self.wf(),
            i < self.queues().len(),
        ensures
            shard.wf(),
            shard.queue() == self.queues()[i as int],
            shard.ids() == self.ids()[i as int],
            forall|k: S::Key| #[trigger] shard.agrees(k, key_hash(k)),
    {
        &self.shards[i]
    }

    /// The shard that `key` belongs to, and the hash that selects it.
    pub fn locate(&self, key: &S::Key) -> (found: (usize, u64))
        requires
            self.wf(),
        ensures
            found.0 == self.route(*key),
            found.0 < self.queues().len(),
            found.1 == key_hash(*key),
    {
        proof {
            self.lemma_wf();
            assert(0 <= self.route(*key) < self.queues().len());
        }
        let hash: u64 = hash_key(key);
        (shard_of_hash(hash, self.mask), hash)
    }

    /// The capacities of all shards together.
    pub fn capacity(&self) -> (n: usize)
        requires
            self.wf(),
        ensures
            n == self.spec_capacity(),
    {
        let mut sum: usize = 0;
        let mut i: usize = 0;
        proof {
            self.lemma_wf();
        }
        while i < self.shards.len()
            invariant
                self.wf(),
                i <= self.shards@.len(),
                self.queues().len() == self.shards@.len(),
                forall|j: int| 0 <= j < self.queues().len() ==> (#[trigger] self.queues()[j]).wf(),
                sum == total_capacity(self.queues(), i as int),
            decreases self.shards@.len() - i,
        {
            proof {
                lemma_totals(self.queues(), i + 1);
                assert(self.queues()[i as int] == self.shards@[i as int].queue());
            }
            assert(self.shards@[i as int].wf());
            sum = sum + self.shards[i].shard_capacity();
            i = i + 1;
        }
        sum
    }

    /// The number of items in all shards together.
    pub fn len(&self) -> (n: usize)
        requires
            self.wf(),
        ensures
            n == self.spec_len(),
            n <= self.spec_capacity(),
    {
        let mut sum: usize = 0;
        let mut i: usize = 0;
        proof {
            self.lemma_wf();
        }
        while i < self.shards.len()
            invariant
                self.wf(),
                i <= self.shards@.len(),
                self.queues().len() == self.shards@.len(),
                forall|j: int| 0 <= j < self.queues().len() ==> (#[trigger] self.queues()[j]).wf(),
                sum == total_len(self.queues(), i as int),
            decreases self.shards@.len() - i,
        {
            proof {
                lemma_totals(self.queues(), i + 1);
                assert(self.queues()[i as int] == self.shards@[i as int].queue());
            }
            assert(self.shards@[i as int].wf());
            sum = sum + self.shards[i].shard_len();
            i = i + 1;
        }
        sum
    }

    /// Whether no shard holds anything.
    pub fn is_empty(&self) -> (empty: bool)
        requires
            self.wf(),
        ensures
            empty == (self.spec_len() == 0),
    {
        let mut i: usize = 0;
        proof {
            self.lemma_wf();
        }
        while i < self.shards.len()
            invariant
                self.wf(),
                i <= self.shards@.len(),
                self.queues().len() == self.shards@.len(),
                forall|j: int| 0 <= j < self.queues().len() ==> (#[trigger] self.queues()[j]).wf(),
                forall|j: int| 0 <= j < i ==> (#[trigger] self.queues()[j]).len() == 0,
            decreases self.shards@.len() - i,
        {
            assert(self.shards@[i as int].wf());
            assert(self.queues()[i as int] == self.shards@[i as int].queue());
            if self.shards[i].shard_len() != 0 {
                proof {
                    lemma_len_at_least(self.queues(), i as int, self.queues().len() as int);
                }
                return false;
            }
            i = i + 1;
        }
        proof {
            lemma_empty_len(self.queues(), self.queues().len() as int);
        }
        true
    }

    /// Whether `key` is cached.
    pub fn contains_key(&mut self, key: &S::Key) -> (held: bool)
        requires
            old(self).wf(),
        ensures
            final(self).wf(),
            held == (old(self).lookup(*key) is Some),
            final(self).selector() == old(self).selector(),
            final(self).queues().len() == old(self).queues().len(),
            final(self).queues() == old(self).queues().update(
                old(self).route(*key),
                S::probed(old(self).queues()[old(self).route(*key)], *key),
            ),
            final(self).counts() == old(self).counts(),
            final(self).ids() == old(self).ids(),
    {
        let ghost before = *self;
        proof {
            before.lemma_wf();
        }
        let hash: u64 = hash_key(key);
        let i: usize = shard_of_hash(hash, self.mask);
        assert(before.queues()[i as int] == before.shards@[i as int].queue());
        assert(before.shards@[i as int].wf());
        assert(before.shards@[i as int].agrees(*key, hash));
        let held: bool = self.shards[i].shard_contains(key, hash);
        proof {
            let q = before.queues()[i as int];
            S::lemma_probed(q, *key);
            q.law_touch(*key);
            assert forall|k: S::Key| #[trigger] self.shards@[i as int].agrees(k, key_hash(k)) by {
                assert(before.shards@[i as int].agrees(k, key_hash(k)));
            }
            self.lemma_step(before, i as int, *key);
            assert(self.ids() =~= before.ids());
            assert(self.counts() =~= before.counts());
        }
        held
    }

    /// The value cached under `key`; a hit is marked.
    pub fn get(&mut self, key: &S::Key) -> (value: Option<S::Value>)
        requires
            old(self).wf(),
        ensures
            final(self).wf(),
            read_of(old(self).lookup(*key), value),
            final(self).selector() == old(self).selector(),
            final(self).queues().len() == old(self).queues().len(),
            final(self).queues() == old(self).queues().update(
                old(self).route(*key),
                old(self).queues()[old(self).route(*key)].touch(*key),
            ),
            final(self).counts() == (if S::counting() {
                old(self).counts().update(
                    old(self).route(*key),
                    old(self).counts()[old(self).route(*key)].read(old(self).lookup(*key) is Some),
                )
            } else {
                old(self).counts()
            }),
            final(self).ids() == old(self).ids(),
    {
        let ghost before = *self;
        proof {
            before.lemma_wf();
        }
        let hash: u64 = hash_key(key);
        let i: usize = shard_of_hash(hash, self.mask);
        assert(before.queues()[i as int] == before.shards@[i as int].queue());
        assert(before.shards@[i as int].wf());
        assert(before.shards@[i as int].agrees(*key, hash));
        let value: Option<S::Value> = self.shards[i].shard_get(key, hash);
        proof {
            before.queues()[i as int].law_touch(*key);
            assert forall|k: S::Key| #[trigger] self.shards@[i as int].agrees(k, key_hash(k)) by {
                assert(before.shards@[i as int].agrees(k, key_hash(k)));
            }
            self.lemma_step(before, i as int, *key);
            assert(self.ids() =~= before.ids());
            if S::counting() {
                assert(self.counts() =~= before.counts().update(
                    i as int,
                    before.counts()[i as int].read(before.lookup(*key) is Some),
                ));
            } else {
                assert(self.counts() =~= before.counts());
            }
        }
        value
    }

    /// Caches `value` under `key` and returns what that pushed out.
    pub fn insert(&mut self, key: S::Key, value: S::Value) -> (evicted: Option<(S::Key, S::Value)>)
        requires
            old(self).wf(),
        ensures
            final(self).wf(),
            evicted == old(self).queues()[old(self).route(key)].displaced(key),
            final(self).selector() == old(self).selector(),
            final(self).queues().len() == old(self).queues().len(),
            final(self).queues() == old(self).queues().update(
                old(self).route(key),
                S::put(old(self).queues()[old(self).route(key)], key, value),
            ),
            final(self).counts() == (if S::counting() {
                old(self).counts().update(
                    old(self).route(key),
                    old(self).counts()[old(self).route(key)].inserted(evicted is Some),
                )
            } else {
                old(self).counts()
            }),
            final(self).ids() == old(self).ids().update(
                old(self).route(key),
                S::put_ids(
                    old(self).queues()[old(self).route(key)],
                    old(self).ids()[old(self).route(key)],
                    key,
                ),
            ),
    {
        let ghost before = *self;
        proof {
            before.lemma_wf();
        }
        let hash: u64 = hash_key(&key);
        let i: usize = shard_of_hash(hash, self.mask);
        assert(before.queues()[i as int] == before.shards@[i as int].queue());
        assert(before.shards@[i as int].wf());
        assert(before.shards@[i as int].agrees(key, hash));
        let evicted: Option<(S::Key, S::Value)> = self.shards[i].shard_insert(key, value, hash);
        proof {
            S::lemma_put(before.queues()[i as int], key, value);
            assert forall|k: S::Key| #[trigger] self.shards@[i as int].agrees(k, key_hash(k)) by {
                assert(before.shards@[i as int].agrees(k, key_hash(k)));
            }
            self.lemma_step(before, i as int, key);
            assert(before.ids()[i as int] == before.shards@[i as int].ids());
            assert(self.ids() =~= before.ids().update(i as int, self.shards@[i as int].ids()));
            if S::counting() {
                assert(self.counts() =~= before.counts().update(
                    i as int,
                    before.counts()[i as int].inserted(evicted is Some),
                ));
            } else {
                assert(self.counts() =~= before.counts());
            }
        }
        evicted
    }

    /// A step of the shard that `key` belongs to, which adds no other key, keeps
    /// every key in its shard.
    proof fn lemma_step(self, before: Self, r: int, key: S::Key)
        requires
            before.wf(),
            r == before.route(key),
            0 <= r < before.shards@.len(),
            self.mask == before.mask,
            self.shards@.len() == before.shards@.len(),
            self.shards@[r].wf(),
            forall|k: S::Key| #[trigger] self.shards@[r].agrees(k, key_hash(k)),
            forall|i: int|
                0 <= i < self.shards@.len() && i != r ==> #[trigger] self.shards@[i]
                    == before.shards@[i],
            self.shards@[r].queue().capacity == before.shards@[r].queue().capacity,
            forall|k: S::Key|
                k != key && #[trigger] self.shards@[r].queue().lookup(k) is Some
                    ==> before.shards@[r].queue().lookup(k) is Some,
        ensures
            self.wf(),
            self.queues() == before.queues().update(r, self.shards@[r].queue()),
    {
        let q = self.queues();
        let b = before.queues();
        assert(q =~= b.update(r, self.shards@[r].queue()));
        lemma_same_capacity(b, q, b.len() as int);
        assert forall|i: int| 0 <= i < self.shards@.len() implies (#[trigger] self.shards@[i]).wf() by {
            if i != r {
                assert(self.shards@[i] == before.shards@[i]);
            }
        }
        assert forall|i: int, k: S::Key| 0 <= i < self.shards@.len() implies (
        #[trigger] self.shards@[i].agrees(k, key_hash(k))) by {
            if i != r {
                assert(before.shards@[i].agrees(k, key_hash(k)));
            }
        }
        assert forall|i: int, k: S::Key|
            0 <= i < q.len() && #[trigger] q[i].holds(k) implies self.route(k) == i by {
            if i == r {
                if k != key {
                    assert(q[i].lookup(k) is Some);
                    assert(b[i].holds(k));
                    assert(before.route(k) == i);
                }
            } else {
                assert(b[i].holds(k));
                assert(before.route(k) == i);
            }
        }
    }

    /// What a cache of shards owes its callers, whatever the hash function is: after
    /// an insert the key has its value, nothing but the displaced key is lost, no
    /// other value changes, and the cache does not outgrow its capacity.
    pub proof fn law_insert(
        before: Self,
        key: S::Key,
        value: S::Value,
        after: Self,
        evicted: Option<(S::Key, S::Value)>,
    )
        requires
            before.wf(),
            after.wf(),
            evicted == before.queues()[before.route(key)].displaced(key),
            after.selector() == before.selector(),
            after.queues() == before.queues().update(
                before.route(key),
                S::put(before.queues()[before.route(key)], key, value),
            ),
        ensures
            after.lookup(key) == Some(value),
            after.spec_capacity() == before.spec_capacity(),
            after.spec_len() <= after.spec_capacity(),
            before.lookup(key) is Some ==> evicted is None,
            after.spec_len() == before.spec_len() + if before.lookup(key) is Some || evicted is Some {
                0int
            } else {
                1
            },
            match evicted {
                None => forall|k: S::Key|
                    k != key ==> #[trigger] after.lookup(k) == before.lookup(k),
                Some((k0, v0)) => {
                    &&& k0 != key
                    &&& before.lookup(k0) == Some(v0)
                    &&& after.lookup(k0) is None
                    &&& forall|k: S::Key|
                        k != key && k != k0 ==> #[trigger] after.lookup(k) == before.lookup(k)
                },
            },
    {
        before.lemma_wf();
        after.lemma_wf();
        let r = before.route(key);
        let q = before.queues()[r];
        S::lemma_put(q, key, value);
        lemma_same_capacity(before.queues(), after.queues(), before.queues().len() as int);
        lemma_len_update(
            before.queues(),
            r,
            S::put(q, key, value),
            before.queues().len() as int,
        );
        assert forall|k: S::Key| before.route(k) == after.route(k) by {}
        match evicted {
            None => {
                assert forall|k: S::Key| k != key implies #[trigger] after.lookup(k)
                    == before.lookup(k) by {
                    if before.route(k) == r {
                        assert(S::put(q, key, value).lookup(k) == q.lookup(k));
                    }
                }
            },
            Some((k0, v0)) => {
                assert(q.lookup(k0) == Some(v0));
                assert(q.holds(k0));
                assert(before.route(k0) == r);
                assert forall|k: S::Key| k != key && k != k0 implies #[trigger] after.lookup(k)
                    == before.lookup(k) by {
                    if before.route(k) == r {
                        assert(S::put(q, key, value).lookup(k) == q.lookup(k));
                    }
                }
            },
        }
    }

    /// `law_insert`, of the lookups alone.
    pub proof fn lemma_stored(
        before: Self,
        key: S::Key,
        value: S::Value,
        after: Self,
        evicted: Option<(S::Key, S::Value)>,
    )
        requires
            before.wf(),
            after.wf(),
            evicted == before.queues()[before.route(key)].displaced(key),
            after.selector() == before.selector(),
            after.queues() == before.queues().update(
                before.route(key),
                S::put(before.queues()[before.route(key)], key, value),
            ),
        ensures
            stored(
                |k: S::Key| before.lookup(k),
                key,
                value,
                |k: S::Key| after.lookup(k),
                evicted,
            ),
    {
        Self::law_insert(before, key, value, after, evicted);
        let f = |k: S::Key| before.lookup(k);
        let g = |k: S::Key| after.lookup(k);
        match evicted {
            None => {
                assert forall|k: S::Key| k != key implies #[trigger] g(k) == f(k) by {
                    assert(after.lookup(k) == before.lookup(k));
                }
            },
            Some((k0, v0)) => {
                assert forall|k: S::Key| k != key && k != k0 implies #[trigger] g(k) == f(k) by {
                    assert(after.lookup(k) == before.lookup(k));
                }
            },
        }
    }

    /// A read changes no lookup and no length.
    pub proof fn law_get(before: Self, key: S::Key, after: Self)
        requires
            before.wf(),
            after.wf(),
            after.selector() == before.selector(),
            after.queues() == before.queues().update(
                before.route(key),
                before.queues()[before.route(key)].touch(key),
            ),
        ensures
            forall|k: S::Key| #[trigger] after.lookup(k) == before.lookup(k),
            after.spec_capacity() == before.spec_capacity(),
            after.spec_len() == before.spec_len(),
    {
        before.lemma_wf();
        let r = before.route(key);
        let q = before.queues()[r];
        q.law_touch(key);
        lemma_same_capacity(before.queues(), after.queues(), before.queues().len() as int);
        lemma_same_len(before.queues(), after.queues(), before.queues().len() as int);
        assert forall|k: S::Key| #[trigger] after.lookup(k) == before.lookup(k) by {
            if before.route(k) == r {
                assert(q.touch(key).lookup(k) == q.lookup(k));
            }
        }
    }
}

/// The first `n` counts together.
pub open spec fn total_counts(counts: Seq<Stats>, n: int) -> Stats
    decreases n,
{
    if n <= 0 {
        Stats::none()
    } else {
        total_counts(counts, n - 1).plus(counts[n - 1])
    }
}

impl<S: CountingShard> ShardArray<S> {
    /// The traffic of all shards together.
    pub fn stats(&self) -> (stats: Stats)
        requires
            self.wf(),
        ensures
            stats == total_counts(self.counts(), self.queues().len() as int),
    {
        let mut stats: Stats = Stats::new();
        let mut i: usize = 0;
        while i < self.shards.len()
            invariant
                self.wf(),
                i <= self.shards@.len(),
                stats == total_counts(self.counts(), i as int),
            decreases self.shards@.len() - i,
        {
            assert(self.shards@[i as int].wf());
            assert(self.counts()[i as int] == self.shards@[i as int].counts());
            let part: Stats = self.shards[i].shard_stats();
            stats.add_counts(&part);
            i = i + 1;
        }
        stats
    }
}

impl<S: RemovingShard> ShardArray<S> {
    /// Removes `key` and returns its value.
    pub fn remove(&mut self, key: &S::Key) -> (value: Option<S::Value>)
        requires
            old(self).wf(),
        ensures
            final(self).wf(),
            value == old(self).lookup(*key),
            final(self).selector() == old(self).selector(),
            final(self).queues().len() == old(self).queues().len(),
            final(self).queues() == old(self).queues().update(
                old(self).route(*key),
                old(self).queues()[old(self).route(*key)].remove(*key),
            ),
            final(self).counts().len() == old(self).counts().len(),
            final(self).ids() == (if old(self).lookup(*key) is Some {
                old(self).ids().update(
                    old(self).route(*key),
                    ids_without(
                        old(self).ids()[old(self).route(*key)],
                        old(self).queues()[old(self).route(*key)].position(*key),
                    ),
                )
            } else {
                old(self).ids()
            }),
    {
        let ghost before = *self;
        proof {
            before.lemma_wf();
        }
        let hash: u64 = hash_key(key);
        let i: usize = shard_of_hash(hash, self.mask);
        assert(before.queues()[i as int] == before.shards@[i as int].queue());
        assert(before.shards@[i as int].wf());
        assert(before.shards@[i as int].agrees(*key, hash));
        let value: Option<S::Value> = self.shards[i].shard_remove(key, hash);
        proof {
            before.queues()[i as int].law_remove(*key);
            assert forall|k: S::Key| #[trigger] self.shards@[i as int].agrees(k, key_hash(k)) by {
                assert(before.shards@[i as int].agrees(k, key_hash(k)));
            }
            self.lemma_step(before, i as int, *key);
            assert(before.ids()[i as int] == before.shards@[i as int].ids());
            assert(self.ids() =~= before.ids().update(i as int, self.shards@[i as int].ids()));
            assert(before.ids() =~= before.ids().update(i as int, before.ids()[i as int]));
        }
        value
    }

    /// A removed key is gone, and no other lookup changes. The cache holds one item less
    /// where the key was cached, and as many as before where it was not.
    pub proof fn law_remove(before: Self, key: S::Key, after: Self)
        requires
            before.wf(),
            after.wf(),
            after.selector() == before.selector(),
            after.queues() == before.queues().update(
                before.route(key),
                before.queues()[before.route(key)].remove(key),
            ),
        ensures
            after.lookup(key) is None,
            forall|k: S::Key| k != key ==> #[trigger] after.lookup(k) == before.lookup(k),
            after.spec_capacity() == before.spec_capacity(),
            after.spec_len() == before.spec_len() - if before.lookup(key) is Some {
                1int
            } else {
                0
            },
    {
        before.lemma_wf();
        let r = before.route(key);
        let q = before.queues()[r];
        q.law_remove(key);
        lemma_same_capacity(before.queues(), after.queues(), before.queues().len() as int);
        lemma_len_update(before.queues(), r, q.remove(key), before.queues().len() as int);
        assert forall|k: S::Key| k != key implies #[trigger] after.lookup(k) == before.lookup(k) by {
            if before.route(k) == r {
                assert(q.remove(key).lookup(k) == q.lookup(k));
            }
        }
    }
}

impl<S: CacheShard> ShardArray<S> {
    /// A cache of one shard is one queue: every key belongs to it, and what the cache
    /// holds, counts and has room for is what that queue does.
    pub proof fn law_one_shard(self, key: S::Key)
        requires
            self.wf(),
            self.queues().len() == 1,
        ensures
            self.route(key) == 0,
            self.lookup(key) == self.queues()[0].lookup(key),
            self.spec_len() == self.queues()[0].len(),
            self.spec_capacity() == self.queues()[0].capacity,
    {
        self.lemma_wf();
        reveal_with_fuel(total_len, 2);
        reveal_with_fuel(total_capacity, 2);
    }
}

/// Among a power of two of shards every shard is selected by some hash.
pub proof fn law_every_shard_reachable(shards: usize, i: usize)
    requires
        is_shard_count(shards),
        i < shards,
    ensures
        shard_index(i as u64, (shards - 1) as usize) == i,
{
    assert(i < shards && shards & ((shards - 1) as usize) == 0 ==> ((i as u64) as usize) & ((shards
        - 1) as usize) == i) by (bit_vector);
}

proof fn lemma_empty_len<K, V>(queues: Seq<Sieve<K, V>>, n: int)
    requires
        0 <= n <= queues.len(),
        forall|i: int| 0 <= i < n ==> (#[trigger] queues[i]).len() == 0,
    ensures
        total_len(queues, n) == 0,
    decreases n,
{
    if n > 0 {
        lemma_empty_len(queues, n - 1);
        assert(queues[n - 1].len() == 0);
    }
}

proof fn lemma_len_at_least<K, V>(queues: Seq<Sieve<K, V>>, i: int, n: int)
    requires
        0 <= i < n <= queues.len(),
        queues[i].len() > 0,
    ensures
        total_len(queues, n) > 0,
    decreases n,
{
    lemma_len_nonneg(queues, n - 1);
    if i < n - 1 {
        lemma_len_at_least(queues, i, n - 1);
    }
}

proof fn lemma_len_nonneg<K, V>(queues: Seq<Sieve<K, V>>, n: int)
    ensures
        total_len(queues, n) >= 0,
    decreases n,
{
    if n > 0 {
        lemma_len_nonneg(queues, n - 1);
    }
}

proof fn lemma_same_capacity<K, V>(a: Seq<Sieve<K, V>>, b: Seq<Sieve<K, V>>, n: int)
    requires
        a.len() == b.len(),
        0 <= n <= a.len(),
        forall|i: int| 0 <= i < a.len() ==> (#[trigger] a[i]).capacity == b[i].capacity,
    ensures
        total_capacity(a, n) == total_capacity(b, n),
    decreases n,
{
    if n > 0 {
        lemma_same_capacity(a, b, n - 1);
        assert(a[n - 1].capacity == b[n - 1].capacity);
    }
}

/// One queue of another length changes the length of all together by the difference.
pub proof fn lemma_len_update<K, V>(queues: Seq<Sieve<K, V>>, r: int, q: Sieve<K, V>, n: int)
    requires
        0 <= r < queues.len(),
        0 <= n <= queues.len(),
    ensures
        total_len(queues.update(r, q), n) == total_len(queues, n) + if r < n {
            q.len() - queues[r].len()
        } else {
            0
        },
    decreases n,
{
    if n > 0 {
        lemma_len_update(queues, r, q, n - 1);
    }
}

proof fn lemma_same_len<K, V>(a: Seq<Sieve<K, V>>, b: Seq<Sieve<K, V>>, n: int)
    requires
        a.len() == b.len(),
        0 <= n <= a.len(),
        forall|i: int| 0 <= i < a.len() ==> (#[trigger] a[i]).len() == b[i].len(),
    ensures
        total_len(a, n) == total_len(b, n),
    decreases n,
{
    if n > 0 {
        lemma_same_len(a, b, n - 1);
        assert(a[n - 1].len() == b[n - 1].len());
    }
}

} // verus!
