//! Queues with gaps.
//!
//! Some caches leave a gap where an item was evicted and close the gaps now and then.
//! Here a queue is a sequence of slots, of which some are gaps; what it stands for is
//! the queue of its filled slots.
use crate::model::{cool, lemma_next_cold, next_cold, Item, Sieve};
use vstd::prelude::*;

verus! {

/// The filled slots, in order.
pub open spec fn dense<T>(slots: Seq<Option<T>>) -> Seq<T>
    decreases slots.len(),
{
    if slots.len() == 0 {
        Seq::empty()
    } else {
        let before = dense(slots.drop_last());
        match slots.last() {
            Some(x) => before.push(x),
            None => before,
        }
    }
}

/// The number of filled slots before slot `p`.
pub open spec fn rank<T>(slots: Seq<Option<T>>, p: int) -> int {
    dense(slots.take(p)).len() as int
}

pub proof fn lemma_split<T>(slots: Seq<Option<T>>, p: int)
    requires
        0 <= p <= slots.len(),
    ensures
        dense(slots) == dense(slots.take(p)) + dense(slots.skip(p)),
    decreases slots.len(),
{
    if p == slots.len() {
        assert(slots.take(p) =~= slots);
        assert(slots.skip(p) =~= Seq::<Option<T>>::empty());
        assert(dense(slots.skip(p)) =~= Seq::<T>::empty());
    } else {
        let front = slots.drop_last();
        lemma_split(front, p);
        assert(front.take(p) =~= slots.take(p));
        assert(slots.skip(p).drop_last() =~= front.skip(p));
        assert(slots.skip(p).last() == slots.last());
        assert(dense(slots) =~= dense(slots.take(p)) + dense(slots.skip(p)));
    }
}

pub proof fn lemma_rank_step<T>(slots: Seq<Option<T>>, p: int)
    requires
        0 <= p < slots.len(),
    ensures
        rank(slots, p + 1) == rank(slots, p) + if slots[p] is Some {
            1int
        } else {
            0
        },
{
    let t = slots.take(p + 1);
    assert(t.drop_last() =~= slots.take(p));
    assert(t.last() == slots[p]);
}

pub proof fn lemma_rank_bounds<T>(slots: Seq<Option<T>>)
    ensures
        rank(slots, 0) == 0,
        rank(slots, slots.len() as int) == dense(slots).len(),
{
    assert(slots.take(0) =~= Seq::<Option<T>>::empty());
    assert(slots.take(slots.len() as int) =~= slots);
}

pub proof fn lemma_rank_mono<T>(slots: Seq<Option<T>>, p: int, q: int)
    requires
        0 <= p <= q <= slots.len(),
    ensures
        0 <= rank(slots, p) <= rank(slots, q) <= dense(slots).len(),
    decreases q - p,
{
    lemma_split(slots, q);
    if p < q {
        lemma_rank_mono(slots, p, q - 1);
        lemma_rank_step(slots, q - 1);
    }
}

/// A filled slot stands at its rank.
pub proof fn lemma_dense_at<T>(slots: Seq<Option<T>>, p: int)
    requires
        0 <= p < slots.len(),
        slots[p] is Some,
    ensures
        0 <= rank(slots, p) < dense(slots).len(),
        dense(slots)[rank(slots, p)] == slots[p]->0,
{
    lemma_split(slots, p + 1);
    let t = slots.take(p + 1);
    assert(t.drop_last() =~= slots.take(p));
    assert(t.last() == slots[p]);
}

/// Every place of the dense queue is the rank of a filled slot.
pub proof fn lemma_slot_of<T>(slots: Seq<Option<T>>, k: int) -> (p: int)
    requires
        0 <= k < dense(slots).len(),
    ensures
        0 <= p < slots.len(),
        slots[p] is Some,
        rank(slots, p) == k,
        dense(slots)[k] == slots[p]->0,
    decreases slots.len(),
{
    let front = slots.drop_last();
    let n = slots.len() - 1;
    assert(slots.take(n) =~= front);
    if slots.last() is Some && k == dense(front).len() {
        n
    } else {
        let p = lemma_slot_of(front, k);
        assert(front.take(p) =~= slots.take(p));
        p
    }
}

/// Order of slots is order of ranks.
pub proof fn lemma_rank_order<T>(slots: Seq<Option<T>>, p: int, q: int)
    requires
        0 <= p < slots.len(),
        0 <= q <= slots.len(),
        slots[p] is Some,
    ensures
        p < q <==> rank(slots, p) < rank(slots, q),
{
    lemma_rank_step(slots, p);
    if p < q {
        lemma_rank_mono(slots, p + 1, q);
    } else {
        lemma_rank_mono(slots, q, p);
    }
}

/// Another item in a filled slot, or a gap in its place.
pub proof fn lemma_dense_update<T>(slots: Seq<Option<T>>, p: int, y: Option<T>)
    requires
        0 <= p < slots.len(),
        slots[p] is Some,
    ensures
        0 <= rank(slots, p) < dense(slots).len(),
        y matches Some(v) ==> dense(slots.update(p, y)) == dense(slots).update(rank(slots, p), v),
        y is None ==> dense(slots.update(p, y)) == dense(slots).remove(rank(slots, p)),
        rank(slots.update(p, y), p) == rank(slots, p),
{
    let new = slots.update(p, y);
    lemma_split(slots, p + 1);
    lemma_split(new, p + 1);
    let a = dense(slots.take(p));
    let b = dense(slots.skip(p + 1));
    let t = slots.take(p + 1);
    assert(t.drop_last() =~= slots.take(p));
    assert(t.last() == slots[p]);
    let u = new.take(p + 1);
    assert(new.take(p) =~= slots.take(p));
    assert(u.drop_last() =~= slots.take(p));
    assert(u.last() == y);
    assert(new.skip(p + 1) =~= slots.skip(p + 1));
    assert(dense(slots) =~= a.push(slots[p]->0) + b);
    match y {
        Some(v) => {
            assert(dense(new) =~= a.push(v) + b);
            assert(dense(new) =~= dense(slots).update(a.len() as int, v));
        },
        None => {
            assert(dense(new) =~= a + b);
            assert(dense(new) =~= dense(slots).remove(a.len() as int));
        },
    }
}

/// A new slot at the young end.
pub proof fn lemma_dense_push<T>(slots: Seq<Option<T>>, x: T, h: int)
    requires
        0 <= h <= slots.len(),
    ensures
        dense(slots.push(Some(x))) == dense(slots).push(x),
        rank(slots.push(Some(x)), h) == rank(slots, h),
{
    let new = slots.push(Some(x));
    assert(new.drop_last() =~= slots);
    assert(new.take(h) =~= slots.take(h));
}

/// Ranks go by which slots are filled.
pub proof fn lemma_same_shape<T>(a: Seq<Option<T>>, b: Seq<Option<T>>, p: int)
    requires
        a.len() == b.len(),
        0 <= p <= a.len(),
        forall|i: int| 0 <= i < a.len() ==> ((#[trigger] a[i]) is Some <==> b[i] is Some),
    ensures
        rank(a, p) == rank(b, p),
        dense(a).len() == dense(b).len(),
    decreases a.len(),
{
    lemma_same_shape_prefix(a.take(p), b.take(p));
    lemma_same_shape_prefix(a, b);
}

proof fn lemma_same_shape_prefix<T>(a: Seq<Option<T>>, b: Seq<Option<T>>)
    requires
        a.len() == b.len(),
        forall|i: int| 0 <= i < a.len() ==> ((#[trigger] a[i]) is Some <==> b[i] is Some),
    ensures
        dense(a).len() == dense(b).len(),
    decreases a.len(),
{
    if a.len() > 0 {
        lemma_same_shape_prefix(a.drop_last(), b.drop_last());
        assert(a.last() is Some <==> b.last() is Some) by {
            assert(a[a.len() - 1] is Some <==> b[a.len() - 1] is Some);
        }
    }
}

/// Ranks go by which slots are filled, whatever fills them.
pub proof fn lemma_same_ranks<S, T>(a: Seq<Option<S>>, b: Seq<Option<T>>, p: int)
    requires
        a.len() == b.len(),
        0 <= p <= a.len(),
        forall|i: int| 0 <= i < a.len() ==> ((#[trigger] a[i]) is Some <==> b[i] is Some),
    ensures
        rank(a, p) == rank(b, p),
    decreases p,
{
    if p == 0 {
        lemma_rank_bounds(a);
        lemma_rank_bounds(b);
    } else {
        lemma_same_ranks(a, b, p - 1);
        lemma_rank_step(a, p - 1);
        lemma_rank_step(b, p - 1);
        assert(a[p - 1] is Some <==> b[p - 1] is Some);
    }
}

/// The queue without gaps.
pub open spec fn filled<T>(items: Seq<T>) -> Seq<Option<T>> {
    Seq::new(items.len(), |i: int| Some(items[i]))
}

pub proof fn lemma_filled<T>(items: Seq<T>, p: int)
    requires
        0 <= p <= items.len(),
    ensures
        dense(filled(items)) == items,
        rank(filled(items), p) == p,
    decreases items.len(),
{
    if items.len() > 0 {
        let front = items.drop_last();
        assert(filled(items).drop_last() =~= filled(front));
        if p < items.len() {
            lemma_filled(front, p);
            assert(filled(items).take(p) =~= filled(front).take(p));
        } else {
            lemma_filled(front, p - 1);
        }
        assert(dense(filled(items)) =~= items);
    }
    if p == items.len() {
        assert(filled(items).take(p) =~= filled(items));
    }
}

/// The slots with the marks of `[lo, hi)` taken off.
pub open spec fn cool_slots<K, V>(slots: Seq<Option<Item<K, V>>>, lo: int, hi: int) -> Seq<
    Option<Item<K, V>>,
> {
    Seq::new(
        slots.len(),
        |i: int|
            match slots[i] {
                Some(item) if lo <= i < hi => Some(Item { visited: false, ..item }),
                s => s,
            },
    )
}

pub proof fn lemma_cool<K, V>(slots: Seq<Option<Item<K, V>>>, lo: int, hi: int)
    requires
        0 <= lo <= hi <= slots.len(),
    ensures
        dense(cool_slots(slots, lo, hi)) == cool(dense(slots), rank(slots, lo), rank(slots, hi)),
        forall|p: int|
            0 <= p <= slots.len() ==> #[trigger] rank(cool_slots(slots, lo, hi), p) == rank(
                slots,
                p,
            ),
{
    let c = cool_slots(slots, lo, hi);
    assert forall|p: int| 0 <= p <= slots.len() implies #[trigger] rank(c, p) == rank(slots, p) by {
        lemma_same_shape(c, slots, p);
    }
    lemma_same_shape(c, slots, 0);
    let want = cool(dense(slots), rank(slots, lo), rank(slots, hi));
    assert forall|k: int| 0 <= k < want.len() implies dense(c)[k] == want[k] by {
        let p = lemma_slot_of(slots, k);
        assert(c[p] is Some);
        lemma_dense_at(c, p);
        assert(rank(c, p) == k);
        lemma_rank_order(slots, p, lo);
        lemma_rank_order(slots, p, hi);
    }
    assert(dense(c) =~= want);
}

/// The first unmarked slot of a range is the first unmarked item of the range of ranks.
pub proof fn lemma_next_cold_slot<K, V>(
    slots: Seq<Option<Item<K, V>>>,
    lo: int,
    hi: int,
    p: int,
)
    requires
        0 <= lo <= p <= hi <= slots.len(),
        forall|j: int|
            lo <= j < p && (#[trigger] slots[j]) is Some ==> slots[j]->0.visited,
        p < hi ==> slots[p] is Some && !slots[p]->0.visited,
    ensures
        next_cold(dense(slots), rank(slots, lo), rank(slots, hi)) == rank(slots, p),
{
    let d = dense(slots);
    lemma_rank_mono(slots, lo, p);
    lemma_rank_mono(slots, p, hi);
    assert forall|k: int| rank(slots, lo) <= k < rank(slots, p) implies (#[trigger] d[k]).visited by {
        let q = lemma_slot_of(slots, k);
        lemma_rank_order(slots, q, p);
        lemma_rank_order(slots, q, lo);
        assert(slots[q] is Some);
    }
    if p < hi {
        lemma_dense_at(slots, p);
    }
    lemma_next_cold(d, rank(slots, lo), rank(slots, hi), rank(slots, p));
}

/// The queue that slots and a hand stand for.
pub open spec fn gapped<K, V>(capacity: nat, slots: Seq<Option<Item<K, V>>>, hand: int) -> Sieve<
    K,
    V,
> {
    Sieve { capacity, items: dense(slots), hand: rank(slots, hand) }
}

/// How the hand found its victim.
pub enum Way {
    /// Between the hand and the young end.
    Ahead,
    /// Round the end, before the hand.
    Behind,
    /// All items were marked: the first filled slot from the hand on.
    Round,
}

/// Whether the hand that starts at `hand` stops at slot `p`, this way.
pub open spec fn stops_at<K, V>(
    slots: Seq<Option<Item<K, V>>>,
    hand: int,
    p: int,
    way: Way,
) -> bool {
    &&& 0 <= p < slots.len()
    &&& slots[p] is Some
    &&& match way {
        Way::Ahead => {
            &&& hand <= p
            &&& !slots[p]->0.visited
            &&& forall|j: int|
                hand <= j < p && (#[trigger] slots[j]) is Some ==> slots[j]->0.visited
        },
        Way::Behind => {
            &&& p < hand
            &&& !slots[p]->0.visited
            &&& forall|j: int|
                (hand <= j < slots.len() || 0 <= j < p) && (#[trigger] slots[j]) is Some
                    ==> slots[j]->0.visited
        },
        Way::Round => {
            &&& hand <= p
            &&& forall|j: int| hand <= j < p ==> (#[trigger] slots[j]) is None
            &&& forall|j: int|
                0 <= j < slots.len() && (#[trigger] slots[j]) is Some ==> slots[j]->0.visited
        },
    }
}

/// The slots after the hand's way to `p`.
pub open spec fn swept_slots<K, V>(
    slots: Seq<Option<Item<K, V>>>,
    hand: int,
    p: int,
    way: Way,
) -> Seq<Option<Item<K, V>>> {
    match way {
        Way::Ahead => cool_slots(slots, hand, p),
        Way::Behind => cool_slots(cool_slots(slots, hand, slots.len() as int), 0, p),
        Way::Round => cool_slots(slots, 0, slots.len() as int),
    }
}

/// Where the hand goes from a victim at slot `p` of `n`.
pub open spec fn hand_after(p: int, n: int) -> int {
    if p + 1 < n {
        p + 1
    } else {
        0
    }
}

/// Gapping the slot at which the hand stops is the eviction of the queue.
pub proof fn lemma_gapped_evict<K, V>(
    capacity: nat,
    slots: Seq<Option<Item<K, V>>>,
    hand: int,
    p: int,
    way: Way,
)
    requires
        0 <= hand < slots.len(),
        slots.last() is Some,
        stops_at(slots, hand, p, way),
    ensures
        gapped(capacity, slots, hand).victim() == rank(slots, p),
        0 <= rank(slots, p) < dense(slots).len(),
        dense(slots)[rank(slots, p)] == slots[p]->0,
        gapped(
            capacity,
            swept_slots(slots, hand, p, way).update(p, None),
            hand_after(p, slots.len() as int),
        ) == gapped(capacity, slots, hand).evict(),
{
    let n = slots.len() as int;
    let v = gapped(capacity, slots, hand);
    let s = swept_slots(slots, hand, p, way);
    lemma_rank_bounds(slots);
    lemma_dense_at(slots, p);
    lemma_rank_order(slots, n - 1, hand);
    lemma_rank_mono(slots, hand, n);
    lemma_dense_at(slots, n - 1);
    match way {
        Way::Ahead => {
            lemma_next_cold_slot(slots, hand, n, p);
            lemma_cool(slots, hand, p);
        },
        Way::Behind => {
            lemma_next_cold_slot(slots, hand, n, n);
            lemma_next_cold_slot(slots, 0, hand, p);
            lemma_rank_order(slots, p, hand);
            lemma_cool(slots, hand, n);
            let c = cool_slots(slots, hand, n);
            lemma_cool(c, 0, p);
            assert(rank(c, 0) == rank(slots, 0));
            assert(rank(c, p) == rank(slots, p));
            assert forall|q: int| 0 <= q <= n implies #[trigger] rank(s, q) == rank(slots, q) by {
                assert(rank(c, q) == rank(slots, q));
            }
        },
        Way::Round => {
            lemma_next_cold_slot(slots, hand, n, n);
            lemma_next_cold_slot(slots, 0, hand, hand);
            lemma_cool(slots, 0, n);
            lemma_none_between(slots, hand, p);
        },
    }
    assert(dense(s) == v.swept());
    assert(rank(s, p) == rank(slots, p));
    assert(s[p] is Some);
    lemma_dense_update(s, p, None);
    let e = s.update(p, None);
    lemma_rank_bounds(e);
    if p + 1 < n {
        lemma_rank_step(e, p);
        lemma_rank_order(slots, n - 1, p + 1);
        lemma_rank_step(slots, p);
        lemma_rank_mono(slots, p + 1, n - 1);
    } else {
        lemma_rank_step(slots, p);
    }
}

proof fn lemma_none_between<T>(slots: Seq<Option<T>>, lo: int, hi: int)
    requires
        0 <= lo <= hi <= slots.len(),
        forall|j: int| lo <= j < hi ==> (#[trigger] slots[j]) is None,
    ensures
        rank(slots, lo) == rank(slots, hi),
    decreases hi - lo,
{
    if lo < hi {
        lemma_none_between(slots, lo, hi - 1);
        lemma_rank_step(slots, hi - 1);
        assert(slots[hi - 1] is None);
    }
}

} // verus!
