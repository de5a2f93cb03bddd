//! The hash bits that stand beside the keys of a queue.
//!
//! A shard finds a key by the hash bits in its tag. That works for every hash that
//! depends on the key alone: a key must be looked for under the bits that it was stored
//! with.
use crate::model::Sieve;
use vstd::prelude::*;

verus! {

/// Whether `key`, where the queue holds it, stands beside `needle`.
pub open spec fn tags_agree<K, V>(q: Sieve<K, V>, needles: Seq<u16>, key: K, needle: u16) -> bool {
    forall|i: int| #[trigger] q.at(i, key) ==> needles[i] == needle
}

/// A queue with the same keys in the same places agrees with the same needles.
pub proof fn lemma_agree_same<K, V>(
    q: Sieve<K, V>,
    to: Sieve<K, V>,
    needles: Seq<u16>,
    key: K,
    needle: u16,
)
    requires
        to.len() == q.len(),
        forall|i: int| 0 <= i < q.len() ==> (#[trigger] to.items[i]).key == q.items[i].key,
        tags_agree(q, needles, key, needle),
    ensures
        tags_agree(to, needles, key, needle),
{
    assert forall|i: int| #[trigger] to.at(i, key) implies needles[i] == needle by {
        assert(to.items[i].key == q.items[i].key);
        assert(q.at(i, key));
    }
}

/// An insert leaves the hash bits of other keys alone, and the key itself has the bits
/// that it was inserted with.
pub proof fn lemma_agree_insert<K, V>(
    q: Sieve<K, V>,
    needles: Seq<u16>,
    key: K,
    value: V,
    new: u16,
    k: K,
    needle: u16,
)
    requires
        q.wf(),
        needles.len() == q.len(),
        tags_agree(q, needles, key, new),
        tags_agree(q, needles, k, needle),
        k == key ==> needle == new,
    ensures
        tags_agree(q.insert(key, value), q.carried(needles, key, new), k, needle),
{
    let to = q.insert(key, value);
    let after = q.carried(needles, key, new);
    if q.holds(key) {
        assert(q.at(q.position(key), key));
        lemma_agree_same(q, to, needles, k, needle);
    } else {
        if q.full() {
            q.lemma_sweep();
        }
        assert forall|i: int| #[trigger] to.at(i, k) implies after[i] == needle by {
            if i < to.len() - 1 {
                if q.full() {
                    let o = if i < q.victim() {
                        i
                    } else {
                        i + 1
                    };
                    assert(to.items[i] == q.swept()[o]);
                    assert(q.at(o, k));
                } else {
                    assert(q.at(i, k));
                }
            }
        }
    }
}

/// The same of an insert that keeps the victim's place.
pub proof fn lemma_agree_in_place<K, V>(
    q: Sieve<K, V>,
    needles: Seq<u16>,
    key: K,
    value: V,
    new: u16,
    k: K,
    needle: u16,
)
    requires
        q.wf(),
        needles.len() == q.len(),
        tags_agree(q, needles, key, new),
        tags_agree(q, needles, k, needle),
        k == key ==> needle == new,
    ensures
        tags_agree(q.insert_in_place(key, value), q.carried_in_place(needles, key, new), k, needle),
{
    let to = q.insert_in_place(key, value);
    let after = q.carried_in_place(needles, key, new);
    if q.holds(key) {
        assert(q.at(q.position(key), key));
        lemma_agree_same(q, to, needles, k, needle);
    } else {
        if q.full() {
            q.lemma_sweep();
        }
        assert forall|i: int| #[trigger] to.at(i, k) implies after[i] == needle by {
            if q.full() {
                if i != q.victim() {
                    assert(to.items[i] == q.swept()[i]);
                    assert(q.at(i, k));
                }
            } else if i < q.len() {
                assert(q.at(i, k));
            }
        }
    }
}

/// A read leaves the hash bits alone.
pub proof fn lemma_agree_touch<K, V>(q: Sieve<K, V>, needles: Seq<u16>, key: K, k: K, needle: u16)
    requires
        q.wf(),
        tags_agree(q, needles, k, needle),
    ensures
        tags_agree(q.touch(key), needles, k, needle),
{
    q.law_touch(key);
    lemma_agree_same(q, q.touch(key), needles, k, needle);
}

/// A removal leaves the hash bits of what stays alone.
pub proof fn lemma_agree_remove<K, V>(q: Sieve<K, V>, needles: Seq<u16>, key: K, k: K, needle: u16)
    requires
        needles.len() == q.len(),
        tags_agree(q, needles, k, needle),
    ensures
        tags_agree(q.remove(key), q.carried_off(needles, key), k, needle),
{
    let to = q.remove(key);
    let after = q.carried_off(needles, key);
    if q.holds(key) {
        let p = q.position(key);
        assert(q.at(p, key));
        assert forall|i: int| #[trigger] to.at(i, k) implies after[i] == needle by {
            let o = if i < p {
                i
            } else {
                i + 1
            };
            assert(to.items[i] == q.items[o]);
            assert(q.at(o, k));
        }
    }
}

} // verus!
