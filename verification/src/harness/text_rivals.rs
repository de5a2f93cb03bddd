//! Caches of other crates with texts for keys, replayed with traces of texts.
//!
//! What is known of such a cache is what is known of one with numbers for keys. A
//! cache stands for its only handle: none of them is cloned here.

use vstd::prelude::*;
use xxhash_rust::xxh3::Xxh3DefaultBuilder;

use crate::harness::replay::{places, Tally};
use crate::harness::rivals::{
    calls, fits, held, lemma_played_on, lemma_start, played, repeats, within, yeses, RivalCall,
};
use crate::text::strings;

verus! {

/// No entry at all.
pub open spec fn no_texts() -> Map<Seq<char>, u64> {
    Map::empty()
}

/// What a mini-moka cache for several threads with texts for keys holds.
pub uninterp spec fn text_sync_entries(
    c: mini_moka::sync::Cache<String, u64, Xxh3DefaultBuilder>,
) -> Map<Seq<char>, u64>;

/// The number of entries that a mini-moka cache for several threads was made for.
pub uninterp spec fn text_sync_limit(
    c: mini_moka::sync::Cache<String, u64, Xxh3DefaultBuilder>,
) -> u64;

/// Whether nothing that was put into a mini-moka cache for several threads has left it or was
/// turned away.
pub uninterp spec fn text_sync_whole(
    c: mini_moka::sync::Cache<String, u64, Xxh3DefaultBuilder>,
) -> bool;

/// Whether no read and no insertion waits in the logs of a mini-moka cache for several
/// threads.
pub uninterp spec fn text_sync_settled(
    c: mini_moka::sync::Cache<String, u64, Xxh3DefaultBuilder>,
) -> bool;

/// `mini_moka::sync::CacheBuilder`, with a capacity and the XXH3 hasher alone: an
/// empty cache for `capacity` entries, each of which counts as one. Its logs are empty.
#[verifier::external_body]
fn text_sync_new(capacity: u64) -> (cache: mini_moka::sync::Cache<String, u64, Xxh3DefaultBuilder>)
    ensures
        text_sync_entries(cache) == no_texts(),
        text_sync_limit(cache) == capacity,
        text_sync_whole(cache),
        text_sync_settled(cache),
{
    mini_moka::sync::Cache::builder().max_capacity(capacity).build_with_hasher(Xxh3DefaultBuilder)
}

/// `mini_moka::sync::Cache::get`: the value held under the key. Entries may leave
/// the cache, none is added or changed; where all fit and none has left so far, none
/// leaves.
#[verifier::external_body]
fn text_sync_get(
    c: &mut mini_moka::sync::Cache<String, u64, Xxh3DefaultBuilder>,
    key: &String,
) -> (r: Option<u64>)
    ensures
        r == held(text_sync_entries(*old(c)), key@),
        within(text_sync_entries(*final(c)), text_sync_entries(*old(c))),
        text_sync_limit(*final(c)) == text_sync_limit(*old(c)),
        text_sync_whole(*old(c)) && fits(text_sync_entries(*old(c)), text_sync_limit(*old(c)))
            ==> text_sync_whole(*final(c)) && text_sync_entries(*final(c)) == text_sync_entries(*old(c)),
{
    c.get(key)
}

/// `mini_moka::sync::Cache::insert`: the entry may be added, others may leave. Where all
/// fit with the new one and none has left so far, it is added and none leaves.
#[verifier::external_body]
fn text_sync_insert(
    c: &mut mini_moka::sync::Cache<String, u64, Xxh3DefaultBuilder>,
    key: String,
    value: u64,
)
    ensures
        within(text_sync_entries(*final(c)), text_sync_entries(*old(c)).insert(key@, value)),
        text_sync_limit(*final(c)) == text_sync_limit(*old(c)),
        text_sync_whole(*old(c)) && fits(
            text_sync_entries(*old(c)).insert(key@, value),
            text_sync_limit(*old(c)),
        ) ==> text_sync_whole(*final(c)) && text_sync_entries(*final(c)) == text_sync_entries(*old(c)).insert(
            key@,
            value,
        ),
{
    c.insert(key, value);
}

/// `mini_moka::sync::ConcurrentCacheExt::sync`: applies what waits in the logs. Entries may
/// leave the cache, none is added or changed; where all fit and none has left so far,
/// none leaves.
#[verifier::external_body]
fn text_sync_flush(c: &mut mini_moka::sync::Cache<String, u64, Xxh3DefaultBuilder>)
    ensures
        text_sync_settled(*final(c)),
        within(text_sync_entries(*final(c)), text_sync_entries(*old(c))),
        text_sync_limit(*final(c)) == text_sync_limit(*old(c)),
        text_sync_whole(*old(c)) && fits(text_sync_entries(*old(c)), text_sync_limit(*old(c)))
            ==> text_sync_whole(*final(c)) && text_sync_entries(*final(c)) == text_sync_entries(*old(c)),
{
    mini_moka::sync::ConcurrentCacheExt::sync(&*c);
}

/// What a mini-moka cache for one thread with texts for keys holds.
pub uninterp spec fn text_unsync_entries(
    c: mini_moka::unsync::Cache<String, u64, Xxh3DefaultBuilder>,
) -> Map<Seq<char>, u64>;

/// The number of entries that a mini-moka cache for one thread was made for.
pub uninterp spec fn text_unsync_limit(
    c: mini_moka::unsync::Cache<String, u64, Xxh3DefaultBuilder>,
) -> u64;

/// Whether nothing that was put into a mini-moka cache for one thread has left it or was
/// turned away.
pub uninterp spec fn text_unsync_whole(
    c: mini_moka::unsync::Cache<String, u64, Xxh3DefaultBuilder>,
) -> bool;

/// `mini_moka::unsync::CacheBuilder`, with a capacity and the XXH3 hasher alone: an
/// empty cache for `capacity` entries, each of which counts as one.
#[verifier::external_body]
fn text_unsync_new(capacity: u64) -> (cache: mini_moka::unsync::Cache<String, u64, Xxh3DefaultBuilder>)
    ensures
        text_unsync_entries(cache) == no_texts(),
        text_unsync_limit(cache) == capacity,
        text_unsync_whole(cache),
{
    mini_moka::unsync::Cache::builder().max_capacity(capacity).build_with_hasher(Xxh3DefaultBuilder)
}

/// `mini_moka::unsync::Cache::get`: the value held under the key. Entries may leave
/// the cache, none is added or changed; where all fit and none has left so far, none
/// leaves.
#[verifier::external_body]
fn text_unsync_get(
    c: &mut mini_moka::unsync::Cache<String, u64, Xxh3DefaultBuilder>,
    key: &String,
) -> (r: Option<u64>)
    ensures
        r == held(text_unsync_entries(*old(c)), key@),
        within(text_unsync_entries(*final(c)), text_unsync_entries(*old(c))),
        text_unsync_limit(*final(c)) == text_unsync_limit(*old(c)),
        text_unsync_whole(*old(c)) && fits(text_unsync_entries(*old(c)), text_unsync_limit(*old(c)))
            ==> text_unsync_whole(*final(c)) && text_unsync_entries(*final(c)) == text_unsync_entries(*old(c)),
{
    c.get(key).copied()
}

/// `mini_moka::unsync::Cache::insert`: the entry may be added, others may leave. Where all
/// fit with the new one and none has left so far, it is added and none leaves.
#[verifier::external_body]
fn text_unsync_insert(
    c: &mut mini_moka::unsync::Cache<String, u64, Xxh3DefaultBuilder>,
    key: String,
    value: u64,
)
    ensures
        within(text_unsync_entries(*final(c)), text_unsync_entries(*old(c)).insert(key@, value)),
        text_unsync_limit(*final(c)) == text_unsync_limit(*old(c)),
        text_unsync_whole(*old(c)) && fits(
            text_unsync_entries(*old(c)).insert(key@, value),
            text_unsync_limit(*old(c)),
        ) ==> text_unsync_whole(*final(c)) && text_unsync_entries(*final(c)) == text_unsync_entries(*old(c)).insert(
            key@,
            value,
        ),
{
    c.insert(key, value);
}

/// A cache with texts for keys that may drop what it likes.
pub trait TextRival: Sized {
    /// What the cache holds.
    spec fn entries(self) -> Map<Seq<char>, u64>;

    /// The number of entries that the cache was made for.
    spec fn limit(self) -> u64;

    /// Whether nothing that was put into the cache has left it or was turned away.
    spec fn whole(self) -> bool;

    /// Whether the cache has no outstanding work.
    spec fn settled(self) -> bool;

    /// The calls that were made on the cache.
    spec fn log(self) -> Seq<RivalCall<Seq<char>>>;

    /// An empty cache for `capacity` entries.
    fn new(capacity: usize) -> (cache: Self)
        ensures
            cache.entries() == no_texts(),
            cache.limit() == capacity as u64,
            cache.whole(),
            cache.settled(),
            cache.log().len() == 0,
    ;

    /// Reads `key` and lets the cache do its outstanding work; tells whether the key
    /// was found.
    fn read(&mut self, key: &String) -> (hit: bool)
        ensures
            hit == old(self).entries().dom().contains(key@),
            final(self).log() == old(self).log().push(RivalCall::Read(key@, hit)),
            final(self).settled(),
            within(final(self).entries(), old(self).entries()),
            final(self).limit() == old(self).limit(),
            old(self).whole() && fits(old(self).entries(), old(self).limit())
                ==> final(self).whole() && final(self).entries() == old(self).entries(),
    ;

    /// Offers an entry to the cache and lets it do its outstanding work.
    fn store(&mut self, key: String, value: u64)
        ensures
            final(self).log() == old(self).log().push(RivalCall::Store(key@, value)),
            final(self).settled(),
            within(final(self).entries(), old(self).entries().insert(key@, value)),
            final(self).limit() == old(self).limit(),
            old(self).whole() && fits(old(self).entries().insert(key@, value), old(self).limit())
                ==> final(self).whole() && final(self).entries() == old(self).entries().insert(
                key@,
                value,
            ),
    ;
}

/// mini-moka for several threads, brought up to date after every operation.
pub struct TextMiniMokaSync {
    inner: mini_moka::sync::Cache<String, u64, Xxh3DefaultBuilder>,
    log: Ghost<Seq<RivalCall<Seq<char>>>>,
}

impl TextRival for TextMiniMokaSync {
    closed spec fn entries(self) -> Map<Seq<char>, u64> {
        text_sync_entries(self.inner)
    }

    closed spec fn limit(self) -> u64 {
        text_sync_limit(self.inner)
    }

    closed spec fn whole(self) -> bool {
        text_sync_whole(self.inner)
    }

    closed spec fn settled(self) -> bool {
        text_sync_settled(self.inner)
    }

    closed spec fn log(self) -> Seq<RivalCall<Seq<char>>> {
        self.log@
    }

    fn new(capacity: usize) -> (cache: Self) {
        TextMiniMokaSync { inner: text_sync_new(capacity as u64), log: Ghost(Seq::empty()) }
    }

    fn read(&mut self, key: &String) -> (hit: bool) {
        let hit = text_sync_get(&mut self.inner, key).is_some();
        text_sync_flush(&mut self.inner);
        self.log = Ghost(self.log@.push(RivalCall::Read(key@, hit)));
        hit
    }

    fn store(&mut self, key: String, value: u64) {
        self.log = Ghost(self.log@.push(RivalCall::Store(key@, value)));
        text_sync_insert(&mut self.inner, key, value);
        text_sync_flush(&mut self.inner);
    }
}

/// mini-moka for one thread. It keeps no log, so it has no outstanding work.
pub struct TextMiniMokaUnsync {
    inner: mini_moka::unsync::Cache<String, u64, Xxh3DefaultBuilder>,
    log: Ghost<Seq<RivalCall<Seq<char>>>>,
}

impl TextRival for TextMiniMokaUnsync {
    closed spec fn entries(self) -> Map<Seq<char>, u64> {
        text_unsync_entries(self.inner)
    }

    closed spec fn limit(self) -> u64 {
        text_unsync_limit(self.inner)
    }

    closed spec fn whole(self) -> bool {
        text_unsync_whole(self.inner)
    }

    closed spec fn settled(self) -> bool {
        true
    }

    closed spec fn log(self) -> Seq<RivalCall<Seq<char>>> {
        self.log@
    }

    fn new(capacity: usize) -> (cache: Self) {
        TextMiniMokaUnsync { inner: text_unsync_new(capacity as u64), log: Ghost(Seq::empty()) }
    }

    fn read(&mut self, key: &String) -> (hit: bool) {
        let hit = text_unsync_get(&mut self.inner, key).is_some();
        self.log = Ghost(self.log@.push(RivalCall::Read(key@, hit)));
        hit
    }

    fn store(&mut self, key: String, value: u64) {
        self.log = Ghost(self.log@.push(RivalCall::Store(key@, value)));
        text_unsync_insert(&mut self.inner, key, value);
    }
}

/// Replays a trace of texts through `cache`: reads each key and, where it is missing,
/// stores its place in the trace under it. Hits and evictions are counted, and calls are
/// made, as for numbers.
pub fn replay_texts<R: TextRival>(cache: &mut R, trace: &Vec<String>) -> (t: Tally)
    requires
        old(cache).entries() == no_texts(),
    ensures
        t.hits + t.misses == trace@.len(),
        t.evictions == 0,
        t.hits <= repeats(strings(trace@)),
        final(cache).limit() == old(cache).limit(),
        forall|k: Seq<char>| #[trigger]
            final(cache).entries().dom().contains(k) ==> strings(trace@).contains(k),
        old(cache).whole() && strings(trace@).to_set().len() <= old(cache).limit() ==> t.hits
            == repeats(strings(trace@)) && final(cache).entries().dom() == strings(trace@).to_set(),
        old(cache).settled() ==> final(cache).settled(),
        exists|h: Seq<Map<Seq<char>, u64>>, answers: Seq<bool>| #[trigger]
            played(h, answers, strings(trace@), places(trace@.len())) && h[0] == no_texts()
                && h.last() == final(cache).entries() && final(cache).log() == old(cache).log()
                + calls(strings(trace@), answers, places(trace@.len())) && t.hits == yeses(answers),
{
    let mut t = Tally::new();
    let mut i: usize = 0;
    let ghost keys = strings(trace@);
    let ghost roomy = cache.whole() && keys.to_set().len() <= cache.limit();
    let ghost limit = cache.limit();
    let ghost mut h: Seq<Map<Seq<char>, u64>> = seq![cache.entries()];
    let ghost mut answers: Seq<bool> = Seq::empty();
    let ghost log = cache.log();
    assert(log + Seq::<RivalCall<Seq<char>>>::empty() =~= log);
    assert(keys.take(0).to_set() =~= Set::empty());
    while i < trace.len()
        invariant
            i <= trace@.len(),
            keys == strings(trace@),
            t.hits + t.misses == i,
            t.evictions == 0,
            t.hits <= repeats(keys.take(i as int)),
            cache.limit() == limit,
            old(cache).settled() ==> cache.settled(),
            played(h, answers, keys.take(i as int), places(i as nat)),
            h[0] == no_texts(),
            h.last() == cache.entries(),
            log == old(cache).log(),
            cache.log() == log + calls(keys.take(i as int), answers, places(i as nat)),
            t.hits == yeses(answers),
            forall|k: Seq<char>| #[trigger]
                cache.entries().dom().contains(k) ==> keys.take(i as int).contains(k),
            roomy ==> keys.to_set().len() <= limit && cache.whole() && t.hits == repeats(
                keys.take(i as int),
            ) && cache.entries().dom() == keys.take(i as int).to_set(),
        decreases trace@.len() - i,
    {
        let ghost k = trace@[i as int]@;
        let ghost front = keys.take(i as int);
        let ghost next = keys.take(i + 1);
        let ghost before = cache.entries();
        proof {
            assert(keys[i as int] == k);
            assert(next.drop_last() =~= front);
            assert(next =~= front.push(k));
            assert(next[i as int] == k);
            assert forall|x: Seq<char>| front.contains(x) implies #[trigger] next.contains(x) by {
                let j = choose|j: int| 0 <= j < front.len() && front[j] == x;
                assert(next[j] == x);
            }
            lemma_start(keys, i as int);
            lemma_start(keys, i + 1);
            if roomy {
                assert(before.dom().contains(k) == front.contains(k));
                assert(before.insert(k, i as u64).dom() =~= next.to_set());
            }
        }
        let hit = cache.read(&trace[i]);
        if hit {
            t.hit();
            proof {
                if roomy {
                    assert(next.to_set() =~= front.to_set());
                }
            }
        } else {
            cache.store(trace[i].clone(), i as u64);
            t.miss(false);
        }
        proof {
            let v = places(i as nat);
            assert(places((i + 1) as nat) =~= v.push(i as u64));
            lemma_played_on(h, answers, front, v, k, i as u64, hit, cache.entries());
            assert(cache.log() =~= log + calls(next, answers.push(hit), v.push(i as u64)));
            h = h.push(cache.entries());
            answers = answers.push(hit);
        }
        i += 1;
    }
    assert(keys.take(i as int) =~= keys);
    t
}

} // verus!
