//! The decisions of optimistic readers and of writers that claim a slot first.
//!
//! A reader takes a snapshot of an entry between two loads of a stamp, the slot's
//! tag or the entry's version, and trusts the snapshot only if the loads agree. A
//! writer changes the stamp round each write. The functions here decide from the
//! loaded values alone, so that they hold for every interleaving.
use crate::tag::{TagLayout, EMPTY, LIVE, SPARE};
use vstd::prelude::*;

verus! {

/// How often a reader scans at most.
pub const MAX_READER_RETRY: usize = 4;

/// How often a writer tries to claim a slot before it takes the lock.
pub const MAX_CLAIM_RETRY: usize = 1;

/// What one scanned slot gave.
pub enum Probe<V> {
    /// The key, with a trusted snapshot of its value.
    Found(V),
    /// Another key, for certain.
    Miss,
    /// A snapshot that cannot be trusted.
    Racing,
}

/// Whether a snapshot between loads `t1` and `t2` of a tag can be trusted.
pub open spec fn tag_stable(t1: u16, t2: u16) -> bool {
    t1 == t2 && t2 & LIVE != 0
}

/// Whether a snapshot between loads `v1` and `v2` of a version can be trusted: no
/// write was under way at the first, none was finished or begun until the second.
pub open spec fn version_stable(v1: u32, v2: u32) -> bool {
    v1 % 2 == 0 && v1 == v2
}

/// Decides on a slot by its tag. `same` says whether the snapshot holds the key that
/// is looked for.
pub fn probe_by_tag(layout: &TagLayout, needle: u16, t1: u16, t2: u16, same: bool) -> (probe: Probe<
    (),
>)
    ensures
        !layout.matches_needle(t1, needle) ==> probe is Miss,
        layout.matches_needle(t1, needle) && !tag_stable(t1, t2) ==> probe is Racing,
        layout.matches_needle(t1, needle) && tag_stable(t1, t2) && !same ==> probe is Miss,
        layout.matches_needle(t1, needle) && tag_stable(t1, t2) && same ==> probe is Found,
{
    if t1 & layout.scan_mask() != needle {
        Probe::Miss
    } else if t1 != t2 || t2 & LIVE == 0 {
        Probe::Racing
    } else if same {
        Probe::Found(())
    } else {
        Probe::Miss
    }
}

/// Decides on a slot by the version of its entry.
pub fn probe_by_version(
    layout: &TagLayout,
    needle: u16,
    tag: u16,
    v1: u32,
    v2: u32,
    same: bool,
) -> (probe: Probe<()>)
    ensures
        !layout.matches_needle(tag, needle) ==> probe is Miss,
        layout.matches_needle(tag, needle) && !version_stable(v1, v2) ==> probe is Racing,
        layout.matches_needle(tag, needle) && version_stable(v1, v2) && !same ==> probe is Miss,
        layout.matches_needle(tag, needle) && version_stable(v1, v2) && same ==> probe is Found,
{
    if tag & layout.scan_mask() != needle {
        Probe::Miss
    } else if !is_idle(v1) || v1 != v2 {
        Probe::Racing
    } else if same {
        Probe::Found(())
    } else {
        Probe::Miss
    }
}

/// Whether no write is under way at version `v`.
pub fn is_idle(v: u32) -> (idle: bool)
    ensures
        idle == (v % 2 == 0),
{
    assert((v & 1 == 0) == (v % 2 == 0)) by (bit_vector);
    v & 1 == 0
}

/// The version while a write that began at `v` is under way.
pub fn begin_write(v: u32) -> (w: u32)
    requires
        v % 2 == 0,
    ensures
        w == v + 1,
        w % 2 == 1,
{
    v + 1
}

/// The version after the write that is under way at `v`.
pub fn end_write(v: u32) -> (w: u32)
    requires
        v % 2 == 1,
    ensures
        w == written(v, 1),
        w % 2 == 0,
{
    v.wrapping_add(1)
}

/// The version after `n` steps from `v`.
pub open spec fn written(v: u32, n: int) -> int {
    (v + n) % 0x1_0000_0000
}

/// What a reader does after a scan.
pub enum ReadStep {
    /// The scan found the key.
    Hit,
    /// The key is not there.
    Settled,
    /// The scan may have missed the key: scan again.
    Again,
    /// As `Again`, but the attempts are used up: report a miss.
    GiveUp,
}

/// Decides after scan number `attempt`. `quiet` says that nothing was seen moving:
/// no untrusted snapshot, and no eviction between begin and end of the scan.
pub fn after_scan(attempt: usize, hit: bool, quiet: bool) -> (step: ReadStep)
    requires
        attempt < MAX_READER_RETRY,
    ensures
        step is Hit <==> hit,
        step is Settled <==> !hit && quiet,
        step is Again <==> !hit && !quiet && attempt + 1 < MAX_READER_RETRY,
        step is GiveUp <==> !hit && !quiet && attempt + 1 == MAX_READER_RETRY,
{
    if hit {
        ReadStep::Hit
    } else if quiet {
        ReadStep::Settled
    } else if attempt + 1 < MAX_READER_RETRY {
        ReadStep::Again
    } else {
        ReadStep::GiveUp
    }
}

/// What a writer without the lock does next.
pub enum ClaimStep {
    /// It owns the slot: write.
    Write,
    /// Another writer was faster: look again.
    Again,
    /// Take the lock.
    Escalate,
}

/// Decides after claim number `attempt`, which was `won` or lost.
pub fn after_claim(attempt: usize, won: bool) -> (step: ClaimStep)
    requires
        attempt < MAX_CLAIM_RETRY,
    ensures
        step is Write <==> won,
        step is Again <==> !won && attempt + 1 < MAX_CLAIM_RETRY,
        step is Escalate <==> !won && attempt + 1 == MAX_CLAIM_RETRY,
{
    if won {
        ClaimStep::Write
    } else if attempt + 1 < MAX_CLAIM_RETRY {
        ClaimStep::Again
    } else {
        ClaimStep::Escalate
    }
}

/// Whether a writer marks the position that it claimed: only if its tag went back
/// there. If an eviction took the place meanwhile, another entry stands there.
pub fn marks_after_restore(restored: bool) -> (mark: bool)
    ensures
        mark == restored,
{
    restored
}

/// What a writer under the lock does with a loaded tag.
pub enum TagStep {
    /// The slot is claimed by an updater: load again.
    Wait,
    /// The slot's tag.
    Read(u16),
}

/// Decides on a tag within the queued positions: empty means claimed.
pub fn after_tag_load(tag: u16) -> (step: TagStep)
    ensures
        tag == EMPTY ==> step is Wait,
        tag != EMPTY ==> step == TagStep::Read(tag),
{
    if tag == EMPTY {
        TagStep::Wait
    } else {
        TagStep::Read(tag)
    }
}

/// No reader trusts a snapshot across updates of which there were less than 2^31: a
/// finished update moves the version by two.
pub proof fn law_version_detects_updates(v: u32, n: int)
    requires
        v % 2 == 0,
        0 < n < 0x8000_0000,
    ensures
        written(v, 2 * n) != v,
        written(v, 2 * n) % 2 == 0,
{
}

/// No reader trusts a snapshot that was begun or ended inside a write.
pub proof fn law_no_trust_inside_a_write(v: u32, w: u32)
    requires
        v % 2 == 1 || w % 2 == 1,
    ensures
        !version_stable(v, w),
{
}

/// The tag after `n` updates, each of which turns the spare bit over.
pub open spec fn turned(tag: u16, n: nat) -> u16 {
    if n % 2 == 0 {
        tag
    } else {
        tag ^ SPARE
    }
}

proof fn lemma_spare_bit(tag: u16)
    ensures
        tag ^ SPARE != tag,
        (tag ^ SPARE) ^ SPARE == tag,
        tag & LIVE != 0 ==> (tag ^ SPARE) & LIVE != 0,
        EMPTY & LIVE == 0,
{
    assert(tag ^ 0x4000u16 != tag && (tag ^ 0x4000u16) ^ 0x4000u16 == tag && (tag & 0x8000u16 != 0
        ==> (tag ^ 0x4000u16) & 0x8000u16 != 0) && 0u16 & 0x8000u16 == 0) by (bit_vector);
}

/// One more update turns the spare bit over once more.
pub proof fn law_turned_step(tag: u16, n: nat)
    ensures
        turned(tag, n + 1) == turned(tag, n) ^ SPARE,
{
    lemma_spare_bit(tag);
}

/// No reader trusts a snapshot by tag across an odd number of updates, nor one that
/// met the slot while it was claimed.
pub proof fn law_tag_detects_update(tag: u16, n: nat)
    ensures
        n % 2 == 1 ==> !tag_stable(tag, turned(tag, n)),
        !tag_stable(tag, EMPTY),
        !tag_stable(EMPTY, tag),
{
    lemma_spare_bit(tag);
}

/// An entry as it is at one moment: its version, and what a reader would find in it.
pub struct Stamped<V> {
    pub version: u32,
    pub value: V,
}

/// What can happen to a versioned entry from one moment to the next: nothing, the
/// beginning of a write, a change of the value inside a write, or its end.
pub open spec fn version_step<V>(a: Stamped<V>, b: Stamped<V>) -> bool {
    ||| a == b
    ||| a.version % 2 == 0 && b.version == a.version + 1 && b.value == a.value
    ||| a.version % 2 == 1 && b.version == a.version
    ||| a.version % 2 == 1 && b.version == written(a.version, 1) && b.value == a.value
}

/// A versioned entry through time, whatever readers and writers do.
pub open spec fn version_history<V>(h: Seq<Stamped<V>>) -> bool {
    forall|i: int| #![trigger h[i]] 0 <= i && i + 1 < h.len() ==> version_step(h[i], h[i + 1])
}

/// How often the version moved between two moments.
pub open spec fn moves<V>(h: Seq<Stamped<V>>, i: int, j: int) -> nat
    decreases j - i,
{
    if i >= j {
        0
    } else {
        moves(h, i, j - 1) + if h[j].version == h[j - 1].version {
            0nat
        } else {
            1
        }
    }
}

proof fn lemma_moves<V>(h: Seq<Stamped<V>>, i: int, j: int)
    requires
        version_history(h),
        0 <= i <= j < h.len(),
    ensures
        moves(h, i, j) <= j - i,
        h[j].version == written(h[i].version, moves(h, i, j) as int),
    decreases j - i,
{
    if i < j {
        lemma_moves(h, i, j - 1);
        assert(version_step(h[j - 1], h[j]));
        let m = moves(h, i, j - 1) as int;
        let v = h[i].version as int;
        if h[j].version != h[j - 1].version {
            assert(((v + m) % 0x1_0000_0000 + 1) % 0x1_0000_0000 == (v + m + 1) % 0x1_0000_0000);
        }
    }
}

proof fn lemma_moves_grow<V>(h: Seq<Stamped<V>>, i: int, k: int, j: int)
    requires
        i <= k <= j,
    ensures
        moves(h, i, k) <= moves(h, i, j),
    decreases j - k,
{
    if k < j {
        lemma_moves_grow(h, i, k, j - 1);
    }
}

/// A snapshot that a reader trusts is whole: whichever part of it was read at which
/// moment between the two loads of the version, the entry held the same value all
/// that time. The version has 32 bits, so this needs less than 2^32 moves between the
/// loads.
pub proof fn law_trusted_snapshot_is_whole<V>(h: Seq<Stamped<V>>, i: int, j: int)
    requires
        version_history(h),
        0 <= i <= j < h.len(),
        version_stable(h[i].version, h[j].version),
        moves(h, i, j) < 0x1_0000_0000,
    ensures
        forall|k: int| i <= k <= j ==> #[trigger] h[k] == h[i],
{
    lemma_moves(h, i, j);
    let m = moves(h, i, j) as int;
    let v = h[i].version as int;
    assert(m == 0) by {
        if m > 0 {
            if v + m < 0x1_0000_0000 {
                assert((v + m) % 0x1_0000_0000 == v + m);
            } else {
                assert((v + m) % 0x1_0000_0000 == v + m - 0x1_0000_0000);
            }
        }
    }
    assert forall|k: int| i <= k <= j implies #[trigger] h[k] == h[i] by {
        lemma_unmoved(h, i, k, j);
    }
}

proof fn lemma_unmoved<V>(h: Seq<Stamped<V>>, i: int, k: int, j: int)
    requires
        version_history(h),
        0 <= i <= k <= j < h.len(),
        h[i].version % 2 == 0,
        moves(h, i, j) == 0,
    ensures
        h[k] == h[i],
    decreases k - i,
{
    if i < k {
        lemma_unmoved(h, i, k - 1, j);
        lemma_moves_grow(h, i, k, j);
        assert(version_step(h[k - 1], h[k]));
        lemma_moves(h, i, k);
    }
}

/// A slot as it is at one moment: its tag, the tag that belongs there while an
/// updater holds the slot, and what a reader would find in the entry.
pub struct Tagged<V> {
    pub tag: u16,
    pub home: u16,
    pub value: V,
}

/// What can happen to a slot from one moment to the next as long as its entry stays:
/// nothing, an updater's claim, a change of the value under the claim, or the end of
/// the update, which puts the tag back with its spare bit turned over.
pub open spec fn tag_step<V>(a: Tagged<V>, b: Tagged<V>) -> bool {
    ||| a == b
    ||| a.tag == a.home && a.tag & LIVE != 0 && b.tag == EMPTY && b.home == a.home && b.value
        == a.value
    ||| a.tag == EMPTY && b.tag == EMPTY && b.home == a.home
    ||| a.tag == EMPTY && b.home == a.home ^ SPARE && b.tag == b.home && b.value == a.value
}

/// A slot through time.
pub open spec fn tag_history<V>(h: Seq<Tagged<V>>) -> bool {
    forall|i: int| #![trigger h[i]] 0 <= i && i + 1 < h.len() ==> tag_step(h[i], h[i + 1])
}

/// How many updates ended between two moments.
pub open spec fn updates<V>(h: Seq<Tagged<V>>, i: int, j: int) -> nat
    decreases j - i,
{
    if i >= j {
        0
    } else {
        updates(h, i, j - 1) + if h[j].home == h[j - 1].home {
            0nat
        } else {
            1
        }
    }
}

proof fn lemma_updates<V>(h: Seq<Tagged<V>>, i: int, j: int)
    requires
        tag_history(h),
        0 <= i <= j < h.len(),
        h[i].tag == h[i].home,
        h[i].tag & LIVE != 0,
    ensures
        h[j].home == turned(h[i].home, updates(h, i, j)),
        h[j].home & LIVE != 0,
        h[j].tag == EMPTY || h[j].tag == h[j].home,
        updates(h, i, j) == 0 && h[j].tag != EMPTY ==> h[j] == h[i],
        updates(h, i, j) == 0 && h[j].tag == EMPTY ==> h[j].home == h[i].home,
    decreases j - i,
{
    if i < j {
        lemma_updates(h, i, j - 1);
        let a = h[j - 1];
        let b = h[j];
        assert(tag_step(a, b));
        law_turned_step(h[i].home, updates(h, i, j - 1));
        lemma_spare_bit(a.home);
    } else {
        lemma_spare_bit(h[i].home);
    }
}

/// A snapshot between two equal live tags is whole unless two or more updates, an even
/// number of them, ended between the loads: then the spare bit is as it was.
pub proof fn law_trusted_tag_snapshot<V>(h: Seq<Tagged<V>>, i: int, j: int)
    requires
        tag_history(h),
        0 <= i <= j < h.len(),
        h[i].tag == h[i].home,
        tag_stable(h[i].tag, h[j].tag),
    ensures
        updates(h, i, j) % 2 == 0,
        updates(h, i, j) < 2 ==> forall|k: int|
            i <= k <= j ==> #[trigger] h[k] == h[i],
{
    lemma_updates(h, i, j);
    lemma_spare_bit(h[i].tag);
    assert forall|k: int| updates(h, i, j) < 2 && i <= k <= j implies #[trigger] h[k] == h[i] by {
        lemma_updates(h, i, k);
        lemma_updates_grow(h, i, k, j);
        if h[k].tag == EMPTY {
            lemma_claim_lasts(h, i, k, j);
        }
    }
}

proof fn lemma_claim_lasts<V>(h: Seq<Tagged<V>>, i: int, k: int, j: int)
    requires
        tag_history(h),
        0 <= i <= k <= j < h.len(),
        h[k].tag == EMPTY,
        updates(h, i, j) == 0,
    ensures
        h[j].tag == EMPTY,
    decreases j - k,
{
    if k < j {
        lemma_updates_grow(h, i, k + 1, j);
        lemma_updates_grow(h, i, k, k + 1);
        assert(tag_step(h[k], h[k + 1]));
        lemma_spare_bit(h[k].home);
        lemma_claim_lasts(h, i, k + 1, j);
    }
}

proof fn lemma_updates_grow<V>(h: Seq<Tagged<V>>, i: int, k: int, j: int)
    requires
        i <= k <= j,
    ensures
        updates(h, i, k) <= updates(h, i, j),
    decreases j - k,
{
    if k < j {
        lemma_updates_grow(h, i, k, j - 1);
    }
}

/// A snapshot of an entry that nobody touches is trusted: a live tag that stays, or a version
/// that stays with no write under way.
pub proof fn law_quiet_entries_are_trusted(tag: u16, version: u32)
    ensures
        tag & LIVE != 0 ==> tag_stable(tag, tag),
        version % 2 == 0 ==> version_stable(version, version),
{
}

/// A reader scans four times at most, and a writer tries once before it takes the lock.
pub proof fn law_attempts(attempt: usize)
    ensures
        attempt < MAX_READER_RETRY <==> attempt < 4,
        attempt < MAX_CLAIM_RETRY <==> attempt < 1,
{
}

} // verus!
