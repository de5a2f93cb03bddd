//! Per-thread routing hints.
//!
//! A thread gets a hint with its first operation and keeps it. Hints are handed out in
//! ascending order and never twice; routing needs no more than that a thread always goes
//! the same way.
use vstd::prelude::*;

verus! {

/// What a thread has before it gets its hint.
pub const UNASSIGNED: u32 = 0xffff_ffff;

/// Hands out hints.
pub struct RoutingHints {
    next: u32,
}

impl RoutingHints {
    /// The hint that is handed out next.
    pub closed spec fn upcoming(self) -> u32 {
        self.next
    }

    pub fn new() -> (fresh: Self)
        ensures
            fresh.upcoming() == 0,
    {
        RoutingHints { next: 0 }
    }

    /// Hands out a hint.
    pub fn allocate(&mut self) -> (hint: u32)
        requires
            old(self).upcoming() < UNASSIGNED,
        ensures
            hint == old(self).upcoming(),
            final(self).upcoming() == hint + 1,
    {
        let hint: u32 = self.next;
        self.next = hint + 1;
        hint
    }
}

/// The hint of the thread whose cell is `cell`: the one it has, or a new one on first
/// use.
pub fn routing_hint(cell: &mut u32, all: &mut RoutingHints) -> (hint: u32)
    requires
        *old(cell) == UNASSIGNED ==> old(all).upcoming() < UNASSIGNED,
    ensures
        hint != UNASSIGNED,
        *final(cell) == hint,
        *old(cell) != UNASSIGNED ==> hint == *old(cell) && *final(all) == *old(all),
        *old(cell) == UNASSIGNED ==> hint == old(all).upcoming() && final(all).upcoming() == hint
            + 1,
{
    let current: u32 = *cell;
    if current != UNASSIGNED {
        current
    } else {
        let fresh: u32 = all.allocate();
        *cell = fresh;
        fresh
    }
}

/// Whether every cell that has a hint has one that was handed out, and no two have the same.
pub open spec fn all_distinct(cells: Seq<u32>, all: RoutingHints) -> bool {
    &&& forall|i: int|
        0 <= i < cells.len() && #[trigger] cells[i] != UNASSIGNED ==> cells[i] < all.upcoming()
    &&& forall|i: int, j: int|
        0 <= i < cells.len() && 0 <= j < cells.len() && i != j && #[trigger] cells[i] != UNASSIGNED
            ==> cells[i] != #[trigger] cells[j]
}

/// A thread that asks for its hint leaves the hints of all threads distinct.
pub proof fn law_distinct(
    cells: Seq<u32>,
    all: RoutingHints,
    i: int,
    hint: u32,
    after: RoutingHints,
)
    requires
        all_distinct(cells, all),
        0 <= i < cells.len(),
        hint != UNASSIGNED,
        cells[i] != UNASSIGNED ==> hint == cells[i] && after == all,
        cells[i] == UNASSIGNED ==> hint == all.upcoming() && after.upcoming() == hint + 1,
    ensures
        all_distinct(cells.update(i, hint), after),
{
    let new = cells.update(i, hint);
    assert forall|j: int|
        0 <= j < new.len() && #[trigger] new[j] != UNASSIGNED implies new[j] < after.upcoming() by {
        if j != i {
            assert(cells[j] < all.upcoming());
        }
    }
    assert forall|j: int, k: int|
        0 <= j < new.len() && 0 <= k < new.len() && j != k && #[trigger] new[j]
            != UNASSIGNED implies new[j] != #[trigger] new[k] by {
        if j != i && k != i {
            assert(cells[j] != cells[k]);
        } else if j != i {
            assert(cells[j] < all.upcoming());
            assert(cells[j] != cells[i]);
        } else if cells[k] != UNASSIGNED {
            assert(cells[k] < all.upcoming());
            assert(cells[k] != cells[i]);
        }
    }
}

} // verus!
