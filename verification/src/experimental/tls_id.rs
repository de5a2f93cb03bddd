//! Per-thread ids.
//!
//! A thread gets an id with its first operation and keeps it. Ids are handed out in
//! ascending order and never twice.
use vstd::prelude::*;

verus! {

/// What a thread has before it gets its id.
pub const UNASSIGNED: u32 = 0xffff_ffff;

/// Hands out ids.
pub struct TlsIds {
    next: u32,
}

impl TlsIds {
    /// The id that is handed out next.
    pub closed spec fn upcoming(self) -> u32 {
        self.next
    }

    pub fn new() -> (fresh: Self)
        ensures
            fresh.upcoming() == 0,
    {
        TlsIds { next: 0 }
    }

    /// Hands out a id.
    pub fn allocate(&mut self) -> (id: u32)
        requires
            old(self).upcoming() < UNASSIGNED,
        ensures
            id == old(self).upcoming(),
            final(self).upcoming() == id + 1,
    {
        let id: u32 = self.next;
        self.next = id + 1;
        id
    }
}

/// The id of the thread whose cell is `cell`: the one it has, or a new one on first
/// use.
pub fn current_tls_id(cell: &mut u32, all: &mut TlsIds) -> (id: u32)
    requires
        *old(cell) == UNASSIGNED ==> old(all).upcoming() < UNASSIGNED,
    ensures
        id != UNASSIGNED,
        *final(cell) == id,
        *old(cell) != UNASSIGNED ==> id == *old(cell) && *final(all) == *old(all),
        *old(cell) == UNASSIGNED ==> id == old(all).upcoming() && final(all).upcoming() == id
            + 1,
{
    let current: u32 = *cell;
    if current != UNASSIGNED {
        current
    } else {
        let fresh: u32 = all.allocate();
        *cell = fresh;
        fresh
    }
}

/// Whether every cell that has a id has one that was handed out, and no two have the same.
pub open spec fn all_distinct(cells: Seq<u32>, all: TlsIds) -> bool {
    &&& forall|i: int|
        0 <= i < cells.len() && #[trigger] cells[i] != UNASSIGNED ==> cells[i] < all.upcoming()
    &&& forall|i: int, j: int|
        0 <= i < cells.len() && 0 <= j < cells.len() && i != j && #[trigger] cells[i] != UNASSIGNED
            ==> cells[i] != #[trigger] cells[j]
}

/// A thread that asks for its id leaves the ids of all threads distinct.
pub proof fn law_distinct(
    cells: Seq<u32>,
    all: TlsIds,
    i: int,
    id: u32,
    after: TlsIds,
)
    requires
        all_distinct(cells, all),
        0 <= i < cells.len(),
        id != UNASSIGNED,
        cells[i] != UNASSIGNED ==> id == cells[i] && after == all,
        cells[i] == UNASSIGNED ==> id == all.upcoming() && after.upcoming() == id + 1,
    ensures
        all_distinct(cells.update(i, id), after),
{
    let new = cells.update(i, id);
    assert forall|j: int|
        0 <= j < new.len() && #[trigger] new[j] != UNASSIGNED implies new[j] < after.upcoming() by {
        if j != i {
            assert(cells[j] < all.upcoming());
        }
    }
    assert forall|j: int, k: int|
        0 <= j < new.len() && 0 <= k < new.len() && j != k && #[trigger] new[j]
            != UNASSIGNED implies new[j] != #[trigger] new[k] by {
        if j != i && k != i {
            assert(cells[j] != cells[k]);
        } else if j != i {
            assert(cells[j] < all.upcoming());
            assert(cells[j] != cells[i]);
        } else if cells[k] != UNASSIGNED {
            assert(cells[k] < all.upcoming());
            assert(cells[k] != cells[i]);
        }
    }
}

} // verus!
