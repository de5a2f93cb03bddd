//! Counters of cache traffic.
use vstd::prelude::*;

verus! {

/// Hits and misses of reads, insertions and evictions. The counters wrap.
#[derive(Clone, Copy, Debug, PartialEq, Eq, Structural)]
pub struct Stats {
    pub hits: u64,
    pub misses: u64,
    pub insertions: u64,
    pub evictions: u64,
}

impl Stats {
    pub open spec fn none() -> Stats {
        Stats { hits: 0, misses: 0, insertions: 0, evictions: 0 }
    }

    /// The counters after a read.
    pub open spec fn read(self, hit: bool) -> Stats {
        if hit {
            Stats { hits: self.hits.wrapping_add(1), ..self }
        } else {
            Stats { misses: self.misses.wrapping_add(1), ..self }
        }
    }

    /// The counters after an insert.
    pub open spec fn inserted(self, evicted: bool) -> Stats {
        Stats {
            insertions: self.insertions.wrapping_add(1),
            evictions: if evicted {
                self.evictions.wrapping_add(1)
            } else {
                self.evictions
            },
            ..self
        }
    }

    /// Both counts together.
    pub open spec fn plus(self, other: Stats) -> Stats {
        Stats {
            hits: self.hits.wrapping_add(other.hits),
            misses: self.misses.wrapping_add(other.misses),
            insertions: self.insertions.wrapping_add(other.insertions),
            evictions: self.evictions.wrapping_add(other.evictions),
        }
    }

    /// All counters at zero.
    pub fn new() -> (stats: Stats)
        ensures
            stats == Stats::none(),
    {
        Stats { hits: 0, misses: 0, insertions: 0, evictions: 0 }
    }

    /// Counts a read.
    pub fn count_read(&mut self, hit: bool)
        ensures
            *final(self) == old(self).read(hit),
    {
        if hit {
            self.hits = self.hits.wrapping_add(1);
        } else {
            self.misses = self.misses.wrapping_add(1);
        }
    }

    /// Counts an insert.
    pub fn count_insert(&mut self, evicted: bool)
        ensures
            *final(self) == old(self).inserted(evicted),
    {
        self.insertions = self.insertions.wrapping_add(1);
        if evicted {
            self.evictions = self.evictions.wrapping_add(1);
        }
    }

    /// Adds the counts of `other`.
    pub fn add_counts(&mut self, other: &Stats)
        ensures
            *final(self) == old(self).plus(*other),
    {
        self.hits = self.hits.wrapping_add(other.hits);
        self.misses = self.misses.wrapping_add(other.misses);
        self.insertions = self.insertions.wrapping_add(other.insertions);
        self.evictions = self.evictions.wrapping_add(other.evictions);
    }
}

} // verus!
