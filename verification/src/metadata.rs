//! Counters that a search keeps: positions visited and prunes made.

use vstd::prelude::*;

verus! {

/// A count as a counter holds it: counters stop at `i64::MAX`.
pub open spec fn saturate(n: int) -> int {
    if n > i64::MAX {
        i64::MAX as int
    } else {
        n
    }
}

/// What one search did: how many positions it visited and how often it
/// cut a position's remaining moves off.
#[derive(Debug)]
pub struct Metadata {
    moves: i64,
    prunes: i64,
}

impl Metadata {
    /// The number of positions visited.
    pub closed spec fn visited(&self) -> i64 {
        self.moves
    }

    /// The number of prunes.
    pub closed spec fn pruned(&self) -> i64 {
        self.prunes
    }

    /// Counters at zero.
    pub fn new() -> (metadata: Metadata)
        ensures
            metadata.visited() == 0,
            metadata.pruned() == 0,
    {
        Metadata { moves: 0, prunes: 0 }
    }

    /// Counters that hold the given counts.
    pub fn with_counts(moves: i64, prunes: i64) -> (metadata: Metadata)
        ensures
            metadata.visited() == moves,
            metadata.pruned() == prunes,
    {
        Metadata { moves, prunes }
    }

    /// The number of positions visited.
    pub fn moves(&self) -> (moves: i64)
        ensures
            moves == self.visited(),
    {
        self.moves
    }

    /// The number of prunes.
    pub fn prunes(&self) -> (prunes: i64)
        ensures
            prunes == self.pruned(),
    {
        self.prunes
    }

    /// Counts one more position.
    pub fn count_move(&mut self)
        ensures
            final(self).visited() == saturate(old(self).visited() + 1),
            final(self).pruned() == old(self).pruned(),
    {
        if self.moves < i64::MAX {
            self.moves = self.moves + 1;
        }
    }

    /// Counts one more prune.
    pub fn count_prune(&mut self)
        ensures
            final(self).visited() == old(self).visited(),
            final(self).pruned() == saturate(old(self).pruned() + 1),
    {
        if self.prunes < i64::MAX {
            self.prunes = self.prunes + 1;
        }
    }
}

} // verus!
