//! Counts of the simulation runs that ended fresh and of those that went stale.
use vstd::prelude::*;

verus! {

/// How many simulation runs were still current when they finished, and how
/// many had been overtaken by a newer head.
///
/// The counters wrap around after `u64::MAX`, as hardware counters do.
#[derive(Debug, Clone, Copy, PartialEq, Eq)]
pub struct SimulationCounters {
    pub fresh: u64,
    pub stale: u64,
}

/// The value of a 64-bit counter after one more event.
pub open spec fn bumped(count: u64) -> u64 {
    if count == u64::MAX {
        0
    } else {
        (count + 1) as u64
    }
}

impl Default for SimulationCounters {
    /// Counters that have seen nothing yet.
    fn default() -> (res: Self)
        ensures
            res.fresh == 0,
            res.stale == 0,
    {
        SimulationCounters { fresh: 0, stale: 0 }
    }
}

impl SimulationCounters {
    /// The pair (fresh, stale).
    pub open spec fn totals(self) -> (u64, u64) {
        (self.fresh, self.stale)
    }

    pub fn snapshot(&self) -> (res: (u64, u64))
        ensures
            res == self.totals(),
            res == (self.fresh, self.stale),
    {
        (self.fresh, self.stale)
    }

    /// Counts one fresh run and returns the new totals.
    pub fn record_fresh(&mut self) -> (res: (u64, u64))
        ensures
            final(self).fresh == bumped(old(self).fresh),
            final(self).stale == old(self).stale,
            res == final(self).totals(),
            res == (bumped(old(self).fresh), old(self).stale),
    {
        self.fresh = self.fresh.wrapping_add(1);
        self.snapshot()
    }

    /// Counts one stale run and returns the new totals.
    pub fn record_stale(&mut self) -> (res: (u64, u64))
        ensures
            final(self).stale == bumped(old(self).stale),
            final(self).fresh == old(self).fresh,
            res == final(self).totals(),
            res == (old(self).fresh, bumped(old(self).stale)),
    {
        self.stale = self.stale.wrapping_add(1);
        self.snapshot()
    }
}

} // verus!
