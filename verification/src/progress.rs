//! Shared progress counter for the parallel scan: tracks completed versus
//! total units of work. Each worker bumps it exactly once; the caller renders
//! the pair as a best-effort status update.

use vstd::prelude::*;

verus! {

pub struct ProgressReporter {
    completed: u32,
    total: u32,
}

impl ProgressReporter {
    pub closed spec fn completed(self) -> u32 {
        self.completed
    }

    pub closed spec fn total(self) -> u32 {
        self.total
    }

    pub fn new(total: u32) -> (r: ProgressReporter)
        ensures
            r.completed() == 0,
            r.total() == total,
    {
        ProgressReporter { completed: 0, total }
    }

    /// Bumps the completed count by one and hands back the new pair, for the
    /// caller to render as "completed/total".
    pub fn increment(&mut self) -> (r: (u32, u32))
        requires
            old(self).completed() < old(self).total(),
        ensures
            final(self).completed() == old(self).completed() + 1,
            final(self).total() == old(self).total(),
            r.0 == final(self).completed(),
            r.1 == final(self).total(),
    {
        self.completed = self.completed + 1;
        (self.completed, self.total)
    }

    /// The current pair, for status displays.
    pub fn snapshot(&self) -> (r: (u32, u32))
        ensures
            r.0 == self.completed(),
            r.1 == self.total(),
    {
        (self.completed, self.total)
    }
}

} // verus!
