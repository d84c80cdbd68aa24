//! Single-flight guard for the aggregation job: at most one run is active at a
//! time, and a second attempt is turned away with a reference to the report of
//! the run already in progress.

use vstd::prelude::*;

verus! {

/// State of the aggregation job: idle, or running with a progress pair and a
/// reference to the report message being updated.
#[derive(Clone, Copy, PartialEq, Eq, Structural, Debug)]
pub enum JobHandle {
    Idle,
    Running { completed: u32, total: u32, report_ref: u64 },
}

/// What `try_acquire` reports: the lock was taken, or a job is already running
/// and its report reference is handed back.
#[derive(Clone, Copy, PartialEq, Eq, Structural, Debug)]
pub enum AcquireOutcome {
    Acquired,
    AlreadyRunning { report_ref: u64 },
}

/// The lock itself. The handle is private: it changes only through
/// `try_acquire` and `release`, so at most one run ever holds it.
pub struct JobLock {
    state: JobHandle,
}

impl JobLock {
    /// The current handle, for contracts.
    pub closed spec fn handle(self) -> JobHandle {
        self.state
    }

    pub fn new() -> (r: JobLock)
        ensures
            r.handle() == JobHandle::Idle,
    {
        JobLock { state: JobHandle::Idle }
    }

    /// Fails immediately, without blocking, while a job is running; otherwise
    /// takes the lock for a fresh run of `total` units of work.
    pub fn try_acquire(&mut self, total: u32, report_ref: u64) -> (r: AcquireOutcome)
        ensures
            match old(self).handle() {
                JobHandle::Running { completed: c, total: t, report_ref: rr } => {
                    &&& r == (AcquireOutcome::AlreadyRunning { report_ref: rr })
                    &&& final(self).handle() == old(self).handle()
                },
                JobHandle::Idle => {
                    &&& r == AcquireOutcome::Acquired
                    &&& final(self).handle() == (JobHandle::Running {
                        completed: 0,
                        total,
                        report_ref,
                    })
                },
            },
    {
        match self.state {
            JobHandle::Running { completed: _, total: _, report_ref: rr } => {
                AcquireOutcome::AlreadyRunning { report_ref: rr }
            },
            JobHandle::Idle => {
                self.state = JobHandle::Running { completed: 0, total, report_ref };
                AcquireOutcome::Acquired
            },
        }
    }

    /// Clears the lock unconditionally, so a failed job never wedges it; the
    /// very next `try_acquire` succeeds.
    pub fn release(&mut self)
        ensures
            final(self).handle() == JobHandle::Idle,
    {
        self.state = JobHandle::Idle;
    }

    /// Records how many units of work have completed, for status queries while
    /// the job runs; does nothing when the lock is idle.
    pub fn record_progress(&mut self, completed: u32)
        ensures
            match old(self).handle() {
                JobHandle::Running { completed: c, total: t, report_ref: rr } => {
                    final(self).handle() == (JobHandle::Running {
                        completed,
                        total: t,
                        report_ref: rr,
                    })
                },
                JobHandle::Idle => final(self).handle() == JobHandle::Idle,
            },
    {
        match self.state {
            JobHandle::Running { completed: _, total: t, report_ref: rr } => {
                self.state = JobHandle::Running { completed, total: t, report_ref: rr };
            },
            JobHandle::Idle => {},
        }
    }

    /// A copy of the current handle, for status displays.
    pub fn status(&self) -> (r: JobHandle)
        ensures
            r == self.handle(),
    {
        self.state
    }
}

} // verus!
