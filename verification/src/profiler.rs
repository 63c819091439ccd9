//! Execution statistics for the tiered runtime.
use vstd::prelude::*;

verus! {

/// Counts executions and holds the threshold above which code counts as hot.
#[derive(Debug)]
pub struct Profiler {
    execution_count: u64,
    hot_threshold: u32,
}

impl Profiler {
    /// Total number of executions recorded.
    pub closed spec fn count(&self) -> u64 {
        self.execution_count
    }

    /// Number of calls after which code counts as hot.
    pub closed spec fn threshold(&self) -> u32 {
        self.hot_threshold
    }

    /// A profiler with no executions and the default threshold of 100.
    pub fn new() -> (r: Self)
        ensures
            r.count() == 0,
            r.threshold() == 100,
    {
        Profiler { execution_count: 0, hot_threshold: 100 }
    }

    /// A profiler with no executions and the given threshold.
    pub fn with_threshold(hot_threshold: u32) -> (r: Self)
        ensures
            r.count() == 0,
            r.threshold() == hot_threshold,
    {
        Profiler { execution_count: 0, hot_threshold }
    }

    /// Records one execution.
    pub fn record_execution(&mut self)
        requires
            old(self).count() < u64::MAX,
        ensures
            final(self).count() == old(self).count() + 1,
            final(self).threshold() == old(self).threshold(),
    {
        self.execution_count = self.execution_count + 1;
    }

    /// Total number of executions recorded.
    pub fn execution_count(&self) -> (r: u64)
        ensures
            r == self.count(),
    {
        self.execution_count
    }

    /// The hot threshold.
    pub fn hot_threshold(&self) -> (r: u32)
        ensures
            r == self.threshold(),
    {
        self.hot_threshold
    }
}

impl Default for Profiler {
    /// The default settings: no executions and a threshold of 100.
    fn default() -> (r: Self)
        ensures
            r.count() == 0,
            r.threshold() == 100,
    {
        Profiler::new()
    }
}

} // verus!
