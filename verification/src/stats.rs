use vstd::prelude::*;
use std::time::Duration;

verus! {

/// What was measured while one algorithm was recorded.
#[derive(Clone, Copy, Debug)]
pub struct SortStats {
    total_steps: u64,
    duration: Duration,
}

/// The measurements as plain values.
pub struct StatsView {
    pub total_steps: u64,
    pub duration: Duration,
}

impl View for SortStats {
    type V = StatsView;

    closed spec fn view(&self) -> StatsView {
        StatsView { total_steps: self.total_steps, duration: self.duration }
    }
}

impl SortStats {
    /// Puts the number of recorded frames and the time that recording them
    /// took together.
    pub fn from_measurements(total_steps: u64, duration: Duration) -> (stats: Self)
        ensures
            stats@.total_steps == total_steps,
            stats@.duration == duration,
    {
        Self { total_steps, duration }
    }

    /// The number of frames in the recording.
    pub fn total_steps(&self) -> (total_steps: u64)
        ensures
            total_steps == self@.total_steps,
    {
        self.total_steps
    }

    /// The time that the recording took.
    pub fn duration(&self) -> (duration: Duration)
        ensures
            duration == self@.duration,
    {
        self.duration
    }
}

} // verus!
