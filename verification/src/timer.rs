//! An edge-triggered countdown timer advanced by explicit millisecond
//! deltas. A timer fires at most once per tick, however large the delta:
//! several intervals' worth of elapsed time never produce catch-up bursts.

use vstd::prelude::*;

verus! {

/// Countdown state: fires when a tick's delta reaches the remaining time,
/// then rearms to the full interval.
#[derive(Clone, Copy, Debug, PartialEq, Eq, Structural)]
pub struct TickTimer {
    pub interval_ms: u64,
    pub remaining_ms: u64,
}

impl TickTimer {
    /// The interval is positive and the countdown never exceeds it.
    pub open spec fn wf(&self) -> bool {
        1 <= self.remaining_ms <= self.interval_ms
    }

    /// A fresh timer with a full countdown.
    pub fn new(interval_ms: u64) -> (t: TickTimer)
        requires
            interval_ms >= 1,
        ensures
            t.wf(),
            t.interval_ms == interval_ms,
            t.remaining_ms == interval_ms,
    {
        TickTimer { interval_ms, remaining_ms: interval_ms }
    }

    /// Restart the countdown from the full interval.
    pub fn reset(&mut self)
        requires
            old(self).wf(),
        ensures
            final(self).wf(),
            final(self).interval_ms == old(self).interval_ms,
            final(self).remaining_ms == old(self).interval_ms,
    {
        self.remaining_ms = self.interval_ms;
    }

    /// Advance the countdown by one tick's delta. Fires exactly when the
    /// delta reaches the remaining time, and then rearms; firing happens at
    /// most once per tick.
    pub fn tick(&mut self, delta_ms: u64) -> (fired: bool)
        requires
            old(self).wf(),
        ensures
            final(self).wf(),
            final(self).interval_ms == old(self).interval_ms,
            fired == (delta_ms >= old(self).remaining_ms),
            final(self).remaining_ms == if fired {
                old(self).interval_ms as int
            } else {
                old(self).remaining_ms - delta_ms
            },
    {
        if delta_ms >= self.remaining_ms {
            self.remaining_ms = self.interval_ms;
            true
        } else {
            self.remaining_ms = self.remaining_ms - delta_ms;
            false
        }
    }
}

} // verus!
