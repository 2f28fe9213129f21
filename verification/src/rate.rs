//! Sliding one-second throughput counter, used independently by the
//! producer (acquisition rate) and the consumer (delivery rate).

use vstd::prelude::*;

verus! {

/// Number of milliseconds a measurement window must span before a
/// rate is reported and the window resets.
pub const WINDOW_MS: u64 = 1000;

/// One completed measurement window: how many items were recorded and
/// how many milliseconds the window actually spanned (always >= WINDOW_MS).
#[derive(Clone, Copy, Debug, PartialEq, Eq, Structural)]
pub struct RateSample {
    pub frames: u64,
    pub elapsed_ms: u64,
}

/// Per-task throughput counter. Each side of the pipeline owns its own
/// instance; there is no cross-task sharing.
#[derive(Clone, Copy, Debug, PartialEq, Eq, Structural)]
pub struct RateMonitor {
    /// Items recorded since the window started.
    pub count: u64,
    /// Timestamp (milliseconds) at which the current window started.
    pub window_start_ms: u64,
}

impl RateMonitor {
    /// Start a monitor whose first window opens at `now_ms`.
    pub fn new(now_ms: u64) -> (r: RateMonitor)
        ensures
            r.count == 0,
            r.window_start_ms == now_ms,
    {
        RateMonitor { count: 0, window_start_ms: now_ms }
    }

    /// Record one processed item at time `now_ms`. When the window has
    /// spanned at least `WINDOW_MS`, the completed window is returned and
    /// the counter resets with a new window starting at `now_ms`;
    /// otherwise the count merely increments.
    pub fn record_one(&mut self, now_ms: u64) -> (r: Option<RateSample>)
        requires
            old(self).count < u64::MAX,
            now_ms >= old(self).window_start_ms,
        ensures
            ({
                let c = (old(self).count + 1) as u64;
                let elapsed = (now_ms - old(self).window_start_ms) as u64;
                if elapsed >= WINDOW_MS {
                    &&& r == Some((RateSample { frames: c, elapsed_ms: elapsed }))
                    &&& final(self).count == 0
                    &&& final(self).window_start_ms == now_ms
                } else {
                    &&& r is None
                    &&& final(self).count == c
                    &&& final(self).window_start_ms == old(self).window_start_ms
                }
            }),
    {
        self.count = self.count + 1;
        let elapsed = now_ms - self.window_start_ms;
        if elapsed >= WINDOW_MS {
            let sample = RateSample { frames: self.count, elapsed_ms: elapsed };
            self.count = 0;
            self.window_start_ms = now_ms;
            Some(sample)
        } else {
            None
        }
    }
}

/// Throughput of a completed window in thousandths of items per second,
/// computed with integer arithmetic (the caller formats it for display).
pub fn frames_per_second_milli(s: &RateSample) -> (r: u64)
    requires
        s.elapsed_ms > 0,
        s.frames <= u64::MAX / 1_000_000,
    ensures
        r == s.frames as int * 1_000_000 / s.elapsed_ms as int,
{
    s.frames * 1_000_000 / s.elapsed_ms
}

} // verus!
