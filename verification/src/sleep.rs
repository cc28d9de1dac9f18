//! A time-based suspension point for cooperative tasks.
//!
//! The kernel core has no clock of its own; whoever polls a `Sleep`
//! passes the current time in as a plain millisecond count, so the
//! decision "has enough time passed" is verified for every reading the
//! clock could produce.

use vstd::prelude::*;

verus! {

/// Milliseconds elapsed from `start` to `now`, zero when the clock
/// reads earlier than the start.
pub open spec fn elapsed_ms(start: u64, now: u64) -> int {
    if now >= start {
        now - start
    } else {
        0
    }
}

/// A computation that suspends until a fixed number of milliseconds has
/// passed since it was created.
pub struct Sleep {
    start_ms: u64,
    duration_ms: u64,
}

impl Sleep {
    /// When the sleep began.
    pub closed spec fn start(self) -> u64 {
        self.start_ms
    }

    /// How long it waits.
    pub closed spec fn duration(self) -> u64 {
        self.duration_ms
    }

    /// A sleep of `ms` milliseconds, measured from the clock reading
    /// `now_ms` taken at creation.
    pub fn new(now_ms: u64, ms: u64) -> (s: Sleep)
        ensures
            s.start() == now_ms,
            s.duration() == ms,
    {
        Sleep { start_ms: now_ms, duration_ms: ms }
    }

    /// Polls the sleep against the current clock reading: ready exactly
    /// when the elapsed time has reached the duration.
    pub fn poll(&self, now_ms: u64) -> (ready: bool)
        ensures
            ready == (elapsed_ms(self.start(), now_ms) >= self.duration()),
    {
        if now_ms >= self.start_ms {
            now_ms - self.start_ms >= self.duration_ms
        } else {
            self.duration_ms == 0
        }
    }
}

} // verus!
