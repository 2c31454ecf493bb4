use vstd::prelude::*;

use std::time::Instant;

use crate::clock::{instant_now, millis_since};

verus! {

/// Whether a budget of `budget_ms` milliseconds is spent after `elapsed_ms` of them.
pub fn budget_spent(elapsed_ms: i64, budget_ms: i64) -> (out: bool)
    ensures
        out == (elapsed_ms >= budget_ms),
{
    elapsed_ms >= budget_ms
}

/// A stopwatch started at some instant.
pub struct Timer {
    start: Instant,
}

impl Timer {
    /// A timer started now.
    pub fn new() -> (t: Self) {
        Timer { start: instant_now() }
    }

    /// Restarts the timer now.
    pub fn start(&mut self) {
        self.start = instant_now();
    }

    /// Milliseconds since the timer was started.
    pub fn elapsed_ms(&self) -> (ms: i64) {
        millis_since(&self.start)
    }

    /// Whether at least `budget_ms` milliseconds have passed since the timer was started: the
    /// clock's reading (see `elapsed_ms`) compared by `budget_spent`.
    pub fn timed_out(&self, budget_ms: i64) -> (out: bool) {
        let ms = self.elapsed_ms();
        budget_spent(ms, budget_ms)
    }
}

} // verus!
