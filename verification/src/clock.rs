use vstd::prelude::*;

use std::time::{Duration, Instant};

verus! {

/// `std::time::Instant`, carried through as an opaque value.
#[verifier::external_type_specification]
#[verifier::external_body]
pub struct ExInstant(Instant);

/// Calls `Instant::now`: the current reading of the monotonic clock. Nothing is stated of it.
#[verifier::external_body]
pub(crate) fn instant_now() -> (t: Instant) {
    Instant::now()
}

/// Calls `Instant::elapsed`: the time since `start`. Nothing is stated of it, as it depends on
/// the clock.
#[verifier::external_body]
pub(crate) fn instant_elapsed(start: &Instant) -> (d: Duration) {
    start.elapsed()
}

/// Calls `Duration::as_millis`: the whole number of milliseconds in `d`. Nothing is stated of
/// it, as the duration is opaque here.
#[verifier::external_body]
pub(crate) fn duration_as_millis(d: &Duration) -> (ms: u128) {
    d.as_millis()
}

/// Milliseconds since `start`, as a signed 64-bit number (the millisecond count converted with
/// wrap-around).
pub(crate) fn millis_since(start: &Instant) -> (ms: i64) {
    let d = instant_elapsed(start);
    let total = duration_as_millis(&d);
    total as i64
}

} // verus!
