//! The wall clock that bounds a session of runs. Nothing in this file says
//! what the clock shows: no contract can.

use vstd::prelude::*;
use std::time::{Duration, Instant};

verus! {

/// `std::time::Instant`, a moment on the monotonic clock.
#[verifier::external_type_specification]
#[verifier::external_body]
pub struct ExInstant(Instant);

/// `Instant::now`: the present moment.
#[verifier::external_body]
pub(crate) fn instant_now() -> Instant {
    Instant::now()
}

/// `Instant::elapsed`: the time that has passed since `start`.
#[verifier::external_body]
pub(crate) fn instant_elapsed(start: &Instant) -> Duration {
    start.elapsed()
}

/// `Duration::as_millis`: the whole milliseconds of a span.
#[verifier::external_body]
pub(crate) fn duration_as_millis(span: &Duration) -> u128 {
    span.as_millis()
}

/// The shortest time budget that a session is given, in milliseconds.
pub const MIN_TIMEOUT_MS: u64 = 100;

/// The budget that a session runs under: the budget asked for, and at least
/// `MIN_TIMEOUT_MS`.
pub fn effective_timeout(timeout_ms: u64) -> (budget: u64)
    ensures
        budget == if timeout_ms >= MIN_TIMEOUT_MS {
            timeout_ms
        } else {
            MIN_TIMEOUT_MS
        },
{
    if timeout_ms >= MIN_TIMEOUT_MS {
        timeout_ms
    } else {
        MIN_TIMEOUT_MS
    }
}

/// Whether a session that has run for `elapsed_ms` has spent a budget of
/// `max_runtime_ms`: it has once more time has passed than the budget gives.
pub fn budget_spent(elapsed_ms: u128, max_runtime_ms: u64) -> (spent: bool)
    ensures
        spent == (elapsed_ms > max_runtime_ms),
{
    elapsed_ms > max_runtime_ms as u128
}

/// The whole milliseconds that have passed since `start_time`.
pub fn elapsed_millis(start_time: &Instant) -> u128 {
    let span = instant_elapsed(start_time);
    duration_as_millis(&span)
}

/// Whether the session that began at `start_time` has spent its budget.
pub fn is_timeout_exceeded(start_time: &Instant, max_runtime_ms: u64) -> bool {
    budget_spent(elapsed_millis(start_time), max_runtime_ms)
}

} // verus!
