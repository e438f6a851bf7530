//! Reading the clocks. Nothing is promised of a reading: code that consults
//! a clock states what holds whatever it reads.
use vstd::prelude::*;
use std::time::{Duration, Instant, SystemTime};

verus! {

#[verifier::external_type_specification]
#[verifier::external_body]
pub struct ExInstant(std::time::Instant);

#[verifier::external_type_specification]
#[verifier::external_body]
pub struct ExSystemTime(std::time::SystemTime);

/// `Instant::now`: a reading of the monotonic clock.
#[verifier::external_body]
pub(crate) fn instant_now() -> Instant {
    Instant::now()
}

/// `Instant::elapsed`: the time since `start`.
#[verifier::external_body]
pub(crate) fn instant_elapsed(start: &Instant) -> Duration {
    start.elapsed()
}

/// `Duration::as_nanos`: the whole duration in nanoseconds.
#[verifier::external_body]
pub(crate) fn duration_as_nanos(d: &Duration) -> u128 {
    d.as_nanos()
}

/// `Duration::as_millis`: the whole duration in milliseconds.
#[verifier::external_body]
pub(crate) fn duration_as_millis(d: &Duration) -> u128 {
    d.as_millis()
}

/// `SystemTime::now`: a reading of the wall clock.
#[verifier::external_body]
pub(crate) fn system_time_now() -> SystemTime {
    SystemTime::now()
}

/// `SystemTime::duration_since(UNIX_EPOCH)`: the time since the epoch, or
/// `None` when the clock reads before the epoch (the error case).
#[verifier::external_body]
pub(crate) fn duration_since_unix_epoch(t: &SystemTime) -> Option<Duration> {
    t.duration_since(std::time::UNIX_EPOCH).ok()
}

/// The stored form of a wall-clock reading: whole milliseconds since the
/// epoch truncated to `i64`, and 0 for a clock that reads before the epoch.
pub open spec fn timestamp_of(epoch_millis: Option<u128>) -> i64 {
    match epoch_millis {
        Some(m) => m as i64,
        None => 0,
    }
}

/// Turns a reading in milliseconds since the epoch (`None` before the
/// epoch) into a stored timestamp.
pub fn timestamp_from_epoch_millis(epoch_millis: Option<u128>) -> (r: i64)
    ensures
        r == timestamp_of(epoch_millis),
{
    match epoch_millis {
        Some(m) => m as i64,
        None => 0,
    }
}

/// Milliseconds since the Unix epoch on the wall clock, as the timestamps of
/// the database are stored: the reading goes through
/// `timestamp_from_epoch_millis`. Nothing is promised of the reading.
pub fn now_ms() -> i64 {
    let t = system_time_now();
    let ms = match duration_since_unix_epoch(&t) {
        Some(d) => Some(duration_as_millis(&d)),
        None => None,
    };
    timestamp_from_epoch_millis(ms)
}

/// An elapsed time of `elapsed_nanos` nanoseconds exceeds a budget of
/// `budget_nanos`.
pub open spec fn exceeds(elapsed_nanos: u128, budget_nanos: u128) -> bool {
    elapsed_nanos > budget_nanos
}

/// Whether more than `budget_nanos` nanoseconds have passed since `started`:
/// the elapsed time, read in whole nanoseconds as a `u128`, is compared with
/// the budget. The reading itself is whatever the clock gives, so a budget of
/// `u128::MAX` nanoseconds is never exceeded.
pub(crate) fn over_budget(started: &Instant, budget_nanos: u128) -> (b: bool)
    ensures
        exists|elapsed_nanos: u128| b == #[trigger] exceeds(elapsed_nanos, budget_nanos),
{
    let e = instant_elapsed(started);
    let n = duration_as_nanos(&e);
    assert(exceeds(n, budget_nanos) == (n > budget_nanos));
    n > budget_nanos
}

} // verus!
