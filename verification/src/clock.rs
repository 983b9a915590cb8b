//! The wall clock that bounds a search.

use vstd::prelude::*;

verus! {

/// A point in time as the standard library measures it. Nothing is known of
/// its value.
#[verifier::external_type_specification]
#[verifier::external_body]
pub struct ExInstant(std::time::Instant);

/// `std::time::Instant::now`: the current point in time. Nothing is claimed
/// of it.
#[verifier::external_body]
fn now() -> std::time::Instant {
    std::time::Instant::now()
}

/// `std::time::Instant::elapsed`: the time that has passed since `start`.
/// Nothing is claimed of it.
#[verifier::external_body]
fn elapsed(start: &std::time::Instant) -> std::time::Duration {
    start.elapsed()
}

/// `std::time::Duration::as_millis`: the whole milliseconds in `d`. Nothing
/// is claimed of the number.
#[verifier::external_body]
fn as_millis(d: &std::time::Duration) -> u128 {
    d.as_millis()
}

/// A deadline: a starting point and the milliseconds allowed from it.
pub struct Clock {
    start: std::time::Instant,
    limit: u64,
}

/// Whether `elapsed` milliseconds use up an allowance of `limit`.
pub fn past(elapsed: u128, limit: u64) -> (r: bool)
    ensures
        r == (elapsed >= limit),
{
    elapsed >= limit as u128
}

impl Clock {
    /// The milliseconds this clock allows.
    pub closed spec fn allowance(&self) -> u64 {
        self.limit
    }

    /// A clock that starts now and allows `limit` milliseconds.
    pub fn new(limit: u64) -> (r: Clock)
        ensures
            r.allowance() == limit,
    {
        Clock { start: now(), limit }
    }

    /// The milliseconds that have passed since the clock started.
    pub fn get_time(&self) -> u128 {
        get_time(&self.start)
    }

    /// Whether the allowance is used up: whether the milliseconds that have
    /// passed since the clock started are as many as it allows. A clock that
    /// allows none has expired whatever the time.
    pub fn expired(&self) -> (r: bool)
        ensures
            self.allowance() == 0 ==> r,
    {
        past(self.get_time(), self.limit)
    }
}

/// The milliseconds that have passed since `start`.
pub fn get_time(start: &std::time::Instant) -> u128 {
    let d = elapsed(start);
    as_millis(&d)
}

} // verus!
