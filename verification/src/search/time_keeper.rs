//! A deadline that a search can poll.

use std::time::Duration;
use std::time::Instant;
use vstd::prelude::*;

verus! {

/// `std::time::Instant`, a moment on the monotonic clock. Nothing of what
/// it holds is known here.
#[verifier::external_type_specification]
#[verifier::external_body]
pub struct ExInstant(Instant);

/// The present moment, by `Instant::now`. Nothing is promised of it.
#[verifier::external_body]
fn now() -> Instant {
    Instant::now()
}

/// The time that has passed since `start`, by `Instant::elapsed`. Nothing
/// is promised of it.
#[verifier::external_body]
fn elapsed_since(start: &Instant) -> Duration {
    start.elapsed()
}

/// The whole microseconds of `span`, by `Duration::as_micros`. Nothing is
/// promised of the number.
#[verifier::external_body]
pub(crate) fn micros_of(span: &Duration) -> u128 {
    span.as_micros()
}

/// The microseconds that a search may use of `timeout` microseconds when it
/// keeps `margin` of them in reserve: what is left of the timeout, or
/// nothing where the margin is the greater of the two.
pub fn span_less_margin(timeout: u128, margin: u64) -> (span: u128)
    ensures
        span == (if timeout >= margin {
            timeout - margin
        } else {
            0
        }),
{
    let margin = margin as u128;
    if timeout >= margin {
        timeout - margin
    } else {
        0
    }
}

/// A deadline on the monotonic clock.
///
/// Once the keeper has seen its deadline pass, it says so ever after.
pub struct TimeKeeper {
    start: Instant,
    limit: u128,
    expired: bool,
}

impl TimeKeeper {
    /// Whether the keeper has seen its deadline pass.
    pub closed spec fn expired(&self) -> bool {
        self.expired
    }

    /// How many microseconds after its start the deadline of the keeper
    /// lies.
    pub closed spec fn limit(&self) -> u128 {
        self.limit
    }

    /// A keeper whose deadline lies `limit` microseconds after now.
    pub fn new(limit: u128) -> (keeper: TimeKeeper)
        ensures
            !keeper.expired(),
            keeper.limit() == limit,
    {
        TimeKeeper { start: now(), limit, expired: false }
    }

    /// Takes note that `passed` microseconds have passed since the start:
    /// the deadline has passed once they are as many as the limit.
    pub fn note(&mut self, passed: u128) -> (timeout: bool)
        ensures
            final(self).expired() == (old(self).expired() || passed >= old(self).limit()),
            final(self).limit() == old(self).limit(),
            timeout == final(self).expired(),
    {
        if passed >= self.limit {
            self.expired = true;
        }
        self.expired
    }

    /// Whether the deadline has passed: reads the clock, unless the
    /// deadline was seen to pass before, and takes note of the time.
    pub fn is_timeout(&mut self) -> (timeout: bool)
        ensures
            timeout == final(self).expired(),
            old(self).expired() ==> timeout,
            final(self).limit() == old(self).limit(),
    {
        if self.expired {
            return true;
        }
        let passed = micros_of(&elapsed_since(&self.start));
        self.note(passed)
    }
}

} // verus!
