//! Monotonic time, through `std::time`.

use std::time::{Duration, Instant};
use vstd::prelude::*;

verus! {

/// `std::time::Instant`, carried through the library as an opaque value.
#[verifier::external_type_specification]
#[verifier::external_body]
pub struct ExInstant(Instant);

/// The `Duration` of `ms` milliseconds, as `Duration::from_millis` gives it.
pub uninterp spec fn millis_duration(ms: u64) -> Duration;

/// The time from `earlier` to `later`, or zero when `earlier` is the later
/// one, as `Instant::saturating_duration_since` gives it.
pub uninterp spec fn instant_elapsed(later: Instant, earlier: Instant) -> Duration;

/// Whether `d` is at least `bound`, as `Duration`'s `>=` answers.
pub uninterp spec fn duration_reaches(d: Duration, bound: Duration) -> bool;

/// Calls `std::time::Instant::now`. The reading depends on the clock, so
/// nothing is promised of it.
#[verifier::external_body]
pub(crate) fn instant_now() -> Instant {
    Instant::now()
}

/// Calls `std::time::Duration::from_millis`; its result is a function of
/// `ms` alone, named `millis_duration`.
#[verifier::external_body]
pub(crate) fn duration_from_millis(ms: u64) -> (r: Duration)
    ensures
        r == millis_duration(ms),
{
    Duration::from_millis(ms)
}

/// Calls `std::time::Instant::saturating_duration_since`, which never
/// panics; its result is a function of the two instants alone, named
/// `instant_elapsed`.
#[verifier::external_body]
pub(crate) fn elapsed_between(later: Instant, earlier: Instant) -> (r: Duration)
    ensures
        r == instant_elapsed(later, earlier),
{
    later.saturating_duration_since(earlier)
}

/// Compares two durations with `Duration`'s `>=`; the answer is a function
/// of the two durations alone, named `duration_reaches`.
#[verifier::external_body]
pub(crate) fn duration_at_least(d: Duration, bound: Duration) -> (r: bool)
    ensures
        r == duration_reaches(d, bound),
{
    d >= bound
}

} // verus!
