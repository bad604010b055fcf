//! Monotonic time, read through `std::time::Instant`.
use vstd::prelude::*;

verus! {

/// `std::time::Instant`, carried through opaquely.
#[verifier::external_type_specification]
#[verifier::external_body]
pub struct ExInstant(std::time::Instant);

/// `Instant` is `Copy`: its `clone` is a copy.
pub assume_specification[ <std::time::Instant as Clone>::clone ](i: &std::time::Instant) -> (r: std::time::Instant)
    ensures
        r == *i,
;

/// Calls `Instant::now`. Nothing is promised of the value: it is the
/// machine's monotonic clock.
#[verifier::external_body]
pub fn instant_now() -> std::time::Instant {
    std::time::Instant::now()
}

/// Calls `Instant::elapsed` on `origin` and returns the elapsed time in
/// nanoseconds (saturating at `u64::MAX`). Nothing is promised of the value:
/// it depends on the clock.
#[verifier::external_body]
pub fn elapsed_nanos(origin: &std::time::Instant) -> u64 {
    u64::try_from(origin.elapsed().as_nanos()).unwrap_or(u64::MAX)
}

} // verus!
