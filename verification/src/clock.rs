//! The monotonic clock against which hand-out times are measured.
//!
//! Readings of a clock depend on when they are taken, so nothing is stated
//! of what these functions return: what the broker does with a reading is
//! stated where it takes the reading as an argument.
use std::time::{Duration, Instant};
use vstd::prelude::*;

verus! {

#[verifier::external_type_specification]
#[verifier::external_body]
pub struct ExInstant(Instant);

/// `std::time::Instant::now`: a reading of the monotonic clock. It depends
/// on the moment of the call, so nothing is stated of it.
pub assume_specification[ Instant::now ]() -> Instant;

/// `std::time::Instant::elapsed`: the time passed since `i`. It depends on
/// the moment of the call, so nothing is stated of it.
pub assume_specification[ Instant::elapsed ](i: &Instant) -> Duration;

/// The whole nanoseconds in `d`, as `Duration::as_nanos` counts them.
pub uninterp spec fn duration_nanos(d: Duration) -> u128;

/// `std::time::Duration::as_nanos`: the whole nanoseconds in `d`; it depends
/// on `d` alone, and its result is named `duration_nanos`.
pub assume_specification[ Duration::as_nanos ](d: &Duration) -> (r: u128)
    ensures
        r == duration_nanos(*d),
;

/// Nanoseconds passed since `epoch`.
pub fn nanos_since(epoch: &Instant) -> u128 {
    let passed = epoch.elapsed();
    passed.as_nanos()
}

} // verus!
