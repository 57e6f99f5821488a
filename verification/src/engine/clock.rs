//! The monotonic clock that bounds a slice of generation.

use std::time::{Duration, Instant};
use vstd::prelude::*;

verus! {

/// `std::time::Instant`: a reading of the monotonic clock. It is opaque
/// here, and only handed on.
#[verifier::external_type_specification]
#[verifier::external_body]
pub struct ExInstant(Instant);

/// `Instant::now`: the present reading of the monotonic clock. Nothing is
/// claimed of it.
#[verifier::external_body]
pub(crate) fn now() -> (r: Instant) {
    Instant::now()
}

/// `Instant::elapsed`: the time that has passed since the reading `start`.
/// Nothing is claimed of it.
#[verifier::external_body]
pub(crate) fn elapsed_since(start: &Instant) -> (r: Duration) {
    start.elapsed()
}

/// `Duration`'s `>`: whether `elapsed` is longer than `allowed`. Nothing is
/// claimed of it, a duration being opaque here.
#[verifier::external_body]
pub(crate) fn longer_than(elapsed: &Duration, allowed: &Duration) -> (r: bool) {
    elapsed > allowed
}

} // verus!
