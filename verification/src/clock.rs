//! Wall-clock time, from `std::time`. Nothing here is proved, and nothing is
//! claimed: what a clock returns depends on when it is asked.

use vstd::prelude::*;
use std::time::{Duration, Instant};

verus! {

/// `std::time::Instant`, a moment on the monotonic clock. Nothing is known
/// of what is inside.
#[verifier::external_type_specification]
#[verifier::external_body]
pub struct ExInstant(Instant);

/// `Instant::now`: the present moment.
pub assume_specification[ Instant::now ]() -> Instant;

/// `Instant::elapsed`: the time that has passed since the instant.
pub assume_specification[ Instant::elapsed ](start: &Instant) -> Duration;

/// `Duration::as_nanos`: the whole duration in nanoseconds.
pub assume_specification[ Duration::as_nanos ](d: &Duration) -> u128;

} // verus!
