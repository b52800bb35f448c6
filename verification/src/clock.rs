use vstd::prelude::*;
use std::time::{Duration, Instant};

verus! {

/// `std::time::Instant`: a reading of the monotonic clock. Nothing inside
/// it is visible to the proofs.
#[verifier::external_type_specification]
#[verifier::external_body]
pub struct ExInstant(Instant);

/// `std::time::Instant::now` reads the clock. Nothing is claimed of the
/// reading.
pub assume_specification[ Instant::now ]() -> (now: Instant);

/// `std::time::Instant::duration_since` gives the time from `earlier` to
/// this reading, zero where `earlier` is the later one. Nothing is claimed
/// of the result.
pub assume_specification[ Instant::duration_since ](
    reading: &Instant,
    earlier: Instant,
) -> (elapsed: Duration);

} // verus!
