//! The monotonic clock behind the checkpoint timer.
//!
//! The generator keeps time as whole nanoseconds since it was created; this
//! module holds the few facts about `std::time` that it relies on.

use std::time::{Duration, Instant};
use vstd::prelude::*;

verus! {

/// `std::time::Instant`, a reading of the monotonic clock. Nothing inside it
/// is visible here.
#[verifier::external_type_specification]
#[verifier::external_body]
pub struct ExInstant(Instant);

/// The whole number of nanoseconds that a `Duration` spans.
pub uninterp spec fn nanos(d: Duration) -> nat;

/// `Instant::now` reads the monotonic clock. Nothing is claimed of the
/// reading.
pub assume_specification[ Instant::now ]() -> (now: Instant)
;

/// `Instant::elapsed` measures the time since `start` on the same clock; it
/// yields zero rather than failing if the clock has not moved forward.
/// Nothing is claimed of the amount.
pub assume_specification[ Instant::elapsed ](start: &Instant) -> (elapsed: Duration)
;

/// `Duration::as_nanos` returns the total nanoseconds of the duration, which
/// depends on the duration alone and is named `nanos`.
pub assume_specification[ Duration::as_nanos ](d: &Duration) -> (n: u128)
    ensures
        n == nanos(*d),
;

} // verus!
