//! The wall clock against which playback runs.

use vstd::prelude::*;
use std::time::Duration;
use std::time::Instant;

verus! {

/// `std::time::Instant`, a reading of the monotonic clock, carried through
/// as an opaque value.
#[verifier::external_type_specification]
#[verifier::external_body]
pub struct ExInstant(Instant);

/// `Instant::now` reads the machine's monotonic clock; nothing is claimed of
/// the instant it returns.
pub assume_specification[ Instant::now ]() -> (now: Instant);

/// `Instant::elapsed` measures the time since the instant was taken; nothing
/// is claimed of the duration it returns.
pub assume_specification[ Instant::elapsed ](start: &Instant) -> (elapsed: Duration);

/// `Duration::as_secs` gives the whole seconds of a duration; durations are
/// opaque here, so nothing is claimed of the number.
pub assume_specification[ Duration::as_secs ](duration: &Duration) -> (secs: u64);

/// The whole seconds that have passed on the wall clock since `start`.
pub(crate) fn elapsed_secs(start: &Instant) -> (secs: u64) {
    let elapsed = start.elapsed();
    elapsed.as_secs()
}

} // verus!
