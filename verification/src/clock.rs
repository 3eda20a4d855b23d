//! The monotonic clock.

use instant::Instant;
use vstd::prelude::*;

verus! {

/// A point in time of the monotonic clock. Nothing is known of its inside.
#[verifier::external_type_specification]
#[verifier::external_body]
pub struct ExInstant(instant::Instant);

/// Trusted: `instant::Instant::now`. Nothing is claimed of the point in time
/// that it returns.
#[verifier::external_body]
pub(crate) fn clock_now() -> Instant {
    Instant::now()
}

/// Trusted: `instant::Instant::elapsed`, read in whole nanoseconds with
/// `Duration::as_nanos`. Nothing is claimed of the number: it depends on the
/// time of the call.
#[verifier::external_body]
pub(crate) fn nanos_since(start: &Instant) -> u128 {
    start.elapsed().as_nanos()
}

/// A number of nanoseconds as a duration of this library, which stops at
/// the largest `u64`.
pub fn clamp_nanos(nanos: u128) -> (d: u64)
    ensures
        d as nat == if nanos <= u64::MAX { nanos as nat } else { u64::MAX as nat },
{
    if nanos > u64::MAX as u128 {
        u64::MAX
    } else {
        nanos as u64
    }
}

} // verus!
