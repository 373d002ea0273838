//! The monotonic clock that the time-based modules read.

use vstd::prelude::*;

verus! {

#[verifier::external_type_specification]
#[verifier::external_body]
pub struct ExInstant(std::time::Instant);

/// The current instant (`std::time::Instant::now`). Nothing is stated of it:
/// it depends on the time of the call.
#[verifier::external_body]
pub(crate) fn instant_now() -> std::time::Instant {
    std::time::Instant::now()
}

/// Nanoseconds elapsed since `origin` (`Instant::elapsed`, read by
/// `Duration::as_nanos`). Which count comes back depends on the time of the
/// call; all that is stated is the bound that every `Duration` keeps: its
/// whole seconds fit in a `u64` (`as_secs`) and its sub-second part is under
/// a billion nanoseconds (`subsec_nanos`).
#[verifier::external_body]
pub(crate) fn nanos_since(origin: &std::time::Instant) -> (r: u128)
    ensures
        r <= u64::MAX * 1_000_000_000 + 999_999_999,
{
    origin.elapsed().as_nanos()
}

} // verus!
