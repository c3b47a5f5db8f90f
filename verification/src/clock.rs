//! Wall-clock readings for the time-budgeted search.
//!
//! The engine polls the clock only between batches; nothing is assumed about
//! the values read, so the surrounding logic is verified for every possible
//! clock behaviour.

use vstd::prelude::*;

verus! {

#[verifier::external_type_specification]
#[verifier::external_body]
#[allow(deprecated)]
pub struct ExInstant(time::Instant);

/// Relies on `time::Instant::now`: a reading of the monotonic clock.
#[verifier::external_body]
#[allow(deprecated)]
pub fn instant_now() -> time::Instant {
    time::Instant::now()
}

/// Relies on `time::Instant::elapsed` and
/// `time::SignedDuration::whole_milliseconds`: the (signed) number of
/// milliseconds since `t0`.  No property of the value is assumed.
#[verifier::external_body]
#[allow(deprecated)]
pub fn elapsed_ms_raw(t0: &time::Instant) -> i128 {
    t0.elapsed().whole_milliseconds()
}

/// Milliseconds since `t0`, clamped into `u64`.
#[allow(deprecated)]
pub fn elapsed_ms(t0: &time::Instant) -> (r: u64) {
    let raw = elapsed_ms_raw(t0);
    if raw < 0 {
        0
    } else if raw > u64::MAX as i128 {
        u64::MAX
    } else {
        raw as u64
    }
}

} // verus!
