//! Wall-clock timings of the per-file passes. The readings are only
//! reported; nothing in the library depends on them.
use vstd::prelude::*;

verus! {

#[verifier::external_type_specification]
#[verifier::external_body]
pub struct ExInstant(std::time::Instant);

/// `std::time::Instant::now`: a reading of the monotonic clock. Nothing is
/// stated of it.
#[verifier::external_body]
pub(crate) fn clock_now() -> std::time::Instant {
    std::time::Instant::now()
}

/// `std::time::Instant::elapsed`: the time since a reading. Nothing is
/// stated of it.
#[verifier::external_body]
fn clock_elapsed(t: &std::time::Instant) -> std::time::Duration {
    t.elapsed()
}

/// `std::time::Duration::as_millis`: whole milliseconds of a duration.
/// Nothing is stated of it.
#[verifier::external_body]
fn duration_millis(d: &std::time::Duration) -> u128 {
    d.as_millis()
}

/// Whole milliseconds since a reading, cut to 64 bits.
pub fn millis_since(t: &std::time::Instant) -> u64 {
    let d = clock_elapsed(t);
    let ms = duration_millis(&d);
    #[verifier::truncate] (ms as u64)
}

} // verus!
