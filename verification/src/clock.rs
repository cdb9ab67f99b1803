use vstd::prelude::*;

verus! {

/// Relies on chrono::Utc::now: a reading of the system clock, given as
/// milliseconds since the Unix epoch. Nothing is promised of a clock
/// reading.
#[verifier::external_body]
pub(crate) fn now_millis() -> i64 {
    chrono::Utc::now().timestamp_millis()
}

} // verus!
