//! The wall clock, read through `chrono`.

use vstd::prelude::*;

verus! {

/// Relies on `chrono::Utc::now` and `chrono::DateTime::timestamp_millis`:
/// the current wall-clock time, in milliseconds since the Unix epoch.
/// Nothing is assumed of the reading; callers state what holds of every
/// value that could come back.
#[verifier::external_body]
pub(crate) fn now_millis() -> i64 {
    chrono::Utc::now().timestamp_millis()
}

} // verus!
