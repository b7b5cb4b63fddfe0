//! Wall-clock readings, taken on trust.
//!
//! Segment file-ids and record timestamps come from the wall clock. Nothing
//! is assumed about the values read: every caller is verified for whatever
//! the clock returns.

use vstd::prelude::*;

verus! {

/// Relies on chrono's `Utc::now` and `DateTime::timestamp_nanos_opt`: the
/// nanoseconds since the Unix epoch, or `None` outside the range an `i64`
/// can carry. Nothing is assumed of the reading.
#[verifier::external_body]
pub(crate) fn now_timestamp_nanos() -> Option<i64> {
    chrono::Utc::now().timestamp_nanos_opt()
}

/// Relies on chrono's `Utc::now` and `DateTime::timestamp`: the seconds
/// since the Unix epoch. Nothing is assumed of the reading.
#[verifier::external_body]
pub(crate) fn now_timestamp_secs() -> i64 {
    chrono::Utc::now().timestamp()
}

} // verus!
