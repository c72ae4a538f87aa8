//! The one reading the store's callers take from the outside world: the
//! current time.

use vstd::prelude::*;

verus! {

/// Relies on chrono::Utc::now and chrono::DateTime::timestamp_millis: the
/// current UTC time in milliseconds since the Unix epoch. Nothing is assumed
/// of the reading; callers state what holds of every value it may take.
#[verifier::external_body]
pub(crate) fn now_millis() -> i64 {
    chrono::Utc::now().timestamp_millis()
}

} // verus!
