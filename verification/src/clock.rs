//! Access to the wall clock, the one nondeterministic input of the crate.

use vstd::prelude::*;

verus! {

/// Relies on chrono::Utc::now and chrono::DateTime::timestamp_millis: the
/// current wall-clock time as milliseconds since the Unix epoch. Nothing is
/// promised of the value: the clock is free to move, so callers must hold for
/// every outcome.
#[verifier::external_body]
pub fn now_timestamp_millis() -> i64 {
    chrono::Utc::now().timestamp_millis()
}

} // verus!
