//! The wall clock that timestamps clipboard observations.

use vstd::prelude::*;

verus! {

/// Relies on chrono's `Utc::now`: the current time as milliseconds since the
/// Unix epoch. Nothing can be promised of a clock reading, so the contract
/// leaves the value open; callers state what holds for every reading.
#[verifier::external_body]
pub fn now_millis() -> usize {
    chrono::Utc::now().timestamp_millis() as usize
}

} // verus!
