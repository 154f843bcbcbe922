//! The wall clock, behind a trusted wrapper.

use vstd::prelude::*;

verus! {

/// Relies on chrono::Local::now for a wall-clock reading; the seconds are
/// taken by magnitude so the ledger holds a plain unsigned value. Nothing
/// is promised of the result, which depends on the clock.
#[verifier::external_body]
pub fn now_timestamp() -> u64 {
    chrono::Local::now().timestamp().unsigned_abs()
}

} // verus!
