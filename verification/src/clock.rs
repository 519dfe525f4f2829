//! The reference clock: the scanning entry points fetch a reference
//! timestamp for the semantic derivation step.

use vstd::prelude::*;

verus! {

/// Relies on chrono::Local::now: the current local time, read from the
/// system clock, returned as its Unix timestamp in seconds. The value
/// depends on the clock, so nothing is promised of it; every caller's
/// contract holds whatever timestamp comes back.
#[verifier::external_body]
pub fn now_timestamp() -> i64 {
    chrono::Local::now().timestamp()
}

} // verus!
