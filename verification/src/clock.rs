//! The one place the wall clock is read. Every time-dependent decision is
//! made by a verified function that takes the reading as an argument.

use vstd::prelude::*;

verus! {

/// Relies on std::time::SystemTime::now: seconds since the Unix epoch at
/// the moment of the call. Nothing can be promised of a clock reading.
/// Panics only if the system clock reads before the epoch, as the
/// underlying `duration_since` then fails.
#[verifier::external_body]
pub fn unix_now() -> u64 {
    std::time::SystemTime::now()
        .duration_since(std::time::UNIX_EPOCH)
        .expect("system clock reads before the Unix epoch")
        .as_secs()
}

} // verus!
