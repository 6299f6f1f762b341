//! The wall clock.

use vstd::prelude::*;

verus! {

/// Reads the system clock and gives its `timestamp` as `chrono` counts it:
/// the whole seconds since 1970-01-01 00:00:00 UTC, negative for a clock
/// that is set before that. The time is converted with `chrono`'s
/// `DateTime::<Utc>::from`, which takes a time on either side of 1970, and
/// no time zone is looked up.
///
/// The value depends on when the call is made, so the contract promises
/// nothing about it.
#[verifier::external_body]
pub(crate) fn wall_clock_seconds() -> (now: i64) {
    chrono::DateTime::<chrono::Utc>::from(std::time::SystemTime::now()).timestamp()
}

} // verus!
