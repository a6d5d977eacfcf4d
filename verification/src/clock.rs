//! The wall clock, read in milliseconds since the Unix epoch.

use std::time::{Duration, SystemTime};
use vstd::prelude::*;

verus! {

/// `std::time::SystemTime`, an instant of the system clock, carried as an
/// opaque value.
#[verifier::external_type_specification]
#[verifier::external_body]
pub struct ExSystemTime(std::time::SystemTime);

/// `SystemTime::now`: the current reading of the system clock. Nothing is
/// claimed of it; two calls may return anything.
#[verifier::external_body]
fn system_time_now() -> (instant: SystemTime) {
    SystemTime::now()
}

/// `SystemTime::duration_since` against `UNIX_EPOCH`: the time elapsed from
/// the epoch to `instant`, or `None` where the call reports that `instant`
/// lies before the epoch. Nothing is claimed of the duration.
#[verifier::external_body]
fn since_unix_epoch(instant: &SystemTime) -> (elapsed: Option<Duration>) {
    match instant.duration_since(std::time::UNIX_EPOCH) {
        Ok(elapsed) => Some(elapsed),
        Err(_) => None,
    }
}

/// `Duration::as_millis`: the whole milliseconds in `elapsed`. Nothing is
/// claimed of the number.
#[verifier::external_body]
fn whole_millis(elapsed: &Duration) -> (millis: u128) {
    elapsed.as_millis()
}

/// Milliseconds since the Unix epoch by the system clock, or `None` when the
/// clock stands before the epoch.
pub(crate) fn current_time_millis() -> (reading: Option<u128>) {
    let instant = system_time_now();
    match since_unix_epoch(&instant) {
        Some(elapsed) => Some(whole_millis(&elapsed)),
        None => None,
    }
}

/// Reads the wall clock for a cache operation. A clock that stands before
/// the epoch reads as the epoch itself.
pub(crate) fn now_millis() -> (now: u128) {
    reading_or_epoch(current_time_millis())
}

/// The clock reading that a cache works with, for each outcome of reading
/// the system clock: the milliseconds that were read, or 0, the epoch
/// itself, when the clock stood before the epoch.
pub fn reading_or_epoch(reading: Option<u128>) -> (now: u128)
    ensures
        now == (match reading {
            Some(millis) => millis,
            None => 0,
        }),
{
    match reading {
        Some(millis) => millis,
        None => 0,
    }
}

} // verus!
