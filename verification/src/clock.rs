//! The wall clock, read as nanoseconds since the Unix epoch.
use std::time::{Duration, SystemTime, SystemTimeError, UNIX_EPOCH};
use vstd::prelude::*;

verus! {

/// An instant of the system clock, as std holds it.
#[verifier::external_type_specification]
#[verifier::external_body]
pub struct ExSystemTime(std::time::SystemTime);

/// The error of std for an instant that lies before the one it is
/// measured from.
#[verifier::external_type_specification]
#[verifier::external_body]
pub struct ExSystemTimeError(std::time::SystemTimeError);

/// Reads the system clock with `SystemTime::now`. Nothing is claimed of
/// the reading: two calls may differ in any way.
#[verifier::external_body]
fn read_clock() -> SystemTime {
    SystemTime::now()
}

/// The time from `UNIX_EPOCH` to `instant`, by `SystemTime::duration_since`;
/// an error where `instant` lies before the epoch. Nothing is claimed of
/// the length.
#[verifier::external_body]
fn epoch_to(instant: &SystemTime) -> Result<Duration, SystemTimeError> {
    instant.duration_since(UNIX_EPOCH)
}

/// The length of `span` in nanoseconds, by `Duration::as_nanos`. Nothing
/// is claimed of the number.
#[verifier::external_body]
fn nanos_of(span: &Duration) -> u128 {
    span.as_nanos()
}

/// The current time in nanoseconds since the Unix epoch. A clock that
/// stands before the epoch reads as the epoch.
pub fn now() -> u128 {
    let instant = read_clock();
    let reading = match epoch_to(&instant) {
        Ok(span) => Some(nanos_of(&span)),
        Err(_) => None,
    };
    since_epoch(reading)
}

/// The instant that a reading of the clock stands for: the reading itself,
/// and the epoch where the clock stood before it.
pub open spec fn instant_of(reading: Option<u128>) -> u128 {
    match reading {
        Some(nanos) => nanos,
        None => 0,
    }
}

/// The instant that `reading` stands for.
pub fn since_epoch(reading: Option<u128>) -> (nanos: u128)
    ensures
        nanos == instant_of(reading),
{
    match reading {
        Some(nanos) => nanos,
        None => 0,
    }
}

} // verus!
