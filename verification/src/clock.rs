//! The wall clock. Nothing is known of what it shows.

use vstd::prelude::*;

verus! {

/// `std::time::SystemTime`: an instant of the wall clock, carried through
/// as it is.
#[verifier::external_type_specification]
#[verifier::external_body]
pub struct ExSystemTime(std::time::SystemTime);

/// `std::time::SystemTimeError`: what reading the clock against a later
/// instant fails with, carried through as it is.
#[verifier::external_type_specification]
#[verifier::external_body]
pub struct ExSystemTimeError(std::time::SystemTimeError);

/// Calls `std::time::SystemTime::now`. Nothing is believed of the instant.
#[verifier::external_body]
fn now() -> std::time::SystemTime {
    std::time::SystemTime::now()
}

/// Calls `std::time::SystemTime::duration_since` with the Unix epoch.
/// Nothing is believed of the outcome; it fails where the instant lies
/// before the epoch.
#[verifier::external_body]
fn since_epoch(instant: &std::time::SystemTime) -> Result<
    std::time::Duration,
    std::time::SystemTimeError,
> {
    instant.duration_since(std::time::UNIX_EPOCH)
}

/// Calls `std::time::Duration::as_secs`. Nothing is believed of the number.
#[verifier::external_body]
fn whole_seconds(span: &std::time::Duration) -> u64 {
    span.as_secs()
}

/// The whole seconds that have passed since the Unix epoch, read from the
/// wall clock; zero where the clock shows an instant before the epoch.
pub fn unix_seconds() -> u64 {
    let instant = now();
    match since_epoch(&instant) {
        Ok(span) => whole_seconds(&span),
        Err(_) => 0,
    }
}

} // verus!
