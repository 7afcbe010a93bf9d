//! The wall clock.

use std::time::Duration;
use std::time::SystemTime;
use vstd::prelude::*;

verus! {

/// The largest span, in milliseconds, that a timestamp can hold.
pub const MAX_MILLIS: u128 = 0xFFFF_FFFF_FFFF_FFFF;

/// The standard library's reading of the system clock.
#[verifier::external_type_specification]
#[verifier::external_body]
pub struct SystemClockReading(SystemTime);

/// Calls `SystemTime::now`. Nothing is claimed of the reading.
#[verifier::external_body]
fn read_clock() -> (reading: SystemTime) {
    SystemTime::now()
}

/// Calls `SystemTime::duration_since` with `UNIX_EPOCH`: the time that has
/// passed since the epoch, or nothing where the reading lies before it.
/// Nothing is claimed of the span.
#[verifier::external_body]
fn since_epoch(reading: &SystemTime) -> (elapsed: Option<Duration>) {
    match reading.duration_since(SystemTime::UNIX_EPOCH) {
        Ok(d) => Some(d),
        Err(_) => None,
    }
}

/// Calls `Duration::as_millis`. Nothing is claimed of the number.
#[verifier::external_body]
fn whole_millis(elapsed: &Duration) -> (millis: u128) {
    elapsed.as_millis()
}

/// Why the clock gives no timestamp.
#[derive(Clone, Copy, Debug, PartialEq, Eq, Structural)]
pub enum ClockError {
    /// The clock reads a time before the Unix epoch.
    BeforeEpoch,
    /// The milliseconds since the epoch do not fit in 64 bits.
    TooLate,
}

/// The timestamp for a reading of the clock: `millis` are the whole
/// milliseconds since the epoch, and `None` stands for a clock that reads
/// a time before the epoch. A reading before the epoch and a count too
/// large for 64 bits give no timestamp.
pub open spec fn timestamp_of(millis: Option<u128>) -> Result<u64, ClockError> {
    match millis {
        None => Err(ClockError::BeforeEpoch),
        Some(m) => if m <= MAX_MILLIS {
            Ok(m as u64)
        } else {
            Err(ClockError::TooLate)
        },
    }
}

/// Turns a reading of the clock into a timestamp, or says why it is none.
pub fn to_timestamp(millis: Option<u128>) -> (t: Result<u64, ClockError>)
    ensures
        t == timestamp_of(millis),
{
    match millis {
        None => Err(ClockError::BeforeEpoch),
        Some(m) => if m <= MAX_MILLIS {
            Ok(m as u64)
        } else {
            Err(ClockError::TooLate)
        },
    }
}

/// The time now, in whole milliseconds since the Unix epoch. It fails
/// where the clock reads a time before the epoch, or one so late that the
/// count does not fit in 64 bits.
pub fn get_current_time() -> (now: Result<u64, ClockError>) {
    let reading = read_clock();
    let millis: Option<u128> = match since_epoch(&reading) {
        Some(elapsed) => Some(whole_millis(&elapsed)),
        None => None,
    };
    to_timestamp(millis)
}

} // verus!
