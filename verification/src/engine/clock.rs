use std::time::{Duration, SystemTime, UNIX_EPOCH};
use vstd::prelude::*;

verus! {

/// `std::time::SystemTime`, a reading of the system clock. Nothing is known
/// of what a value holds.
#[verifier::external_type_specification]
#[verifier::external_body]
pub struct ExSystemTime(SystemTime);

/// Reads the system clock with `SystemTime::now`. Nothing is claimed of the
/// reading: two calls may give the same reading, or a later call an earlier
/// one.
#[verifier::external_body]
fn wall_clock() -> (at: SystemTime) {
    SystemTime::now()
}

/// The time from the Unix epoch to `at`, by `SystemTime::duration_since`, or
/// `None` where that call fails, which it does for a reading before the
/// epoch. Nothing is claimed of the time that is returned.
#[verifier::external_body]
fn since_epoch(at: &SystemTime) -> (elapsed: Option<Duration>) {
    match at.duration_since(UNIX_EPOCH) {
        Ok(elapsed) => Some(elapsed),
        Err(_) => None,
    }
}

/// The length of `elapsed` in nanoseconds, by `Duration::as_nanos`. Nothing
/// is claimed of the number.
#[verifier::external_body]
fn whole_nanos(elapsed: &Duration) -> (nanos: u128) {
    elapsed.as_nanos()
}

/// The timestamp for a clock reading of `nanos` nanoseconds since the epoch:
/// the reading itself, the largest timestamp where it does not fit, and zero
/// for a clock set before the epoch.
pub open spec fn stamp(nanos: Option<u128>) -> u64 {
    match nanos {
        Some(n) => if n > u64::MAX {
            u64::MAX
        } else {
            n as u64
        },
        None => 0,
    }
}

/// Turns a clock reading in nanoseconds since the epoch into a timestamp.
pub fn timestamp_of(nanos: Option<u128>) -> (ts: u64)
    ensures
        ts == stamp(nanos),
{
    match nanos {
        Some(n) => if n > 0xffff_ffff_ffff_ffff_u128 {
            u64::MAX
        } else {
            n as u64
        },
        None => 0,
    }
}

/// The time on the system clock as a timestamp. The reading is whatever the
/// clock says: it need not differ from the one before, nor be later.
pub fn now() -> u64 {
    let at = wall_clock();
    let nanos: Option<u128> = match since_epoch(&at) {
        Some(elapsed) => Some(whole_nanos(&elapsed)),
        None => None,
    };
    timestamp_of(nanos)
}

} // verus!
