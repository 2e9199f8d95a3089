//! The system clock, as Unix epoch seconds.
use vstd::prelude::*;
use std::time::{Duration, SystemTime, SystemTimeError};

verus! {

#[verifier::external_type_specification]
#[verifier::external_body]
pub struct ExSystemTime(SystemTime);

#[verifier::external_type_specification]
#[verifier::external_body]
pub struct ExSystemTimeError(SystemTimeError);

/// `SystemTime::now`: the time of the system clock. Nothing is claimed of
/// it; two calls may give any two values.
#[verifier::external_body]
fn system_now() -> SystemTime {
    SystemTime::now()
}

/// `SystemTime::duration_since` the Unix epoch: an error when the clock is
/// set before 1970. Nothing is claimed of the value.
#[verifier::external_body]
fn since_unix_epoch(t: &SystemTime) -> Result<Duration, SystemTimeError> {
    t.duration_since(std::time::UNIX_EPOCH)
}

/// `Duration::as_secs`: the whole seconds of `d`. Nothing is claimed of the
/// value, since a `Duration` is opaque here.
#[verifier::external_body]
fn whole_secs(d: &Duration) -> u64 {
    d.as_secs()
}

/// The epoch time for a clock reading `since` seconds after the Unix epoch
/// (`None`: a reading before the epoch): the seconds as an `i64` (wrapping
/// as `as` does past `i64::MAX`), or 0.
pub open spec fn epoch_time(since: Option<u64>) -> i64 {
    match since {
        Some(s) => s as i64,
        None => 0,
    }
}

/// Maps whole seconds since the Unix epoch (if the clock reads after it) to
/// the epoch time.
pub fn epoch_secs(since: Option<u64>) -> (t: i64)
    ensures
        t == epoch_time(since),
{
    match since {
        Some(s) => s as i64,
        None => 0,
    }
}

/// The current time as Unix epoch seconds; 0 when the clock reads before the
/// epoch. What the clock reads is not claimed; the mapping from a reading
/// is `epoch_secs`.
pub fn now_epoch() -> i64 {
    let since = match since_unix_epoch(&system_now()) {
        Ok(d) => Some(whole_secs(&d)),
        Err(_) => None,
    };
    epoch_secs(since)
}

} // verus!
