//! Wall-clock access.

use vstd::prelude::*;

use std::time::{Duration, SystemTime, SystemTimeError};

verus! {

#[verifier::external_type_specification]
#[verifier::external_body]
pub struct ExSystemTime(SystemTime);

#[verifier::external_type_specification]
#[verifier::external_body]
pub struct ExSystemTimeError(SystemTimeError);

/// Whole seconds in a duration, as `Duration::as_secs` gives them.
pub uninterp spec fn duration_secs(d: Duration) -> u64;

/// Whole milliseconds in a duration, as `Duration::as_millis` gives them.
pub uninterp spec fn duration_millis(d: Duration) -> u128;

/// `std::time::SystemTime::now`: the system clock's reading.  Nothing is
/// promised of it.
#[verifier::external_body]
fn system_now() -> (t: SystemTime) {
    SystemTime::now()
}

/// `SystemTime::duration_since(UNIX_EPOCH)`: the time elapsed since the
/// Unix epoch, or an error when `t` is earlier than the epoch.  Which of
/// the two comes back is not stated.
#[verifier::external_body]
fn since_epoch(t: &SystemTime) -> (r: Result<Duration, SystemTimeError>) {
    t.duration_since(std::time::UNIX_EPOCH)
}

/// `std::time::Duration::as_secs`: the whole seconds in `d`, a function of
/// `d` alone.
#[verifier::external_body]
pub(crate) fn duration_as_secs(d: &Duration) -> (s: u64)
    ensures
        s == duration_secs(*d),
{
    d.as_secs()
}

/// `std::time::Duration::as_millis`: the whole milliseconds in `d`, a
/// function of `d` alone.
#[verifier::external_body]
pub(crate) fn duration_as_millis(d: &Duration) -> (ms: u128)
    ensures
        ms == duration_millis(*d),
{
    d.as_millis()
}

/// The seconds a clock reading measured against the epoch stands for; a
/// clock set before the epoch reads as 0.
pub open spec fn epoch_secs(r: Result<Duration, SystemTimeError>) -> u64 {
    match r {
        Ok(d) => duration_secs(d),
        Err(_) => 0,
    }
}

/// The milliseconds, truncated to 64 bits, a clock reading measured against
/// the epoch stands for; a clock set before the epoch reads as 0.
pub open spec fn epoch_millis(r: Result<Duration, SystemTimeError>) -> u64 {
    match r {
        Ok(d) => duration_millis(d) as u64,
        Err(_) => 0,
    }
}

/// Seconds since the epoch for a clock reading measured against the epoch.
pub fn secs_since_epoch(r: &Result<Duration, SystemTimeError>) -> (secs: u64)
    ensures
        secs == epoch_secs(*r),
{
    match r {
        Ok(d) => duration_as_secs(d),
        Err(_) => 0,
    }
}

/// Milliseconds since the epoch, truncated to 64 bits, for a clock reading
/// measured against the epoch.
pub fn millis_since_epoch(r: &Result<Duration, SystemTimeError>) -> (millis: u64)
    ensures
        millis == epoch_millis(*r),
{
    match r {
        Ok(d) => #[verifier::truncate] (duration_as_millis(d) as u64),
        Err(_) => 0,
    }
}

/// Seconds since the Unix epoch by the system clock (0 for a clock set
/// before the epoch).  Which reading comes back is up to the clock.
pub(crate) fn now_unix_secs() -> (secs: u64)
    ensures
        exists|r: Result<Duration, SystemTimeError>| secs == #[trigger] epoch_secs(r),
{
    let r = since_epoch(&system_now());
    secs_since_epoch(&r)
}

/// Milliseconds since the Unix epoch by the system clock, truncated to 64
/// bits (0 for a clock set before the epoch).
pub(crate) fn now_unix_millis() -> (millis: u64)
    ensures
        exists|r: Result<Duration, SystemTimeError>| millis == #[trigger] epoch_millis(r),
{
    let r = since_epoch(&system_now());
    millis_since_epoch(&r)
}

} // verus!
