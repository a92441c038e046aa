//! Time as the cache sees it: whole nanoseconds since the Unix epoch.

use std::time::{Duration, SystemTime, SystemTimeError, UNIX_EPOCH};
use vstd::prelude::*;

verus! {

/// Nanoseconds in one second.
pub const NANOS_PER_SEC: u128 = 1_000_000_000;

/// The length of a duration in whole nanoseconds, as `Duration::as_nanos`
/// reports it.
pub uninterp spec fn duration_nanos(d: Duration) -> nat;

/// `Duration::as_nanos` is trusted to return the duration's length in
/// nanoseconds; nothing more is claimed of it.
pub assume_specification[ Duration::as_nanos ](d: &Duration) -> (n: u128)
    ensures
        n == duration_nanos(*d),
;

/// The instant `ttl_nanos` after `now`, held at the last representable
/// instant when the sum would pass it.
pub open spec fn deadline(now: u128, ttl_nanos: nat) -> u128 {
    if now + ttl_nanos > u128::MAX {
        u128::MAX
    } else {
        (now + ttl_nanos) as u128
    }
}

/// Computes [`deadline`] without overflow.
pub fn deadline_after(now: u128, ttl_nanos: u128) -> (t: u128)
    ensures
        t == deadline(now, ttl_nanos as nat),
{
    if ttl_nanos > u128::MAX - now {
        u128::MAX
    } else {
        now + ttl_nanos
    }
}

/// The instant that a reading of the clock stands for: the reading itself,
/// and the epoch for a clock that is set before the epoch.
pub open spec fn instant_of(reading: Option<u128>) -> u128 {
    match reading {
        Some(nanos) => nanos,
        None => 0,
    }
}

/// Computes [`instant_of`].
pub fn instant_of_reading(reading: Option<u128>) -> (t: u128)
    ensures
        t == instant_of(reading),
{
    match reading {
        Some(nanos) => nanos,
        None => 0,
    }
}

/// `std::time::SystemTime`, whose inside stays hidden.
#[verifier::external_type_specification]
#[verifier::external_body]
pub struct ExSystemTime(SystemTime);

/// `std::time::SystemTimeError`, whose inside stays hidden.
#[verifier::external_type_specification]
#[verifier::external_body]
pub struct ExSystemTimeError(SystemTimeError);

/// `SystemTime::now` reads the system clock. The reading depends on the
/// moment of the call, so nothing is promised of it.
#[verifier::external_body]
fn system_time_now() -> (t: SystemTime) {
    SystemTime::now()
}

/// `SystemTime::duration_since`, asked for the time since `UNIX_EPOCH`. It
/// gives an error for a time before the epoch; nothing is promised of what
/// it returns.
#[verifier::external_body]
fn since_unix_epoch(t: &SystemTime) -> (elapsed: Result<Duration, SystemTimeError>) {
    t.duration_since(UNIX_EPOCH)
}

/// The reading that the time since the epoch stands for: its nanoseconds,
/// and no reading for a time before the epoch.
pub fn reading_of(elapsed: Result<Duration, SystemTimeError>) -> (reading: Option<u128>)
    ensures
        match elapsed {
            Ok(d) => reading == Some(duration_nanos(d) as u128),
            Err(_) => reading is None,
        },
{
    match elapsed {
        Ok(d) => Some(d.as_nanos()),
        Err(_) => None,
    }
}

/// The current time: the instant that [`instant_of_reading`] and
/// [`reading_of`] give for what the clock reads at the moment of the call.
/// Every instant is a possible reading, so nothing is promised of the
/// result.
pub(crate) fn now() -> (t: u128) {
    let clock: SystemTime = system_time_now();
    instant_of_reading(reading_of(since_unix_epoch(&clock)))
}

} // verus!
