//! The wall clock, read as microseconds since the Unix epoch, and durations
//! turned into microseconds. The clock itself is trusted; the arithmetic on
//! what it returns is verified.

use vstd::prelude::*;
use std::time::{Duration, SystemTime, SystemTimeError};

verus! {

/// `std::time::SystemTime`, an opaque instant of the wall clock.
#[verifier::external_type_specification]
#[verifier::external_body]
pub struct ExSystemTime(std::time::SystemTime);

/// `std::time::SystemTimeError`, returned when an instant lies before the epoch.
#[verifier::external_type_specification]
#[verifier::external_body]
pub struct ExSystemTimeError(std::time::SystemTimeError);

/// What `Duration::as_secs` returns: the whole seconds of a duration.
pub uninterp spec fn duration_secs(d: Duration) -> u64;

/// What `Duration::subsec_nanos` returns: the nanoseconds past the whole seconds.
pub uninterp spec fn duration_subsec_nanos(d: Duration) -> u32;

/// Calls `SystemTime::now`. Nothing is claimed of the instant: it depends on
/// the machine's clock.
#[verifier::external_body]
fn system_now() -> SystemTime {
    SystemTime::now()
}

/// Calls `SystemTime::duration_since` with `UNIX_EPOCH`. Nothing is claimed of
/// the outcome: it depends on the instant that the clock gave.
#[verifier::external_body]
fn since_unix_epoch(t: &SystemTime) -> Result<Duration, SystemTimeError> {
    t.duration_since(std::time::UNIX_EPOCH)
}

/// Calls `Duration::as_secs`. Claims: the result is what `duration_secs` names.
#[verifier::external_body]
fn whole_secs(d: &Duration) -> (r: u64)
    ensures
        r == duration_secs(*d),
{
    d.as_secs()
}

/// Calls `Duration::subsec_nanos`. Claims: the result is what
/// `duration_subsec_nanos` names, and, as std documents, it is below one billion.
#[verifier::external_body]
fn subsec_nanos(d: &Duration) -> (r: u32)
    ensures
        r == duration_subsec_nanos(*d),
        r < 1_000_000_000,
{
    d.subsec_nanos()
}

/// The length of a duration in microseconds, rounded to the nearest (half up).
pub open spec fn duration_micros(d: Duration) -> int {
    duration_secs(d) * 1_000_000 + (duration_subsec_nanos(d) + 500) / 1000
}

/// `duration_micros`, held at `u64::MAX` where it does not fit.
pub open spec fn micros_held(d: Duration) -> u64 {
    if duration_micros(d) <= u64::MAX { duration_micros(d) as u64 } else { u64::MAX }
}

/// A duration in microseconds, rounded to the nearest and held at `u64::MAX`
/// where it does not fit.
pub fn micros_of(d: &Duration) -> (r: u64)
    ensures
        r == micros_held(*d),
{
    let secs = whole_secs(d);
    let nanos = subsec_nanos(d);
    let frac: u64 = (nanos as u64 + 500) / 1000;
    assert(frac <= 1_000_000) by (nonlinear_arith)
        requires
            frac == (nanos as u64 + 500) / 1000,
            nanos < 1_000_000_000,
    ;
    if secs > (u64::MAX - frac) / 1_000_000 {
        assert(secs * 1_000_000 + frac > u64::MAX) by (nonlinear_arith)
            requires
                secs > (u64::MAX - frac) / 1_000_000,
                frac <= 1_000_000,
        ;
        u64::MAX
    } else {
        assert(secs * 1_000_000 + frac <= u64::MAX) by (nonlinear_arith)
            requires
                secs <= (u64::MAX - frac) / 1_000_000,
                frac <= 1_000_000,
        ;
        secs * 1_000_000 + frac
    }
}

/// What the clock reports of an instant: how long after the Unix epoch it lies,
/// or an error for an instant before the epoch.
pub type ClockReading = Result<Duration, SystemTimeError>;

/// The microseconds that a clock reading gives: those of its duration since the
/// epoch (rounded, held at `u64::MAX`), or 0 for an instant before the epoch.
pub open spec fn reading_micros(reading: ClockReading) -> u64 {
    match reading {
        Ok(d) => micros_held(d),
        Err(_) => 0,
    }
}

/// The microseconds that a clock reading has run since the Unix epoch
/// (rounded, held at `u64::MAX` where they do not fit), or 0 for a reading
/// before the epoch.
pub fn micros_since_epoch(reading: Result<Duration, SystemTimeError>) -> (r: u64)
    ensures
        match reading {
            Ok(d) => r == micros_held(d),
            Err(_) => r == 0,
        },
        r == reading_micros(reading),
{
    match reading {
        Ok(d) => micros_of(&d),
        Err(_) => 0,
    }
}

/// The current time in microseconds since the Unix epoch, or 0 where the clock
/// reads a time before the epoch: the microseconds of a reading of the clock,
/// taken during the call. Which reading, the clock decides.
pub(crate) fn now_micros() -> (r: u64)
    ensures
        exists|reading: ClockReading| r == reading_micros(reading),
{
    let t = system_now();
    let reading = since_unix_epoch(&t);
    let ghost seen = reading;
    let r = micros_since_epoch(reading);
    assert(r == reading_micros(seen));
    r
}

} // verus!
