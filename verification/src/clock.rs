//! Readings of the wall clock and of the monotonic clock, in nanoseconds.
use std::time::{Duration, SystemTime, SystemTimeError, UNIX_EPOCH};
use vstd::prelude::*;

verus! {

/// A point in time of the system clock; opaque.
#[verifier::external_type_specification]
#[verifier::external_body]
pub struct ExSystemTime(SystemTime);

/// The error of a point in time that lies before the one it is measured from;
/// opaque.
#[verifier::external_type_specification]
#[verifier::external_body]
pub struct ExSystemTimeError(SystemTimeError);

/// `SystemTime::now`: the present, of which nothing is promised.
#[verifier::external_body]
fn system_now() -> SystemTime {
    SystemTime::now()
}

/// The time from the Unix epoch to a point in time, as `SystemTime::duration_since`
/// gives it; none for a point before the epoch.
pub uninterp spec fn time_since_epoch(time: SystemTime) -> Option<Duration>;

/// `SystemTime::duration_since` from the Unix epoch: the time since then, under its
/// name, or an error where there is none.
#[verifier::external_body]
fn since_epoch(time: SystemTime) -> (r: Result<Duration, SystemTimeError>)
    ensures
        match r {
            Ok(elapsed) => time_since_epoch(time) == Some(elapsed),
            Err(_) => time_since_epoch(time) is None,
        },
{
    time.duration_since(UNIX_EPOCH)
}

/// The nanoseconds of a duration, as `Duration::as_nanos` gives them.
pub uninterp spec fn nanos_of(time: Duration) -> u128;

/// `Duration::as_nanos`: the whole of a duration in nanoseconds, under its name.
#[verifier::external_body]
fn whole_nanos(time: &Duration) -> (r: u128)
    ensures
        r == nanos_of(*time),
{
    time.as_nanos()
}

/// A time since the epoch, in nanoseconds, kept in the low 64 bits; a time before
/// the epoch counts as the epoch.
pub open spec fn epoch_nanos(elapsed: Option<u128>) -> int {
    match elapsed {
        Some(nanos) => nanos as int % 0x1_0000_0000_0000_0000,
        None => 0,
    }
}

/// The low 64 bits of a time since the epoch, or zero where there is none.
pub fn epoch_ns(elapsed: Option<u128>) -> (r: u64)
    ensures
        r == epoch_nanos(elapsed),
        elapsed is None ==> r == 0,
        elapsed matches Some(nanos) ==> r == nanos as int % 0x1_0000_0000_0000_0000,
{
    match elapsed {
        Some(nanos) => {
            let low: u64 = #[verifier::truncate] (nanos as u64);
            assert(low == nanos % 0x1_0000_0000_0000_0000) by (bit_vector)
                requires
                    low == nanos as u64,
            ;
            low
        },
        None => 0,
    }
}

/// The nanoseconds from the epoch to a point in time, or none before the epoch.
pub open spec fn elapsed_nanos(time: SystemTime) -> Option<u128> {
    match time_since_epoch(time) {
        Some(elapsed) => Some(nanos_of(elapsed)),
        None => None,
    }
}

/// A point in time, in nanoseconds since the epoch.
pub fn time_ns(time: SystemTime) -> (r: u64)
    ensures
        r == epoch_nanos(elapsed_nanos(time)),
        time_since_epoch(time) is None ==> r == 0,
        time_since_epoch(time) matches Some(elapsed) ==> r == nanos_of(elapsed) as int
            % 0x1_0000_0000_0000_0000,
{
    let elapsed = match since_epoch(time) {
        Ok(elapsed) => Some(whole_nanos(&elapsed)),
        Err(_) => None,
    };
    epoch_ns(elapsed)
}

/// The wall clock, in nanoseconds since the epoch: the reading of some point in time,
/// which only the clock decides.
pub fn wall_ns() -> (r: u64)
    ensures
        exists|now: SystemTime| r == epoch_nanos(#[trigger] elapsed_nanos(now)),
{
    time_ns(system_now())
}

/// A time given as seconds and nanoseconds, in nanoseconds.
pub fn timespec_ns(seconds: i64, nanos: i64) -> (r: u64)
    requires
        (seconds as u64) * 1_000_000_000 + (nanos as u64) <= u64::MAX,
    ensures
        r == (seconds as u64) * 1_000_000_000 + (nanos as u64),
{
    seconds as u64 * 1_000_000_000 + nanos as u64
}

/// A point in time before the epoch counts as the epoch; of a later one the nanoseconds
/// since then are kept as far as 64 bits hold them, which they do for the first 584 years.
pub proof fn law_times_are_counted_from_the_epoch(time: SystemTime)
    ensures
        time_since_epoch(time) is None ==> epoch_nanos(elapsed_nanos(time)) == 0,
        time_since_epoch(time) matches Some(elapsed) ==> (nanos_of(elapsed) <= u64::MAX
            ==> epoch_nanos(elapsed_nanos(time)) == nanos_of(elapsed)),
        time_since_epoch(time) matches Some(elapsed) ==> epoch_nanos(elapsed_nanos(time))
            == nanos_of(elapsed) as int % 0x1_0000_0000_0000_0000,
{
}

} // verus!
