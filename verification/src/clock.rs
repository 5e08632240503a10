//! The day boundary.

use vstd::prelude::*;

verus! {

/// Seconds in a day.
pub const DAY_SECONDS: i64 = 86400;

/// The last second of the year 9999, the last moment that the clock is read
/// for.
pub const LAST_SECOND: i64 = 253_402_300_799;

/// The start of the day that second `secs` lies in: the greatest multiple of
/// `86400` at or below it. For the few seconds below the least multiple that
/// fits the type, it is that multiple.
pub open spec fn day_start_spec(secs: i64) -> int {
    let floor = secs - secs % 86400;
    if floor >= i64::MIN {
        floor
    } else {
        floor + 86400
    }
}

/// The seconds from the epoch to now by the system clock, or `None` where
/// the clock stands before the epoch or beyond what the type holds.
///
/// Trusted, not proved: `std::time::SystemTime::elapsed` of the epoch. The
/// value depends on when the call is made, so nothing is said of it.
#[verifier::external_body]
fn epoch_seconds() -> (secs: Option<i64>) {
    std::time::UNIX_EPOCH.elapsed().ok().and_then(|d| i64::try_from(d.as_secs()).ok())
}

/// The seconds that a clock without a time zone, set to local time, counts
/// from the epoch at the moment that lies `utc` seconds after it, or `None`
/// where the calendar does not reach that moment.
///
/// Trusted, not proved: `chrono::TimeZone::timestamp_opt` of `chrono::Local`,
/// read as local wall-clock time and counted as if it were UTC. The value
/// depends on the time zone of the machine, so nothing is said of it. The
/// moment is kept to the years that the calendar holds with room to spare.
#[verifier::external_body]
fn local_seconds_at(utc: i64) -> (secs: Option<i64>)
    requires
        0 <= utc <= LAST_SECOND,
{
    chrono::TimeZone::timestamp_opt(&chrono::Local, utc, 0).single().map(
        |t| t.naive_local().and_utc().timestamp(),
    )
}

/// The start of the day that second `secs` lies in.
pub fn day_start(secs: i64) -> (r: i64)
    ensures
        r == day_start_spec(secs),
        r % 86400 == 0,
{
    if secs >= 0 {
        secs - secs % 86400
    } else {
        let past: i64 = -(secs + 1);
        let into: i64 = 86399 - past % 86400;
        assert(into == secs % 86400);
        if secs >= i64::MIN + into {
            secs - into
        } else {
            secs + (86400 - into)
        }
    }
}

/// The day of the local second `local`, if there is one.
pub fn day_of(local: Option<i64>) -> (r: Option<i64>)
    ensures
        r == (match local {
            Some(secs) => Some(day_start_spec(secs) as i64),
            None => None,
        }),
{
    match local {
        Some(secs) => Some(day_start(secs)),
        None => None,
    }
}

/// Midnight of the current local day, as the seconds that a clock without a
/// time zone counts from the epoch to it; `None` where the clock cannot be
/// read.
pub fn today_ts() -> (r: Option<i64>)
    ensures
        r matches Some(ts) ==> ts % 86400 == 0,
{
    match epoch_seconds() {
        Some(utc) => {
            if 0 <= utc && utc <= LAST_SECOND {
                day_of(local_seconds_at(utc))
            } else {
                None
            }
        },
        None => None,
    }
}

} // verus!
