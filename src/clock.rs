//! The market clock: instants are whole seconds since the Unix epoch (UTC),
//! dates are whole days since 1970-01-01.
use vstd::prelude::*;

verus! {

pub const SECONDS_PER_DAY: i64 = 86400;

pub const SECONDS_PER_HOUR: i64 = 3600;

/// Hour of the UTC day at which the upstream publishes the previous day's aggregate.
pub const PUBLISH_HOUR: i64 = 11;

/// The UTC date (day number) that contains the instant `t`.
pub open spec fn day_of(t: int) -> int {
    t / (SECONDS_PER_DAY as int)
}

/// The UTC hour of the day (0..24) of the instant `t`.
pub open spec fn hour_of(t: int) -> int {
    (t % (SECONDS_PER_DAY as int)) / (SECONDS_PER_HOUR as int)
}

/// Midnight UTC at the start of date `day`.
pub open spec fn start_of_day(day: int) -> int {
    day * SECONDS_PER_DAY
}

/// The publication instant (11:00 UTC) of date `day`.
pub open spec fn publish_instant(day: int) -> int {
    day * SECONDS_PER_DAY + PUBLISH_HOUR * SECONDS_PER_HOUR
}

/// Today's market cutoff at the instant `now`: 11:00 UTC two days back when
/// `now` lies before 11:00, else 11:00 UTC one day back.
pub open spec fn cutoff_at(now: int) -> int {
    if hour_of(now) < PUBLISH_HOUR {
        publish_instant(day_of(now) - 2)
    } else {
        publish_instant(day_of(now) - 1)
    }
}

/// The earliest instant whose cutoff is representable.
pub const EARLIEST_INSTANT: i64 = -9223372036854000000;

/// The market cutoff for the instant `now`.
pub fn market_cutoff(now: i64) -> (r: i64)
    requires
        EARLIEST_INSTANT <= now,
    ensures
        r == cutoff_at(now as int),
{
    let mut day = now / SECONDS_PER_DAY;
    let mut second_of_day = now % SECONDS_PER_DAY;
    if second_of_day < 0 {
        day = day - 1;
        second_of_day = second_of_day + SECONDS_PER_DAY;
    }
    let back: i64 = if second_of_day / SECONDS_PER_HOUR < PUBLISH_HOUR { 2 } else { 1 };
    (day - back) * SECONDS_PER_DAY + PUBLISH_HOUR * SECONDS_PER_HOUR
}

/// The latest-history cursor of a stored date: the date's publication instant.
pub fn cursor_of_date(day: i32) -> (r: i64)
    ensures
        r == publish_instant(day as int),
{
    day as i64 * SECONDS_PER_DAY + PUBLISH_HOUR * SECONDS_PER_HOUR
}

/// Midnight UTC at the start of the date `day`.
pub fn start_of_date(day: i32) -> (r: i64)
    ensures
        r == start_of_day(day as int),
{
    day as i64 * SECONDS_PER_DAY
}

/// A date is strictly newer than a cursor exactly when its midnight lies after it.
pub proof fn lemma_newer_than_cursor(day: int, cursor_day: int)
    ensures
        start_of_day(day) > publish_instant(cursor_day) <==> day > cursor_day,
{
    assert(start_of_day(day) > publish_instant(cursor_day) <==> day > cursor_day) by (nonlinear_arith);
}

#[verifier::external_type_specification]
#[verifier::external_body]
pub struct ExSystemTime(std::time::SystemTime);

/// Relies on std's `SystemTime::now`: a reading of the system clock.
#[verifier::external_body]
fn system_now() -> std::time::SystemTime {
    std::time::SystemTime::now()
}

/// Relies on std's `SystemTime::duration_since`, taken from `UNIX_EPOCH`: the
/// whole seconds from the epoch to `t`, or `None` where `t` lies before the
/// epoch (the call returns `Err` there instead of panicking).
#[verifier::external_body]
fn seconds_since_epoch(t: &std::time::SystemTime) -> Option<u64> {
    t.duration_since(std::time::UNIX_EPOCH).ok().map(|d| d.as_secs())
}

/// The system clock in seconds since the epoch, or `None` when the clock
/// reads before the epoch or beyond what an `i64` holds.
pub fn unix_now() -> (r: Option<i64>)
    ensures
        r matches Some(t) ==> t >= 0,
{
    let now = system_now();
    match seconds_since_epoch(&now) {
        Some(secs) => if secs <= i64::MAX as u64 {
            Some(secs as i64)
        } else {
            None
        },
        None => None,
    }
}

/// Today's market cutoff, read off the system clock; `None` when the clock
/// cannot be read as an instant after the epoch.
pub fn current_market_date() -> (r: Option<i64>)
    ensures
        r matches Some(c) ==> exists|now: int| 0 <= now <= i64::MAX && c == cutoff_at(now),
{
    match unix_now() {
        Some(now) => Some(market_cutoff(now)),
        None => None,
    }
}

} // verus!
