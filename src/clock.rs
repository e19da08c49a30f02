//! Calendar and clock facts taken from chrono. Day numbers are chrono's
//! `num_days_from_ce`.

use vstd::prelude::*;
use std::time::{SystemTime, UNIX_EPOCH};
use chrono::{Datelike, DateTime, Local, Months, NaiveDate};
use crate::reduce::{DAY_MAX, DAY_MIN};

verus! {

/// Earliest UNIX timestamp, in seconds, that the library turns into a day.
pub const SECS_MIN: i64 = -7_000_000_000_000;

/// Latest UNIX timestamp, in seconds, that the library turns into a day.
pub const SECS_MAX: i64 = 7_000_000_000_000;

/// Day number of 1970-01-01.
pub const EPOCH_DAY: i32 = 719_163;

/// The UTC calendar day of a UNIX timestamp in seconds.
pub open spec fn utc_day(secs: int) -> int {
    secs / 86_400 + EPOCH_DAY
}

/// The day three calendar months before a day, as chrono's month
/// subtraction gives it (clamped to the end of a shorter month).
pub uninterp spec fn three_months_before(day: int) -> int;

/// Relies on `SystemTime::now` with `duration_since(UNIX_EPOCH)` and on
/// chrono's `DateTime::from_timestamp` and `DateTime::date_naive`: today's
/// date in UTC. `None` where the system clock reads before 1970-01-01
/// (`duration_since` fails) or past chrono's last date (`from_timestamp`
/// gives `None`); nothing here panics.
#[verifier::external_body]
pub(crate) fn today_utc() -> (r: Option<i32>)
    ensures
        r matches Some(d) ==> d >= EPOCH_DAY,
{
    match SystemTime::now().duration_since(UNIX_EPOCH) {
        Ok(elapsed) => match i64::try_from(elapsed.as_secs()) {
            Ok(secs) => match DateTime::from_timestamp(secs, 0) {
                Some(t) => Some(t.date_naive().num_days_from_ce()),
                None => None,
            },
            Err(_) => None,
        },
        Err(_) => None,
    }
}

/// Relies on `NaiveDate::from_num_days_from_ce_opt` and
/// `NaiveDate::checked_sub_months` with `Months::new(3)`; both give `None`
/// only at the edges of chrono's range (years beyond about 262,000), far
/// outside the days the library buckets.
#[verifier::external_body]
pub(crate) fn three_months_before_day(day: i32) -> (r: Option<i32>)
    ensures
        r matches Some(w) ==> w as int == three_months_before(day as int),
        DAY_MIN <= day <= DAY_MAX ==> r is Some,
{
    match NaiveDate::from_num_days_from_ce_opt(day) {
        Some(d) => match d.checked_sub_months(Months::new(3)) {
            Some(w) => Some(w.num_days_from_ce()),
            None => None,
        },
        None => None,
    }
}

/// Relies on `DateTime::from_timestamp`, `DateTime::with_timezone(&Local)`
/// and `DateTime::date_naive`: the calendar day, in the machine's time zone,
/// of a UNIX timestamp in seconds. Inside the bounds the instant and its
/// local time lie well within chrono's range, so no call fails; a chrono
/// offset is always less than a day, so the local day is the UTC day or a
/// neighbour of it. Which of them depends on the time zone.
#[verifier::external_body]
pub(crate) fn local_day(unix_secs: i64) -> (r: Option<i32>)
    requires
        SECS_MIN <= unix_secs <= SECS_MAX,
    ensures
        r matches Some(d) ==> utc_day(unix_secs as int) - 1 <= d <= utc_day(unix_secs as int) + 1,
        r is Some,
{
    match DateTime::from_timestamp(unix_secs, 0) {
        Some(t) => Some(t.with_timezone(&Local).date_naive().num_days_from_ce()),
        None => None,
    }
}

} // verus!
