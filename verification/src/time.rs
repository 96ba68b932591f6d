//! Instants and UTC calendar dates, modelled as plain integers: an instant is
//! a count of whole seconds since the Unix epoch, a date is a count of whole
//! days since the epoch. All calendar arithmetic the tracker needs is integer
//! arithmetic on these; only the conversion from a year-month-day date to its
//! day number is left to the calendar crate.

use vstd::arithmetic::div_mod::{lemma_fundamental_div_mod, lemma_fundamental_div_mod_converse};
use vstd::prelude::*;

verus! {

/// Seconds in one UTC calendar day.
pub const SECS_PER_DAY: i64 = 86400;

/// The least second an instant can hold: midnight of the earliest
/// representable date.
pub const TS_MIN: i64 = -8334601228800;

/// The greatest second an instant can hold: the last second of the latest
/// representable date.
pub const TS_MAX: i64 = 8210266876799;

/// The day number of the earliest representable date, `TS_MIN / 86400`.
pub const DAY_MIN: i64 = -96465292;

/// The day number of the latest representable date.
pub const DAY_MAX: i64 = 95026236;

/// An instant in time, in whole seconds since the Unix epoch (UTC).
#[derive(Clone, Copy, Debug, PartialEq, Eq, Structural)]
pub struct Timestamp {
    pub secs: i64,
}

/// A second count that an instant may hold.
pub open spec fn ts_valid(n: int) -> bool {
    TS_MIN <= n <= TS_MAX
}

impl Timestamp {
    /// The instant lies in the representable range of dates.
    pub open spec fn valid(self) -> bool {
        ts_valid(self.secs as int)
    }
}

/// A UTC calendar date, as whole days since the Unix epoch.
#[derive(Clone, Copy, Debug, PartialEq, Eq, Structural)]
pub struct Date {
    pub days: i64,
}

impl Date {
    /// The date lies in the representable range.
    pub open spec fn valid(self) -> bool {
        DAY_MIN <= self.days <= DAY_MAX
    }
}

/// The calendar day an instant falls on: its second count divided by the
/// length of a day, rounded toward minus infinity.
pub open spec fn day_of(secs: int) -> int {
    secs / 86400
}

/// The day number of an instant, by shifting into non-negative seconds first.
pub fn day_number(t: Timestamp) -> (d: i64)
    requires
        t.valid(),
    ensures
        d as int == day_of(t.secs as int),
        DAY_MIN <= d <= DAY_MAX,
{
    let offset = (t.secs - TS_MIN) as u64;
    let q = offset / 86400;
    proof {
        lemma_fundamental_div_mod(offset as int, 86400);
        lemma_fundamental_div_mod_converse(
            t.secs as int,
            86400,
            DAY_MIN + offset as int / 86400,
            offset as int % 86400,
        );
    }
    DAY_MIN + q as i64
}

/// The first second of the day `d` falls on.
pub fn day_start(d: i64) -> (s: i64)
    requires
        DAY_MIN <= d <= DAY_MAX,
    ensures
        s == d * 86400,
        ts_valid(s as int),
{
    d * SECS_PER_DAY
}

/// The day number of a calendar date written as year, month and day of month,
/// counted from the Unix epoch. What it is on given values is left to the
/// calendar crate that computes it.
pub uninterp spec fn epoch_day_number(year: int, month: int, day: int) -> int;

/// The year is a leap year of the proleptic Gregorian calendar.
pub open spec fn is_leap_year(year: int) -> bool {
    year % 4 == 0 && (year % 100 != 0 || year % 400 == 0)
}

/// Days in a month of the proleptic Gregorian calendar.
pub open spec fn days_in_month(year: int, month: int) -> int {
    if month == 2 {
        if is_leap_year(year) {
            29
        } else {
            28
        }
    } else if month == 4 || month == 6 || month == 9 || month == 11 {
        30
    } else {
        31
    }
}

/// The triple names a real date of the proleptic Gregorian calendar within
/// the representable range of years.
pub open spec fn valid_ymd(year: int, month: int, day: int) -> bool {
    -262143 <= year <= 262142 && 1 <= month <= 12 && 1 <= day <= days_in_month(year, month)
}

/// Relies on `chrono::NaiveDate::from_ymd_opt`, which is `None` exactly on a
/// month, day or year outside the calendar (years run from -262143 to
/// 262142), and on `NaiveDate` subtraction with `TimeDelta::num_days` for the
/// count of days from the Unix epoch.
#[verifier::external_body]
pub fn date_from_ymd(year: i32, month: u32, day: u32) -> (r: Option<Date>)
    ensures
        r is Some <==> valid_ymd(year as int, month as int, day as int),
        r matches Some(d) ==> d.days as int == epoch_day_number(
            year as int,
            month as int,
            day as int,
        ) && d.valid(),
{
    let epoch = chrono::NaiveDate::from_ymd_opt(1970, 1, 1)?;
    let date = chrono::NaiveDate::from_ymd_opt(year, month, day)?;
    Some(Date { days: (date - epoch).num_days() })
}

} // verus!
