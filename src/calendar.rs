//! Month and day labels of day-of-year values.

use crate::sample::DAYS_IN_YEAR;
use chrono::Datelike;
use vstd::prelude::*;

verus! {

/// The year whose calendar labels the day-of-year values.
pub const REFERENCE_YEAR: i32 = 2024;

/// Leap years of the proleptic Gregorian calendar.
pub open spec fn is_leap_year(y: int) -> bool {
    y % 4 == 0 && (y % 100 != 0 || y % 400 == 0)
}

pub open spec fn days_in_year(y: int) -> int {
    if is_leap_year(y) {
        366
    } else {
        365
    }
}

/// Length of month `m0` (counted from 0) of year `y`.
pub open spec fn days_in_month(y: int, m0: int) -> int {
    if m0 == 1 {
        if is_leap_year(y) {
            29
        } else {
            28
        }
    } else if m0 == 3 || m0 == 5 || m0 == 8 || m0 == 10 {
        30
    } else {
        31
    }
}

/// Month and day of month (both counted from 0) of the day that lies `rest`
/// days after the first of month `m0` of year `y`.
pub open spec fn month_day_from(y: int, m0: int, rest: int) -> (u32, u32)
    decreases 11 - m0,
{
    if m0 >= 11 || rest < days_in_month(y, m0) {
        (m0 as u32, rest as u32)
    } else {
        month_day_from(y, m0 + 1, rest - days_in_month(y, m0))
    }
}

/// Month and day of month (both counted from 0) of day `ordinal` (counted
/// from 1) of year `y`.
pub open spec fn month_day(y: int, ordinal: int) -> (u32, u32) {
    month_day_from(y, 0, ordinal - 1)
}

/// Relies on chrono's NaiveDate::from_yo_opt, with Datelike::month0 and
/// Datelike::day0 on the date it makes: the month and day of month (from 0)
/// of day `ordinal` of `year` in the proleptic Gregorian calendar, and none
/// where the year has no such day.
#[verifier::external_body]
fn month_day_of(year: i32, ordinal: u32) -> (r: Option<(u32, u32)>)
    requires
        1 <= year <= 9999,
    ensures
        r.is_some() <==> 1 <= ordinal <= days_in_year(year as int),
        r.is_some() ==> r == Some(month_day(year as int, ordinal as int)),
{
    match chrono::NaiveDate::from_yo_opt(year, ordinal) {
        Some(d) => Some((d.month0(), d.day0())),
        None => None,
    }
}

/// Month and day of month (both counted from 0) that label a day-of-year
/// value in the reference year.
pub fn month_and_day(day: u16) -> (r: (u32, u32))
    requires
        1 <= day <= DAYS_IN_YEAR,
    ensures
        r == month_day(REFERENCE_YEAR as int, day as int),
{
    match month_day_of(REFERENCE_YEAR, day as u32) {
        Some(parts) => parts,
        None => (0, 0),
    }
}

} // verus!
