//! The proleptic Gregorian calendar that dates and times live in.
//!
//! Days are counted from 1970-01-01 (day 0), wall-clock times and instants in seconds from
//! 1970-01-01T00:00:00. The range is the one of `chrono`'s `NaiveDateTime`.

use chrono::{Datelike, Timelike};
use vstd::prelude::*;

verus! {

/// The first year that can be represented.
pub const MIN_YEAR: i32 = -262143;

/// The last year that can be represented.
pub const MAX_YEAR: i32 = 262142;

/// Seconds of -262143-01-01T00:00:00, the first representable time.
pub const MIN_SECS: i64 = -8_334_601_228_800;

/// Seconds of +262142-12-31T23:59:59, the last representable time.
pub const MAX_SECS: i64 = 8_210_266_876_799;

pub const SECS_PER_DAY: i64 = 86400;

pub open spec fn is_leap_year(y: int) -> bool {
    (y % 4 == 0 && y % 100 != 0) || y % 400 == 0
}

pub open spec fn days_in_month(y: int, m: int) -> int {
    if m == 2 {
        if is_leap_year(y) {
            29
        } else {
            28
        }
    } else if m == 4 || m == 6 || m == 9 || m == 11 {
        30
    } else {
        31
    }
}

/// A representable calendar date.
pub open spec fn valid_ymd(y: int, m: int, d: int) -> bool {
    &&& MIN_YEAR <= y <= MAX_YEAR
    &&& 1 <= m <= 12
    &&& 1 <= d <= days_in_month(y, m)
}

/// The number of days from 1970-01-01 to the given date.
pub open spec fn days_from_civil(y: int, m: int, d: int) -> int {
    let y2 = if m <= 2 {
        y - 1
    } else {
        y
    };
    let era = y2 / 400;
    let yoe = y2 - era * 400;
    let mp = if m > 2 {
        m - 3
    } else {
        m + 9
    };
    let doy = (153 * mp + 2) / 5 + d - 1;
    let doe = yoe * 365 + yoe / 4 - yoe / 100 + doy;
    era * 146097 + doe - 719468
}

/// The calendar date of a day counted from 1970-01-01, as year, month and day.
#[verifier::opaque]
pub open spec fn civil_from_days(n: int) -> (int, int, int) {
    let z = n + 719468;
    let era = z / 146097;
    let doe = z - era * 146097;
    let yoe = (doe - doe / 1460 + doe / 36524 - doe / 146096) / 365;
    let doy = doe - (365 * yoe + yoe / 4 - yoe / 100);
    let mp = (5 * doy + 2) / 153;
    let d = doy - (153 * mp + 2) / 5 + 1;
    let m = if mp < 10 {
        mp + 3
    } else {
        mp - 9
    };
    let y = yoe + era * 400 + if m <= 2 {
        1int
    } else {
        0int
    };
    (y, m, d)
}

/// The day (from 1970-01-01) that a time in seconds falls on.
pub open spec fn day_of_secs(t: int) -> int {
    t / 86400
}

/// The seconds since midnight of a time in seconds.
pub open spec fn tod_of_secs(t: int) -> int {
    t % 86400
}

/// A representable time, in seconds.
pub open spec fn valid_secs(t: int) -> bool {
    MIN_SECS <= t <= MAX_SECS
}

/// A representable day.
pub open spec fn valid_day(day: int) -> bool {
    valid_secs(day * 86400)
}

/// The weekday of a day, counted from Monday (0) to Sunday (6); 1970-01-01 was a Thursday.
pub open spec fn weekday_of(day: int) -> int {
    (day + 3) % 7
}

/// `chrono`'s `NaiveDate::from_ymd_opt` followed by the timestamp of the date's midnight: `Some`
/// exactly for a representable date, holding the seconds of its start.
#[verifier::external_body]
fn chrono_date_start(y: i32, m: u32, d: u32) -> (r: Option<i64>)
    ensures
        r is Some <==> valid_ymd(y as int, m as int, d as int),
        r matches Some(s) ==> s == days_from_civil(y as int, m as int, d as int) * 86400
            && valid_secs(s as int),
{
    Some(chrono::NaiveDate::from_ymd_opt(y, m, d)?.and_hms_opt(0, 0, 0)?.and_utc().timestamp())
}

/// `chrono`'s `DateTime::from_timestamp`, split into year, month, day, hour, minute and second:
/// `Some` exactly for a representable time.
#[verifier::external_body]
fn chrono_fields(secs: i64) -> (r: Option<(i32, u32, u32, u32, u32, u32)>)
    ensures
        r is Some <==> valid_secs(secs as int),
        r matches Some((y, mo, d, h, mi, s)) ==> {
            &&& valid_ymd(y as int, mo as int, d as int)
            &&& h < 24 && mi < 60 && s < 60
            &&& days_from_civil(y as int, mo as int, d as int) * 86400 + h * 3600 + mi * 60 + s
                == secs
            &&& (y as int, mo as int, d as int) == civil_from_days(day_of_secs(secs as int))
            &&& h * 3600 + mi * 60 + s == tod_of_secs(secs as int)
        },
{
    let t = chrono::DateTime::from_timestamp(secs, 0)?.naive_utc();
    Some((t.year(), t.month(), t.day(), t.hour(), t.minute(), t.second()))
}

/// The day of a calendar date, if it exists.
pub fn ymd_to_day(y: i32, m: u32, d: u32) -> (r: Option<i64>)
    ensures
        r is Some <==> valid_ymd(y as int, m as int, d as int),
        r matches Some(day) ==> day == days_from_civil(y as int, m as int, d as int) && valid_day(
            day as int,
        ),
{
    match chrono_date_start(y, m, d) {
        Some(s) => {
            assert(s % 86400 == 0);
            let day = s / 86400;
            assert(day * 86400 == s);
            Some(day)
        },
        None => None,
    }
}

/// The calendar date of a representable day.
pub fn day_to_ymd(day: i64) -> (r: (i32, u32, u32))
    requires
        valid_day(day as int),
    ensures
        valid_ymd(r.0 as int, r.1 as int, r.2 as int),
        days_from_civil(r.0 as int, r.1 as int, r.2 as int) == day,
        (r.0 as int, r.1 as int, r.2 as int) == civil_from_days(day as int),
{
    let (y, m, d, h, mi, s) = chrono_fields(day * 86400).unwrap();
    assert(h * 3600 + mi * 60 + s < 86400);
    (y, m, d)
}

/// The date and the time of day of a representable time.
pub fn time_fields(secs: i64) -> (r: (i32, u32, u32, u32, u32, u32))
    requires
        valid_secs(secs as int),
    ensures
        valid_ymd(r.0 as int, r.1 as int, r.2 as int),
        r.3 < 24 && r.4 < 60 && r.5 < 60,
        days_from_civil(r.0 as int, r.1 as int, r.2 as int) * 86400 + r.3 * 3600 + r.4 * 60
            + r.5 == secs,
        (r.0 as int, r.1 as int, r.2 as int) == civil_from_days(day_of_secs(secs as int)),
        r.3 * 3600 + r.4 * 60 + r.5 == tod_of_secs(secs as int),
{
    chrono_fields(secs).unwrap()
}

/// The weekday of a day, Monday being 0.
pub fn weekday(day: i64) -> (r: u32)
    ensures
        r == weekday_of(day as int),
        r < 7,
{
    let w = day % 7;
    let w = if w < 0 {
        w + 7
    } else {
        w
    };
    ((w + 3) % 7) as u32
}

/// The number of days in a month.
pub fn month_days(year: i32, month: u32) -> (r: u32)
    requires
        1 <= month <= 12,
    ensures
        r == days_in_month(year as int, month as int),
{
    if month == 2 {
        if (year % 4 == 0 && year % 100 != 0) || year % 400 == 0 {
            29
        } else {
            28
        }
    } else if month == 4 || month == 6 || month == 9 || month == 11 {
        30
    } else {
        31
    }
}

/// The month after the given one.
pub fn next_month(year: i32, month: u32) -> (r: (i32, u32))
    requires
        1 <= month <= 12,
        year < i32::MAX,
    ensures
        month == 12 ==> r.0 == year + 1 && r.1 == 1,
        month < 12 ==> r.0 == year && r.1 == month + 1,
{
    if month == 12 {
        (year + 1, 1)
    } else {
        (year, month + 1)
    }
}

/// The month before the given one.
pub fn prev_month(year: i32, month: u32) -> (r: (i32, u32))
    requires
        1 <= month <= 12,
        year > i32::MIN,
    ensures
        month == 1 ==> r.0 == year - 1 && r.1 == 12,
        month > 1 ==> r.0 == year && r.1 == month - 1,
{
    if month == 1 {
        (year - 1, 12)
    } else {
        (year, month - 1)
    }
}

/// The first days of the months of the representable years lie within these bounds.
pub proof fn lemma_month_start_bounds(year: int, month: int)
    requires
        MIN_YEAR <= year <= MAX_YEAR,
        1 <= month <= 12,
    ensures
        -96466000 <= days_from_civil(year, month, 1) <= 95027000,
{
    let y2 = if month <= 2 {
        year - 1
    } else {
        year
    };
    let era = y2 / 400;
    let yoe = y2 - era * 400;
    assert(0 <= yoe < 400);
    assert(-656 <= era <= 655);
    let mp = if month > 2 {
        month - 3
    } else {
        month + 9
    };
    let doy = (153 * mp + 2) / 5;
    assert(0 <= doy <= 337);
    let doe = yoe * 365 + yoe / 4 - yoe / 100 + doy;
    assert(0 <= doe <= 146097);
    assert(era * 146097 >= -656 * 146097) by (nonlinear_arith)
        requires
            era >= -656,
    ;
    assert(era * 146097 <= 655 * 146097) by (nonlinear_arith)
        requires
            era <= 655,
    ;
}

} // verus!
