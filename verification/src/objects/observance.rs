//! The wall-clock times at which the observances of an embedded time zone start.

use vstd::prelude::*;

use super::civil::{
    days_from_civil, days_in_month, lemma_month_start_bounds, month_days, time_fields, valid_day,
    valid_ymd, weekday, weekday_of, ymd_to_day, MAX_YEAR, MIN_YEAR,
};
use super::date::{civil_secs, CalDateTime};
use super::timezone::{CalMonDayDesc, CalRRule, CalRRuleSide, CalTimeZoneObservance, CalWDayDesc};
use super::tz::in_range;

verus! {

// ---------------------------------------------------------------------------------------------
// Weekdays of a month
// ---------------------------------------------------------------------------------------------

/// The days (counted from 1970-01-01) that a weekday selects in a month: every such weekday
/// without an ordinal, else the n-th one from the start or from the end, if it exists.
pub open spec fn month_weekday_days(year: int, month: int, wd: int, nth: Option<(u8, CalRRuleSide)>) -> Seq<int> {
    if !(MIN_YEAR <= year <= MAX_YEAR) {
        seq![]
    } else {
        month_weekday_days_in(year, month, wd, nth)
    }
}

/// The days that a weekday selects in a month of a representable year. Counting from the end
/// needs the first day of the next month, which the last month of the last year lacks.
pub open spec fn month_weekday_days_in(year: int, month: int, wd: int, nth: Option<(u8, CalRRuleSide)>) -> Seq<int> {
    let first = days_from_civil(year, month, 1);
    let len = days_in_month(year, month);
    let first_match = 1 + (wd - weekday_of(first) + 7) % 7;
    match nth {
        None => Seq::new(
            ((len - first_match) / 7 + 1) as nat,
            |i: int| first + first_match - 1 + 7 * i,
        ),
        Some((n, CalRRuleSide::Start)) => if n >= 1 && first_match + 7 * (n - 1) <= len {
            seq![first + first_match - 1 + 7 * (n - 1)]
        } else {
            seq![]
        },
        Some((n, CalRRuleSide::End)) => if year == MAX_YEAR && month == 12 {
            seq![]
        } else {
            let back = (7 + weekday_of(first + len - 1) - wd) % 7;
            let dom = len - (7 * (n - 1) + back);
            if n >= 1 && dom >= 1 {
                seq![first + dom - 1]
            } else {
                seq![]
            }
        },
    }
}

/// Within a month, a day has the weekday `wd` exactly when its distance from the first such day
/// is a multiple of seven.
proof fn lemma_weekday_in_month(first: int, wd: int, k: int)
    requires
        0 <= wd < 7,
        0 <= k,
    ensures
        ({
            let fm = 1 + (wd - weekday_of(first) + 7) % 7;
            &&& 1 <= fm <= 7
            &&& (weekday_of(first + k) == wd <==> k % 7 == fm - 1)
        }),
{
    let w = weekday_of(first);
    assert(0 <= w < 7);
    let q = (first + 3) / 7;
    assert(first + 3 == 7 * q + w);
    let kq = k / 7;
    let kr = k % 7;
    assert(k == 7 * kq + kr);
    assert(first + k + 3 == 7 * (q + kq) + w + kr);
    if w + kr < 7 {
        assert((first + k + 3) % 7 == w + kr);
    } else {
        assert(first + k + 3 == 7 * (q + kq + 1) + (w + kr - 7));
        assert((first + k + 3) % 7 == w + kr - 7);
    }
}

/// Whether `d` lies among the `len` days from `first` on, has the weekday `wd`, and is the one
/// that the ordinal picks.
pub open spec fn picked_day(first: int, len: int, wd: int, nth: Option<(u8, CalRRuleSide)>, d: int) -> bool {
    &&& first <= d < first + len
    &&& weekday_of(d) == wd
    &&& match nth {
        None => true,
        Some((n, CalRRuleSide::Start)) => 7 * (n - 1) <= d - first < 7 * n,
        Some((n, CalRRuleSide::End)) => 7 * (n - 1) <= first + len - 1 - d < 7 * n,
    }
}

/// The days picked without an ordinal.
proof fn lemma_picked_all(first: int, len: int, wd: int, r: Seq<int>)
    requires
        28 <= len <= 31,
        0 <= wd < 7,
        r == Seq::new(
            ((len - (1 + (wd - weekday_of(first) + 7) % 7)) / 7 + 1) as nat,
            |i: int| first + (1 + (wd - weekday_of(first) + 7) % 7) - 1 + 7 * i,
        ),
    ensures
        forall|i: int| 0 <= i < r.len() ==> picked_day(first, len, wd, None, #[trigger] r[i]),
        forall|d: int| picked_day(first, len, wd, None, d) ==> #[trigger] r.contains(d),
        forall|i: int, j: int| 0 <= i < j < r.len() ==> r[i] < r[j],
{
    let fm = 1 + (wd - weekday_of(first) + 7) % 7;
    lemma_weekday_in_month(first, wd, 0);
    assert forall|i: int| 0 <= i < r.len() implies picked_day(first, len, wd, None, #[trigger] r[i]) by {
        assert(r[i] == first + fm - 1 + 7 * i);
        assert(i <= (len - fm) / 7);
        assert(7 * ((len - fm) / 7) <= len - fm);
        lemma_weekday_in_month(first, wd, fm - 1 + 7 * i);
        assert((fm - 1 + 7 * i) % 7 == fm - 1);
    }
    assert forall|d: int| picked_day(first, len, wd, None, d) implies #[trigger] r.contains(d) by {
        let k = d - first;
        lemma_weekday_in_month(first, wd, k);
        let i = k / 7;
        assert(k == 7 * i + (fm - 1));
        assert(i <= (len - fm) / 7) by {
            assert(7 * i <= len - fm);
        }
        assert(r[i] == d);
    }
}

/// The day picked as the n-th from the start.
proof fn lemma_picked_from_start(first: int, len: int, wd: int, n: u8, r: Seq<int>)
    requires
        28 <= len <= 31,
        0 <= wd < 7,
        r == (if n >= 1 && (1 + (wd - weekday_of(first) + 7) % 7) + 7 * (n - 1) <= len {
            seq![first + (1 + (wd - weekday_of(first) + 7) % 7) - 1 + 7 * (n - 1)]
        } else {
            seq![]
        }),
    ensures
        forall|i: int| 0 <= i < r.len() ==> picked_day(first, len, wd, Some((n, CalRRuleSide::Start)), #[trigger] r[i]),
        forall|d: int| picked_day(first, len, wd, Some((n, CalRRuleSide::Start)), d) ==> #[trigger] r.contains(d),
        r.len() <= 1,
{
    let fm = 1 + (wd - weekday_of(first) + 7) % 7;
    lemma_weekday_in_month(first, wd, 0);
    if n >= 1 && fm + 7 * (n - 1) <= len {
        lemma_weekday_in_month(first, wd, fm - 1 + 7 * (n - 1));
        assert((fm - 1 + 7 * (n - 1)) % 7 == fm - 1);
        assert(r[0] == first + fm - 1 + 7 * (n - 1));
    }
    assert forall|d: int| picked_day(first, len, wd, Some((n, CalRRuleSide::Start)), d) implies #[trigger] r.contains(d) by {
        let k = d - first;
        lemma_weekday_in_month(first, wd, k);
        let i = k / 7;
        assert(k == 7 * i + (fm - 1));
        assert(i == n - 1);
        assert(r[0] == d);
    }
}

/// The day picked as the n-th from the end.
proof fn lemma_picked_from_end(first: int, len: int, wd: int, n: u8, r: Seq<int>)
    requires
        28 <= len <= 31,
        0 <= wd < 7,
        r == (if n >= 1 && len - (7 * (n - 1) + (7 + weekday_of(first + len - 1) - wd) % 7) >= 1 {
            seq![first + (len - (7 * (n - 1) + (7 + weekday_of(first + len - 1) - wd) % 7)) - 1]
        } else {
            seq![]
        }),
    ensures
        forall|i: int| 0 <= i < r.len() ==> picked_day(first, len, wd, Some((n, CalRRuleSide::End)), #[trigger] r[i]),
        forall|d: int| picked_day(first, len, wd, Some((n, CalRRuleSide::End)), d) ==> #[trigger] r.contains(d),
        r.len() <= 1,
{
    let last = first + len - 1;
    let wl = weekday_of(last);
    let back = (7 + wl - wd) % 7;
    let dom = len - (7 * (n - 1) + back);
    let q = (last + 3) / 7;
    assert(last + 3 == 7 * q + wl);
    assert(0 <= wl < 7);
    if wl >= wd {
        assert(back == wl - wd);
    } else {
        assert(back == wl - wd + 7);
    }
    if n >= 1 && dom >= 1 {
        let d0 = first + dom - 1;
        assert(r[0] == d0);
        assert(d0 + 3 == last + 3 - 7 * (n - 1) - back);
        if wl >= wd {
            assert(d0 + 3 == 7 * (q - (n - 1)) + wd);
        } else {
            assert(d0 + 3 == 7 * (q - n) + wd);
        }
        assert(weekday_of(d0) == wd);
    }
    assert forall|d: int| picked_day(first, len, wd, Some((n, CalRRuleSide::End)), d) implies #[trigger] r.contains(d) by {
        let dist = last - d;
        let qd = (d + 3) / 7;
        assert(d + 3 == 7 * qd + wd);
        if wl >= wd {
            assert(dist == 7 * (q - qd) + back);
        } else {
            assert(dist == 7 * (q - qd - 1) + back);
        }
        assert(dist == 7 * (n - 1) + back);
        assert(r[0] == d);
    }
}

/// The days that a weekday selects in a month: each lies in the month on that weekday and is the
/// one its ordinal picks (the n-th from the start has exactly n - 1 days of its weekday before it
/// in the month, the n-th from the end exactly n - 1 after it), every such day is selected, they
/// come in increasing order, and an ordinal selects at most one.
pub proof fn lemma_month_weekday_days_meaning(year: int, month: int, wd: int, nth: Option<(u8, CalRRuleSide)>)
    requires
        MIN_YEAR <= year <= MAX_YEAR,
        1 <= month <= 12,
        0 <= wd < 7,
        !(year == MAX_YEAR && month == 12 && nth matches Some((_, CalRRuleSide::End))),
    ensures
        ({
            let r = month_weekday_days(year, month, wd, nth);
            let first = days_from_civil(year, month, 1);
            let len = days_in_month(year, month);
            &&& forall|i: int| 0 <= i < r.len() ==> picked_day(first, len, wd, nth, #[trigger] r[i])
            &&& forall|d: int| picked_day(first, len, wd, nth, d) ==> #[trigger] r.contains(d)
            &&& forall|i: int, j: int| 0 <= i < j < r.len() ==> r[i] < r[j]
            &&& nth is Some ==> r.len() <= 1
        }),
{
    let r = month_weekday_days(year, month, wd, nth);
    let first = days_from_civil(year, month, 1);
    let len = days_in_month(year, month);
    assert(28 <= len <= 31);
    match nth {
        None => lemma_picked_all(first, len, wd, r),
        Some((n, CalRRuleSide::Start)) => lemma_picked_from_start(first, len, wd, n, r),
        Some((n, CalRRuleSide::End)) => lemma_picked_from_end(first, len, wd, n, r),
    }
}

/// The days that a weekday description selects in a month.
fn resolve_month_weekday(year: i32, month: u32, desc: CalWDayDesc) -> (r: Vec<i64>)
    requires
        1 <= month <= 12,
        desc.day < 7,
    ensures
        r@.len() == month_weekday_days(year as int, month as int, desc.day as int, desc.nth).len(),
        forall|i: int|
            0 <= i < r@.len() ==> r@[i] == #[trigger] month_weekday_days(
                year as int,
                month as int,
                desc.day as int,
                desc.nth,
            )[i],
        forall|i: int| 0 <= i < r@.len() ==> -96500000 < #[trigger] r@[i] < 95100000,
{
    let ghost spec_days = month_weekday_days(year as int, month as int, desc.day as int, desc.nth);
    let mut out: Vec<i64> = Vec::new();
    if year < MIN_YEAR || year > MAX_YEAR {
        return out;
    }
    assert(valid_ymd(year as int, month as int, 1));
    let first = ymd_to_day(year, month, 1).unwrap();
    assert(-96466000 <= first <= 95027000) by {
        lemma_month_start_bounds(year as int, month as int);
    }
    let len = month_days(year, month) as i64;
    let w1 = weekday(first) as i64;
    let fm = 1 + (desc.day as i64 - w1 + 7) % 7;
    match desc.nth {
        None => {
            let mut k: i64 = 0;
            while fm + 7 * k <= len
                invariant
                    0 <= k <= 5,
                    1 <= fm <= 7,
                    28 <= len <= 31,
                    -96466000 <= first <= 95027000,
                    out@.len() == k,
                    forall|i: int| 0 <= i < k ==> out@[i] == first + fm - 1 + 7 * i,
                    forall|i: int| 0 <= i < k ==> -96500000 < #[trigger] out@[i] < 95100000,
                    k == 0 || fm + 7 * (k - 1) <= len,
                decreases len + 7 - 7 * k,
            {
                out.push(first + fm - 1 + 7 * k);
                k = k + 1;
            }
            assert(k == (len - fm) / 7 + 1);
        },
        Some((n, side)) => {
            match side {
                CalRRuleSide::Start => {
                    if n >= 1 && fm + 7 * (n as i64 - 1) <= len {
                        out.push(first + fm - 1 + 7 * (n as i64 - 1));
                    }
                },
                CalRRuleSide::End => if year == MAX_YEAR && month == 12 {
                } else {
                    let lw = weekday(first + len - 1) as i64;
                    let back = (7 + lw - desc.day as i64) % 7;
                    let dom = len - (7 * (n as i64 - 1) + back);
                    if n >= 1 && dom >= 1 {
                        out.push(first + dom - 1);
                    }
                },
            }
        },
    }
    out
}

// ---------------------------------------------------------------------------------------------
// Expanding a rule within a year
// ---------------------------------------------------------------------------------------------

/// An observance in the form that compilation works with: its start as a floating wall-clock
/// time together with that time's month, day and time of day.
#[derive(Clone, Debug)]
pub struct FixedObservance<'a> {
    pub dtstart: i64,
    pub dt_month: u32,
    pub dt_day: u32,
    pub dt_tod: i64,
    pub offset_from: i32,
    pub offset_to: i32,
    pub rrule: Option<&'a CalRRule>,
    pub rdate: Vec<i64>,
}

impl<'a> FixedObservance<'a> {
    /// The month, day and time of day belong to the start.
    pub open spec fn wf(&self) -> bool {
        &&& in_range(self.dtstart as int)
        &&& 1 <= self.dt_month <= 12
        &&& 1 <= self.dt_day <= 31
        &&& 0 <= self.dt_tod < 86400
        &&& exists|y: int|
            valid_ymd(y, self.dt_month as int, self.dt_day as int) && days_from_civil(
                y,
                self.dt_month as int,
                self.dt_day as int,
            ) * 86400 + self.dt_tod == self.dtstart
        &&& forall|i: int| 0 <= i < self.rdate@.len() ==> in_range(#[trigger] self.rdate@[i] as int)
        &&& self.rrule matches Some(r) ==> r.wf()
        &&& super::tz::valid_offset(self.offset_from as int)
        &&& super::tz::valid_offset(self.offset_to as int)
    }
}

/// The starts that the weekday descriptions from the list select in a month.
pub open spec fn by_day_starts(year: int, month: int, ds: Seq<CalWDayDesc>, tod: int) -> Seq<int>
    decreases ds.len(),
{
    if ds.len() == 0 {
        seq![]
    } else {
        by_day_starts(year, month, ds.drop_last(), tod) + month_weekday_days(
            year,
            month,
            ds.last().day as int,
            ds.last().nth,
        ).map_values(|d: int| d * 86400 + tod)
    }
}

/// The day of the month that a month-day description selects, if it exists.
pub open spec fn mon_day_of(year: int, month: int, desc: CalMonDayDesc) -> Option<int> {
    let days = days_in_month(year, month);
    let dom = match desc.side {
        CalRRuleSide::Start => desc.num as int,
        CalRRuleSide::End => days - (desc.num - 1),
    };
    if valid_ymd(year, month, dom) {
        Some(dom)
    } else {
        None
    }
}

/// The starts that the month-day descriptions from the list select in a month.
pub open spec fn by_mon_day_starts(year: int, month: int, ds: Seq<CalMonDayDesc>, tod: int) -> Seq<int>
    decreases ds.len(),
{
    if ds.len() == 0 {
        seq![]
    } else {
        by_mon_day_starts(year, month, ds.drop_last(), tod) + match mon_day_of(year, month, ds.last()) {
            Some(dom) => seq![days_from_civil(year, month, dom) * 86400 + tod],
            None => seq![],
        }
    }
}

/// The starts that a rule selects in a month: by weekday if it has a `BYDAY` part, else by day
/// of the month if it has a `BYMONTHDAY` part, else on `day`, the day of the month of the
/// observance's first start; each at the first start's time of day `tod`.
pub open spec fn month_starts(day: int, tod: int, r: CalRRule, year: int, month: int) -> Seq<int> {
    match r.by_day {
        Some(ds) => by_day_starts(year, month, ds@, tod),
        None => match r.by_mon_day {
            Some(ds) => by_mon_day_starts(year, month, ds@, tod),
            None => if valid_ymd(year, month, day) {
                seq![days_from_civil(year, month, day) * 86400 + tod]
            } else {
                seq![]
            },
        },
    }
}

/// The starts that a rule selects in the listed months.
pub open spec fn months_starts(day: int, tod: int, r: CalRRule, year: int, months: Seq<u8>) -> Seq<int>
    decreases months.len(),
{
    if months.len() == 0 {
        seq![]
    } else {
        months_starts(day, tod, r, year, months.drop_last()) + month_starts(
            day,
            tod,
            r,
            year,
            months.last() as int,
        )
    }
}

/// The months a rule applies to: its `BYMONTH` part, else `month`, the month of the first start.
pub open spec fn rule_months(month: int, r: CalRRule) -> Seq<u8> {
    match r.by_month {
        Some(ms) => ms@,
        None => seq![month as u8],
    }
}

/// The starts that a rule selects in a year, for an observance whose first start falls on
/// `month` and `day` at time of day `tod`.
pub open spec fn year_starts(month: int, day: int, tod: int, r: CalRRule, year: int) -> Seq<int> {
    months_starts(day, tod, r, year, rule_months(month, r))
}

/// Whether `x` is the time of day `tod` on a day that one of the weekday descriptions picks in
/// one of the months of the year.
pub open spec fn by_day_picks(year: int, months: Seq<u8>, ds: Seq<CalWDayDesc>, tod: int, x: int) -> bool {
    exists|i: int, j: int, d: int|
        0 <= i < months.len() && 0 <= j < ds.len() && x == d * 86400 + tod && #[trigger] picked_day(
            days_from_civil(year, months[i] as int, 1),
            days_in_month(year, months[i] as int),
            ds[j].day as int,
            ds[j].nth,
            d,
        )
}

/// The starts that weekday descriptions select in a month are the days they pick there, at the
/// time of day.
proof fn lemma_by_day_starts_picks(year: int, m: int, ds: Seq<CalWDayDesc>, tod: int, x: int)
    requires
        MIN_YEAR <= year < MAX_YEAR,
        1 <= m <= 12,
        forall|j: int| 0 <= j < ds.len() ==> (#[trigger] ds[j]).day < 7,
    ensures
        by_day_starts(year, m, ds, tod).contains(x) <==> exists|j: int, d: int|
            0 <= j < ds.len() && x == d * 86400 + tod && #[trigger] picked_day(
                days_from_civil(year, m, 1),
                days_in_month(year, m),
                ds[j].day as int,
                ds[j].nth,
                d,
            ),
    decreases ds.len(),
{
    let first = days_from_civil(year, m, 1);
    let len = days_in_month(year, m);
    if ds.len() > 0 {
        let front = ds.drop_last();
        let k = ds.len() - 1;
        assert(ds.last() == ds[k]);
        assert forall|j: int| 0 <= j < front.len() implies (#[trigger] front[j]).day < 7 by {
            assert(front[j] == ds[j]);
        }
        lemma_by_day_starts_picks(year, m, front, tod, x);
        let days = month_weekday_days(year, m, ds[k].day as int, ds[k].nth);
        lemma_month_weekday_days_meaning(year, m, ds[k].day as int, ds[k].nth);
        let mapped = days.map_values(|d: int| d * 86400 + tod);
        let whole = by_day_starts(year, m, ds, tod);
        assert(whole == by_day_starts(year, m, front, tod) + mapped);
        if whole.contains(x) {
            let p = choose|p: int| 0 <= p < whole.len() && whole[p] == x;
            if p < by_day_starts(year, m, front, tod).len() {
                assert(by_day_starts(year, m, front, tod)[p] == x);
                let (j, d) = choose|j: int, d: int|
                    0 <= j < front.len() && x == d * 86400 + tod && #[trigger] picked_day(
                        first, len, front[j].day as int, front[j].nth, d);
                assert(front[j] == ds[j]);
                assert(picked_day(first, len, ds[j].day as int, ds[j].nth, d));
            } else {
                let q = p - by_day_starts(year, m, front, tod).len();
                assert(mapped[q] == x);
                assert(picked_day(first, len, ds[k].day as int, ds[k].nth, days[q]));
            }
        }
        if exists|j: int, d: int|
            0 <= j < ds.len() && x == d * 86400 + tod && #[trigger] picked_day(first, len, ds[j].day as int, ds[j].nth, d) {
            let (j, d) = choose|j: int, d: int|
                0 <= j < ds.len() && x == d * 86400 + tod && #[trigger] picked_day(first, len, ds[j].day as int, ds[j].nth, d);
            if j < k {
                assert(front[j] == ds[j]);
                assert(picked_day(first, len, front[j].day as int, front[j].nth, d));
                let fr = by_day_starts(year, m, front, tod);
                let p = choose|p: int| 0 <= p < fr.len() && fr[p] == x;
                assert(whole[p] == x);
            } else {
                assert(days.contains(d));
                let q = choose|q: int| 0 <= q < days.len() && days[q] == d;
                assert(mapped[q] == x);
                assert(whole[by_day_starts(year, m, front, tod).len() + q] == x);
            }
        }
    }
}

/// The starts that a rule with weekday descriptions selects in the listed months are the days the
/// descriptions pick in those months, at the time of day.
proof fn lemma_months_starts_by_day(day: int, tod: int, r: CalRRule, year: int, months: Seq<u8>, ds: Seq<CalWDayDesc>, x: int)
    requires
        MIN_YEAR <= year < MAX_YEAR,
        r.by_day matches Some(v) && v@ == ds,
        forall|j: int| 0 <= j < ds.len() ==> (#[trigger] ds[j]).day < 7,
        forall|i: int| 0 <= i < months.len() ==> 1 <= #[trigger] months[i] <= 12,
    ensures
        months_starts(day, tod, r, year, months).contains(x) <==> by_day_picks(year, months, ds, tod, x),
    decreases months.len(),
{
    if months.len() > 0 {
        let front = months.drop_last();
        let k = months.len() - 1;
        let m = months[k] as int;
        assert(months.last() == months[k]);
        assert forall|i: int| 0 <= i < front.len() implies 1 <= #[trigger] front[i] <= 12 by {
            assert(front[i] == months[i]);
        }
        lemma_months_starts_by_day(day, tod, r, year, front, ds, x);
        lemma_by_day_starts_picks(year, m, ds, tod, x);
        let fr = months_starts(day, tod, r, year, front);
        let last = by_day_starts(year, m, ds, tod);
        let whole = months_starts(day, tod, r, year, months);
        assert(whole == fr + last);
        if whole.contains(x) {
            let p = choose|p: int| 0 <= p < whole.len() && whole[p] == x;
            if p < fr.len() {
                assert(fr[p] == x);
                let (i, j, d) = choose|i: int, j: int, d: int|
                    0 <= i < front.len() && 0 <= j < ds.len() && x == d * 86400 + tod && #[trigger] picked_day(
                        days_from_civil(year, front[i] as int, 1),
                        days_in_month(year, front[i] as int),
                        ds[j].day as int,
                        ds[j].nth,
                        d,
                    );
                assert(front[i] == months[i]);
                assert(picked_day(
                    days_from_civil(year, months[i] as int, 1),
                    days_in_month(year, months[i] as int),
                    ds[j].day as int,
                    ds[j].nth,
                    d,
                ));
            } else {
                assert(last[p - fr.len()] == x);
                let (j, d) = choose|j: int, d: int|
                    0 <= j < ds.len() && x == d * 86400 + tod && #[trigger] picked_day(
                        days_from_civil(year, m, 1),
                        days_in_month(year, m),
                        ds[j].day as int,
                        ds[j].nth,
                        d,
                    );
                assert(picked_day(
                    days_from_civil(year, months[k] as int, 1),
                    days_in_month(year, months[k] as int),
                    ds[j].day as int,
                    ds[j].nth,
                    d,
                ));
            }
        }
        if by_day_picks(year, months, ds, tod, x) {
            let (i, j, d) = choose|i: int, j: int, d: int|
                0 <= i < months.len() && 0 <= j < ds.len() && x == d * 86400 + tod && #[trigger] picked_day(
                    days_from_civil(year, months[i] as int, 1),
                    days_in_month(year, months[i] as int),
                    ds[j].day as int,
                    ds[j].nth,
                    d,
                );
            if i < k {
                assert(front[i] == months[i]);
                assert(picked_day(
                    days_from_civil(year, front[i] as int, 1),
                    days_in_month(year, front[i] as int),
                    ds[j].day as int,
                    ds[j].nth,
                    d,
                ));
                assert(by_day_picks(year, front, ds, tod, x));
                let p = choose|p: int| 0 <= p < fr.len() && fr[p] == x;
                assert(whole[p] == x);
            } else {
                assert(last.contains(x));
                let q = choose|q: int| 0 <= q < last.len() && last[q] == x;
                assert(whole[fr.len() + q] == x);
            }
        }
    }
}

/// The starts that a rule with weekday descriptions selects in a year (before the last
/// representable one) are exactly the days that a description picks in one of the rule's months
/// (its `BYMONTH` part, else the month of the first start), each at the first start's time of
/// day: the n-th weekday from the start or the end, or every such weekday.
pub proof fn lemma_year_starts_by_day(month: int, day: int, tod: int, r: CalRRule, year: int, x: int)
    requires
        MIN_YEAR <= year < MAX_YEAR,
        1 <= month <= 12,
        r.wf(),
        r.by_day is Some,
    ensures
        year_starts(month, day, tod, r, year).contains(x) <==> by_day_picks(
            year,
            rule_months(month, r),
            r.by_day->0@,
            tod,
            x,
        ),
{
    let ds = r.by_day->0@;
    let months = rule_months(month, r);
    assert forall|i: int| 0 <= i < months.len() implies 1 <= #[trigger] months[i] <= 12 by {
        if r.by_month is None {
            assert(months == seq![month as u8]);
        }
    }
    lemma_months_starts_by_day(day, tod, r, year, months, ds, x);
}

/// A sequence of seconds as integers.
pub open spec fn ints(s: Seq<i64>) -> Seq<int> {
    s.map_values(|x: i64| x as int)
}

pub proof fn lemma_ints_push(s: Seq<i64>, x: i64)
    ensures
        ints(s.push(x)) == ints(s).push(x as int),
{
    assert(ints(s.push(x)) =~= ints(s).push(x as int));
}

/// Appends the starts that the weekday descriptions select in a month.
fn push_by_day(out: &mut Vec<i64>, year: i32, month: u32, ds: &Vec<CalWDayDesc>, tod: i64)
    requires
        1 <= month <= 12,
        0 <= tod < 86400,
        forall|i: int| 0 <= i < ds@.len() ==> (#[trigger] ds@[i]).day < 7,
    ensures
        ints(final(out)@) == ints(old(out)@) + by_day_starts(year as int, month as int, ds@, tod as int),
{
    let ghost start = ints(out@);
    let mut j: usize = 0;
    while j < ds.len()
        invariant
            1 <= month <= 12,
            0 <= tod < 86400,
            j <= ds@.len(),
            forall|i: int| 0 <= i < ds@.len() ==> (#[trigger] ds@[i]).day < 7,
            ints(out@) == start + by_day_starts(year as int, month as int, ds@.subrange(0, j as int), tod as int),
        decreases ds@.len() - j,
    {
        let desc = ds[j];
        let days = resolve_month_weekday(year, month, desc);
        let ghost sd = month_weekday_days(year as int, month as int, desc.day as int, desc.nth);
        let ghost before = ints(out@);
        let mut k: usize = 0;
        while k < days.len()
            invariant
                k <= days@.len(),
                days@.len() == sd.len(),
                forall|i: int| 0 <= i < days@.len() ==> days@[i] == #[trigger] sd[i],
                forall|i: int| 0 <= i < days@.len() ==> -96500000 < #[trigger] days@[i] < 95100000,
                0 <= tod < 86400,
                ints(out@) == before + sd.subrange(0, k as int).map_values(|d: int| d * 86400 + tod),
            decreases days@.len() - k,
        {
            let v = days[k] * 86400 + tod;
            proof {
                lemma_ints_push(out@, v);
            }
            out.push(v);
            proof {
                assert(sd.subrange(0, k as int + 1).map_values(|d: int| d * 86400 + tod) =~= sd.subrange(
                    0,
                    k as int,
                ).map_values(|d: int| d * 86400 + tod).push(sd[k as int] * 86400 + tod));
            }
            k = k + 1;
        }
        proof {
            assert(sd.subrange(0, sd.len() as int) =~= sd);
            let t = ds@.subrange(0, j as int + 1);
            assert(t.drop_last() =~= ds@.subrange(0, j as int));
            assert(t.last() == desc);
        }
        j = j + 1;
    }
    proof {
        assert(ds@.subrange(0, ds@.len() as int) =~= ds@);
    }
}

/// Appends the starts that the month-day descriptions select in a month.
fn push_by_mon_day(out: &mut Vec<i64>, year: i32, month: u32, ds: &Vec<CalMonDayDesc>, tod: i64)
    requires
        1 <= month <= 12,
        0 <= tod < 86400,
    ensures
        ints(final(out)@) == ints(old(out)@) + by_mon_day_starts(year as int, month as int, ds@, tod as int),
{
    let ghost start = ints(out@);
    let mut j: usize = 0;
    while j < ds.len()
        invariant
            1 <= month <= 12,
            0 <= tod < 86400,
            j <= ds@.len(),
            ints(out@) == start + by_mon_day_starts(year as int, month as int, ds@.subrange(0, j as int), tod as int),
        decreases ds@.len() - j,
    {
        let desc = ds[j];
        let days = month_days(year, month);
        let dom: Option<u32> = match desc.side {
            CalRRuleSide::Start => Some(desc.num as u32),
            CalRRuleSide::End => if (desc.num as u32) <= days + 1 && desc.num >= 1 {
                Some(days - (desc.num as u32 - 1))
            } else {
                None
            },
        };
        if let Some(dom) = dom {
            if let Some(day) = ymd_to_day(year, month, dom) {
                let v = day * 86400 + tod;
                proof {
                    lemma_ints_push(out@, v);
                }
                out.push(v);
            }
        }
        proof {
            let t = ds@.subrange(0, j as int + 1);
            assert(t.drop_last() =~= ds@.subrange(0, j as int));
            assert(t.last() == desc);
        }
        j = j + 1;
    }
    proof {
        assert(ds@.subrange(0, ds@.len() as int) =~= ds@);
    }
}

/// Appends the starts that a rule selects in a month.
fn push_month(out: &mut Vec<i64>, fx: &FixedObservance, r: &CalRRule, year: i32, month: u32)
    requires
        fx.wf(),
        r.wf(),
        1 <= month <= 12,
    ensures
        ints(final(out)@) == ints(old(out)@) + month_starts(
            fx.dt_day as int,
            fx.dt_tod as int,
            *r,
            year as int,
            month as int,
        ),
{
    match &r.by_day {
        Some(ds) => push_by_day(out, year, month, ds, fx.dt_tod),
        None => match &r.by_mon_day {
            Some(ds) => push_by_mon_day(out, year, month, ds, fx.dt_tod),
            None => {
                if let Some(day) = ymd_to_day(year, month, fx.dt_day) {
                    let v = day * 86400 + fx.dt_tod;
                    proof {
                        lemma_ints_push(out@, v);
                    }
                    out.push(v);
                } else {
                    assert(ints(out@) =~= ints(out@) + Seq::<int>::empty());
                }
            },
        },
    }
}

/// The starts that a rule selects in a year.
pub fn expand_observance_rrule(fx: &FixedObservance, r: &CalRRule, year: i32) -> (out: Vec<i64>)
    requires
        fx.wf(),
        r.wf(),
    ensures
        ints(out@) == year_starts(fx.dt_month as int, fx.dt_day as int, fx.dt_tod as int, *r, year as int),
{
    let mut out: Vec<i64> = Vec::new();
    match &r.by_month {
        Some(ms) => {
            let mut i: usize = 0;
            assert(ints(out@) =~= Seq::<int>::empty());
            assert(forall|k: int| 0 <= k < ms@.len() ==> 1 <= #[trigger] ms@[k] <= 12);
            while i < ms.len()
                invariant
                    fx.wf(),
                    r.wf(),
                    r.by_month == Some(*ms),
                    forall|k: int| 0 <= k < ms@.len() ==> 1 <= #[trigger] ms@[k] <= 12,
                    i <= ms@.len(),
                    ints(out@) == months_starts(fx.dt_day as int, fx.dt_tod as int, *r, year as int, ms@.subrange(0, i as int)),
                decreases ms@.len() - i,
            {
                assert(1 <= ms@[i as int] <= 12);
                push_month(&mut out, fx, r, year, ms[i] as u32);
                proof {
                    let t = ms@.subrange(0, i as int + 1);
                    assert(t.drop_last() =~= ms@.subrange(0, i as int));
                }
                i = i + 1;
            }
            proof {
                assert(ms@.subrange(0, ms@.len() as int) =~= ms@);
            }
        },
        None => {
            assert(ints(out@) =~= Seq::<int>::empty());
            push_month(&mut out, fx, r, year, fx.dt_month);
            proof {
                let ms = seq![fx.dt_month as u8];
                assert(ms.drop_last() =~= Seq::<u8>::empty());
                assert(ms.last() as int == fx.dt_month);
                assert(rule_months(fx.dt_month as int, *r) == ms);
                let m = month_starts(fx.dt_day as int, fx.dt_tod as int, *r, year as int, fx.dt_month as int);
                assert(months_starts(fx.dt_day as int, fx.dt_tod as int, *r, year as int, ms.drop_last()) == Seq::<int>::empty());
                assert(months_starts(fx.dt_day as int, fx.dt_tod as int, *r, year as int, ms) == months_starts(fx.dt_day as int, fx.dt_tod as int, *r, year as int, ms.drop_last()) + m);
                assert(months_starts(fx.dt_day as int, fx.dt_tod as int, *r, year as int, ms) =~= m);
            }
        },
    }
    out
}

// ---------------------------------------------------------------------------------------------
// All starts of an observance
// ---------------------------------------------------------------------------------------------

/// Strictly increasing.
pub open spec fn strictly_sorted(s: Seq<i64>) -> bool {
    forall|i: int, j: int| 0 <= i < j < s.len() ==> s[i] < s[j]
}

/// Adds `x` to a strictly increasing sequence unless it is there already.
#[verifier::spinoff_prover]
fn insert_unique(v: &mut Vec<i64>, x: i64)
    requires
        strictly_sorted(old(v)@),
    ensures
        strictly_sorted(final(v)@),
        forall|y: i64| final(v)@.contains(y) <==> (old(v)@.contains(y) || y == x),
{
    let mut p: usize = 0;
    while p < v.len() && v[p] < x
        invariant
            p <= v@.len(),
            v@ == old(v)@,
            forall|i: int| 0 <= i < p ==> v@[i] < x,
        decreases v@.len() - p,
    {
        p = p + 1;
    }
    if p < v.len() && v[p] == x {
        assert(v@[p as int] == x);
        return;
    }
    let ghost old_v = v@;
    assert(old_v == old(v)@);
    v.insert(p, x);
    proof {
        assert forall|i: int, j: int| 0 <= i < j < v@.len() implies v@[i] < v@[j] by {
            if j < p {
                assert(v@[i] == old_v[i] && v@[j] == old_v[j]);
            } else if j == p {
                assert(v@[i] == old_v[i]);
            } else if i < p {
                assert(v@[j] == old_v[j - 1]);
                assert(v@[i] == old_v[i]);
                assert(old_v[p as int] > x);
                assert(old_v[p as int] <= old_v[j - 1]);
            } else if i == p {
                assert(v@[j] == old_v[j - 1]);
                assert(old_v[p as int] > x);
                assert(old_v[p as int] <= old_v[j - 1]);
            } else {
                assert(v@[i] == old_v[i - 1]);
                assert(v@[j] == old_v[j - 1]);
            }
        }
        assert forall|y: i64| v@.contains(y) <==> (old_v.contains(y) || y == x) by {
            if v@.contains(y) {
                let i = choose|i: int| 0 <= i < v@.len() && v@[i] == y;
                if i < p {
                    assert(old_v[i] == y);
                } else if i > p {
                    assert(old_v[i - 1] == y);
                }
            }
            if old_v.contains(y) {
                let i = choose|i: int| 0 <= i < old_v.len() && old_v[i] == y;
                if i < p {
                    assert(v@[i] == y);
                } else {
                    assert(v@[i + 1] == y);
                }
            }
            if y == x {
                assert(v@[p as int] == x);
            }
        }
        assert(forall|y: i64| v@.contains(y) <==> (old(v)@.contains(y) || y == x));
    }
}

/// The starts that the rule of an observance selects in the years from `y0` to `y1`.
pub open spec fn years_starts(month: int, day: int, tod: int, r: CalRRule, y0: int, y1: int) -> Seq<int>
    decreases y1 + 1 - y0,
{
    if y1 < y0 {
        seq![]
    } else {
        years_starts(month, day, tod, r, y0, y1 - 1) + year_starts(month, day, tod, r, y1)
    }
}

/// All starts of an observance in the years from `y0` to `y1`, unsorted: its first start, its
/// `RDATE`s and what its rule selects.
pub open spec fn raw_starts(fx: FixedObservance, y0: int, y1: int) -> Seq<int> {
    seq![fx.dtstart as int] + ints(fx.rdate@) + match fx.rrule {
        Some(r) => years_starts(
            fx.dt_month as int,
            fx.dt_day as int,
            fx.dt_tod as int,
            *r,
            y0,
            y1,
        ),
        None => seq![],
    }
}

/// Adds the values of `xs` to a strictly increasing sequence.
fn insert_all(v: &mut Vec<i64>, xs: &Vec<i64>)
    requires
        strictly_sorted(old(v)@),
    ensures
        strictly_sorted(final(v)@),
        forall|y: i64| final(v)@.contains(y) <==> (old(v)@.contains(y) || xs@.contains(y)),
{
    let ghost start = v@;
    let mut i: usize = 0;
    while i < xs.len()
        invariant
            i <= xs@.len(),
            strictly_sorted(v@),
            forall|y: i64| v@.contains(y) <==> (start.contains(y) || xs@.subrange(0, i as int).contains(y)),
        decreases xs@.len() - i,
    {
        let ghost before = v@;
        assert forall|y: i64| before.contains(y) <==> (start.contains(y) || xs@.subrange(0, i as int).contains(y)) by {
        }
        insert_unique(v, xs[i]);
        proof {
            assert forall|y: i64| xs@.subrange(0, i as int + 1).contains(y) <==> (xs@.subrange(0, i as int).contains(y) || y == xs@[i as int]) by {
                let t = xs@.subrange(0, i as int + 1);
                if t.contains(y) {
                    let k = choose|k: int| 0 <= k < t.len() && t[k] == y;
                    if k < i {
                        assert(xs@.subrange(0, i as int)[k] == y);
                    }
                }
                if xs@.subrange(0, i as int).contains(y) {
                    let k = choose|k: int| 0 <= k < i && xs@.subrange(0, i as int)[k] == y;
                    assert(t[k] == y);
                }
                if y == xs@[i as int] {
                    assert(t[i as int] == y);
                }
            }
            assert forall|y: i64| v@.contains(y) <==> (start.contains(y) || xs@.subrange(0, i as int + 1).contains(y)) by {
                assert(v@.contains(y) <==> (before.contains(y) || y == xs@[i as int]));
            }
        }
        i = i + 1;
    }
    proof {
        assert(xs@.subrange(0, xs@.len() as int) =~= xs@);
    }
}

proof fn lemma_ints_contains(s: Seq<i64>, y: i64)
    ensures
        s.contains(y) <==> ints(s).contains(y as int),
{
    if s.contains(y) {
        let k = choose|k: int| 0 <= k < s.len() && s[k] == y;
        assert(ints(s)[k] == y as int);
    }
    if ints(s).contains(y as int) {
        let k = choose|k: int| 0 <= k < ints(s).len() && ints(s)[k] == y as int;
        assert(s[k] == y);
    }
}

/// The values of `raw` in increasing order, each once.
pub open spec fn sorted_unique(raw: Seq<int>) -> Seq<i64> {
    choose|s: Seq<i64>|
        strictly_sorted(s) && forall|y: int| #[trigger] ints(s).contains(y) <==> raw.contains(y)
}

/// Two strictly increasing sequences with the same values are equal.
proof fn lemma_sorted_same_values(a: Seq<i64>, b: Seq<i64>)
    requires
        strictly_sorted(a),
        strictly_sorted(b),
        forall|y: i64| a.contains(y) <==> b.contains(y),
    ensures
        a == b,
    decreases a.len(),
{
    if a.len() == 0 {
        if b.len() > 0 {
            assert(b.contains(b[0]));
        }
        assert(a =~= b);
    } else {
        assert(a.contains(a[0]));
        assert(b.len() > 0);
        assert(b.contains(b[0]));
        let i = choose|i: int| 0 <= i < b.len() && b[i] == a[0];
        let j = choose|j: int| 0 <= j < a.len() && a[j] == b[0];
        if i > 0 {
            assert(b[0] < b[i]);
            if j > 0 {
                assert(a[0] < a[j]);
            }
        }
        assert(a[0] == b[0]);
        let ta = a.drop_first();
        let tb = b.drop_first();
        assert forall|y: i64| ta.contains(y) <==> tb.contains(y) by {
            if ta.contains(y) {
                let k = choose|k: int| 0 <= k < ta.len() && ta[k] == y;
                assert(a[k + 1] == y);
                assert(a.contains(y));
                let m = choose|m: int| 0 <= m < b.len() && b[m] == y;
                assert(y > a[0]);
                assert(m != 0);
                assert(tb[m - 1] == y);
            }
            if tb.contains(y) {
                let k = choose|k: int| 0 <= k < tb.len() && tb[k] == y;
                assert(b[k + 1] == y);
                assert(b.contains(y));
                let m = choose|m: int| 0 <= m < a.len() && a[m] == y;
                assert(y > b[0]);
                assert(m != 0);
                assert(ta[m - 1] == y);
            }
        }
        assert forall|i: int, j: int| 0 <= i < j < ta.len() implies ta[i] < ta[j] by {
            assert(ta[i] == a[i + 1] && ta[j] == a[j + 1]);
        }
        assert forall|i: int, j: int| 0 <= i < j < tb.len() implies tb[i] < tb[j] by {
            assert(tb[i] == b[i + 1] && tb[j] == b[j + 1]);
        }
        lemma_sorted_same_values(ta, tb);
        assert(a =~= seq![a[0]] + ta);
        assert(b =~= seq![b[0]] + tb);
    }
}

/// A strictly increasing sequence with the values of `raw` is its sorted form.
proof fn lemma_sorted_unique(s: Seq<i64>, raw: Seq<int>)
    requires
        strictly_sorted(s),
        forall|y: int| ints(s).contains(y) <==> raw.contains(y),
    ensures
        sorted_unique(raw) == s,
{
    let t = sorted_unique(raw);
    assert(strictly_sorted(t) && forall|y: int| #[trigger] ints(t).contains(y) <==> raw.contains(y));
    assert forall|y: i64| t.contains(y) <==> s.contains(y) by {
        lemma_ints_contains(t, y);
        lemma_ints_contains(s, y);
    }
    lemma_sorted_same_values(t, s);
}

impl<'a> FixedObservance<'a> {
    /// The starts of this observance from `start_year` to `end_year`, sorted and without
    /// duplicates.
    pub fn transition_starts(&self, start_year: i32, end_year: i32) -> (r: Vec<i64>)
        requires
            self.wf(),
        ensures
            r@ == sorted_unique(raw_starts(*self, start_year as int, end_year as int)),
            strictly_sorted(r@),
            forall|y: int| #[trigger] ints(r@).contains(y) <==> raw_starts(*self, start_year as int, end_year as int).contains(y),
            r@.contains(self.dtstart),
    {
        let mut starts: Vec<i64> = Vec::new();
        insert_unique(&mut starts, self.dtstart);
        insert_all(&mut starts, &self.rdate);
        let ghost mut collected: Seq<int> = seq![self.dtstart as int] + ints(self.rdate@);
        proof {
            assert forall|y: i64| starts@.contains(y) <==> collected.contains(y as int) by {
                lemma_ints_contains(self.rdate@, y);
                if collected.contains(y as int) {
                    let k = choose|k: int| 0 <= k < collected.len() && collected[k] == y as int;
                    if k > 0 {
                        assert(ints(self.rdate@)[k - 1] == y as int);
                    }
                }
                if y == self.dtstart {
                    assert(collected[0] == y as int);
                }
                assert forall|k: int| 0 <= k < collected.len() implies i64::MIN <= #[trigger] collected[k] <= i64::MAX by {
                    if k > 0 {
                        assert(collected[k] == ints(self.rdate@)[k - 1]);
                    }
                }
                if ints(self.rdate@).contains(y as int) {
                    let k = choose|k: int| 0 <= k < ints(self.rdate@).len() && ints(self.rdate@)[k] == y as int;
                    assert(collected[k + 1] == y as int);
                }
            }
        }
        if let Some(rrule) = self.rrule {
            let mut year: i64 = start_year as i64;
            while year <= end_year as i64
                invariant
                    self.wf(),
                    self.rrule == Some(rrule),
                    start_year <= year,
                    year <= end_year + 1 || year == start_year,
                    strictly_sorted(starts@),
                    collected == seq![self.dtstart as int] + ints(self.rdate@) + years_starts(
                        self.dt_month as int,
                        self.dt_day as int,
                        self.dt_tod as int,
                        *rrule,
                        start_year as int,
                        year - 1,
                    ),
                    forall|y: i64| starts@.contains(y) <==> collected.contains(y as int),
                    forall|k: int| 0 <= k < collected.len() ==> i64::MIN <= #[trigger] collected[k] <= i64::MAX,
                decreases end_year + 1 - year,
            {
                let more = expand_observance_rrule(self, rrule, year as i32);
                insert_all(&mut starts, &more);
                proof {
                    let ys = year_starts(self.dt_month as int, self.dt_day as int, self.dt_tod as int, *rrule, year as int);
                    let new_collected = collected + ys;
                    assert forall|y: i64| starts@.contains(y) <==> new_collected.contains(y as int) by {
                        lemma_ints_contains(more@, y);
                        if new_collected.contains(y as int) {
                            let k = choose|k: int| 0 <= k < new_collected.len() && new_collected[k] == y as int;
                            if k < collected.len() {
                                assert(collected[k] == y as int);
                            } else {
                                assert(ys[k - collected.len()] == y as int);
                            }
                        }
                        if collected.contains(y as int) {
                            let k = choose|k: int| 0 <= k < collected.len() && collected[k] == y as int;
                            assert(new_collected[k] == y as int);
                        }
                        if ys.contains(y as int) {
                            let k = choose|k: int| 0 <= k < ys.len() && ys[k] == y as int;
                            assert(new_collected[k + collected.len()] == y as int);
                        }
                    }
                    assert(seq![self.dtstart as int] + ints(self.rdate@) + years_starts(
                        self.dt_month as int,
                        self.dt_day as int,
                        self.dt_tod as int,
                        *rrule,
                        start_year as int,
                        year as int,
                    ) =~= new_collected);
                    assert forall|k: int| 0 <= k < new_collected.len() implies i64::MIN <= #[trigger] new_collected[k] <= i64::MAX by {
                        if k >= collected.len() {
                            assert(new_collected[k] == ints(more@)[k - collected.len()]);
                        } else {
                            assert(new_collected[k] == collected[k]);
                        }
                    }
                    collected = new_collected;
                }
                year = year + 1;
            }
        }
        proof {
            assert(collected =~= raw_starts(*self, start_year as int, end_year as int));
            assert forall|y: int| ints(starts@).contains(y) <==> raw_starts(*self, start_year as int, end_year as int).contains(y) by {
                if ints(starts@).contains(y) {
                    let k = choose|k: int| 0 <= k < ints(starts@).len() && ints(starts@)[k] == y;
                    lemma_ints_contains(starts@, starts@[k]);
                }
                if raw_starts(*self, start_year as int, end_year as int).contains(y) {
                    let k = choose|k: int| 0 <= k < collected.len() && collected[k] == y;
                    assert(collected[k] == y);
                    lemma_ints_contains(starts@, y as i64);
                }
            }
            assert(collected[0] == self.dtstart as int);
            assert(collected.contains(self.dtstart as int));
            assert(starts@.contains(self.dtstart));
            lemma_sorted_unique(starts@, raw_starts(*self, start_year as int, end_year as int));
        }
        starts
    }
}

} // verus!
