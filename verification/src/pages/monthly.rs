//! The monthly calendar grid: which days it shows and how each is marked.

use vstd::prelude::*;

use crate::objects::civil::{
    civil_from_days, day_to_ymd, days_from_civil, days_in_month, month_days, next_month,
    prev_month, valid_day, valid_ymd, weekday, weekday_of, ymd_to_day, lemma_month_start_bounds, MAX_SECS, MAX_YEAR,
    MIN_SECS, MIN_YEAR,
};
use crate::text::{decimal, push_decimal, string_push};

verus! {

/// The query of the monthly page: the month to show, as a date text.
#[derive(Default, Debug)]
pub struct Request {
    pub date: Option<String>,
}

/// A day of the grid.
#[derive(Debug, Copy, Clone, PartialEq, Eq)]
pub struct GridDay {
    /// The day, counted from 1970-01-01.
    pub day: i64,
    /// Whether the month is written next to the day: on the first and the last day of a month.
    pub show_month: bool,
    /// Whether the day belongs to the month shown.
    pub cur_month: bool,
}

/// The first day of the month, and the number of its days.
pub open spec fn month_span(year: int, month: int) -> (int, int) {
    (days_from_civil(year, month, 1), days_in_month(year, month))
}

/// The first day of the grid: the Monday on or before the first of the month.
pub open spec fn grid_first(year: int, month: int) -> int {
    let (ms, _) = month_span(year, month);
    ms - weekday_of(ms)
}

/// The day after the grid: a whole week after the Monday on or before the day after the month,
/// so the grid always ends on a Sunday.
pub open spec fn grid_end(year: int, month: int) -> int {
    let (ms, n) = month_span(year, month);
    ms + n + 7 - weekday_of(ms + n)
}

/// How the grid of a month shows a day.
pub open spec fn grid_day(year: int, month: int, d: int) -> GridDay {
    let (ms, n) = month_span(year, month);
    let ymd = civil_from_days(d);
    GridDay {
        day: d as i64,
        show_month: ymd.2 == 1 || ymd.2 == days_in_month(ymd.0, ymd.1),
        cur_month: ms <= d < ms + n,
    }
}

/// The days of the grid of a month, from the Monday on or before its first day to the Sunday
/// after its last one, marked for where the month label is shown and which days belong to it.
pub fn month_grid(year: i32, month: u32) -> (r: Vec<GridDay>)
    requires
        MIN_YEAR <= year <= MAX_YEAR,
        1 <= month <= 12,
        valid_day(grid_first(year as int, month as int)),
        valid_day(grid_end(year as int, month as int)),
    ensures
        r@.len() == grid_end(year as int, month as int) - grid_first(year as int, month as int),
        forall|i: int|
            0 <= i < r@.len() ==> #[trigger] r@[i] == grid_day(
                year as int,
                month as int,
                grid_first(year as int, month as int) + i,
            ),
{
    assert(valid_ymd(year as int, month as int, 1));
    let ms = ymd_to_day(year, month, 1).unwrap();
    let n = month_days(year, month) as i64;
    let first = ms - weekday(ms) as i64;
    let end = ms + n + 7 - weekday(ms + n) as i64;
    let mut days: Vec<GridDay> = Vec::new();
    let mut d = first;
    proof {
        lemma_month_start_bounds(year as int, month as int);
    }
    while d < end
        invariant
            MIN_YEAR <= year <= MAX_YEAR,
            1 <= month <= 12,
            ms == month_span(year as int, month as int).0,
            n == month_span(year as int, month as int).1,
            first == grid_first(year as int, month as int),
            end == grid_end(year as int, month as int),
            first <= d <= end,
            valid_day(first as int),
            valid_day(end as int),
            days@.len() == d - first,
            forall|i: int|
                0 <= i < days@.len() ==> #[trigger] days@[i] == grid_day(
                    year as int,
                    month as int,
                    first + i,
                ),
        decreases end - d,
    {
        assert(valid_day(d as int)) by (nonlinear_arith)
            requires
                valid_day(first as int),
                valid_day(end as int),
                first <= d < end,
        ;
        let (y, m, dom) = day_to_ymd(d);
        let show_month = dom == 1 || dom == month_days(y, m);
        let cur_month = ms <= d && d < ms + n;
        days.push(GridDay { day: d, show_month, cur_month });
        d = d + 1;
    }
    days
}


/// Whether the grid of a month lies in the representable range.
pub open spec fn grid_ok(year: int, month: int) -> bool {
    &&& MIN_YEAR <= year <= MAX_YEAR
    &&& 1 <= month <= 12
    &&& valid_day(grid_first(year, month))
    &&& valid_day(grid_end(year, month))
}

/// The grid of a month as `month_grid` gives it, or none where the grid would leave the
/// representable range (at the outer months of the first and last years) or the month does
/// not exist.
pub fn try_month_grid(year: i32, month: u32) -> (r: Option<Vec<GridDay>>)
    ensures
        r is Some <==> grid_ok(year as int, month as int),
        r matches Some(g) ==> g@.len() == grid_end(year as int, month as int) - grid_first(
            year as int,
            month as int,
        ) && forall|i: int|
            0 <= i < g@.len() ==> #[trigger] g@[i] == grid_day(
                year as int,
                month as int,
                grid_first(year as int, month as int) + i,
            ),
{
    if year < MIN_YEAR || year > MAX_YEAR || month < 1 || month > 12 {
        return None;
    }
    assert(valid_ymd(year as int, month as int, 1));
    let ms = ymd_to_day(year, month, 1).unwrap();
    proof {
        lemma_month_start_bounds(year as int, month as int);
    }
    let n = month_days(year, month) as i64;
    let first = ms - weekday(ms) as i64;
    let end = ms + n + 7 - weekday(ms + n) as i64;
    if first * 86400 < MIN_SECS || first * 86400 > MAX_SECS || end * 86400 < MIN_SECS || end
        * 86400 > MAX_SECS {
        return None;
    }
    Some(month_grid(year, month))
}

/// The text of a month as the query parameter of the month before or after: year and month
/// without padding, joined by a hyphen.
pub open spec fn month_param_text(year: int, month: int) -> Seq<char> {
    (if year < 0 {
        seq!['-'] + decimal((-year) as nat)
    } else {
        decimal(year as nat)
    }) + seq!['-'] + decimal(month as nat)
}

/// The query parameter of a month.
pub fn month_param(year: i32, month: u32) -> (r: String)
    ensures
        r@ == month_param_text(year as int, month as int),
{
    let mut out = String::new();
    if year < 0 {
        string_push(&mut out, '-');
        push_decimal(&mut out, (-(year as i64)) as u64);
    } else {
        push_decimal(&mut out, year as u64);
    }
    string_push(&mut out, '-');
    push_decimal(&mut out, month as u64);
    proof {
        assert(out@ =~= month_param_text(year as int, month as int));
    }
    out
}

/// The query parameters of the months before and after the given one.
pub fn neighbour_params(year: i32, month: u32) -> (r: (String, String))
    requires
        i32::MIN < year < i32::MAX,
        1 <= month <= 12,
    ensures
        r.0@ == (if month == 1 {
            month_param_text(year - 1, 12)
        } else {
            month_param_text(year as int, month - 1)
        }),
        r.1@ == (if month == 12 {
            month_param_text(year + 1, 1)
        } else {
            month_param_text(year as int, month + 1)
        }),
{
    let (py, pm) = prev_month(year, month);
    let (ny, nm) = next_month(year, month);
    (month_param(py, pm), month_param(ny, nm))
}

} // verus!
