//! The sidebar list of upcoming events: which days it covers.

use vstd::prelude::*;

use crate::objects::civil::{MAX_SECS, MIN_SECS};
use crate::objects::date::floor_div;
use crate::objects::tz::{tz_offset_at, Zone};

verus! {

/// The day that an instant falls on in a time zone.
pub open spec fn local_day(zone: Seq<char>, utc: int) -> int {
    floor_div(utc + tz_offset_at(zone, utc), 86400)
}

/// The days of the sidebar, in order: from the day of `now` in the time zone up to, without,
/// the day of the instant `days` whole days later.
pub open spec fn sidebar_day_range(zone: Seq<char>, now: int, days: int) -> (int, int) {
    (local_day(zone, now), local_day(zone, now + days * 86400))
}

/// The day that an instant falls on in a time zone.
fn day_in_zone(zone: &Zone, utc: i64) -> (r: i64)
    requires
        MIN_SECS <= utc <= MAX_SECS,
    ensures
        r == local_day(zone.name_view(), utc as int),
{
    let local = utc + zone.offset_at(utc) as i64;
    let q = local / 86400;
    if local % 86400 < 0 {
        q - 1
    } else {
        q
    }
}

/// The days that the sidebar lists events for, starting now and covering `days` days in the
/// viewer's time zone; each is counted from 1970-01-01.
pub fn sidebar_days(now: i64, days: u32, timezone: &Zone) -> (r: Vec<i64>)
    requires
        MIN_SECS <= now,
        now + days * 86400 <= MAX_SECS,
    ensures
        ({
            let (first, end) = sidebar_day_range(timezone.name_view(), now as int, days as int);
            &&& r@.len() == if end > first {
                end - first
            } else {
                0
            }
            &&& forall|i: int| 0 <= i < r@.len() ==> #[trigger] r@[i] == first + i
        }),
{
    let first = day_in_zone(timezone, now);
    let end = day_in_zone(timezone, now + days as i64 * 86400);
    let mut out: Vec<i64> = Vec::new();
    let mut d = first;
    while d < end
        invariant
            first <= d,
            d <= end || d == first,
            out@.len() == d - first,
            forall|i: int| 0 <= i < out@.len() ==> #[trigger] out@[i] == first + i,
        decreases end - d,
    {
        out.push(d);
        d = d + 1;
    }
    out
}

/// The days, in order, that have occurrences, given how many each day has.
pub open spec fn days_with(days: Seq<i64>, counts: Seq<usize>) -> Seq<i64>
    decreases days.len(),
{
    if days.len() == 0 {
        seq![]
    } else {
        days_with(days.drop_last(), counts) + if counts[days.len() - 1] > 0 {
            seq![days.last()]
        } else {
            seq![]
        }
    }
}

/// The sidebar lists only the days that have occurrences: of the days, with the number of
/// occurrences on each, those with at least one, in order.
pub fn days_with_occurrences(days: &Vec<i64>, counts: &Vec<usize>) -> (r: Vec<i64>)
    requires
        days@.len() == counts@.len(),
    ensures
        r@ == days_with(days@, counts@),
{
    let mut out: Vec<i64> = Vec::new();
    let mut i: usize = 0;
    while i < days.len()
        invariant
            i <= days@.len(),
            days@.len() == counts@.len(),
            out@ == days_with(days@.subrange(0, i as int), counts@),
        decreases days@.len() - i,
    {
        if counts[i] > 0 {
            out.push(days[i]);
        }
        proof {
            let t = days@.subrange(0, i as int + 1);
            assert(t.drop_last() =~= days@.subrange(0, i as int));
            assert(t.last() == days@[i as int]);
        }
        i = i + 1;
    }
    proof {
        assert(days@.subrange(0, i as int) =~= days@);
    }
    out
}

} // verus!
