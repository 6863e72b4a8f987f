//! Warning about daylight saving time transitions within the range of an event being edited.

use chrono::Timelike;
use vstd::prelude::*;
use vstd::string::StrSliceExecFns;

use crate::objects::civil::{civil_from_days, day_of_secs, time_fields, tod_of_secs, valid_day, MAX_SECS, MIN_SECS};
use crate::objects::date::{date_text, push_date};
use crate::objects::tz::{in_range, LocalMapping};
use crate::objects::tzresolver::{res_local, CalendarTimeZoneResolver, Transition};
use crate::text::{padded_decimal, push_padded, string_push, to_string};

verus! {

/// The query of a warning request: the start and end of the range as date and time fields of a
/// form, and the time zone that they are wall-clock times in.
#[derive(Debug)]
pub struct Request {
    pub from_date: Option<String>,
    pub from_time: Option<String>,
    pub to_date: Option<String>,
    pub to_time: Option<String>,
    pub timezone: String,
}

/// The day that `chrono` reads from a text in the form `%Y-%m-%d`, if it reads one.
pub uninterp spec fn chrono_date_of(s: Seq<char>) -> Option<int>;

/// The seconds since midnight that `chrono` reads from a text in the form `%H:%M`, if it reads
/// one.
pub uninterp spec fn chrono_time_of(s: Seq<char>) -> Option<int>;

/// `chrono`'s `NaiveDate::parse_from_str` with the format `%Y-%m-%d`, as days from 1970-01-01;
/// a date it gives lies in its representable range.
#[verifier::external_body]
fn chrono_parse_date(s: &str) -> (r: Option<i64>)
    ensures
        match r {
            Some(d) => chrono_date_of(s@) == Some(d as int) && valid_day(d as int),
            None => chrono_date_of(s@) is None,
        },
{
    match chrono::NaiveDate::parse_from_str(s, "%Y-%m-%d") {
        Ok(d) => Some(d.to_epoch_days() as i64),
        Err(_) => None,
    }
}

/// `chrono`'s `NaiveTime::parse_from_str` with the format `%H:%M`, as seconds since midnight,
/// which are less than a day.
#[verifier::external_body]
fn chrono_parse_time(s: &str) -> (r: Option<i64>)
    ensures
        match r {
            Some(t) => chrono_time_of(s@) == Some(t as int) && 0 <= t < 86400,
            None => chrono_time_of(s@) is None,
        },
{
    match chrono::NaiveTime::parse_from_str(s, "%H:%M") {
        Ok(t) => Some(t.num_seconds_from_midnight() as i64),
        Err(_) => None,
    }
}

/// A date or time field that could not be read.
#[derive(Debug, Clone, PartialEq, Eq)]
pub enum FieldError {
    InvalidDate(String),
    InvalidTime(String),
}

/// The wall-clock time of a date field and a time field when both are filled in; an error
/// for a field that does not read, the date first.
pub open spec fn datetime_of(date: Option<Seq<char>>, time: Option<Seq<char>>) -> Result<Option<int>, FieldError> {
    match (date, time) {
        (Some(d), Some(t)) => if d.len() > 0 && t.len() > 0 {
            match chrono_date_of(d) {
                None => Err(FieldError::InvalidDate(arbitrary())),
                Some(day) => match chrono_time_of(t) {
                    None => Err(FieldError::InvalidTime(arbitrary())),
                    Some(tod) => Ok(Some(day * 86400 + tod)),
                },
            }
        } else {
            Ok(None)
        },
        _ => Ok(None),
    }
}

/// The view of an optional borrowed text.
pub open spec fn opt_text(s: Option<&str>) -> Option<Seq<char>> {
    match s {
        Some(s) => Some(s@),
        None => None,
    }
}

/// Reads the wall-clock time of a date field and a time field when both are filled in.
pub fn parse_datetime(date: Option<&str>, time: Option<&str>) -> (r: Result<Option<i64>, FieldError>)
    ensures
        match (r, datetime_of(opt_text(date), opt_text(time))) {
            (Ok(Some(a)), Ok(Some(b))) => a == b,
            (Ok(None), Ok(None)) => true,
            (Err(FieldError::InvalidDate(s)), Err(FieldError::InvalidDate(_))) => Some(s@) == opt_text(date),
            (Err(FieldError::InvalidTime(s)), Err(FieldError::InvalidTime(_))) => Some(s@) == opt_text(time),
            _ => false,
        },
        r matches Ok(Some(t)) ==> MIN_SECS <= t <= MAX_SECS + 86400,
{
    match (date, time) {
        (Some(d), Some(t)) => {
            if d.unicode_len() > 0 && t.unicode_len() > 0 {
                let day = match chrono_parse_date(d) {
                    Some(x) => x,
                    None => {
                        return Err(FieldError::InvalidDate(to_string(d)));
                    },
                };
                let tod = match chrono_parse_time(t) {
                    Some(x) => x,
                    None => {
                        return Err(FieldError::InvalidTime(to_string(t)));
                    },
                };
                Ok(Some(day * 86400 + tod))
            } else {
                Ok(None)
            }
        },
        _ => Ok(None),
    }
}

/// The first wall-clock time from `t` on, by whole minutes up to `end`, that lies in a gap or a
/// fold of the zone of the given id.
pub open spec fn first_transition_from(v: Seq<(Seq<char>, Seq<Transition>)>, tzid: Seq<char>, t: int, end: int) -> Option<int>
    decreases end - t + 60,
{
    if t > end {
        None
    } else if !(res_local(v, tzid, t) is Single) {
        Some(t)
    } else {
        first_transition_from(v, tzid, t + 60, end)
    }
}

/// The search for a transition finds the first whole-minute time from `start` up to and including
/// `end` at which the zone is in a gap or a fold: every earlier such minute is an ordinary
/// (single) time; and it finds none only when every such minute, `end` included, is ordinary.
pub proof fn lemma_first_transition_is_first(v: Seq<(Seq<char>, Seq<Transition>)>, tzid: Seq<char>, start: int, end: int)
    ensures
        match first_transition_from(v, tzid, start, end) {
            Some(t0) => {
                &&& start <= t0 <= end
                &&& (t0 - start) % 60 == 0
                &&& !(res_local(v, tzid, t0) is Single)
                &&& forall|k: int| #![trigger res_local(v, tzid, start + 60 * k)]
                    0 <= k && start + 60 * k < t0 ==> res_local(v, tzid, start + 60 * k) is Single
            },
            None => forall|k: int| #![trigger res_local(v, tzid, start + 60 * k)]
                0 <= k && start + 60 * k <= end ==> res_local(v, tzid, start + 60 * k) is Single,
        },
    decreases end - start + 60,
{
    if start <= end && res_local(v, tzid, start) is Single {
        lemma_first_transition_is_first(v, tzid, start + 60, end);
        let next = start + 60;
        match first_transition_from(v, tzid, start, end) {
            Some(t0) => {
                assert((t0 - next) % 60 == 0);
                assert forall|k: int| #![trigger res_local(v, tzid, start + 60 * k)]
                    0 <= k && start + 60 * k < t0 implies res_local(v, tzid, start + 60 * k) is Single by {
                    if k > 0 {
                        assert(start + 60 * k == next + 60 * (k - 1));
                    }
                }
            },
            None => {
                assert forall|k: int| #![trigger res_local(v, tzid, start + 60 * k)]
                    0 <= k && start + 60 * k <= end implies res_local(v, tzid, start + 60 * k) is Single by {
                    if k > 0 {
                        assert(start + 60 * k == next + 60 * (k - 1));
                    }
                }
            },
        }
    } else if start > end {
        assert forall|k: int| #![trigger res_local(v, tzid, start + 60 * k)]
            0 <= k && start + 60 * k <= end implies res_local(v, tzid, start + 60 * k) is Single by {
        }
    } else {
        assert(start + 60 * 0 == start);
    }
}

impl CalendarTimeZoneResolver {
    /// The first wall-clock time of the range from `start` to `end`, stepping by minutes, at
    /// which the zone of the given id is in a gap or a fold.
    pub fn first_dst_transition_in_local_range(&self, tzid: &str, start: i64, end: i64) -> (r: Option<i64>)
        requires
            in_range(start as int),
            in_range(end as int),
        ensures
            match r {
                Some(t) => first_transition_from(self.view(), tzid@, start as int, end as int) == Some(t as int),
                None => first_transition_from(self.view(), tzid@, start as int, end as int) is None,
            },
            r matches Some(t) ==> start <= t <= end,
    {
        if start > end {
            return None;
        }
        let mut t = start;
        while t <= end
            invariant
                in_range(start as int),
                in_range(end as int),
                start <= t <= end + 60,
                first_transition_from(self.view(), tzid@, start as int, end as int)
                    == first_transition_from(self.view(), tzid@, t as int, end as int),
            decreases end - t + 60,
        {
            match self.resolve_local(tzid, t) {
                LocalMapping::Single(_) => {},
                _ => {
                    return Some(t);
                },
            }
            t = t + 60;
        }
        None
    }
}

/// The text of a wall-clock time to the minute: `%Y-%m-%d %H:%M`.
pub open spec fn minute_text(t: int) -> Seq<char> {
    let ymd = civil_from_days(day_of_secs(t));
    let tod = tod_of_secs(t);
    date_text(ymd.0, ymd.1, ymd.2, seq!['-']) + seq![' '] + padded_decimal((tod / 3600) as nat, 2)
        + seq![':'] + padded_decimal(((tod % 3600) / 60) as nat, 2)
}

/// Writes a wall-clock time to the minute, as `%Y-%m-%d %H:%M`.
pub fn format_minute(t: i64) -> (r: String)
    requires
        MIN_SECS <= t <= MAX_SECS,
    ensures
        r@ == minute_text(t as int),
{
    let (y, m, d, h, mi, s) = time_fields(t);
    let mut out = String::new();
    push_date(&mut out, y, m, d, true);
    string_push(&mut out, ' ');
    push_padded(&mut out, h as u64, 2);
    string_push(&mut out, ':');
    push_padded(&mut out, mi as u64, 2);
    proof {
        let tod = tod_of_secs(t as int);
        assert(tod / 3600 == h as int && (tod % 3600) / 60 == mi as int) by (nonlinear_arith)
            requires
                tod == h * 3600 + mi * 60 + s,
                h < 24,
                mi < 60,
                s < 60,
        ;
        assert(out@ =~= minute_text(t as int));
    }
    out
}

/// The local time of the first transition in the range of the request, written to the minute;
/// none while a field is missing or does not read, or when there is no transition.
pub open spec fn warning_time(v: Seq<(Seq<char>, Seq<Transition>)>, from: Result<Option<int>, FieldError>, to: Result<Option<int>, FieldError>, tzid: Seq<char>) -> Option<Seq<char>> {
    match (from, to) {
        (Ok(Some(s)), Ok(Some(e))) => if in_range(s) && in_range(e) {
            match first_transition_from(v, tzid, s, e) {
                Some(t) => Some(minute_text(t)),
                None => None,
            }
        } else {
            None
        },
        _ => None,
    }
}

/// The local time of the first daylight saving time transition within the requested range,
/// written to the minute, to be put into the warning; none while the range is incomplete or not
/// readable (the user may not have finished entering it), or when there is no transition.
pub fn dst_warning_time(req: &Request, resolver: &CalendarTimeZoneResolver) -> (r: Option<String>)
    ensures
        match (r, warning_time(
            resolver.view(),
            datetime_of(opt_string(&req.from_date), opt_string(&req.from_time)),
            datetime_of(opt_string(&req.to_date), opt_string(&req.to_time)),
            req.timezone@,
        )) {
            (Some(a), Some(b)) => a@ == b,
            (None, None) => true,
            _ => false,
        },
{
    let start = match parse_datetime(as_text(&req.from_date), as_text(&req.from_time)) {
        Ok(Some(t)) => t,
        _ => {
            return None;
        },
    };
    let end = match parse_datetime(as_text(&req.to_date), as_text(&req.to_time)) {
        Ok(Some(t)) => t,
        _ => {
            return None;
        },
    };
    let lo: i64 = MIN_SECS + 3 * 86400;
    let hi: i64 = MAX_SECS - 3 * 86400;
    if start < lo || start > hi || end < lo || end > hi {
        return None;
    }
    match resolver.first_dst_transition_in_local_range(req.timezone.as_str(), start, end) {
        Some(t) => Some(format_minute(t)),
        None => None,
    }
}

/// The view of an optional text.
pub open spec fn opt_string(s: &Option<String>) -> Option<Seq<char>> {
    match s {
        Some(s) => Some(s@),
        None => None,
    }
}

/// An optional text as a borrowed one.
fn as_text(s: &Option<String>) -> (r: Option<&str>)
    ensures
        opt_text(r) == opt_string(s),
{
    match s {
        Some(x) => Some(x.as_str()),
        None => None,
    }
}

} // verus!
