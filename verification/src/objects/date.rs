//! Calendar dates (RFC 5545, 3.3.4 and 3.3.5) and their properties.

use vstd::prelude::*;
use vstd::string::StrSliceExecFns;

use super::civil::{
    days_from_civil, day_to_ymd, time_fields, valid_day, valid_secs, valid_ymd, ymd_to_day,
    MAX_YEAR, MIN_YEAR,
};
use crate::parser::error::ParseErrorType;
use crate::parser::prop::{first_param, ParamView, Parameter, Property, PropertyView};
use crate::text::{
    all_digits, decimal, digits_value, lemma_pow10_small, new_string, pow10, push_decimal, padded_decimal, push_padded, push_str, read_digits,
    str_eq, string_push, to_string,
};

verus! {

/// The kind of calendar component.
#[derive(Copy, Clone, Debug, PartialEq, Eq)]
pub enum CalCompType {
    Event,
    Todo,
}

/// Whether a date as the end of a range includes its day or not.
#[derive(Copy, Clone, Debug, PartialEq, Eq)]
pub enum CalDateType {
    /// The range ends before the day starts (the end of an event).
    Exclusive,
    /// The range ends when the day ends (the due date of a TODO).
    Inclusive,
}

impl CalCompType {
    /// The kind of end date that components of this kind have.
    pub fn date_type(self) -> (r: CalDateType)
        ensures
            r == (match self {
                CalCompType::Event => CalDateType::Exclusive,
                CalCompType::Todo => CalDateType::Inclusive,
            }),
    {
        match self {
            CalCompType::Event => CalDateType::Exclusive,
            CalCompType::Todo => CalDateType::Inclusive,
        }
    }
}

/// A calendar datetime, its wall-clock or instant in seconds from 1970-01-01T00:00:00.
#[derive(Clone, Debug, PartialEq, Eq)]
pub enum CalDateTime {
    /// An instant in UTC.
    Utc(i64),
    /// A wall-clock time in whatever time zone the viewer is in.
    Floating(i64),
    /// A wall-clock time in the time zone with the given id.
    Timezone(i64, String),
}

/// A calendar date: a whole day or a datetime.
#[derive(Clone, Debug, PartialEq, Eq)]
pub enum CalDate {
    /// A day, counted from 1970-01-01.
    Date(i64, CalDateType),
    DateTime(CalDateTime),
}

/// A datetime with its time zone id in characters.
pub enum DateTimeView {
    Utc(int),
    Floating(int),
    Timezone(int, Seq<char>),
}

/// A date with its time zone id in characters.
pub enum DateView {
    Date(int, CalDateType),
    DateTime(DateTimeView),
}

impl CalDateTime {
    pub open spec fn view(&self) -> DateTimeView {
        match self {
            CalDateTime::Utc(t) => DateTimeView::Utc(*t as int),
            CalDateTime::Floating(t) => DateTimeView::Floating(*t as int),
            CalDateTime::Timezone(t, tz) => DateTimeView::Timezone(*t as int, tz@),
        }
    }

    /// The seconds that the datetime holds.
    pub open spec fn secs(&self) -> int {
        match self {
            CalDateTime::Utc(t) => *t as int,
            CalDateTime::Floating(t) => *t as int,
            CalDateTime::Timezone(t, _) => *t as int,
        }
    }
}

impl CalDate {
    pub open spec fn view(&self) -> DateView {
        match self {
            CalDate::Date(d, ty) => DateView::Date(*d as int, *ty),
            CalDate::DateTime(dt) => DateView::DateTime(dt.view()),
        }
    }

    /// The date lies in the representable range.
    pub open spec fn wf(&self) -> bool {
        match self {
            CalDate::Date(d, _) => valid_day(*d as int),
            CalDate::DateTime(dt) => valid_secs(dt.secs()),
        }
    }

    /// Whether the date is a whole day.
    pub fn is_date(&self) -> (r: bool)
        ensures
            r == (self is Date),
    {
        match self {
            CalDate::Date(..) => true,
            CalDate::DateTime(_) => false,
        }
    }

    /// A datetime in the given time zone.
    pub fn new_datetime(local: i64, tzid: &str) -> (r: CalDate)
        ensures
            r.view() == DateView::DateTime(DateTimeView::Timezone(local as int, tzid@)),
    {
        CalDate::DateTime(CalDateTime::Timezone(local, to_string(tzid)))
    }

    /// The day of this date, or the day that a datetime's wall-clock time falls on.
    pub fn day(&self) -> (r: i64)
        ensures
            r == (match self {
                CalDate::Date(d, _) => *d as int,
                CalDate::DateTime(dt) => floor_div(dt.secs(), 86400),
            }),
    {
        match self {
            CalDate::Date(d, _) => *d,
            CalDate::DateTime(dt) => {
                let t = match dt {
                    CalDateTime::Utc(t) => *t,
                    CalDateTime::Floating(t) => *t,
                    CalDateTime::Timezone(t, _) => *t,
                };
                let q = t / 86400;
                if t % 86400 < 0 {
                    q - 1
                } else {
                    q
                }
            },
        }
    }

    /// The same date with its time zone id copied.
    pub fn copy(&self) -> (r: CalDate)
        ensures
            r.view() == self.view(),
            r.wf() == self.wf(),
    {
        match self {
            CalDate::Date(d, ty) => CalDate::Date(*d, *ty),
            CalDate::DateTime(dt) => CalDate::DateTime(dt.copy()),
        }
    }
}

impl CalDateTime {
    /// The same datetime with its time zone id copied.
    pub fn copy(&self) -> (r: CalDateTime)
        ensures
            r.view() == self.view(),
            r.secs() == self.secs(),
    {
        match self {
            CalDateTime::Utc(t) => CalDateTime::Utc(*t),
            CalDateTime::Floating(t) => CalDateTime::Floating(*t),
            CalDateTime::Timezone(t, tz) => CalDateTime::Timezone(*t, tz.clone()),
        }
    }
}

/// Division rounding towards negative infinity.
pub open spec fn floor_div(a: int, b: int) -> int {
    a / b
}

// ---------------------------------------------------------------------------------------------
// Reading dates from properties
// ---------------------------------------------------------------------------------------------

/// What is wrong with the text of a date.
pub enum DateProblem {
    /// The text does not have the shape of a date or a datetime.
    Malformed,
    /// The text has the right shape, but names no existing date or time.
    Invalid,
}

/// The number that the characters from `a` to `b` of `s` write.
pub open spec fn num(s: Seq<char>, a: int, b: int) -> int {
    digits_value(s.subrange(a, b)) as int
}

/// The shape `YYYYMMDD`.
pub open spec fn date_shape(s: Seq<char>) -> bool {
    s.len() == 8 && all_digits(s)
}

/// The shape `YYYYMMDDTHHMMSS`, optionally followed by `Z`.
pub open spec fn datetime_shape(s: Seq<char>) -> bool {
    &&& s.len() == 15 || (s.len() == 16 && s[15] == 'Z')
    &&& all_digits(s.subrange(0, 8))
    &&& s[8] == 'T'
    &&& all_digits(s.subrange(9, 15))
}

/// The seconds of a wall-clock time given by its fields.
pub open spec fn civil_secs(y: int, m: int, d: int, h: int, mi: int, s: int) -> int {
    days_from_civil(y, m, d) * 86400 + h * 3600 + mi * 60 + s
}

/// The seconds that a text of shape `YYYYMMDDTHHMMSS` names, if it names an existing time.
pub open spec fn datetime_secs(s: Seq<char>) -> Option<int> {
    let (y, m, d) = (num(s, 0, 4), num(s, 4, 6), num(s, 6, 8));
    let (h, mi, se) = (num(s, 9, 11), num(s, 11, 13), num(s, 13, 15));
    if valid_ymd(y, m, d) && h < 24 && mi < 60 && se < 60 {
        Some(civil_secs(y, m, d, h, mi, se))
    } else {
        None
    }
}

/// The date that a property's value holds: a day for `VALUE=DATE` or a value of eight
/// characters, a UTC instant for a trailing `Z`, a wall-clock time in the zone of a `TZID`
/// parameter, or a floating wall-clock time.
pub open spec fn date_of_property(p: PropertyView) -> Result<DateView, DateProblem> {
    let s = p.value;
    if first_param(p.params, seq!['V', 'A', 'L', 'U', 'E']) == Some(seq!['D', 'A', 'T', 'E'])
        || s.len() == 8 {
        if !date_shape(s) {
            Err(DateProblem::Malformed)
        } else if !valid_ymd(num(s, 0, 4), num(s, 4, 6), num(s, 6, 8)) {
            Err(DateProblem::Invalid)
        } else {
            Ok(
                DateView::Date(
                    days_from_civil(num(s, 0, 4), num(s, 4, 6), num(s, 6, 8)),
                    CalDateType::Exclusive,
                ),
            )
        }
    } else if !datetime_shape(s) {
        Err(DateProblem::Malformed)
    } else {
        match datetime_secs(s) {
            None => Err(DateProblem::Invalid),
            Some(t) => if s.len() == 16 {
                Ok(DateView::DateTime(DateTimeView::Utc(t)))
            } else {
                match first_param(p.params, seq!['T', 'Z', 'I', 'D']) {
                    Some(tz) => Ok(DateView::DateTime(DateTimeView::Timezone(t, tz))),
                    None => Ok(DateView::DateTime(DateTimeView::Floating(t))),
                }
            },
        }
    }
}

fn read_fixed(s: &str, from: usize, to: usize) -> (r: Option<u32>)
    requires
        from <= to <= s@.len(),
        to - from <= 9,
    ensures
        r is Some <==> all_digits(s@.subrange(from as int, to as int)),
        r matches Some(v) ==> v == num(s@, from as int, to as int) && v < pow10((to - from) as nat),
{
    read_digits(s, from, to)
}

proof fn lemma_all_digits_sub(s: Seq<char>, a: int, b: int, c: int, d: int)
    requires
        0 <= a <= c <= d <= b <= s.len(),
        all_digits(s.subrange(a, b)),
    ensures
        all_digits(s.subrange(c, d)),
{
    assert forall|i: int| 0 <= i < s.subrange(c, d).len() implies crate::text::is_digit(
        #[trigger] s.subrange(c, d)[i],
    ) by {
        assert(s.subrange(c, d)[i] == s.subrange(a, b)[i + c - a]);
    }
}

proof fn lemma_all_digits_join(s: Seq<char>, a: int, b: int, c: int)
    requires
        0 <= a <= b <= c <= s.len(),
        all_digits(s.subrange(a, b)),
        all_digits(s.subrange(b, c)),
    ensures
        all_digits(s.subrange(a, c)),
{
    assert forall|i: int| 0 <= i < s.subrange(a, c).len() implies crate::text::is_digit(
        #[trigger] s.subrange(a, c)[i],
    ) by {
        if i < b - a {
            assert(s.subrange(a, c)[i] == s.subrange(a, b)[i]);
        } else {
            assert(s.subrange(a, c)[i] == s.subrange(b, c)[i - (b - a)]);
        }
    }
}

/// Reads a text of shape `YYYYMMDD` into a day.
fn day_from_text(v: &str) -> (r: Result<i64, DateProblem>)
    requires
        v@.len() == 8,
    ensures
        match r {
            Ok(day) => date_shape(v@) && valid_ymd(num(v@, 0, 4), num(v@, 4, 6), num(v@, 6, 8))
                && day == days_from_civil(num(v@, 0, 4), num(v@, 4, 6), num(v@, 6, 8))
                && valid_day(day as int),
            Err(DateProblem::Malformed) => !date_shape(v@),
            Err(DateProblem::Invalid) => date_shape(v@) && !valid_ymd(
                num(v@, 0, 4),
                num(v@, 4, 6),
                num(v@, 6, 8),
            ),
        },
{
    let y = read_fixed(v, 0, 4);
    let m = read_fixed(v, 4, 6);
    let d = read_fixed(v, 6, 8);
    proof {
        assert(v@.subrange(0, 8) =~= v@);
    }
    match (y, m, d) {
        (Some(y), Some(m), Some(d)) => {
            proof {
                lemma_all_digits_join(v@, 0, 4, 6);
                lemma_all_digits_join(v@, 0, 6, 8);
                lemma_pow10_small();
            }
            match ymd_to_day(y as i32, m, d) {
                Some(day) => Ok(day),
                None => Err(DateProblem::Invalid),
            }
        },
        _ => {
            proof {
                if all_digits(v@) {
                    lemma_all_digits_sub(v@, 0, 8, 0, 4);
                    lemma_all_digits_sub(v@, 0, 8, 4, 6);
                    lemma_all_digits_sub(v@, 0, 8, 6, 8);
                }
            }
            Err(DateProblem::Malformed)
        },
    }
}

/// Reads a text of shape `YYYYMMDDTHHMMSS[Z]` into seconds.
fn secs_from_text(v: &str) -> (r: Result<i64, DateProblem>)
    ensures
        match r {
            Ok(t) => datetime_shape(v@) && datetime_secs(v@) == Some(t as int) && valid_secs(
                t as int,
            ),
            Err(DateProblem::Malformed) => !datetime_shape(v@),
            Err(DateProblem::Invalid) => datetime_shape(v@) && datetime_secs(v@) is None,
        },
{
    let n = v.unicode_len();
    if !(n == 15 || (n == 16 && v.get_char(15) == 'Z')) || v.get_char(8) != 'T' {
        return Err(DateProblem::Malformed);
    }
    let y = read_fixed(v, 0, 4);
    let m = read_fixed(v, 4, 6);
    let d = read_fixed(v, 6, 8);
    let h = read_fixed(v, 9, 11);
    let mi = read_fixed(v, 11, 13);
    let se = read_fixed(v, 13, 15);
    match (y, m, d, h, mi, se) {
        (Some(y), Some(m), Some(d), Some(h), Some(mi), Some(se)) => {
            proof {
                lemma_all_digits_join(v@, 0, 4, 6);
                lemma_all_digits_join(v@, 0, 6, 8);
                lemma_all_digits_join(v@, 9, 11, 13);
                lemma_all_digits_join(v@, 9, 13, 15);
                lemma_pow10_small();
            }
            let day = match ymd_to_day(y as i32, m, d) {
                Some(day) => day,
                None => {
                    return Err(DateProblem::Invalid);
                },
            };
            if h >= 24 || mi >= 60 || se >= 60 {
                return Err(DateProblem::Invalid);
            }
            Ok(day * 86400 + (h as i64) * 3600 + (mi as i64) * 60 + se as i64)
        },
        _ => {
            proof {
                if all_digits(v@.subrange(0, 8)) {
                    lemma_all_digits_sub(v@, 0, 8, 0, 4);
                    lemma_all_digits_sub(v@, 0, 8, 4, 6);
                    lemma_all_digits_sub(v@, 0, 8, 6, 8);
                }
                if all_digits(v@.subrange(9, 15)) {
                    lemma_all_digits_sub(v@, 9, 15, 9, 11);
                    lemma_all_digits_sub(v@, 9, 15, 11, 13);
                    lemma_all_digits_sub(v@, 9, 15, 13, 15);
                }
            }
            Err(DateProblem::Malformed)
        },
    }
}

fn problem_error(p: DateProblem, v: &str) -> (r: ParseErrorType)
    ensures
        match (r, p) {
            (ParseErrorType::MalformedDate(s), DateProblem::Malformed) => s@ == v@,
            (ParseErrorType::InvalidDate(s), DateProblem::Invalid) => s@ == v@,
            _ => false,
        },
{
    match p {
        DateProblem::Malformed => ParseErrorType::MalformedDate(to_string(v)),
        DateProblem::Invalid => ParseErrorType::InvalidDate(to_string(v)),
    }
}

impl CalDate {
    /// Reads the date that a property holds.
    pub fn from_prop(prop: &Property) -> (r: Result<CalDate, ParseErrorType>)
        ensures
            match (r, date_of_property(prop@)) {
                (Ok(d), Ok(v)) => d.view() == v && d.wf(),
                (Err(ParseErrorType::MalformedDate(s)), Err(DateProblem::Malformed)) => s@
                    == prop@.value,
                (Err(ParseErrorType::InvalidDate(s)), Err(DateProblem::Invalid)) => s@
                    == prop@.value,
                _ => false,
            },
    {
        let v = prop.value().as_str();
        let n = v.unicode_len();
        let is_day = match prop.param("VALUE") {
            Some(val) => str_eq(val.as_str(), "DATE"),
            None => false,
        };
        proof {
            reveal_strlit("VALUE");
            reveal_strlit("DATE");
            reveal_strlit("TZID");
            assert("VALUE"@ =~= seq!['V', 'A', 'L', 'U', 'E']);
            assert("DATE"@ =~= seq!['D', 'A', 'T', 'E']);
            assert("TZID"@ =~= seq!['T', 'Z', 'I', 'D']);
        }
        if is_day || n == 8 {
            if n != 8 {
                proof {
                    assert(!date_shape(v@));
                }
                return Err(ParseErrorType::MalformedDate(to_string(v)));
            }
            match day_from_text(v) {
                Ok(day) => Ok(CalDate::Date(day, CalDateType::Exclusive)),
                Err(p) => Err(problem_error(p, v)),
            }
        } else {
            match secs_from_text(v) {
                Ok(t) => {
                    if n == 16 {
                        Ok(CalDate::DateTime(CalDateTime::Utc(t)))
                    } else {
                        match prop.param("TZID") {
                            Some(tz) => Ok(CalDate::DateTime(CalDateTime::Timezone(t, tz.clone()))),
                            None => Ok(CalDate::DateTime(CalDateTime::Floating(t))),
                        }
                    }
                },
                Err(p) => Err(problem_error(p, v)),
            }
        }
    }
}

// ---------------------------------------------------------------------------------------------
// Writing dates
// ---------------------------------------------------------------------------------------------

/// The text of a year: four digits for 0 to 9999, else a sign and at least four digits.
pub open spec fn year_text(y: int) -> Seq<char> {
    if 0 <= y <= 9999 {
        padded_decimal(y as nat, 4)
    } else if y > 9999 {
        seq!['+'] + decimal(y as nat)
    } else {
        seq!['-'] + padded_decimal((-y) as nat, 4)
    }
}

/// The text of a date, with the given separator between its fields (or none).
pub open spec fn date_text(y: int, m: int, d: int, sep: Seq<char>) -> Seq<char> {
    year_text(y) + sep + padded_decimal(m as nat, 2) + sep + padded_decimal(d as nat, 2)
}

/// The text of a time of day, with the given separator between its fields (or none).
pub open spec fn time_text(h: int, mi: int, s: int, sep: Seq<char>) -> Seq<char> {
    padded_decimal(h as nat, 2) + sep + padded_decimal(mi as nat, 2) + sep + padded_decimal(
        s as nat,
        2,
    )
}

/// The calendar fields of a time in seconds.
pub open spec fn fields_of(t: int, y: int, m: int, d: int, h: int, mi: int, s: int) -> bool {
    &&& valid_ymd(y, m, d)
    &&& 0 <= h < 24 && 0 <= mi < 60 && 0 <= s < 60
    &&& civil_secs(y, m, d, h, mi, s) == t
}

/// Appends the text of a year.
fn push_year(out: &mut String, y: i32)
    requires
        MIN_YEAR <= y <= MAX_YEAR,
    ensures
        final(out)@ == old(out)@ + year_text(y as int),
{
    if 0 <= y && y <= 9999 {
        push_padded(out, y as u64, 4);
    } else if y > 9999 {
        string_push(out, '+');
        push_decimal(out, y as u64);
        proof {
            assert(final(out)@ =~= old(out)@ + year_text(y as int));
        }
    } else {
        string_push(out, '-');
        push_padded(out, (-(y as i64)) as u64, 4);
        proof {
            assert(final(out)@ =~= old(out)@ + year_text(y as int));
        }
    }
}

/// Appends the text of a date.
pub fn push_date(out: &mut String, y: i32, m: u32, d: u32, sep: bool)
    requires
        valid_ymd(y as int, m as int, d as int),
    ensures
        final(out)@ == old(out)@ + date_text(
            y as int,
            m as int,
            d as int,
            if sep {
                seq!['-']
            } else {
                seq![]
            },
        ),
{
    let ghost start = out@;
    push_year(out, y);
    if sep {
        string_push(out, '-');
    }
    push_padded(out, m as u64, 2);
    if sep {
        string_push(out, '-');
    }
    push_padded(out, d as u64, 2);
    proof {
        let sp = if sep {
            seq!['-']
        } else {
            Seq::<char>::empty()
        };
        assert(out@ =~= start + date_text(y as int, m as int, d as int, sp));
    }
}

/// Appends the text of a time of day.
fn push_time(out: &mut String, h: u32, mi: u32, s: u32, sep: bool)
    ensures
        final(out)@ == old(out)@ + time_text(
            h as int,
            mi as int,
            s as int,
            if sep {
                seq![':']
            } else {
                seq![]
            },
        ),
{
    let ghost start = out@;
    push_padded(out, h as u64, 2);
    if sep {
        string_push(out, ':');
    }
    push_padded(out, mi as u64, 2);
    if sep {
        string_push(out, ':');
    }
    push_padded(out, s as u64, 2);
    proof {
        let sp = if sep {
            seq![':']
        } else {
            Seq::<char>::empty()
        };
        assert(out@ =~= start + time_text(h as int, mi as int, s as int, sp));
    }
}

/// Appends a date and a time, with their fields separated or not.
fn push_datetime(out: &mut String, t: i64, sep: bool) -> (r: Ghost<(int, int, int, int, int, int)>)
    requires
        valid_secs(t as int),
    ensures
        fields_of(t as int, r@.0, r@.1, r@.2, r@.3, r@.4, r@.5),
        final(out)@ == old(out)@ + date_text(
            r@.0,
            r@.1,
            r@.2,
            if sep {
                seq!['-']
            } else {
                seq![]
            },
        ) + seq!['T'] + time_text(
            r@.3,
            r@.4,
            r@.5,
            if sep {
                seq![':']
            } else {
                seq![]
            },
        ),
{
    let (y, m, d, h, mi, s) = time_fields(t);
    let ghost start = out@;
    push_date(out, y, m, d, sep);
    string_push(out, 'T');
    let ghost mid = out@;
    push_time(out, h, mi, s, sep);
    proof {
        assert(out@ =~= start + (mid.subrange(start.len() as int, mid.len() as int)) + out@.subrange(
            mid.len() as int,
            out@.len() as int,
        ));
    }
    Ghost((y as int, m as int, d as int, h as int, mi as int, s as int))
}

/// The property value of a date and the parameters it needs.
pub open spec fn date_value_text(d: DateView, fields: (int, int, int, int, int, int)) -> Seq<char> {
    match d {
        DateView::Date(..) => date_text(fields.0, fields.1, fields.2, seq![]),
        DateView::DateTime(dt) => date_text(fields.0, fields.1, fields.2, seq![]) + seq!['T']
            + time_text(fields.3, fields.4, fields.5, seq![]) + match dt {
            DateTimeView::Utc(_) => seq!['Z'],
            _ => seq![],
        },
    }
}

/// The parameters that a date's property carries.
pub open spec fn date_params(d: DateView) -> Seq<ParamView> {
    match d {
        DateView::Date(..) => seq![
            ParamView { name: seq!['V', 'A', 'L', 'U', 'E'], value: seq!['D', 'A', 'T', 'E'] },
        ],
        DateView::DateTime(DateTimeView::Timezone(_, tz)) => seq![
            ParamView { name: seq!['T', 'Z', 'I', 'D'], value: tz },
        ],
        _ => seq![],
    }
}

/// The fields of a date: the calendar date of a day (at midnight), or of a datetime.
pub open spec fn date_fields(d: DateView, f: (int, int, int, int, int, int)) -> bool {
    match d {
        DateView::Date(day, _) => valid_ymd(f.0, f.1, f.2) && days_from_civil(f.0, f.1, f.2) == day,
        DateView::DateTime(dt) => fields_of(
            match dt {
                DateTimeView::Utc(t) => t,
                DateTimeView::Floating(t) => t,
                DateTimeView::Timezone(t, _) => t,
            },
            f.0,
            f.1,
            f.2,
            f.3,
            f.4,
            f.5,
        ),
    }
}

/// The letter that marks the kind of a datetime in the display text.
pub open spec fn kind_letter(d: DateView) -> Seq<char> {
    match d {
        DateView::Date(_, CalDateType::Exclusive) => seq!['E'],
        DateView::Date(_, CalDateType::Inclusive) => seq!['I'],
        DateView::DateTime(DateTimeView::Utc(_)) => seq!['U'],
        DateView::DateTime(DateTimeView::Floating(_)) => seq!['F'],
        DateView::DateTime(DateTimeView::Timezone(..)) => seq!['Z'],
    }
}

/// The display text of a date: `D` or `T` for day or datetime, a letter for its kind, the
/// ISO 8601 text, and for a datetime in a time zone its id in brackets.
pub open spec fn date_display(d: DateView, f: (int, int, int, int, int, int)) -> Seq<char> {
    match d {
        DateView::Date(..) => seq!['D'] + kind_letter(d) + date_text(f.0, f.1, f.2, seq!['-']),
        DateView::DateTime(dt) => seq!['T'] + kind_letter(d) + date_text(f.0, f.1, f.2, seq!['-'])
            + seq!['T'] + time_text(f.3, f.4, f.5, seq![':']) + match dt {
            DateTimeView::Timezone(_, tz) => seq!['['] + tz + seq![']'],
            _ => seq![],
        },
    }
}

impl CalDate {
    /// The property with the given name that holds this date.
    pub fn to_prop(&self, name: &str) -> (r: Property)
        requires
            self.wf(),
        ensures
            r@.name == name@,
            r@.params == date_params(self.view()),
            exists|f: (int, int, int, int, int, int)|
                date_fields(self.view(), f) && r@.value == date_value_text(self.view(), f),
    {
        proof {
            reveal_strlit("VALUE");
            reveal_strlit("DATE");
            reveal_strlit("TZID");
        }
        let mut value = new_string();
        let mut params: Vec<Parameter> = Vec::new();
        match self {
            CalDate::Date(day, _) => {
                let (y, m, d) = day_to_ymd(*day);
                push_date(&mut value, y, m, d, false);
                params.push(Parameter { name: to_string("VALUE"), value: to_string("DATE") });
                proof {
                    assert("VALUE"@ =~= seq!['V', 'A', 'L', 'U', 'E']);
                    assert("DATE"@ =~= seq!['D', 'A', 'T', 'E']);
                    assert(params@.map_values(|p: Parameter| p.view()) =~= date_params(
                        self.view(),
                    ));
                }
                let ghost f = (y as int, m as int, d as int, 0int, 0int, 0int);
                assert(date_fields(self.view(), f));
                assert(value@ == date_value_text(self.view(), f));
            },
            CalDate::DateTime(dt) => {
                let t = match dt {
                    CalDateTime::Utc(t) => *t,
                    CalDateTime::Floating(t) => *t,
                    CalDateTime::Timezone(t, _) => *t,
                };
                let f = push_datetime(&mut value, t, false);
                match dt {
                    CalDateTime::Utc(_) => {
                        string_push(&mut value, 'Z');
                    },
                    CalDateTime::Floating(_) => {},
                    CalDateTime::Timezone(_, tz) => {
                        params.push(Parameter { name: to_string("TZID"), value: tz.clone() });
                        proof {
                            assert("TZID"@ =~= seq!['T', 'Z', 'I', 'D']);
                        }
                    },
                }
                proof {
                    assert(params@.map_values(|p: Parameter| p.view()) =~= date_params(
                        self.view(),
                    ));
                }
                assert(date_fields(self.view(), f@));
                assert(value@ =~= date_value_text(self.view(), f@));
            },
        }
        let r = Property::new(name, params, value.as_str());
        proof {
            assert(r@.params =~= date_params(self.view()));
        }
        r
    }

    /// The display text of this date.
    pub fn to_display(&self) -> (r: String)
        requires
            self.wf(),
        ensures
            exists|f: (int, int, int, int, int, int)|
                date_fields(self.view(), f) && r@ == date_display(self.view(), f),
    {
        let mut out = new_string();
        match self {
            CalDate::Date(day, ty) => {
                string_push(&mut out, 'D');
                match ty {
                    CalDateType::Exclusive => string_push(&mut out, 'E'),
                    CalDateType::Inclusive => string_push(&mut out, 'I'),
                }
                let (y, m, d) = day_to_ymd(*day);
                push_date(&mut out, y, m, d, true);
                let ghost f = (y as int, m as int, d as int, 0int, 0int, 0int);
                assert(date_fields(self.view(), f));
                assert(out@ =~= date_display(self.view(), f));
            },
            CalDate::DateTime(dt) => {
                string_push(&mut out, 'T');
                let t = match dt {
                    CalDateTime::Utc(t) => {
                        string_push(&mut out, 'U');
                        *t
                    },
                    CalDateTime::Floating(t) => {
                        string_push(&mut out, 'F');
                        *t
                    },
                    CalDateTime::Timezone(t, _) => {
                        string_push(&mut out, 'Z');
                        *t
                    },
                };
                let f = push_datetime(&mut out, t, true);
                if let CalDateTime::Timezone(_, tz) = dt {
                    string_push(&mut out, '[');
                    push_str(&mut out, tz.as_str());
                    string_push(&mut out, ']');
                }
                assert(date_fields(self.view(), f@));
                assert(out@ =~= date_display(self.view(), f@));
            },
        }
        out
    }
}

} // verus!
