//! Calendar events (RFC 5545, 3.6.1): their properties, how they are read and written, and how
//! they are moved and resized in time.

use vstd::prelude::*;

use super::date::{CalCompType, CalDate, CalDateTime, CalDateType, DateProblem, DateTimeView, DateView, date_of_property, date_fields, date_params, date_value_text};
use super::civil::{valid_day, MAX_SECS, MIN_SECS};
use super::date::floor_div;
use super::timezone::Calendar;
use super::tz::{in_range, tz_known, tz_local_offsets, tz_offset_at, zone_runs_back, LocalMapping, OffsetMapping, ResolvedDateTime, Zone};
use super::tzresolver::{
    compiled_zones, date_near_range, emb_wf, instant_range, lemma_db_instant_to_local_resolves_back,
    lemma_instant_to_local_resolves_back, lookup, maps_to, res_date_end, res_date_start, res_local, res_localize, res_pre_gap,
    CalendarTimeZoneResolver, Transition,
};
use crate::parser::error::{ParseError, ParseErrorType};
use crate::parser::line::{after_first_logical, decoded, first_logical, lemma_continuation_count_bound, LineReader};
use crate::parser::prop::{parse_property, Property, PropertyView};
use crate::text::{str_eq, to_string};

verus! {

// ---------------------------------------------------------------------------------------------
// Status
// ---------------------------------------------------------------------------------------------

/// The status of an event (RFC 5545, 3.8.1.11).
#[derive(Copy, Clone, Debug, PartialEq, Eq)]
pub enum CalEventStatus {
    Tentative,
    Confirmed,
    Cancelled,
}

/// The text of an event status.
pub open spec fn status_text(s: CalEventStatus) -> Seq<char> {
    match s {
        CalEventStatus::Tentative => seq!['T', 'E', 'N', 'T', 'A', 'T', 'I', 'V', 'E'],
        CalEventStatus::Confirmed => seq!['C', 'O', 'N', 'F', 'I', 'R', 'M', 'E', 'D'],
        CalEventStatus::Cancelled => seq!['C', 'A', 'N', 'C', 'E', 'L', 'L', 'E', 'D'],
    }
}

/// The status that a text names, if any.
pub open spec fn status_of(v: Seq<char>) -> Option<CalEventStatus> {
    if v == status_text(CalEventStatus::Tentative) {
        Some(CalEventStatus::Tentative)
    } else if v == status_text(CalEventStatus::Confirmed) {
        Some(CalEventStatus::Confirmed)
    } else if v == status_text(CalEventStatus::Cancelled) {
        Some(CalEventStatus::Cancelled)
    } else {
        None
    }
}

impl CalEventStatus {
    /// Reads a status from its text.
    pub fn parse(s: &str) -> (r: Result<CalEventStatus, ParseErrorType>)
        ensures
            match (r, status_of(s@)) {
                (Ok(a), Some(b)) => a == b,
                (Err(ParseErrorType::InvalidStatus(t)), None) => t@ == s@,
                _ => false,
            },
    {
        proof {
            reveal_strlit("TENTATIVE");
            reveal_strlit("CONFIRMED");
            reveal_strlit("CANCELLED");
            assert("TENTATIVE"@ =~= status_text(CalEventStatus::Tentative));
            assert("CONFIRMED"@ =~= status_text(CalEventStatus::Confirmed));
            assert("CANCELLED"@ =~= status_text(CalEventStatus::Cancelled));
        }
        if str_eq(s, "TENTATIVE") {
            Ok(CalEventStatus::Tentative)
        } else if str_eq(s, "CONFIRMED") {
            Ok(CalEventStatus::Confirmed)
        } else if str_eq(s, "CANCELLED") {
            Ok(CalEventStatus::Cancelled)
        } else {
            Err(ParseErrorType::InvalidStatus(to_string(s)))
        }
    }

    /// The text of this status.
    pub fn as_str(&self) -> (r: &'static str)
        ensures
            r@ == status_text(*self),
    {
        proof {
            reveal_strlit("TENTATIVE");
            reveal_strlit("CONFIRMED");
            reveal_strlit("CANCELLED");
        }
        match self {
            CalEventStatus::Tentative => "TENTATIVE",
            CalEventStatus::Confirmed => "CONFIRMED",
            CalEventStatus::Cancelled => "CANCELLED",
        }
    }
}

impl std::str::FromStr for CalEventStatus {
    type Err = ParseErrorType;

    fn from_str(s: &str) -> (r: Result<Self, Self::Err>)
        ensures
            match (r, status_of(s@)) {
                (Ok(a), Some(b)) => a == b,
                (Err(ParseErrorType::InvalidStatus(t)), None) => t@ == s@,
                _ => false,
            },
    {
        CalEventStatus::parse(s)
    }
}

// ---------------------------------------------------------------------------------------------
// The component and the event
// ---------------------------------------------------------------------------------------------

/// The properties that events and TODOs share: the unique id, the time stamp, the start, the
/// summary, and the properties kept as they were read.
#[derive(Debug)]
pub struct EventLikeComponent {
    pub ctype: CalCompType,
    pub uid: String,
    pub stamp: Option<CalDate>,
    pub start: Option<CalDate>,
    pub summary: Option<String>,
    pub props: Vec<Property>,
}

/// Represents an iCalendar event.
///
/// Each event has a unique id (uid) and several optional properties such as a summary. In
/// contrast to TODOs, events have a [`CalEventStatus`] and an end date instead of a due date.
#[derive(Debug)]
pub struct CalEvent {
    pub inner: EventLikeComponent,
    status: Option<CalEventStatus>,
    end: Option<CalDate>,
}

/// Represents an edge in a range.
#[derive(Debug, Copy, Clone, PartialEq, Eq)]
pub enum RangeEdge {
    /// The start of a range.
    Start,
    /// The end of a range.
    End,
}

/// An event in the terms of its specification.
pub struct EventView {
    pub uid: Seq<char>,
    pub stamp: Option<DateView>,
    pub start: Option<DateView>,
    pub summary: Option<Seq<char>>,
    pub props: Seq<PropertyView>,
    pub status: Option<CalEventStatus>,
    pub end: Option<DateView>,
}

/// The view of an optional date.
pub open spec fn opt_date(d: Option<CalDate>) -> Option<DateView> {
    match d {
        Some(d) => Some(d.view()),
        None => None,
    }
}

/// The view of an optional borrowed date.
pub open spec fn opt_ref_date(d: Option<&CalDate>) -> Option<DateView> {
    match d {
        Some(d) => Some(d.view()),
        None => None,
    }
}

/// An optional borrowed date lies in the representable range.
pub open spec fn opt_ref_wf(d: Option<&CalDate>) -> bool {
    match d {
        Some(d) => d.wf(),
        None => true,
    }
}

/// An optional date lies in the representable range.
pub open spec fn opt_date_wf(d: Option<CalDate>) -> bool {
    match d {
        Some(d) => d.wf(),
        None => true,
    }
}

/// An event without any property, and an empty id.
pub open spec fn empty_event() -> EventView {
    EventView {
        uid: seq![],
        stamp: None,
        start: None,
        summary: None,
        props: seq![],
        status: None,
        end: None,
    }
}

impl CalEvent {
    pub closed spec fn view(&self) -> EventView {
        EventView {
            uid: self.inner.uid@,
            stamp: opt_date(self.inner.stamp),
            start: opt_date(self.inner.start),
            summary: match self.inner.summary {
                Some(s) => Some(s@),
                None => None,
            },
            props: self.inner.props@.map_values(|p: Property| p@),
            status: self.status,
            end: opt_date(self.end),
        }
    }

    /// All dates lie in the representable range and the component is an event.
    pub closed spec fn wf(&self) -> bool {
        &&& self.inner.ctype == CalCompType::Event
        &&& opt_date_wf(self.inner.stamp)
        &&& opt_date_wf(self.inner.start)
        &&& opt_date_wf(self.end)
    }

    /// An event without any property and with an empty id.
    pub fn new_empty() -> (r: Self)
        ensures
            r@ == empty_event(),
            r.wf(),
    {
        let r = CalEvent {
            inner: EventLikeComponent {
                ctype: CalCompType::Event,
                uid: String::new(),
                stamp: None,
                start: None,
                summary: None,
                props: Vec::new(),
            },
            status: None,
            end: None,
        };
        proof {
            assert(r@.props =~= Seq::<PropertyView>::empty());
        }
        r
    }

    /// Creates a new event with given uid.
    pub fn new(uid: &str) -> (r: Self)
        ensures
            r@ == (EventView { uid: uid@, ..empty_event() }),
            r.wf(),
    {
        let mut new = Self::new_empty();
        new.inner.uid = to_string(uid);
        new
    }

    /// Returns the unique id of the event.
    pub fn uid(&self) -> (r: &String)
        ensures
            r@ == self@.uid,
    {
        &self.inner.uid
    }

    /// Returns the summary of the event.
    pub fn summary(&self) -> (r: Option<&String>)
        ensures
            match (r, self@.summary) {
                (Some(a), Some(b)) => a@ == b,
                (None, None) => true,
                _ => false,
            },
    {
        self.inner.summary.as_ref()
    }

    /// Returns the start of the event.
    pub fn start(&self) -> (r: Option<&CalDate>)
        ensures
            opt_ref_date(r) == self@.start,
            self.wf() ==> opt_ref_wf(r),
    {
        self.inner.start.as_ref()
    }

    /// Sets the start to the given value.
    pub fn set_start(&mut self, start: Option<CalDate>)
        ensures
            final(self)@ == (EventView { start: opt_date(start), ..old(self)@ }),
            old(self).wf() ==> (final(self).wf() <==> opt_date_wf(start)),
    {
        self.inner.start = start;
    }

    /// Returns the status of the event.
    pub fn status(&self) -> (r: Option<CalEventStatus>)
        ensures
            r == self@.status,
    {
        self.status
    }

    /// Sets the status to given value.
    pub fn set_status(&mut self, status: Option<CalEventStatus>)
        ensures
            final(self)@ == (EventView { status, ..old(self)@ }),
            final(self).wf() == old(self).wf(),
    {
        self.status = status;
    }

    /// Returns the end of the event.
    pub fn end(&self) -> (r: Option<&CalDate>)
        ensures
            opt_ref_date(r) == self@.end,
            self.wf() ==> opt_ref_wf(r),
    {
        self.end.as_ref()
    }

    /// Sets the event end to given value.
    pub fn set_end(&mut self, end: Option<CalDate>)
        ensures
            final(self)@ == (EventView { end: opt_date(end), ..old(self)@ }),
            old(self).wf() ==> (final(self).wf() <==> opt_date_wf(end)),
    {
        self.end = end;
    }

    /// Whether the event spans whole days: its start is a day.
    pub fn is_all_day(&self) -> (r: bool)
        ensures
            r == (self@.start matches Some(DateView::Date(..))),
    {
        match &self.inner.start {
            Some(CalDate::Date(..)) => true,
            _ => false,
        }
    }
}

// ---------------------------------------------------------------------------------------------
// Writing an event
// ---------------------------------------------------------------------------------------------

/// A property without parameters.
pub open spec fn plain_prop(name: Seq<char>, value: Seq<char>) -> PropertyView {
    PropertyView { name, params: seq![], value }
}

/// The property with the given name that holds a date.
pub open spec fn is_date_prop(d: DateView, name: Seq<char>, p: PropertyView) -> bool {
    &&& p.name == name
    &&& p.params == date_params(d)
    &&& exists|f: (int, int, int, int, int, int)| date_fields(d, f) && p.value == date_value_text(d, f)
}

/// The property of an optional date, if there is a date.
pub open spec fn opt_date_prop(d: Option<DateView>, name: Seq<char>, p: Option<PropertyView>) -> bool {
    match (d, p) {
        (None, None) => true,
        (Some(d), Some(p)) => is_date_prop(d, name, p),
        _ => false,
    }
}

/// The sequence holding the property, if there is one.
pub open spec fn opt_seq(p: Option<PropertyView>) -> Seq<PropertyView> {
    match p {
        Some(p) => seq![p],
        None => seq![],
    }
}

pub open spec fn vevent() -> Seq<char> {
    seq!['V', 'E', 'V', 'E', 'N', 'T']
}

/// The status property, if there is a status.
pub open spec fn status_seq(st: Option<CalEventStatus>) -> Seq<PropertyView> {
    match st {
        Some(s) => seq![plain_prop(seq!['S', 'T', 'A', 'T', 'U', 'S'], status_text(s))],
        None => seq![],
    }
}

/// The summary property, if there is a summary.
pub open spec fn summary_seq(sum: Option<Seq<char>>) -> Seq<PropertyView> {
    match sum {
        Some(s) => seq![plain_prop(seq!['S', 'U', 'M', 'M', 'A', 'R', 'Y'], s)],
        None => seq![],
    }
}

/// The properties of an event, given the properties of its dates: `BEGIN`, the end, the
/// status, the id, the time stamp, the start, the summary, the kept properties, `END`.
pub open spec fn event_props(
    v: EventView,
    end: Option<PropertyView>,
    stamp: Option<PropertyView>,
    start: Option<PropertyView>,
) -> Seq<PropertyView> {
    seq![plain_prop(seq!['B', 'E', 'G', 'I', 'N'], vevent())] + opt_seq(end) + status_seq(v.status)
        + seq![plain_prop(seq!['U', 'I', 'D'], v.uid)] + opt_seq(stamp) + opt_seq(start)
        + summary_seq(v.summary) + v.props + seq![plain_prop(seq!['E', 'N', 'D'], vevent())]
}

/// Appends the property of an optional date.
fn push_date_prop(out: &mut Vec<Property>, d: &Option<CalDate>, name: &str) -> (p: Ghost<
    Option<PropertyView>,
>)
    requires
        opt_date_wf(*d),
    ensures
        opt_date_prop(opt_date(*d), name@, p@),
        final(out)@.map_values(|q: Property| q@) == old(out)@.map_values(|q: Property| q@)
            + opt_seq(p@),
{
    match d {
        Some(d) => {
            let q = d.to_prop(name);
            let ghost pv = q@;
            out.push(q);
            proof {
                assert(out@.map_values(|q: Property| q@) =~= old(out)@.map_values(
                    |q: Property| q@,
                ) + seq![pv]);
            }
            Ghost(Some(pv))
        },
        None => {
            proof {
                assert(out@.map_values(|q: Property| q@) =~= old(out)@.map_values(
                    |q: Property| q@,
                ) + Seq::<PropertyView>::empty());
            }
            Ghost(None)
        },
    }
}

/// A property without parameters.
fn plain(name: &str, value: &str) -> (r: Property)
    ensures
        r@ == plain_prop(name@, value@),
{
    let r = Property::new(name, Vec::new(), value);
    proof {
        assert(r@.params =~= Seq::<crate::parser::prop::ParamView>::empty());
    }
    r
}

/// Appends a property and keeps the views in step.
fn push_prop(out: &mut Vec<Property>, p: Property)
    ensures
        final(out)@.map_values(|q: Property| q@) == old(out)@.map_values(|q: Property| q@).push(
            p@,
        ),
{
    out.push(p);
    proof {
        assert(out@.map_values(|q: Property| q@) =~= old(out)@.map_values(|q: Property| q@).push(
            p@,
        ));
    }
}

/// Copies a property.
fn copy_prop(p: &Property) -> (r: Property)
    ensures
        r@ == p@,
{
    let mut params: Vec<crate::parser::prop::Parameter> = Vec::new();
    let ps = p.params();
    let mut i: usize = 0;
    while i < ps.len()
        invariant
            i <= ps@.len(),
            params@.map_values(|q: crate::parser::prop::Parameter| q.view()) == ps@.subrange(
                0,
                i as int,
            ).map_values(|q: crate::parser::prop::Parameter| q.view()),
        decreases ps@.len() - i,
    {
        let q = crate::parser::prop::Parameter {
            name: to_string(ps[i].name.as_str()),
            value: to_string(ps[i].value.as_str()),
        };
        assert(q.view() == ps@[i as int].view());
        let ghost before = params@;
        params.push(q);
        proof {
            assert(params@.map_values(|q: crate::parser::prop::Parameter| q.view()) =~= before.map_values(|q: crate::parser::prop::Parameter| q.view()).push(q.view()));
            assert(ps@.subrange(0, i as int + 1).map_values(|q: crate::parser::prop::Parameter| q.view()) =~= ps@.subrange(0, i as int).map_values(|q: crate::parser::prop::Parameter| q.view()).push(ps@[i as int].view()));
        }
        i = i + 1;
    }
    proof {
        assert(ps@.subrange(0, ps@.len() as int) =~= ps@);
    }
    let r = Property::new(p.name().as_str(), params, p.value().as_str());
    proof {
        assert(r@.params =~= p@.params);
    }
    r
}

impl CalEvent {
    /// The properties of this event in the order in which they are written.
    pub fn to_props(&self) -> (r: Vec<Property>)
        requires
            self.wf(),
        ensures
            exists|e: Option<PropertyView>, st: Option<PropertyView>, s: Option<PropertyView>|
                {
                    &&& opt_date_prop(self@.end, seq!['D', 'T', 'E', 'N', 'D'], e)
                    &&& opt_date_prop(self@.stamp, seq!['D', 'T', 'S', 'T', 'A', 'M', 'P'], st)
                    &&& opt_date_prop(self@.start, seq!['D', 'T', 'S', 'T', 'A', 'R', 'T'], s)
                    &&& r@.map_values(|q: Property| q@) == event_props(self@, e, st, s)
                },
    {
        proof {
            reveal_strlit("BEGIN");
            reveal_strlit("VEVENT");
            reveal_strlit("DTEND");
            reveal_strlit("STATUS");
            reveal_strlit("UID");
            reveal_strlit("DTSTAMP");
            reveal_strlit("DTSTART");
            reveal_strlit("SUMMARY");
            reveal_strlit("END");
            assert("BEGIN"@ =~= seq!['B', 'E', 'G', 'I', 'N']);
            assert("VEVENT"@ =~= vevent());
            assert("DTEND"@ =~= seq!['D', 'T', 'E', 'N', 'D']);
            assert("STATUS"@ =~= seq!['S', 'T', 'A', 'T', 'U', 'S']);
            assert("UID"@ =~= seq!['U', 'I', 'D']);
            assert("DTSTAMP"@ =~= seq!['D', 'T', 'S', 'T', 'A', 'M', 'P']);
            assert("DTSTART"@ =~= seq!['D', 'T', 'S', 'T', 'A', 'R', 'T']);
            assert("SUMMARY"@ =~= seq!['S', 'U', 'M', 'M', 'A', 'R', 'Y']);
            assert("END"@ =~= seq!['E', 'N', 'D']);
        }
        let ghost v = self@;
        let mut props: Vec<Property> = Vec::new();
        proof {
            assert(props@.map_values(|q: Property| q@) =~= Seq::<PropertyView>::empty());
        }
        push_prop(&mut props, plain("BEGIN", "VEVENT"));
        assert(props@.map_values(|q: Property| q@) =~= seq![plain_prop(seq!['B', 'E', 'G', 'I', 'N'], vevent())]);
        let e = push_date_prop(&mut props, &self.end, "DTEND");
        let ghost p1 = props@.map_values(|q: Property| q@);
        match &self.status {
            Some(s) => {
                push_prop(&mut props, plain("STATUS", s.as_str()));
            },
            None => {},
        }
        assert(props@.map_values(|q: Property| q@) =~= p1 + status_seq(v.status));
        let ghost p2 = props@.map_values(|q: Property| q@);
        push_prop(&mut props, plain("UID", self.inner.uid.as_str()));
        assert(props@.map_values(|q: Property| q@) =~= p2 + seq![plain_prop(seq!['U', 'I', 'D'], v.uid)]);
        let st = push_date_prop(&mut props, &self.inner.stamp, "DTSTAMP");
        let s = push_date_prop(&mut props, &self.inner.start, "DTSTART");
        let ghost p3 = props@.map_values(|q: Property| q@);
        match &self.inner.summary {
            Some(sum) => {
                push_prop(&mut props, plain("SUMMARY", sum.as_str()));
            },
            None => {},
        }
        assert(props@.map_values(|q: Property| q@) =~= p3 + summary_seq(v.summary));
        let ghost p4 = props@.map_values(|q: Property| q@);
        let mut i: usize = 0;
        while i < self.inner.props.len()
            invariant
                i <= self.inner.props@.len(),
                props@.map_values(|q: Property| q@) == p4 + self.inner.props@.subrange(
                    0,
                    i as int,
                ).map_values(|q: Property| q@),
            decreases self.inner.props@.len() - i,
        {
            let c = copy_prop(&self.inner.props[i]);
            push_prop(&mut props, c);
            proof {
                assert(self.inner.props@.subrange(0, i as int + 1).map_values(|q: Property| q@)
                    =~= self.inner.props@.subrange(0, i as int).map_values(|q: Property| q@).push(
                    self.inner.props@[i as int]@,
                ));
            }
            i = i + 1;
        }
        proof {
            assert(self.inner.props@.subrange(0, self.inner.props@.len() as int) =~= self.inner.props@);
            assert(props@.map_values(|q: Property| q@) == p4 + v.props);
        }
        let ghost p5 = props@.map_values(|q: Property| q@);
        push_prop(&mut props, plain("END", "VEVENT"));
        proof {
            assert(props@.map_values(|q: Property| q@) == p5.push(plain_prop(seq!['E', 'N', 'D'], vevent())));
            assert(p5.push(plain_prop(seq!['E', 'N', 'D'], vevent())) =~= p5 + seq![plain_prop(seq!['E', 'N', 'D'], vevent())]);
            assert(props@.map_values(|q: Property| q@) == event_props(v, e@, st@, s@));
        }
        props
    }
}

// ---------------------------------------------------------------------------------------------
// Reading an event
// ---------------------------------------------------------------------------------------------

/// What goes wrong while reading an event.
pub enum EventProblem {
    /// The input ended (or held a line that is not UTF-8) before `END:VEVENT`.
    Eof,
    /// A line is not a property.
    Parse(ParseErrorType),
    /// A status with the given text is unknown.
    Status(Seq<char>),
    /// A date with the given text is malformed or invalid.
    Date(DateProblem, Seq<char>),
}

/// The error that reports a problem in the given line.
pub open spec fn error_for(e: ParseError, line: nat, k: EventProblem) -> bool {
    &&& e.line == line
    &&& match k {
        EventProblem::Eof => e.ty == ParseErrorType::UnexpectedEOF,
        EventProblem::Parse(t) => e.ty == t,
        EventProblem::Status(v) => e.ty matches ParseErrorType::InvalidStatus(s) && s@ == v,
        EventProblem::Date(DateProblem::Malformed, v) => e.ty matches ParseErrorType::MalformedDate(s)
            && s@ == v,
        EventProblem::Date(DateProblem::Invalid, v) => e.ty matches ParseErrorType::InvalidDate(s)
            && s@ == v,
    }
}

/// A property's date, or the problem with it.
pub open spec fn date_or_problem(p: PropertyView) -> Result<DateView, EventProblem> {
    match date_of_property(p) {
        Ok(d) => Ok(d),
        Err(k) => Err(EventProblem::Date(k, p.value)),
    }
}

/// What a property read inside an event changes: the status, the end, the id, the time stamp,
/// the start and the summary are taken from their properties; any other property is kept.
pub open spec fn apply_prop(acc: EventView, p: PropertyView) -> Result<EventView, EventProblem> {
    if p.name == seq!['S', 'T', 'A', 'T', 'U', 'S'] {
        match status_of(p.value) {
            Some(s) => Ok(EventView { status: Some(s), ..acc }),
            None => Err(EventProblem::Status(p.value)),
        }
    } else if p.name == seq!['D', 'T', 'E', 'N', 'D'] {
        match date_or_problem(p) {
            Ok(d) => Ok(EventView { end: Some(d), ..acc }),
            Err(k) => Err(k),
        }
    } else if p.name == seq!['U', 'I', 'D'] {
        Ok(EventView { uid: p.value, ..acc })
    } else if p.name == seq!['D', 'T', 'S', 'T', 'A', 'M', 'P'] {
        match date_or_problem(p) {
            Ok(d) => Ok(EventView { stamp: Some(d), ..acc }),
            Err(k) => Err(k),
        }
    } else if p.name == seq!['D', 'T', 'S', 'T', 'A', 'R', 'T'] {
        match date_or_problem(p) {
            Ok(d) => Ok(EventView { start: Some(d), ..acc }),
            Err(k) => Err(k),
        }
    } else if p.name == seq!['S', 'U', 'M', 'M', 'A', 'R', 'Y'] {
        Ok(EventView { summary: Some(p.value), ..acc })
    } else {
        Ok(EventView { props: acc.props.push(p), ..acc })
    }
}

/// Reads the rest of an event from the pending physical lines of a reader that has read `read`
/// logical lines: each logical line is a property, until `END:VEVENT`. The result is the event,
/// the lines left after it and the number of lines read; or the line number and the problem.
pub open spec fn parse_event(pending: Seq<Seq<u8>>, read: nat, acc: EventView) -> Result<
    (EventView, Seq<Seq<u8>>, nat),
    (nat, EventProblem),
>
    decreases pending.len(),
{
    if pending.len() == 0 {
        Err((read, EventProblem::Eof))
    } else {
        proof {
            lemma_continuation_count_bound(pending.drop_first());
        }
        let rest = after_first_logical(pending);
        match decoded(first_logical(pending)) {
            None => Err((read + 1, EventProblem::Eof)),
            Some(text) => match parse_property(text) {
                Err(t) => Err((read + 1, EventProblem::Parse(t))),
                Ok(p) => if p.name == seq!['E', 'N', 'D'] && p.value == vevent() {
                    Ok((acc, rest, read + 1))
                } else {
                    match apply_prop(acc, p) {
                        Ok(a) => parse_event(rest, read + 1, a),
                        Err(k) => Err((read + 1, k)),
                    }
                },
            },
        }
    }
}

/// What is left of the pending lines where reading an event stops: after the line that ends it,
/// or after the line that fails; nothing where the lines run out.
pub open spec fn parse_event_rest(pending: Seq<Seq<u8>>, acc: EventView) -> Seq<Seq<u8>>
    decreases pending.len(),
{
    if pending.len() == 0 {
        pending
    } else {
        proof {
            lemma_continuation_count_bound(pending.drop_first());
        }
        let rest = after_first_logical(pending);
        match decoded(first_logical(pending)) {
            None => rest,
            Some(text) => match parse_property(text) {
                Err(_) => rest,
                Ok(p) => if p.name == seq!['E', 'N', 'D'] && p.value == vevent() {
                    rest
                } else {
                    match apply_prop(acc, p) {
                        Ok(a) => parse_event_rest(rest, a),
                        Err(_) => rest,
                    }
                },
            },
        }
    }
}

/// A date read from a property, with the line number attached to its error.
fn date_at(prop: &Property, line: usize) -> (r: Result<CalDate, ParseError>)
    ensures
        match (r, date_or_problem(prop@)) {
            (Ok(d), Ok(v)) => d.view() == v && d.wf(),
            (Err(e), Err(k)) => error_for(e, line as nat, k),
            _ => false,
        },
{
    match CalDate::from_prop(prop) {
        Ok(d) => Ok(d),
        Err(ty) => Err(ParseError::new(line, ty)),
    }
}

impl CalEvent {
    /// Takes a property read inside the event.
    fn apply_prop(&mut self, prop: Property, line: usize) -> (r: Result<(), ParseError>)
        requires
            old(self).wf(),
        ensures
            match apply_prop(old(self)@, prop@) {
                Ok(a) => r is Ok && final(self)@ == a && final(self).wf(),
                Err(k) => r matches Err(e) && error_for(e, line as nat, k),
            },
    {
        proof {
            reveal_strlit("STATUS");
            reveal_strlit("DTEND");
            reveal_strlit("UID");
            reveal_strlit("DTSTAMP");
            reveal_strlit("DTSTART");
            reveal_strlit("SUMMARY");
            assert("STATUS"@ =~= seq!['S', 'T', 'A', 'T', 'U', 'S']);
            assert("DTEND"@ =~= seq!['D', 'T', 'E', 'N', 'D']);
            assert("UID"@ =~= seq!['U', 'I', 'D']);
            assert("DTSTAMP"@ =~= seq!['D', 'T', 'S', 'T', 'A', 'M', 'P']);
            assert("DTSTART"@ =~= seq!['D', 'T', 'S', 'T', 'A', 'R', 'T']);
            assert("SUMMARY"@ =~= seq!['S', 'U', 'M', 'M', 'A', 'R', 'Y']);
        }
        let name = prop.name().as_str();
        if str_eq(name, "STATUS") {
            match CalEventStatus::parse(prop.value().as_str()) {
                Ok(s) => {
                    self.status = Some(s);
                    Ok(())
                },
                Err(ty) => Err(ParseError::new(line, ty)),
            }
        } else if str_eq(name, "DTEND") {
            let d = date_at(&prop, line)?;
            self.end = Some(d);
            Ok(())
        } else if str_eq(name, "UID") {
            self.inner.uid = to_string(prop.value().as_str());
            Ok(())
        } else if str_eq(name, "DTSTAMP") {
            let d = date_at(&prop, line)?;
            self.inner.stamp = Some(d);
            Ok(())
        } else if str_eq(name, "DTSTART") {
            let d = date_at(&prop, line)?;
            self.inner.start = Some(d);
            Ok(())
        } else if str_eq(name, "SUMMARY") {
            self.inner.summary = Some(to_string(prop.value().as_str()));
            Ok(())
        } else {
            let ghost before = self.inner.props@;
            self.inner.props.push(prop);
            proof {
                assert(self.inner.props@.map_values(|q: Property| q@) =~= before.map_values(
                    |q: Property| q@,
                ).push(prop@));
            }
            Ok(())
        }
    }

    /// Reads an event whose `BEGIN:VEVENT` line has been read, up to and including its
    /// `END:VEVENT` line.
    pub fn from_lines(lines: &mut LineReader, _prop: Property) -> (r: Result<CalEvent, ParseError>)
        requires
            old(lines).wf(),
        ensures
            final(lines).wf(),
            match (r, parse_event(old(lines).pending(), old(lines).lines_read(), empty_event())) {
                (Ok(ev), Ok((v, rest, n))) => ev@ == v && ev.wf() && final(lines).pending() == rest
                    && final(lines).lines_read() == n,
                (Err(e), Err((l, k))) => error_for(e, l, k) && final(lines).lines_read() == l,
                _ => false,
            },
            final(lines).pending() == parse_event_rest(old(lines).pending(), empty_event()),
    {
        proof {
            reveal_strlit("END");
            reveal_strlit("VEVENT");
            assert("END"@ =~= seq!['E', 'N', 'D']);
            assert("VEVENT"@ =~= vevent());
        }
        let mut comp = Self::new_empty();
        loop
            invariant
                lines.wf(),
                comp.wf(),
                parse_event(lines.pending(), lines.lines_read(), comp@) == parse_event(
                    old(lines).pending(),
                    old(lines).lines_read(),
                    empty_event(),
                ),
                parse_event_rest(lines.pending(), comp@) == parse_event_rest(old(lines).pending(), empty_event()),
            decreases lines.pending().len(),
        {
            let ghost pending = lines.pending();
            let ghost read0 = lines.lines_read();
            let ghost acc = comp@;
            proof {
                if pending.len() > 0 {
                    lemma_continuation_count_bound(pending.drop_first());
                }
            }
            let line = match lines.next() {
                Some(l) => l,
                None => {
                    proof {
                        if pending.len() > 0 {
                            lemma_parse_event_unfold(pending, read0, acc);
                        }
                    }
                    return Err(ParseError::new(lines.line_num(), ParseErrorType::UnexpectedEOF));
                },
            };
            proof {
                lemma_parse_event_unfold(pending, read0, acc);
            }
            let prop = match Property::from_str_at(line.as_str(), lines.line_num()) {
                Ok(p) => p,
                Err(e) => {
                    return Err(e);
                },
            };
            proof {
                reveal_strlit("END");
                reveal_strlit("VEVENT");
                assert("END"@ =~= seq!['E', 'N', 'D']);
                assert("VEVENT"@ =~= vevent());
            }
            assert(decoded(first_logical(pending)) == Some(line@));
            assert(parse_property(line@) == Ok::<PropertyView, ParseErrorType>(prop@));
            assert(lines.pending() == after_first_logical(pending));
            if str_eq(prop.name().as_str(), "END") && str_eq(prop.value().as_str(), "VEVENT") {
                assert(prop@.name == seq!['E', 'N', 'D'] && prop@.value == vevent());
                return Ok(comp);
            }
            assert(!(prop@.name == seq!['E', 'N', 'D'] && prop@.value == vevent()));
            let n = lines.line_num();
            let ghost pv = prop@;
            match comp.apply_prop(prop, n) {
                Ok(()) => {
                    assert(apply_prop(acc, pv) == Ok::<EventView, EventProblem>(comp@));
                },
                Err(e) => {
                    return Err(e);
                },
            }
        }
    }
}

/// One step of reading an event.
proof fn lemma_parse_event_unfold(pending: Seq<Seq<u8>>, read: nat, acc: EventView)
    requires
        pending.len() > 0,
    ensures
        parse_event(pending, read, acc) == match decoded(first_logical(pending)) {
            None => Err((read + 1, EventProblem::Eof)),
            Some(text) => match parse_property(text) {
                Err(t) => Err((read + 1, EventProblem::Parse(t))),
                Ok(p) => if p.name == seq!['E', 'N', 'D'] && p.value == vevent() {
                    Ok((acc, after_first_logical(pending), read + 1))
                } else {
                    match apply_prop(acc, p) {
                        Ok(a) => parse_event(after_first_logical(pending), read + 1, a),
                        Err(k) => Err((read + 1, k)),
                    }
                },
            },
        },
        parse_event_rest(pending, acc) == match decoded(first_logical(pending)) {
            None => after_first_logical(pending),
            Some(text) => match parse_property(text) {
                Err(_) => after_first_logical(pending),
                Ok(p) => if p.name == seq!['E', 'N', 'D'] && p.value == vevent() {
                    after_first_logical(pending)
                } else {
                    match apply_prop(acc, p) {
                        Ok(a) => parse_event_rest(after_first_logical(pending), a),
                        Err(_) => after_first_logical(pending),
                    }
                },
            },
        },
{
}

// ---------------------------------------------------------------------------------------------
// Moving and resizing events
// ---------------------------------------------------------------------------------------------

/// Errors of operations on calendar objects.
#[derive(Copy, Clone, Debug, PartialEq, Eq)]
pub enum ObjectsError {
    /// The event has no start or no end, so it has no duration.
    MissingDuration,
    /// All-day events cannot be resized.
    ResizeAllDay,
}

/// The context in which the dates of a calendar are resolved: its embedded time zones.
#[derive(Debug)]
pub struct DateContext {
    resolver: CalendarTimeZoneResolver,
}

impl DateContext {
    /// The compiled embedded zones by id.
    pub closed spec fn view(&self) -> Seq<(Seq<char>, Seq<Transition>)> {
        self.resolver.view()
    }

    /// The context of the given calendar.
    pub fn new(calendar: &Calendar) -> (r: Self)
        requires
            calendar.wf(),
        ensures
            r@ == compiled_zones(calendar.timezones@),
    {
        DateContext { resolver: CalendarTimeZoneResolver::new(calendar) }
    }

    /// The resolver of this context.
    pub fn resolver(&self) -> (r: &CalendarTimeZoneResolver)
        ensures
            r.view() == self@,
    {
        &self.resolver
    }
}

/// A datetime in UTC as one instant: UTC and floating times at offset zero, times with a time
/// zone id in that zone.
pub open spec fn utc_datetime(v: Seq<(Seq<char>, Seq<Transition>)>, dt: DateTimeView) -> Option<ResolvedDateTime> {
    match dt {
        DateTimeView::Utc(t) => Some(ResolvedDateTime::at(t, 0)),
        DateTimeView::Floating(l) => Some(ResolvedDateTime::at(l, 0)),
        DateTimeView::Timezone(l, n) => res_pre_gap(v, n, l),
    }
}

/// Where a date starts with UTC as the fallback zone.
pub open spec fn utc_start(v: Seq<(Seq<char>, Seq<Transition>)>, d: DateView) -> Option<ResolvedDateTime> {
    match d {
        DateView::Date(day, _) => Some(ResolvedDateTime::at(day * 86400, 0)),
        DateView::DateTime(dt) => utc_datetime(v, dt),
    }
}

/// Where a date ends with UTC as the fallback zone.
pub open spec fn utc_end(v: Seq<(Seq<char>, Seq<Transition>)>, d: DateView) -> Option<ResolvedDateTime> {
    match d {
        DateView::Date(day, CalDateType::Exclusive) => Some(ResolvedDateTime::at(day * 86400 - 1, 0)),
        DateView::Date(day, CalDateType::Inclusive) => Some(ResolvedDateTime::at(day * 86400 + 86399, 0)),
        DateView::DateTime(dt) => utc_datetime(v, dt),
    }
}

/// Resolution with a fallback zone whose offset is zero everywhere is resolution in UTC.
proof fn lemma_utc_fallback(v: Seq<(Seq<char>, Seq<Transition>)>, d: DateView, fb: Seq<char>)
    requires
        forall|t: int| #[trigger] tz_local_offsets(fb, t) == OffsetMapping::Single(0),
        date_near_range(d),
    ensures
        res_date_start(v, d, fb) == utc_start(v, d),
        res_date_end(v, d, fb) == utc_end(v, d),
{
    match d {
        DateView::Date(day, _) => {
            assert(tz_local_offsets(fb, day * 86400) == OffsetMapping::Single(0));
            assert(tz_local_offsets(fb, day * 86400 + 86399) == OffsetMapping::Single(0));
        },
        DateView::DateTime(DateTimeView::Floating(l)) => {
            assert(tz_local_offsets(fb, l) == OffsetMapping::Single(0));
        },
        _ => {},
    }
}

/// The resolved duration of an event from its start to its end, in seconds; none without a
/// start or an end.
pub open spec fn ev_duration(v: Seq<(Seq<char>, Seq<Transition>)>, ev: EventView) -> Option<int> {
    match (ev.end, ev.start) {
        (Some(e), Some(s)) => match (utc_end(v, e), utc_start(v, s)) {
            (Some(a), Some(b)) => Some(a.utc - b.utc),
            _ => None,
        },
        _ => None,
    }
}

/// The start and end of the event resolve.
pub open spec fn duration_ok(v: Seq<(Seq<char>, Seq<Transition>)>, ev: EventView) -> bool {
    match (ev.end, ev.start) {
        (Some(e), Some(s)) => date_near_range(e) && date_near_range(s) && utc_end(v, e) is Some
            && utc_start(v, s) is Some,
        _ => true,
    }
}

/// The first of two optional dates that is there.
pub open spec fn or_date(a: Option<DateView>, b: Option<DateView>) -> Option<DateView> {
    match a {
        Some(x) => Some(x),
        None => b,
    }
}

/// The time zone id of a datetime with one.
pub open spec fn timed_tzid(d: Option<DateView>) -> Option<Seq<char>> {
    match d {
        Some(DateView::DateTime(DateTimeView::Timezone(_, t))) => Some(t),
        _ => None,
    }
}

/// The time zone of an event: that of its start, else that of its end.
pub open spec fn event_tzid(ev: EventView) -> Option<Seq<char>> {
    match timed_tzid(ev.start) {
        Some(t) => Some(t),
        None => timed_tzid(ev.end),
    }
}

/// Where a date starts, if there is a date.
pub open spec fn start_instant(v: Seq<(Seq<char>, Seq<Transition>)>, d: Option<DateView>, fb: Seq<char>) -> Option<ResolvedDateTime> {
    match d {
        Some(d) => res_date_start(v, d, fb),
        None => None,
    }
}

/// Where a range ends: at the given instant, else where the date ends, if there is a date.
pub open spec fn end_instant(v: Seq<(Seq<char>, Seq<Transition>)>, derived: Option<ResolvedDateTime>, d: Option<DateView>, fb: Seq<char>) -> Option<ResolvedDateTime> {
    match derived {
        Some(i) => Some(i),
        None => match d {
            Some(d) => res_date_end(v, d, fb),
            None => None,
        },
    }
}

/// Whether a date or its instant falls into a fold of the event's time zone: the date itself is
/// a folded wall-clock time there, or the instant's wall-clock time there is.
pub open spec fn in_fold(v: Seq<(Seq<char>, Seq<Transition>)>, d: Option<DateView>, i: Option<ResolvedDateTime>, tzid: Seq<char>) -> bool {
    match (d, i) {
        (Some(d), Some(i)) => (d matches DateView::DateTime(DateTimeView::Timezone(l, t)) && t == tzid
            && res_local(v, tzid, l) is Ambiguous) || (res_local(v, tzid, res_localize(v, i.utc as int, tzid))
            matches LocalMapping::Ambiguous(e, l) && (e.utc == i.utc || l.utc == i.utc)),
        _ => false,
    }
}

/// A date of the given shape at an instant: in the same time zone, floating in the fallback
/// zone, or in UTC.
pub open spec fn rebuild(v: Seq<(Seq<char>, Seq<Transition>)>, shape: DateView, i: ResolvedDateTime, fb: Seq<char>) -> DateView {
    match shape {
        DateView::DateTime(DateTimeView::Timezone(_, t)) => DateView::DateTime(
            DateTimeView::Timezone(res_localize(v, i.utc as int, t), t),
        ),
        DateView::DateTime(DateTimeView::Floating(_)) => DateView::DateTime(
            DateTimeView::Floating(i.utc + tz_offset_at(fb, i.utc as int)),
        ),
        _ => DateView::DateTime(DateTimeView::Utc(i.utc as int)),
    }
}

/// A new edge of a range: a day stays as it is, a datetime is rebuilt in the shape of the
/// event's date at its instant.
pub open spec fn placed(v: Seq<(Seq<char>, Seq<Transition>)>, d: DateView, shape: Option<DateView>, i: Option<ResolvedDateTime>, fb: Seq<char>) -> DateView {
    match (d, i) {
        (DateView::DateTime(_), Some(i)) => rebuild(
            v,
            match shape {
                Some(s) => s,
                None => d,
            },
            i,
            fb,
        ),
        _ => d,
    }
}

/// Whether the new range has to be written in UTC: the event has a time zone and one of the
/// new edges falls into one of its folds.
pub open spec fn force_utc(v: Seq<(Seq<char>, Seq<Transition>)>, ev: EventView, fs: Option<DateView>, si: Option<ResolvedDateTime>, fe: Option<DateView>, ei: Option<ResolvedDateTime>) -> bool {
    match event_tzid(ev) {
        Some(t) => in_fold(v, fs, si, t) || in_fold(v, fe, ei, t),
        None => false,
    }
}

/// The start and end of an event after setting a new start, a new end or an end instant: in
/// UTC where `force_utc` says so, else in the shapes of the event's dates.
pub open spec fn timed_range(v: Seq<(Seq<char>, Seq<Transition>)>, ev: EventView, ns: Option<DateView>, ne: Option<DateView>, de: Option<ResolvedDateTime>, fb: Seq<char>) -> (Option<DateView>, Option<DateView>) {
    let fs = or_date(ns, ev.start);
    let fe = or_date(ne, ev.end);
    let si = start_instant(v, fs, fb);
    let ei = end_instant(v, de, fe, fb);
    if force_utc(v, ev, fs, si, fe, ei) {
        (
            match si {
                Some(s) => Some(DateView::DateTime(DateTimeView::Utc(s.utc as int))),
                None => ev.start,
            },
            match ei {
                Some(e) => Some(DateView::DateTime(DateTimeView::Utc(e.utc as int))),
                None => ev.end,
            },
        )
    } else {
        (
            match (ns, fs) {
                (Some(_), Some(d)) => Some(placed(v, d, or_date(ev.start, ev.end), si, fb)),
                _ => ev.start,
            },
            match fe {
                Some(d) => if ne is Some || de is Some {
                    Some(placed(v, d, or_date(ev.end, ev.start), ei, fb))
                } else {
                    ev.end
                },
                None => ev.end,
            },
        )
    }
}

/// A date that is rebuilt in the given shape needs a timed shape.
pub open spec fn shape_ok(d: DateView, shape: Option<DateView>) -> bool {
    d is DateTime ==> !(shape matches Some(DateView::Date(..)))
}

/// Setting the new range resolves every date it needs, keeps every instant in range and
/// rebuilds datetimes only in timed shapes.
pub open spec fn timed_ok(v: Seq<(Seq<char>, Seq<Transition>)>, ev: EventView, ns: Option<DateView>, ne: Option<DateView>, de: Option<ResolvedDateTime>, fb: Seq<char>) -> bool {
    let fs = or_date(ns, ev.start);
    let fe = or_date(ne, ev.end);
    let si = start_instant(v, fs, fb);
    let ei = end_instant(v, de, fe, fb);
    &&& fs matches Some(d) ==> date_near_range(d) && res_date_start(v, d, fb) is Some
    &&& fe matches Some(d) ==> date_near_range(d)
    &&& (de is None && fe is Some) ==> res_date_end(v, fe->0, fb) is Some
    &&& si matches Some(i) ==> instant_range(i.utc as int)
    &&& ei matches Some(i) ==> instant_range(i.utc as int)
    &&& (ns is Some && fs is Some) ==> shape_ok(fs->0, or_date(ev.start, ev.end))
    &&& ((ne is Some || de is Some) && fe is Some) ==> shape_ok(fe->0, or_date(ev.end, ev.start))
}

/// Integer division rounding towards zero, as `chrono` counts whole days.
pub open spec fn trunc_div(a: int, b: int) -> int {
    if a >= 0 {
        a / b
    } else {
        -((-a) / b)
    }
}

/// The day of a date, or the day that a datetime's wall-clock time falls on.
pub open spec fn view_day(d: DateView) -> int {
    match d {
        DateView::Date(day, _) => day,
        DateView::DateTime(DateTimeView::Utc(t)) => floor_div(t, 86400),
        DateView::DateTime(DateTimeView::Floating(t)) => floor_div(t, 86400),
        DateView::DateTime(DateTimeView::Timezone(t, _)) => floor_div(t, 86400),
    }
}

/// Whether shifting takes whole days: the new start is a day or the event is all-day.
pub open spec fn shifts_days(ev: EventView, ns: DateView) -> bool {
    ns is Date || ev.start matches Some(DateView::Date(..))
}

/// The start and end of an event shifted to a new start, keeping its duration: whole days for a
/// day or an all-day event, else the range from the new start to the new start plus the
/// duration.
pub open spec fn shift_result(v: Seq<(Seq<char>, Seq<Transition>)>, ev: EventView, ns: DateView, fb: Seq<char>) -> Result<(Option<DateView>, Option<DateView>), ObjectsError> {
    match ev_duration(v, ev) {
        None => Err(ObjectsError::MissingDuration),
        Some(dur) => if shifts_days(ev, ns) {
            let sd = view_day(ns);
            Ok(
                (
                    Some(DateView::Date(sd, CalDateType::Exclusive)),
                    Some(DateView::Date(sd + trunc_div(dur + 1, 86400), CalDateType::Exclusive)),
                ),
            )
        } else {
            match res_date_start(v, ns, fb) {
                Some(si) => Ok(
                    timed_range(
                        v,
                        ev,
                        Some(ns),
                        None,
                        Some(ResolvedDateTime { utc: (si.utc + dur) as i64, offset: si.offset }),
                        fb,
                    ),
                ),
                None => Ok((ev.start, ev.end)),
            }
        },
    }
}

/// Shifting resolves what it needs and stays in range.
pub open spec fn shift_ok(v: Seq<(Seq<char>, Seq<Transition>)>, ev: EventView, ns: DateView, fb: Seq<char>) -> bool {
    &&& duration_ok(v, ev)
    &&& ev_duration(v, ev) matches Some(dur) ==> if shifts_days(ev, ns) {
        valid_day(view_day(ns) + trunc_div(dur + 1, 86400))
    } else {
        &&& date_near_range(ns)
        &&& res_date_start(v, ns, fb) matches Some(si) && instant_range(si.utc + dur)
            && timed_ok(
            v,
            ev,
            Some(ns),
            None,
            Some(ResolvedDateTime { utc: (si.utc + dur) as i64, offset: si.offset }),
            fb,
        )
    }
}

/// The start and end of an event after moving one edge; all-day events and days are refused.
pub open spec fn resize_result(v: Seq<(Seq<char>, Seq<Transition>)>, ev: EventView, edge: RangeEdge, nv: DateView, fb: Seq<char>) -> Result<(Option<DateView>, Option<DateView>), ObjectsError> {
    if ev.start matches Some(DateView::Date(..)) || nv is Date {
        Err(ObjectsError::ResizeAllDay)
    } else {
        match edge {
            RangeEdge::Start => Ok(timed_range(v, ev, Some(nv), None, None, fb)),
            RangeEdge::End => Ok(timed_range(v, ev, None, Some(nv), None, fb)),
        }
    }
}

/// Resizing resolves what it needs and stays in range.
pub open spec fn resize_ok(v: Seq<(Seq<char>, Seq<Transition>)>, ev: EventView, edge: RangeEdge, nv: DateView, fb: Seq<char>) -> bool {
    !(ev.start matches Some(DateView::Date(..)) || nv is Date) ==> match edge {
        RangeEdge::Start => timed_ok(v, ev, Some(nv), None, None, fb),
        RangeEdge::End => timed_ok(v, ev, None, Some(nv), None, fb),
    }
}

/// Whether a date lies where resolution can probe around it.
fn near(d: &CalDate) -> (r: bool)
    ensures
        r == date_near_range(d.view()),
{
    let lo: i64 = MIN_SECS + 5 * 86400;
    let hi: i64 = MAX_SECS - 5 * 86400;
    match d {
        CalDate::Date(day, _) => -100_000_000_000 <= *day && *day <= 100_000_000_000 && lo <= *day
            * 86400 && *day * 86400 + 86399 <= hi,
        CalDate::DateTime(CalDateTime::Utc(t)) => lo <= *t && *t <= hi,
        CalDate::DateTime(CalDateTime::Floating(t)) => lo <= *t && *t <= hi,
        CalDate::DateTime(CalDateTime::Timezone(t, _)) => lo <= *t && *t <= hi,
    }
}

/// Whether an instant can be turned back into a wall-clock time.
fn instant_ok(utc: i64) -> (r: bool)
    ensures
        r == instant_range(utc as int),
{
    MIN_SECS + 4 * 86400 <= utc && utc <= MAX_SECS - 4 * 86400
}

impl CalEvent {
    /// Returns the resolved elapsed duration between start and end in seconds, if both are
    /// present.
    pub fn actual_duration(&self, ctx: &DateContext) -> (r: Option<i64>)
        requires
            self.wf(),
            duration_ok(ctx@, self@),
        ensures
            match (r, ev_duration(ctx@, self@)) {
                (Some(a), Some(b)) => a == b,
                (None, None) => true,
                _ => false,
            },
            r matches Some(d) ==> MIN_SECS - MAX_SECS <= d <= MAX_SECS - MIN_SECS,
    {
        let end = match &self.end {
            Some(e) => e,
            None => {
                return None;
            },
        };
        let start = match &self.inner.start {
            Some(s) => s,
            None => {
                return None;
            },
        };
        let utc = Zone::utc();
        proof {
            lemma_utc_fallback(ctx@, end.view(), utc.name_view());
            lemma_utc_fallback(ctx@, start.view(), utc.name_view());
        }
        let a = ctx.resolver().resolve_date_end(end, &utc);
        let b = ctx.resolver().resolve_date_start(start, &utc);
        Some(a.utc - b.utc)
    }

    /// The resolved duration as `actual_duration` gives it, or none where the start or the end
    /// does not resolve.
    pub fn try_actual_duration(&self, ctx: &DateContext) -> (r: Option<Option<i64>>)
        requires
            self.wf(),
        ensures
            r is Some <==> duration_ok(ctx@, self@),
            r matches Some(x) ==> match (x, ev_duration(ctx@, self@)) {
                (Some(a), Some(b)) => a == b,
                (None, None) => true,
                _ => false,
            },
    {
        if self.duration_possible(ctx) {
            Some(self.actual_duration(ctx))
        } else {
            None
        }
    }

    /// Whether the start and end of the event resolve.
    fn duration_possible(&self, ctx: &DateContext) -> (r: bool)
        requires
            self.wf(),
        ensures
            r == duration_ok(ctx@, self@),
    {
        match (&self.end, &self.inner.start) {
            (Some(e), Some(s)) => {
                if !near(e) || !near(s) {
                    return false;
                }
                let utc = Zone::utc();
                proof {
                    lemma_utc_fallback(ctx@, e.view(), utc.name_view());
                    lemma_utc_fallback(ctx@, s.view(), utc.name_view());
                }
                ctx.resolver().try_resolve_date_end(e, &utc).is_some()
                    && ctx.resolver().try_resolve_date_start(s, &utc).is_some()
            },
            _ => true,
        }
    }

    /// The time zone id of a datetime with one.
    pub fn timed_tzid(date: &CalDate) -> (r: Option<&str>)
        ensures
            match r {
                Some(t) => timed_tzid(Some(date.view())) == Some(t@),
                None => timed_tzid(Some(date.view())) is None,
            },
    {
        match date {
            CalDate::DateTime(CalDateTime::Timezone(_, tzid)) => Some(tzid.as_str()),
            _ => None,
        }
    }

    /// The time zone id of the event: that of its start, else that of its end.
    fn event_tzid(&self) -> (r: Option<String>)
        ensures
            match r {
                Some(t) => event_tzid(self@) == Some(t@),
                None => event_tzid(self@) is None,
            },
    {
        let from_start = match &self.inner.start {
            Some(d) => match Self::timed_tzid(d) {
                Some(t) => Some(to_string(t)),
                None => None,
            },
            None => None,
        };
        match from_start {
            Some(t) => Some(t),
            None => match &self.end {
                Some(d) => match Self::timed_tzid(d) {
                    Some(t) => Some(to_string(t)),
                    None => None,
                },
                None => None,
            },
        }
    }

    /// Whether a date or its instant falls into a fold of the event's time zone.
    fn timed_date_requires_utc(
        date: Option<&CalDate>,
        instant: Option<ResolvedDateTime>,
        event_tzid: &str,
        resolver: &CalendarTimeZoneResolver,
    ) -> (r: bool)
        requires
            date matches Some(d) ==> date_near_range(d.view()),
            instant matches Some(i) ==> instant_range(i.utc as int),
        ensures
            r == in_fold(resolver.view(), opt_ref_date(date), instant, event_tzid@),
    {
        let date = match date {
            Some(d) => d,
            None => {
                return false;
            },
        };
        let instant = match instant {
            Some(i) => i,
            None => {
                return false;
            },
        };
        if let CalDate::DateTime(CalDateTime::Timezone(local, tzid)) = date {
            if str_eq(tzid.as_str(), event_tzid) && resolver.is_fold_local_time(event_tzid, *local) {
                return true;
            }
        }
        resolver.instant_is_fold_local_time(instant, event_tzid)
    }

    /// A datetime of the given shape at an instant.
    fn rebuild_timed_date(
        source_shape: &CalDate,
        instant: ResolvedDateTime,
        fallback: &Zone,
        resolver: &CalendarTimeZoneResolver,
    ) -> (r: CalDate)
        requires
            source_shape is DateTime,
            instant_range(instant.utc as int),
        ensures
            r.view() == rebuild(resolver.view(), source_shape.view(), instant, fallback.name_view()),
            r.wf(),
    {
        match source_shape {
            CalDate::DateTime(CalDateTime::Timezone(_, tzid)) => {
                let local = resolver.instant_to_local(instant, Some(tzid.as_str()), fallback);
                CalDate::DateTime(CalDateTime::Timezone(local, to_string(tzid.as_str())))
            },
            CalDate::DateTime(CalDateTime::Floating(_)) => {
                let o = fallback.offset_at(instant.utc);
                CalDate::DateTime(CalDateTime::Floating(instant.utc + o as i64))
            },
            _ => CalDate::DateTime(CalDateTime::Utc(instant.utc)),
        }
    }
}

/// A copy of an optional date.
fn copy_opt(d: &Option<CalDate>) -> (r: Option<CalDate>)
    ensures
        opt_date(r) == opt_date(*d),
        opt_date_wf(r) == opt_date_wf(*d),
{
    match d {
        Some(x) => Some(x.copy()),
        None => None,
    }
}

/// The first of two optional dates that is there, copied.
fn or_copy(a: &Option<CalDate>, b: &Option<CalDate>) -> (r: Option<CalDate>)
    ensures
        opt_date(r) == or_date(opt_date(*a), opt_date(*b)),
        opt_date_wf(*a) && opt_date_wf(*b) ==> opt_date_wf(r),
{
    match a {
        Some(x) => Some(x.copy()),
        None => copy_opt(b),
    }
}

/// A borrowed view of an optional date.
fn as_ref_date(d: &Option<CalDate>) -> (r: Option<&CalDate>)
    ensures
        opt_ref_date(r) == opt_date(*d),
        opt_ref_wf(r) == opt_date_wf(*d),
{
    match d {
        Some(x) => Some(x),
        None => None,
    }
}

impl CalEvent {
    /// Sets a new start, a new end or an end instant, keeping the shapes of the event's dates,
    /// or writing both in UTC where a fold of the event's time zone would make them ambiguous.
    fn apply_timed_range(
        &mut self,
        ctx: &DateContext,
        new_start: Option<CalDate>,
        new_end: Option<CalDate>,
        derived_end_instant: Option<ResolvedDateTime>,
        fallback: &Zone,
    )
        requires
            old(self).wf(),
            opt_date_wf(new_start),
            opt_date_wf(new_end),
            timed_ok(
                ctx@,
                old(self)@,
                opt_date(new_start),
                opt_date(new_end),
                derived_end_instant,
                fallback.name_view(),
            ),
        ensures
            final(self).wf(),
            ({
                let tr = timed_range(
                    ctx@,
                    old(self)@,
                    opt_date(new_start),
                    opt_date(new_end),
                    derived_end_instant,
                    fallback.name_view(),
                );
                final(self)@ == (EventView { start: tr.0, end: tr.1, ..old(self)@ })
            }),
    {
        let ghost ev = self@;
        let resolver = ctx.resolver();
        let final_start = or_copy(&new_start, &self.inner.start);
        let final_end = or_copy(&new_end, &self.end);
        let final_start_instant: Option<ResolvedDateTime> = match &final_start {
            Some(d) => Some(resolver.resolve_date_start(d, fallback)),
            None => None,
        };
        let final_end_instant: Option<ResolvedDateTime> = match derived_end_instant {
            Some(i) => Some(i),
            None => match &final_end {
                Some(d) => Some(resolver.resolve_date_end(d, fallback)),
                None => None,
            },
        };
        let tzid = self.event_tzid();
        let force_utc = match &tzid {
            Some(t) => Self::timed_date_requires_utc(
                as_ref_date(&final_start),
                final_start_instant,
                t.as_str(),
                resolver,
            ) || Self::timed_date_requires_utc(
                as_ref_date(&final_end),
                final_end_instant,
                t.as_str(),
                resolver,
            ),
            None => false,
        };
        if force_utc {
            if let Some(s) = final_start_instant {
                self.inner.start = Some(CalDate::DateTime(CalDateTime::Utc(s.utc)));
            }
            if let Some(e) = final_end_instant {
                self.end = Some(CalDate::DateTime(CalDateTime::Utc(e.utc)));
            }
            return;
        }
        let start_shape = or_copy(&self.inner.start, &self.end);
        let end_shape = or_copy(&self.end, &self.inner.start);
        let update_start = new_start.is_some();
        let update_end = new_end.is_some() || derived_end_instant.is_some();
        if update_start {
            if let Some(d) = final_start {
                let nd = if d.is_date() {
                    d
                } else {
                    let i = final_start_instant.unwrap();
                    match &start_shape {
                        Some(sh) => Self::rebuild_timed_date(sh, i, fallback, resolver),
                        None => Self::rebuild_timed_date(&d, i, fallback, resolver),
                    }
                };
                self.inner.start = Some(nd);
            }
        }
        if update_end {
            if let Some(d) = final_end {
                let nd = if d.is_date() {
                    d
                } else {
                    let i = final_end_instant.unwrap();
                    match &end_shape {
                        Some(sh) => Self::rebuild_timed_date(sh, i, fallback, resolver),
                        None => Self::rebuild_timed_date(&d, i, fallback, resolver),
                    }
                };
                self.end = Some(nd);
            }
        }
    }
}

/// Whole days in a number of seconds, rounded towards zero.
fn whole_days(x: i64) -> (r: i64)
    requires
        -100_000_000_000_000 <= x <= 100_000_000_000_000,
    ensures
        r == trunc_div(x as int, 86400),
        -2_000_000_000 <= r <= 2_000_000_000,
{
    if x >= 0 {
        (x as u64 / 86400) as i64
    } else {
        -(((-x) as u64 / 86400) as i64)
    }
}

impl CalEvent {
    /// Whether setting the new range resolves every date it needs and stays in range.
    fn timed_possible(
        &self,
        ctx: &DateContext,
        new_start: Option<&CalDate>,
        new_end: Option<&CalDate>,
        derived_end_instant: Option<ResolvedDateTime>,
        fallback: &Zone,
    ) -> (r: bool)
        requires
            self.wf(),
        ensures
            r == timed_ok(
                ctx@,
                self@,
                opt_ref_date(new_start),
                opt_ref_date(new_end),
                derived_end_instant,
                fallback.name_view(),
            ),
    {
        let resolver = ctx.resolver();
        let fs = match new_start {
            Some(d) => Some(d),
            None => as_ref_date(&self.inner.start),
        };
        let fe = match new_end {
            Some(d) => Some(d),
            None => as_ref_date(&self.end),
        };
        let si = match fs {
            Some(d) => {
                if !near(d) {
                    return false;
                }
                match resolver.try_resolve_date_start(d, fallback) {
                    Some(i) => Some(i),
                    None => {
                        return false;
                    },
                }
            },
            None => None,
        };
        if let Some(d) = fe {
            if !near(d) {
                return false;
            }
        }
        let ei = match derived_end_instant {
            Some(i) => Some(i),
            None => match fe {
                Some(d) => match resolver.try_resolve_date_end(d, fallback) {
                    Some(i) => Some(i),
                    None => {
                        return false;
                    },
                },
                None => None,
            },
        };
        if let Some(i) = si {
            if !instant_ok(i.utc) {
                return false;
            }
        }
        if let Some(i) = ei {
            if !instant_ok(i.utc) {
                return false;
            }
        }
        if new_start.is_some() {
            if let Some(d) = fs {
                if !d.is_date() {
                    let shape_is_day = match (&self.inner.start, &self.end) {
                        (Some(x), _) => x.is_date(),
                        (None, Some(y)) => y.is_date(),
                        (None, None) => false,
                    };
                    if shape_is_day {
                        return false;
                    }
                }
            }
        }
        if new_end.is_some() || derived_end_instant.is_some() {
            if let Some(d) = fe {
                if !d.is_date() {
                    let shape_is_day = match (&self.end, &self.inner.start) {
                        (Some(x), _) => x.is_date(),
                        (None, Some(y)) => y.is_date(),
                        (None, None) => false,
                    };
                    if shape_is_day {
                        return false;
                    }
                }
            }
        }
        true
    }

    /// Shifts the event to `new_start` while preserving its current span.
    ///
    /// Timed inputs are interpreted in `fallback` unless they carry their own `TZID`. Gap times
    /// are snapped forward to the next representable instant. Fold times switch the whole range
    /// to UTC so the chosen instant stays exact.
    pub fn shift_to(&mut self, ctx: &DateContext, new_start: CalDate, fallback: &Zone) -> (r:
        Result<(), ObjectsError>)
        requires
            old(self).wf(),
            new_start.wf(),
            shift_ok(ctx@, old(self)@, new_start.view(), fallback.name_view()),
        ensures
            final(self).wf(),
            match shift_result(ctx@, old(self)@, new_start.view(), fallback.name_view()) {
                Ok((s, e)) => r is Ok && final(self)@ == (EventView { start: s, end: e, ..old(self)@ }),
                Err(k) => r == Err::<(), ObjectsError>(k) && final(self)@ == old(self)@,
            },
    {
        let duration = match self.actual_duration(ctx) {
            Some(d) => d,
            None => {
                return Err(ObjectsError::MissingDuration);
            },
        };
        if new_start.is_date() || self.is_all_day() {
            let start = new_start.day();
            let days = whole_days(duration + 1);
            let end = start + days;
            self.inner.start = Some(CalDate::Date(start, CalDateType::Exclusive));
            self.end = Some(CalDate::Date(end, CalDateType::Exclusive));
            return Ok(());
        }
        let si = ctx.resolver().resolve_date_start(&new_start, fallback);
        let end_instant = ResolvedDateTime { utc: si.utc + duration, offset: si.offset };
        self.apply_timed_range(ctx, Some(new_start), None, Some(end_instant), fallback);
        Ok(())
    }

    /// Whether shifting the event to `new_start` resolves what it needs and stays in range.
    fn shift_possible(&self, ctx: &DateContext, new_start: &CalDate, fallback: &Zone) -> (r: bool)
        requires
            self.wf(),
            new_start.wf(),
        ensures
            r == shift_ok(ctx@, self@, new_start.view(), fallback.name_view()),
    {
        if !self.duration_possible(ctx) {
            return false;
        }
        let duration = match self.actual_duration(ctx) {
            Some(d) => d,
            None => {
                return true;
            },
        };
        if new_start.is_date() || self.is_all_day() {
            let start = new_start.day();
            let end = start + whole_days(duration + 1);
            return MIN_SECS <= end * 86400 && end * 86400 <= MAX_SECS;
        }
        if !near(new_start) {
            return false;
        }
        let si = match ctx.resolver().try_resolve_date_start(new_start, fallback) {
            Some(i) => i,
            None => {
                return false;
            },
        };
        let e = si.utc + duration;
        if !instant_ok(e) {
            return false;
        }
        let de = ResolvedDateTime { utc: e, offset: si.offset };
        self.timed_possible(ctx, Some(new_start), None, Some(de), fallback)
    }

    /// Shifts the event as `shift_to` does, or leaves it unchanged and gives none where a date
    /// it needs does not resolve or a result would leave the representable range.
    pub fn try_shift_to(&mut self, ctx: &DateContext, new_start: CalDate, fallback: &Zone) -> (r:
        Option<Result<(), ObjectsError>>)
        requires
            old(self).wf(),
            new_start.wf(),
        ensures
            final(self).wf(),
            r is Some <==> shift_ok(ctx@, old(self)@, new_start.view(), fallback.name_view()),
            r is None ==> final(self)@ == old(self)@,
            r matches Some(x) ==> match shift_result(
                ctx@,
                old(self)@,
                new_start.view(),
                fallback.name_view(),
            ) {
                Ok((s, e)) => x is Ok && final(self)@ == (EventView { start: s, end: e, ..old(self)@ }),
                Err(k) => x == Err::<(), ObjectsError>(k) && final(self)@ == old(self)@,
            },
    {
        if self.shift_possible(ctx, &new_start, fallback) {
            Some(self.shift_to(ctx, new_start, fallback))
        } else {
            None
        }
    }

    /// Resizes one edge of the event while keeping the other edge unchanged.
    ///
    /// Timed inputs are interpreted in `fallback` unless they carry their own `TZID`. Gap times
    /// are snapped forward to the next representable instant. Fold times switch the whole range
    /// to UTC so the chosen instant stays exact.
    pub fn resize(&mut self, ctx: &DateContext, edge: RangeEdge, new_value: CalDate, fallback: &Zone) -> (r: Result<(), ObjectsError>)
        requires
            old(self).wf(),
            new_value.wf(),
            resize_ok(ctx@, old(self)@, edge, new_value.view(), fallback.name_view()),
        ensures
            final(self).wf(),
            match resize_result(ctx@, old(self)@, edge, new_value.view(), fallback.name_view()) {
                Ok((s, e)) => r is Ok && final(self)@ == (EventView { start: s, end: e, ..old(self)@ }),
                Err(k) => r == Err::<(), ObjectsError>(k) && final(self)@ == old(self)@,
            },
    {
        if self.is_all_day() || new_value.is_date() {
            return Err(ObjectsError::ResizeAllDay);
        }
        match edge {
            RangeEdge::Start => self.apply_timed_range(ctx, Some(new_value), None, None, fallback),
            RangeEdge::End => self.apply_timed_range(ctx, None, Some(new_value), None, fallback),
        }
        Ok(())
    }

    /// Resizes the event as `resize` does, or leaves it unchanged and gives none where a date it
    /// needs does not resolve or a result would leave the representable range.
    pub fn try_resize(&mut self, ctx: &DateContext, edge: RangeEdge, new_value: CalDate, fallback: &Zone) -> (r: Option<Result<(), ObjectsError>>)
        requires
            old(self).wf(),
            new_value.wf(),
        ensures
            final(self).wf(),
            r is Some <==> resize_ok(ctx@, old(self)@, edge, new_value.view(), fallback.name_view()),
            r is None ==> final(self)@ == old(self)@,
            r matches Some(x) ==> match resize_result(
                ctx@,
                old(self)@,
                edge,
                new_value.view(),
                fallback.name_view(),
            ) {
                Ok((s, e)) => x is Ok && final(self)@ == (EventView { start: s, end: e, ..old(self)@ }),
                Err(k) => x == Err::<(), ObjectsError>(k) && final(self)@ == old(self)@,
            },
    {
        let possible = if self.is_all_day() || new_value.is_date() {
            true
        } else {
            match edge {
                RangeEdge::Start => self.timed_possible(ctx, Some(&new_value), None, None, fallback),
                RangeEdge::End => self.timed_possible(ctx, None, Some(&new_value), None, fallback),
            }
        };
        if possible {
            Some(self.resize(ctx, edge, new_value, fallback))
        } else {
            None
        }
    }
}

// ---------------------------------------------------------------------------------------------
// Laws
// ---------------------------------------------------------------------------------------------

/// Every status reads back from its text.
pub proof fn lemma_status_text_roundtrip(s: CalEventStatus)
    ensures
        status_of(status_text(s)) == Some(s),
{
    assert(status_text(CalEventStatus::Tentative) != status_text(CalEventStatus::Confirmed));
    assert(status_text(CalEventStatus::Tentative) != status_text(CalEventStatus::Cancelled));
    assert(status_text(CalEventStatus::Confirmed) != status_text(CalEventStatus::Cancelled));
}

/// Shifting an all-day event whose end is an exclusive day to another day keeps the number of
/// days it spans.
pub proof fn lemma_shift_all_day_keeps_span(
    v: Seq<(Seq<char>, Seq<Transition>)>,
    ev: EventView,
    ns: DateView,
    fb: Seq<char>,
    first: int,
    last: int,
    ty: CalDateType,
)
    requires
        ev.start == Some(DateView::Date(first, ty)),
        ev.end == Some(DateView::Date(last, CalDateType::Exclusive)),
        valid_day(first),
        valid_day(last),
    ensures
        shift_result(v, ev, ns, fb) matches Ok((Some(DateView::Date(s, _)), Some(DateView::Date(e, _))))
            && e - s == last - first,
{
    let dur = (last * 86400 - 1) - first * 86400;
    assert(ev_duration(v, ev) == Some(dur));
    let k = last - first;
    assert(dur + 1 == k * 86400) by (nonlinear_arith)
        requires
            dur == (last * 86400 - 1) - first * 86400,
            k == last - first,
    ;
    if k >= 0 {
        assert((k * 86400) / 86400 == k) by (nonlinear_arith)
            requires
                k >= 0,
        ;
    } else {
        assert((-(k * 86400)) / 86400 == -k) by (nonlinear_arith)
            requires
                k < 0,
        ;
    }
    assert(trunc_div(dur + 1, 86400) == k);
}

/// Shifting an event whose start and end are UTC datetimes to a timed start keeps its
/// duration, and the event then starts where the new start resolves.
pub proof fn lemma_shift_utc_keeps_duration(
    v: Seq<(Seq<char>, Seq<Transition>)>,
    ev: EventView,
    ns: DateView,
    fb: Seq<char>,
    a: int,
    b: int,
)
    requires
        ev.start == Some(DateView::DateTime(DateTimeView::Utc(a))),
        ev.end == Some(DateView::DateTime(DateTimeView::Utc(b))),
        ns is DateTime,
        i64::MIN <= a <= i64::MAX,
        i64::MIN <= b <= i64::MAX,
        shift_ok(v, ev, ns, fb),
    ensures
        shift_result(v, ev, ns, fb) matches Ok((s, e)) && ev_duration(
            v,
            EventView { start: s, end: e, ..ev },
        ) == ev_duration(v, ev),
        shift_result(v, ev, ns, fb) matches Ok((Some(sd), _)) && res_date_start(v, sd, fb) matches Some(
            x,
        ) && res_date_start(v, ns, fb) matches Some(y) && x.utc == y.utc,
{
    let dur = b - a;
    assert(ev_duration(v, ev) == Some(dur));
    let si = res_date_start(v, ns, fb)->0;
    let de = ResolvedDateTime { utc: (si.utc + dur) as i64, offset: si.offset };
    assert(event_tzid(ev) is None);
    let tr = timed_range(v, ev, Some(ns), None, Some(de), fb);
    assert(tr.0 == Some(DateView::DateTime(DateTimeView::Utc(si.utc as int))));
    assert(tr.1 == Some(DateView::DateTime(DateTimeView::Utc(de.utc as int))));
}

/// Resizing one edge of an event keeps the other edge: it stays as it was, or where a fold
/// forces the range into UTC, it is written in UTC at the instant it resolves to.
pub proof fn lemma_resize_keeps_other_edge(
    v: Seq<(Seq<char>, Seq<Transition>)>,
    ev: EventView,
    edge: RangeEdge,
    nv: DateView,
    fb: Seq<char>,
)
    ensures
        resize_result(v, ev, edge, nv, fb) matches Ok((s, e)) ==> match edge {
            RangeEdge::Start => e == ev.end || (end_instant(v, None, ev.end, fb) matches Some(i)
                && e == Some(DateView::DateTime(DateTimeView::Utc(i.utc as int)))),
            RangeEdge::End => s == ev.start || (start_instant(v, ev.start, fb) matches Some(i)
                && s == Some(DateView::DateTime(DateTimeView::Utc(i.utc as int)))),
        },
{
}

/// Whether the clock of zone `t` runs back at an instant: the wall-clock time of the instant
/// there maps back to it.
pub open spec fn clock_runs_back(v: Seq<(Seq<char>, Seq<Transition>)>, t: Seq<char>, i: int) -> bool {
    maps_to(res_local(v, t, res_localize(v, i, t)), i)
}

/// Shifting an event whose start and end are datetimes in one zone to a timed start keeps its
/// duration and starts it where the new start resolves, wherever the zone's clock runs back at
/// the new start and end instants.
pub proof fn lemma_shift_zone_keeps_duration(
    v: Seq<(Seq<char>, Seq<Transition>)>,
    ev: EventView,
    ns: DateView,
    fb: Seq<char>,
    t: Seq<char>,
    a: int,
    b: int,
)
    requires
        ev.start == Some(DateView::DateTime(DateTimeView::Timezone(a, t))),
        ev.end == Some(DateView::DateTime(DateTimeView::Timezone(b, t))),
        ns is DateTime,
        shift_ok(v, ev, ns, fb),
        res_date_start(v, ns, fb) matches Some(si) && clock_runs_back(v, t, si.utc as int)
            && (ev_duration(v, ev) matches Some(dur) && clock_runs_back(v, t, si.utc + dur)),
    ensures
        shift_result(v, ev, ns, fb) matches Ok((s, e)) && ev_duration(
            v,
            EventView { start: s, end: e, ..ev },
        ) == ev_duration(v, ev),
        shift_result(v, ev, ns, fb) matches Ok((Some(sd), _)) && res_date_start(v, sd, fb) matches Some(
            x,
        ) && res_date_start(v, ns, fb) matches Some(y) && x.utc == y.utc,
{
    let dur = ev_duration(v, ev)->0;
    let si = res_date_start(v, ns, fb)->0;
    let de = ResolvedDateTime { utc: (si.utc + dur) as i64, offset: si.offset };
    let fs = or_date(Some(ns), ev.start);
    let fe = or_date(None, ev.end);
    assert(start_instant(v, fs, fb) == Some(si));
    assert(end_instant(v, Some(de), fe, fb) == Some(de));
    assert(event_tzid(ev) == Some(t));
    let tr = timed_range(v, ev, Some(ns), None, Some(de), fb);
    if force_utc(v, ev, fs, Some(si), fe, Some(de)) {
        assert(tr.0 == Some(DateView::DateTime(DateTimeView::Utc(si.utc as int))));
        assert(tr.1 == Some(DateView::DateTime(DateTimeView::Utc(de.utc as int))));
    } else {
        let start_local = res_localize(v, si.utc as int, t);
        let end_local = res_localize(v, de.utc as int, t);
        assert(tr.0 == Some(DateView::DateTime(DateTimeView::Timezone(start_local, t))));
        assert(tr.1 == Some(DateView::DateTime(DateTimeView::Timezone(end_local, t))));
        assert(!in_fold(v, fs, Some(si), t));
        assert(!in_fold(v, fe, Some(de), t));
        assert(res_pre_gap(v, t, start_local)->0.utc == si.utc);
        assert(res_pre_gap(v, t, end_local)->0.utc == de.utc);
    }
}

/// Shifting an event whose start and end are datetimes in a zone with an embedded definition to
/// a timed start keeps its duration and starts it where the new start resolves, wherever the new
/// start and end instants are times of that zone's clock (some wall-clock time there resolves to
/// each of them).
pub proof fn lemma_shift_embedded_keeps_duration(
    v: Seq<(Seq<char>, Seq<Transition>)>,
    ev: EventView,
    ns: DateView,
    fb: Seq<char>,
    t: Seq<char>,
    a: int,
    b: int,
    ls: int,
    le: int,
)
    requires
        ev.start == Some(DateView::DateTime(DateTimeView::Timezone(a, t))),
        ev.end == Some(DateView::DateTime(DateTimeView::Timezone(b, t))),
        lookup(v, t) matches Some(ts) && emb_wf(ts),
        ns is DateTime,
        shift_ok(v, ev, ns, fb),
        in_range(ls),
        in_range(le),
        res_date_start(v, ns, fb) matches Some(si) && maps_to(res_local(v, t, ls), si.utc as int)
            && (ev_duration(v, ev) matches Some(dur) && maps_to(res_local(v, t, le), si.utc + dur)),
    ensures
        shift_result(v, ev, ns, fb) matches Ok((s, e)) && ev_duration(
            v,
            EventView { start: s, end: e, ..ev },
        ) == ev_duration(v, ev),
        shift_result(v, ev, ns, fb) matches Ok((Some(sd), _)) && res_date_start(v, sd, fb) matches Some(
            x,
        ) && res_date_start(v, ns, fb) matches Some(y) && x.utc == y.utc,
{
    let dur = ev_duration(v, ev)->0;
    let si = res_date_start(v, ns, fb)->0;
    lemma_instant_to_local_resolves_back(v, t, ls, si.utc as int, fb);
    lemma_instant_to_local_resolves_back(v, t, le, si.utc + dur, fb);
    lemma_shift_zone_keeps_duration(v, ev, ns, fb, t, a, b);
}

/// Shifting an event whose start and end are datetimes in a database zone (an id without an
/// embedded definition that the database knows) to a timed start keeps its duration and starts it
/// where the new start resolves, wherever the zone's clock runs back at the new start and end
/// instants (as `Zone::offset_at` shows of every instant it is asked).
pub proof fn lemma_shift_database_zone_keeps_duration(
    v: Seq<(Seq<char>, Seq<Transition>)>,
    ev: EventView,
    ns: DateView,
    fb: Seq<char>,
    t: Seq<char>,
    a: int,
    b: int,
)
    requires
        ev.start == Some(DateView::DateTime(DateTimeView::Timezone(a, t))),
        ev.end == Some(DateView::DateTime(DateTimeView::Timezone(b, t))),
        lookup(v, t) is None,
        tz_known(t),
        ns is DateTime,
        shift_ok(v, ev, ns, fb),
        res_date_start(v, ns, fb) matches Some(si) && zone_runs_back(t, si.utc as int)
            && (ev_duration(v, ev) matches Some(dur) && zone_runs_back(t, si.utc + dur)),
    ensures
        shift_result(v, ev, ns, fb) matches Ok((s, e)) && ev_duration(
            v,
            EventView { start: s, end: e, ..ev },
        ) == ev_duration(v, ev),
        shift_result(v, ev, ns, fb) matches Ok((Some(sd), _)) && res_date_start(v, sd, fb) matches Some(
            x,
        ) && res_date_start(v, ns, fb) matches Some(y) && x.utc == y.utc,
{
    let dur = ev_duration(v, ev)->0;
    let si = res_date_start(v, ns, fb)->0;
    lemma_db_instant_to_local_resolves_back(v, t, si.utc as int, fb);
    lemma_db_instant_to_local_resolves_back(v, t, si.utc + dur, fb);
    lemma_shift_zone_keeps_duration(v, ev, ns, fb, t, a, b);
}

/// The instant that resizing moves an edge to: where the new value starts, for the start, or
/// ends, for the end.
pub open spec fn resize_target(v: Seq<(Seq<char>, Seq<Transition>)>, edge: RangeEdge, nv: DateView, fb: Seq<char>) -> Option<ResolvedDateTime> {
    match edge {
        RangeEdge::Start => res_date_start(v, nv, fb),
        RangeEdge::End => res_date_end(v, nv, fb),
    }
}

/// Resizing an event whose start and end are datetimes in one zone to a timed value moves the
/// edge to the instant where the new value resolves, wherever the zone's clock runs back at that
/// instant, and keeps the instant of the other edge.
pub proof fn lemma_resize_zone_moves_edge(
    v: Seq<(Seq<char>, Seq<Transition>)>,
    ev: EventView,
    edge: RangeEdge,
    nv: DateView,
    fb: Seq<char>,
    t: Seq<char>,
    a: int,
    b: int,
)
    requires
        ev.start == Some(DateView::DateTime(DateTimeView::Timezone(a, t))),
        ev.end == Some(DateView::DateTime(DateTimeView::Timezone(b, t))),
        nv is DateTime,
        resize_ok(v, ev, edge, nv, fb),
        resize_target(v, edge, nv, fb) matches Some(i) && clock_runs_back(v, t, i.utc as int),
    ensures
        resize_result(v, ev, edge, nv, fb) matches Ok((Some(sd), Some(ed))) && match edge {
            RangeEdge::Start => utc_start(v, sd)->0.utc == resize_target(v, edge, nv, fb)->0.utc
                && utc_end(v, ed)->0.utc == utc_end(v, ev.end->0)->0.utc,
            RangeEdge::End => utc_end(v, ed)->0.utc == resize_target(v, edge, nv, fb)->0.utc
                && utc_start(v, sd)->0.utc == utc_start(v, ev.start->0)->0.utc,
        },
        resize_result(v, ev, edge, nv, fb) matches Ok((Some(sd), Some(ed))) && utc_start(v, sd) is Some
            && utc_end(v, ed) is Some,
{
    let i = resize_target(v, edge, nv, fb)->0;
    assert(event_tzid(ev) == Some(t));
    let moved = res_localize(v, i.utc as int, t);
    match edge {
        RangeEdge::Start => {
            let si = start_instant(v, Some(nv), fb);
            let ei = end_instant(v, None, ev.end, fb);
            assert(si == Some(i));
            let tr = timed_range(v, ev, Some(nv), None, None, fb);
            if force_utc(v, ev, Some(nv), si, ev.end, ei) {
                assert(tr.0 == Some(DateView::DateTime(DateTimeView::Utc(i.utc as int))));
                assert(tr.1 == Some(DateView::DateTime(DateTimeView::Utc(ei->0.utc as int))));
            } else {
                assert(!in_fold(v, Some(nv), si, t));
                assert(tr.0 == Some(DateView::DateTime(DateTimeView::Timezone(moved, t))));
                assert(tr.1 == ev.end);
            }
        },
        RangeEdge::End => {
            let si = start_instant(v, ev.start, fb);
            let ei = end_instant(v, None, Some(nv), fb);
            assert(ei == Some(i));
            let tr = timed_range(v, ev, None, Some(nv), None, fb);
            if force_utc(v, ev, ev.start, si, Some(nv), ei) {
                assert(tr.0 == Some(DateView::DateTime(DateTimeView::Utc(si->0.utc as int))));
                assert(tr.1 == Some(DateView::DateTime(DateTimeView::Utc(i.utc as int))));
            } else {
                assert(!in_fold(v, Some(nv), ei, t));
                assert(tr.0 == ev.start);
                assert(tr.1 == Some(DateView::DateTime(DateTimeView::Timezone(moved, t))));
            }
        },
    }
}

/// Resizing an event whose start and end are datetimes in a zone with an embedded definition to
/// a timed value moves the edge to the instant where the new value resolves, wherever that
/// instant is a time of the zone's clock (some wall-clock time there resolves to it), and keeps
/// the instant of the other edge.
pub proof fn lemma_resize_embedded_moves_edge(
    v: Seq<(Seq<char>, Seq<Transition>)>,
    ev: EventView,
    edge: RangeEdge,
    nv: DateView,
    fb: Seq<char>,
    t: Seq<char>,
    a: int,
    b: int,
    l: int,
)
    requires
        ev.start == Some(DateView::DateTime(DateTimeView::Timezone(a, t))),
        ev.end == Some(DateView::DateTime(DateTimeView::Timezone(b, t))),
        lookup(v, t) matches Some(ts) && emb_wf(ts),
        nv is DateTime,
        resize_ok(v, ev, edge, nv, fb),
        in_range(l),
        resize_target(v, edge, nv, fb) matches Some(i) && maps_to(res_local(v, t, l), i.utc as int),
    ensures
        resize_result(v, ev, edge, nv, fb) matches Ok((Some(sd), Some(ed))) && match edge {
            RangeEdge::Start => utc_start(v, sd)->0.utc == resize_target(v, edge, nv, fb)->0.utc
                && utc_end(v, ed)->0.utc == utc_end(v, ev.end->0)->0.utc,
            RangeEdge::End => utc_end(v, ed)->0.utc == resize_target(v, edge, nv, fb)->0.utc
                && utc_start(v, sd)->0.utc == utc_start(v, ev.start->0)->0.utc,
        },
        resize_result(v, ev, edge, nv, fb) matches Ok((Some(sd), Some(ed))) && utc_start(v, sd) is Some
            && utc_end(v, ed) is Some,
{
    let i = resize_target(v, edge, nv, fb)->0;
    lemma_instant_to_local_resolves_back(v, t, l, i.utc as int, fb);
    lemma_resize_zone_moves_edge(v, ev, edge, nv, fb, t, a, b);
}

/// Resizing an event whose start and end are datetimes in a database zone (an id without an
/// embedded definition that the database knows) to a timed value moves the edge to the instant
/// where the new value resolves, wherever the zone's clock runs back at that instant (as
/// `Zone::offset_at` shows of every instant it is asked), and keeps the instant of the other edge.
pub proof fn lemma_resize_database_zone_moves_edge(
    v: Seq<(Seq<char>, Seq<Transition>)>,
    ev: EventView,
    edge: RangeEdge,
    nv: DateView,
    fb: Seq<char>,
    t: Seq<char>,
    a: int,
    b: int,
)
    requires
        ev.start == Some(DateView::DateTime(DateTimeView::Timezone(a, t))),
        ev.end == Some(DateView::DateTime(DateTimeView::Timezone(b, t))),
        lookup(v, t) is None,
        tz_known(t),
        nv is DateTime,
        resize_ok(v, ev, edge, nv, fb),
        resize_target(v, edge, nv, fb) matches Some(i) && zone_runs_back(t, i.utc as int),
    ensures
        resize_result(v, ev, edge, nv, fb) matches Ok((Some(sd), Some(ed))) && match edge {
            RangeEdge::Start => utc_start(v, sd)->0.utc == resize_target(v, edge, nv, fb)->0.utc
                && utc_end(v, ed)->0.utc == utc_end(v, ev.end->0)->0.utc,
            RangeEdge::End => utc_end(v, ed)->0.utc == resize_target(v, edge, nv, fb)->0.utc
                && utc_start(v, sd)->0.utc == utc_start(v, ev.start->0)->0.utc,
        },
        resize_result(v, ev, edge, nv, fb) matches Ok((Some(sd), Some(ed))) && utc_start(v, sd) is Some
            && utc_end(v, ed) is Some,
{
    let i = resize_target(v, edge, nv, fb)->0;
    lemma_db_instant_to_local_resolves_back(v, t, i.utc as int, fb);
    lemma_resize_zone_moves_edge(v, ev, edge, nv, fb, t, a, b);
}

/// Resizing an event whose start and end are UTC datetimes to a timed value keeps the other
/// edge as it was and puts the moved edge, in UTC, at the instant where the new value resolves.
pub proof fn lemma_resize_utc_moves_edge(
    v: Seq<(Seq<char>, Seq<Transition>)>,
    ev: EventView,
    edge: RangeEdge,
    nv: DateView,
    fb: Seq<char>,
    a: int,
    b: int,
)
    requires
        ev.start == Some(DateView::DateTime(DateTimeView::Utc(a))),
        ev.end == Some(DateView::DateTime(DateTimeView::Utc(b))),
        nv is DateTime,
        resize_ok(v, ev, edge, nv, fb),
    ensures
        resize_result(v, ev, edge, nv, fb) matches Ok((s, e)) && match edge {
            RangeEdge::Start => e == ev.end && (res_date_start(v, nv, fb) matches Some(i) && s == Some(
                DateView::DateTime(DateTimeView::Utc(i.utc as int)),
            )),
            RangeEdge::End => s == ev.start && (res_date_end(v, nv, fb) matches Some(i) && e == Some(
                DateView::DateTime(DateTimeView::Utc(i.utc as int)),
            )),
        },
{
    assert(event_tzid(ev) is None);
}

/// When shifting a timed event to a timed start writes both of its edges in UTC (because a fold
/// forces it, or because they were in UTC), its duration stays the same and it starts where the
/// new start resolves.
pub proof fn lemma_shift_in_utc_keeps_duration(
    v: Seq<(Seq<char>, Seq<Transition>)>,
    ev: EventView,
    ns: DateView,
    fb: Seq<char>,
)
    requires
        shift_ok(v, ev, ns, fb),
        !shifts_days(ev, ns),
        shift_result(v, ev, ns, fb) matches Ok(
            (
                Some(DateView::DateTime(DateTimeView::Utc(_))),
                Some(DateView::DateTime(DateTimeView::Utc(_))),
            ),
        ),
    ensures
        shift_result(v, ev, ns, fb) matches Ok((s, e)) && ev_duration(
            v,
            EventView { start: s, end: e, ..ev },
        ) == ev_duration(v, ev),
        shift_result(v, ev, ns, fb) matches Ok((Some(sd), _)) && res_date_start(v, sd, fb) matches Some(
            x,
        ) && res_date_start(v, ns, fb) matches Some(y) && x.utc == y.utc,
{
    let dur = ev_duration(v, ev)->0;
    let si = res_date_start(v, ns, fb)->0;
    let de = ResolvedDateTime { utc: (si.utc + dur) as i64, offset: si.offset };
    let fs = or_date(Some(ns), ev.start);
    let fe = or_date(None, ev.end);
    assert(start_instant(v, fs, fb) == Some(si));
    assert(end_instant(v, Some(de), fe, fb) == Some(de));
    let tr = timed_range(v, ev, Some(ns), None, Some(de), fb);
    assert(tr.0 == Some(DateView::DateTime(DateTimeView::Utc(si.utc as int))));
    assert(tr.1 == Some(DateView::DateTime(DateTimeView::Utc(de.utc as int))));
}

/// Whether a date lies in the representable range.
fn date_ok(d: &CalDate) -> (r: bool)
    ensures
        r == d.wf(),
{
    match d {
        CalDate::Date(day, _) => -200_000_000 <= *day && *day <= 200_000_000 && MIN_SECS <= *day
            * 86400 && *day * 86400 <= MAX_SECS,
        CalDate::DateTime(CalDateTime::Utc(t)) => MIN_SECS <= *t && *t <= MAX_SECS,
        CalDate::DateTime(CalDateTime::Floating(t)) => MIN_SECS <= *t && *t <= MAX_SECS,
        CalDate::DateTime(CalDateTime::Timezone(t, _)) => MIN_SECS <= *t && *t <= MAX_SECS,
    }
}

/// Whether an optional date lies in the representable range.
fn opt_date_ok(d: &Option<CalDate>) -> (r: bool)
    ensures
        r == opt_date_wf(*d),
{
    match d {
        Some(x) => date_ok(x),
        None => true,
    }
}

impl CalEvent {
    /// Whether the event is well-formed: a component of kind event whose dates lie in the
    /// representable range. Events built by this library always are.
    pub fn is_wf(&self) -> (r: bool)
        ensures
            r == self.wf(),
    {
        let is_event = match self.inner.ctype {
            CalCompType::Event => true,
            CalCompType::Todo => false,
        };
        is_event && opt_date_ok(&self.inner.stamp) && opt_date_ok(&self.inner.start)
            && opt_date_ok(&self.end)
    }
}

} // verus!
