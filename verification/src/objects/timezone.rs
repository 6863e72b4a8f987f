//! Embedded time zone definitions (`VTIMEZONE`, RFC 5545, 3.6.5) and the parts of their
//! recurrence rules that place the starts of their observances.

use vstd::prelude::*;

use super::date::CalDateTime;
use super::tz::{in_range, valid_offset};

verus! {

/// From which end of a month or a year an ordinal counts.
#[derive(Copy, Clone, Debug, PartialEq, Eq)]
pub enum CalRRuleSide {
    Start,
    End,
}

/// A weekday in a `BYDAY` rule part, such as `SU`, `2SU` or `-1SU`.
#[derive(Copy, Clone, Debug, PartialEq, Eq)]
pub struct CalWDayDesc {
    /// The weekday, from Monday (0) to Sunday (6).
    pub day: u8,
    /// The ordinal of the weekday within the month, and from which end it counts.
    pub nth: Option<(u8, CalRRuleSide)>,
}

/// A day of the month in a `BYMONTHDAY` rule part, such as `15` or `-1`.
#[derive(Copy, Clone, Debug, PartialEq, Eq)]
pub struct CalMonDayDesc {
    /// The day, counted from 1 at the chosen end of the month.
    pub num: u8,
    pub side: CalRRuleSide,
}

/// The parts of a recurrence rule that place the starts of an observance within a year.
#[derive(Clone, Debug)]
pub struct CalRRule {
    pub by_month: Option<Vec<u8>>,
    pub by_day: Option<Vec<CalWDayDesc>>,
    pub by_mon_day: Option<Vec<CalMonDayDesc>>,
}

impl CalRRule {
    /// Months run from 1 to 12, weekdays from 0 to 6, days of the month from 1 to 31.
    pub open spec fn wf(&self) -> bool {
        &&& self.by_month matches Some(ms) ==> forall|i: int|
            0 <= i < ms@.len() ==> 1 <= #[trigger] ms@[i] <= 12
        &&& self.by_day matches Some(ds) ==> forall|i: int|
            0 <= i < ds@.len() ==> (#[trigger] ds@[i]).day < 7
        &&& self.by_mon_day matches Some(ds) ==> forall|i: int|
            0 <= i < ds@.len() ==> 1 <= (#[trigger] ds@[i]).num <= 31
    }
}

/// A `STANDARD` or `DAYLIGHT` observance of an embedded time zone.
#[derive(Clone, Debug)]
pub struct CalTimeZoneObservance {
    pub dtstart: CalDateTime,
    /// `TZOFFSETFROM`, in seconds east of UTC.
    pub tzoffset_from: i32,
    /// `TZOFFSETTO`, in seconds east of UTC.
    pub tzoffset_to: i32,
    pub rrule: Option<CalRRule>,
    pub rdate: Vec<CalDateTime>,
}

impl CalTimeZoneObservance {
    /// Offsets are valid, times lie in range and the rule is well-formed.
    pub open spec fn wf(&self) -> bool {
        &&& valid_offset(self.tzoffset_from as int)
        &&& valid_offset(self.tzoffset_to as int)
        &&& in_range(self.dtstart.secs())
        &&& forall|i: int| 0 <= i < self.rdate@.len() ==> in_range((#[trigger] self.rdate@[i]).secs())
        &&& self.rrule matches Some(r) ==> r.wf()
    }
}

/// An embedded `VTIMEZONE` definition.
#[derive(Clone, Debug)]
pub struct CalTimeZone {
    pub tzid: String,
    pub observances: Vec<CalTimeZoneObservance>,
}

impl CalTimeZone {
    pub open spec fn wf(&self) -> bool {
        forall|i: int| 0 <= i < self.observances@.len() ==> (#[trigger] self.observances@[i]).wf()
    }
}

/// The part of a calendar that time-zone resolution reads: its embedded time zones.
#[derive(Clone, Debug)]
pub struct Calendar {
    pub timezones: Vec<CalTimeZone>,
}

impl Calendar {
    /// A calendar without embedded time zones.
    pub fn new() -> (r: Calendar)
        ensures
            r.timezones@.len() == 0,
    {
        Calendar { timezones: Vec::new() }
    }

    pub open spec fn wf(&self) -> bool {
        forall|i: int| 0 <= i < self.timezones@.len() ==> (#[trigger] self.timezones@[i]).wf()
    }

    /// Returns the embedded time zones.
    pub fn timezones(&self) -> (r: &Vec<CalTimeZone>)
        ensures
            r == &self.timezones,
    {
        &self.timezones
    }
}

} // verus!
