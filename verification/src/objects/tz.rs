//! Instants with their offsets, and the time zones of the IANA database that `chrono-tz` carries.

use chrono::{Offset, TimeZone};
use vstd::prelude::*;

use super::civil::{MAX_SECS, MIN_SECS};

verus! {

/// Times that stay representable after moving them by a few days: the range that calendar
/// dates are kept in.
pub open spec fn in_range(t: int) -> bool {
    MIN_SECS + 3 * 86400 <= t <= MAX_SECS - 3 * 86400
}

/// A UTC offset that `chrono`'s `FixedOffset` accepts: less than a day either way.
pub open spec fn valid_offset(o: int) -> bool {
    -86400 < o < 86400
}

/// A concrete instant together with the UTC offset it was resolved with.
///
/// Two resolved values denote the same instant when their `utc` seconds are equal, whatever
/// their offsets.
#[derive(Copy, Clone, Debug, PartialEq, Eq)]
pub struct ResolvedDateTime {
    /// Seconds from 1970-01-01T00:00:00 UTC.
    pub utc: i64,
    /// Seconds east of UTC.
    pub offset: i32,
}

impl ResolvedDateTime {
    /// The instant's offset is valid and the instant lies in range.
    pub open spec fn wf(&self) -> bool {
        valid_offset(self.offset as int) && MIN_SECS + 86400 <= self.utc <= MAX_SECS - 86400
    }

    /// The wall-clock time of this instant at its offset.
    pub open spec fn local_secs(&self) -> int {
        self.utc + self.offset
    }

    /// The instant for a wall-clock time at a fixed offset.
    pub open spec fn at(local: int, offset: int) -> ResolvedDateTime {
        ResolvedDateTime { utc: (local - offset) as i64, offset: offset as i32 }
    }

    /// The instant for a wall-clock time at a fixed offset.
    pub fn fixed(local: i64, offset: i32) -> (r: ResolvedDateTime)
        requires
            in_range(local as int) || (MIN_SECS <= local <= MAX_SECS),
            valid_offset(offset as int),
        ensures
            r == ResolvedDateTime::at(local as int, offset as int),
    {
        ResolvedDateTime { utc: local - offset as i64, offset }
    }

    /// Seconds from 1970-01-01T00:00:00 UTC.
    pub fn timestamp(&self) -> (r: i64)
        ensures
            r == self.utc,
    {
        self.utc
    }

    /// The wall-clock time of this instant at its offset.
    pub fn local(&self) -> (r: i64)
        requires
            self.wf(),
        ensures
            r == self.local_secs(),
    {
        self.utc + self.offset as i64
    }

    /// Whether two values denote the same instant.
    pub fn same_instant(&self, other: &ResolvedDateTime) -> (r: bool)
        ensures
            r == (self.utc == other.utc),
    {
        self.utc == other.utc
    }
}

/// How a wall-clock time maps to instants in a time zone.
#[derive(Copy, Clone, Debug, PartialEq, Eq)]
pub enum LocalMapping {
    /// Exactly one instant.
    Single(ResolvedDateTime),
    /// Two instants in a fold, the earlier first.
    Ambiguous(ResolvedDateTime, ResolvedDateTime),
    /// None: the wall-clock time lies in a gap.
    Gap,
}

/// How a wall-clock time maps to UTC offsets in a time zone of the database.
#[derive(Copy, Clone, Debug, PartialEq, Eq)]
pub enum OffsetMapping {
    Single(i32),
    Ambiguous(i32, i32),
    Gap,
}

impl OffsetMapping {
    /// All offsets are valid.
    pub open spec fn wf(&self) -> bool {
        match self {
            OffsetMapping::Single(o) => valid_offset(*o as int),
            OffsetMapping::Ambiguous(a, b) => valid_offset(*a as int) && valid_offset(*b as int),
            OffsetMapping::Gap => true,
        }
    }

    /// The instants that a wall-clock time maps to at these offsets.
    pub open spec fn instants(&self, local: int) -> LocalMapping {
        match self {
            OffsetMapping::Single(o) => LocalMapping::Single(ResolvedDateTime::at(local, *o as int)),
            OffsetMapping::Ambiguous(a, b) => LocalMapping::Ambiguous(
                ResolvedDateTime::at(local, *a as int),
                ResolvedDateTime::at(local, *b as int),
            ),
            OffsetMapping::Gap => LocalMapping::Gap,
        }
    }
}

/// Whether `chrono-tz` knows a time zone of the given name.
pub uninterp spec fn tz_known(name: Seq<char>) -> bool;

/// The offsets that `chrono-tz`'s zone of the given name has at a wall-clock time.
pub uninterp spec fn tz_local_offsets(name: Seq<char>, local: int) -> OffsetMapping;

/// The offset that `chrono-tz`'s zone of the given name has at an instant.
pub uninterp spec fn tz_offset_at(name: Seq<char>, instant: int) -> int;

/// `chrono-tz`'s `Tz::from_str`: whether the name is one of the database.
#[verifier::external_body]
fn chrono_tz_parse(name: &str) -> (r: bool)
    ensures
        r == tz_known(name@),
{
    name.parse::<chrono_tz::Tz>().is_ok()
}

/// `chrono`'s `TimeZone::from_local_datetime` for the `chrono-tz` zone of the given name: the
/// offsets that the wall-clock time has there; each is a valid `FixedOffset`.
#[verifier::external_body]
fn chrono_tz_from_local(name: &str, local: i64) -> (r: Option<OffsetMapping>)
    requires
        MIN_SECS <= local <= MAX_SECS,
    ensures
        r == (if tz_known(name@) {
            Some(tz_local_offsets(name@, local as int))
        } else {
            None
        }),
        r matches Some(m) ==> m.wf(),
{
    let tz: chrono_tz::Tz = name.parse().ok()?;
    let naive = chrono::DateTime::from_timestamp(local, 0)?.naive_utc();
    Some(
        match tz.from_local_datetime(&naive) {
            chrono::MappedLocalTime::Single(dt) => OffsetMapping::Single(
                dt.offset().fix().local_minus_utc(),
            ),
            chrono::MappedLocalTime::Ambiguous(a, b) => OffsetMapping::Ambiguous(
                a.offset().fix().local_minus_utc(),
                b.offset().fix().local_minus_utc(),
            ),
            chrono::MappedLocalTime::None => OffsetMapping::Gap,
        },
    )
}

/// Whether `o` is among the offsets of a mapping.
pub open spec fn offsets_include(m: OffsetMapping, o: int) -> bool {
    match m {
        OffsetMapping::Single(a) => a == o,
        OffsetMapping::Ambiguous(a, b) => a == o || b == o,
        OffsetMapping::Gap => false,
    }
}

/// Whether the clock of the database zone `name` runs back at an instant: the wall-clock time
/// of the instant there has the instant's offset among its offsets, so it maps back to the
/// instant.
pub open spec fn zone_runs_back(name: Seq<char>, utc: int) -> bool {
    offsets_include(tz_local_offsets(name, utc + tz_offset_at(name, utc)), tz_offset_at(name, utc))
}

/// `chrono`'s `DateTime::with_timezone` into the `chrono-tz` zone of the given name: the offset
/// that the zone has at the instant, a valid `FixedOffset`. `chrono-tz` takes both this offset and
/// the offsets of a wall-clock time from one list of spans (the span of the instant, moved by its
/// offset, is a span of wall-clock times that yields that offset), so the wall-clock time of the
/// instant has this offset among its offsets.
#[verifier::external_body]
fn chrono_tz_offset_at(name: &str, utc: i64) -> (r: Option<i32>)
    requires
        MIN_SECS <= utc <= MAX_SECS,
    ensures
        r == (if tz_known(name@) {
            Some(tz_offset_at(name@, utc as int) as i32)
        } else {
            None
        }),
        r matches Some(o) ==> valid_offset(o as int) && o == tz_offset_at(name@, utc as int),
        r matches Some(o) ==> (MIN_SECS <= utc + o <= MAX_SECS ==> zone_runs_back(name@, utc as int)),
{
    let tz: chrono_tz::Tz = name.parse().ok()?;
    let dt = chrono::DateTime::from_timestamp(utc, 0)?.with_timezone(&tz);
    Some(dt.offset().fix().local_minus_utc())
}

/// `chrono-tz`'s `Tz::UTC` by its name: a zone of the database whose offset is zero at every
/// wall-clock time and at every instant.
#[verifier::external_body]
fn chrono_tz_utc() -> (r: String)
    ensures
        tz_known(r@),
        forall|t: int| #[trigger] tz_local_offsets(r@, t) == OffsetMapping::Single(0),
        forall|t: int| #[trigger] tz_offset_at(r@, t) == 0,
{
    chrono_tz::Tz::UTC.name().to_string()
}

/// A time zone of the IANA database, by its name.
#[derive(Debug)]
pub struct Zone {
    name: String,
}

impl Clone for Zone {
    fn clone(&self) -> (r: Zone)
        ensures
            r.name_view() == self.name_view(),
    {
        proof {
            use_type_invariant(self);
        }
        Zone { name: self.name.clone() }
    }
}

impl Zone {
    #[verifier::type_invariant]
    spec fn known(self) -> bool {
        tz_known(self.name@)
    }

    /// The name of the zone.
    pub closed spec fn name_view(&self) -> Seq<char> {
        self.name@
    }

    /// The zone of the given name, if the database has it.
    pub fn from_name(name: &str) -> (r: Option<Zone>)
        ensures
            r is Some <==> tz_known(name@),
            r matches Some(z) ==> z.name_view() == name@,
    {
        if chrono_tz_parse(name) {
            Some(Zone { name: crate::text::to_string(name) })
        } else {
            None
        }
    }

    /// The zone UTC.
    pub fn utc() -> (r: Zone)
        ensures
            forall|t: int| #[trigger] tz_local_offsets(r.name_view(), t) == OffsetMapping::Single(0),
            forall|t: int| #[trigger] tz_offset_at(r.name_view(), t) == 0,
    {
        Zone { name: chrono_tz_utc() }
    }

    /// The name of the zone.
    pub fn name(&self) -> (r: &str)
        ensures
            r@ == self.name_view(),
    {
        self.name.as_str()
    }

    /// The offsets of this zone at a wall-clock time.
    pub fn local_offsets(&self, local: i64) -> (r: OffsetMapping)
        requires
            MIN_SECS <= local <= MAX_SECS,
        ensures
            r == tz_local_offsets(self.name_view(), local as int),
            r.wf(),
    {
        proof {
            use_type_invariant(self);
        }
        chrono_tz_from_local(self.name.as_str(), local).unwrap()
    }

    /// The offset of this zone at an instant.
    pub fn offset_at(&self, utc: i64) -> (r: i32)
        requires
            MIN_SECS <= utc <= MAX_SECS,
        ensures
            r == tz_offset_at(self.name_view(), utc as int),
            valid_offset(r as int),
            MIN_SECS <= utc + r <= MAX_SECS ==> zone_runs_back(self.name_view(), utc as int),
    {
        proof {
            use_type_invariant(self);
        }
        chrono_tz_offset_at(self.name.as_str(), utc).unwrap()
    }
}

/// The offsets of the database zone named `name` at a wall-clock time, if there is such a zone.
pub fn named_local_offsets(name: &str, local: i64) -> (r: Option<OffsetMapping>)
    requires
        MIN_SECS <= local <= MAX_SECS,
    ensures
        r == (if tz_known(name@) {
            Some(tz_local_offsets(name@, local as int))
        } else {
            None
        }),
        r matches Some(m) ==> m.wf(),
{
    chrono_tz_from_local(name, local)
}

/// The offset of the database zone named `name` at an instant, if there is such a zone.
pub fn named_offset_at(name: &str, utc: i64) -> (r: Option<i32>)
    requires
        MIN_SECS <= utc <= MAX_SECS,
    ensures
        r is Some <==> tz_known(name@),
        r matches Some(o) ==> valid_offset(o as int) && o == tz_offset_at(name@, utc as int),
        r matches Some(o) ==> (MIN_SECS <= utc + o <= MAX_SECS ==> zone_runs_back(name@, utc as int)),
{
    chrono_tz_offset_at(name, utc)
}

} // verus!
