//! Resolving calendar dates and datetimes into concrete instants, using embedded `VTIMEZONE`
//! data when available and the IANA database of `chrono-tz` otherwise.

use vstd::prelude::*;

use super::civil::{civil_from_days, day_of_secs, time_fields, tod_of_secs, MAX_SECS, MIN_SECS};
use super::date::{CalDate, CalDateTime, CalDateType, DateTimeView, DateView};
use super::observance::{
    ints, lemma_ints_push, raw_starts, sorted_unique, years_starts, FixedObservance,
};
use super::timezone::{CalTimeZone, CalTimeZoneObservance, Calendar};
use super::tz::{
    in_range, named_local_offsets, named_offset_at, tz_known, tz_local_offsets, tz_offset_at,
    valid_offset, zone_runs_back, LocalMapping, OffsetMapping, ResolvedDateTime, Zone,
};
use crate::text::str_eq;

verus! {

/// Wall-clock times that resolution may probe two days back from: five days away from the ends
/// of the range.
pub open spec fn near_range(t: int) -> bool {
    MIN_SECS + 5 * 86400 <= t <= MAX_SECS - 5 * 86400
}

/// Instants that can be turned back into wall-clock times and resolved again.
pub open spec fn instant_range(t: int) -> bool {
    MIN_SECS + 4 * 86400 <= t <= MAX_SECS - 4 * 86400
}

// ---------------------------------------------------------------------------------------------
// Compiling observances
// ---------------------------------------------------------------------------------------------

/// The floating wall-clock times among the given datetimes, in their order.
pub open spec fn floating_secs(ds: Seq<CalDateTime>) -> Seq<int>
    decreases ds.len(),
{
    if ds.len() == 0 {
        seq![]
    } else {
        floating_secs(ds.drop_last()) + match ds.last() {
            CalDateTime::Floating(t) => seq![t as int],
            _ => seq![],
        }
    }
}

/// All starts of an observance in the years from 1970 to 2100, unsorted: its first start, its
/// floating `RDATE`s, and for each year what its rule selects.
pub open spec fn obs_raw_starts(obs: CalTimeZoneObservance) -> Seq<int> {
    let t = obs.dtstart.secs();
    let ymd = civil_from_days(day_of_secs(t));
    seq![t] + floating_secs(obs.rdate@) + match obs.rrule {
        Some(r) => years_starts(ymd.1, ymd.2, tod_of_secs(t), r, 1970, 2100),
        None => seq![],
    }
}

/// The transitions into an observance: one at each of its starts, sorted and without
/// duplicates.
pub open spec fn obs_transitions(obs: CalTimeZoneObservance) -> Seq<Transition> {
    sorted_unique(obs_raw_starts(obs)).map_values(
        |s: i64|
            Transition {
                local_start: s,
                offset_from: obs.tzoffset_from,
                offset_to: obs.tzoffset_to,
            },
    )
}

impl<'a> FixedObservance<'a> {
    /// The observance in the form that compilation works with, if its start is a floating
    /// wall-clock time.
    pub fn compile(obs: &'a CalTimeZoneObservance) -> (r: Option<FixedObservance<'a>>)
        requires
            obs.wf(),
        ensures
            r is Some <==> obs.dtstart is Floating,
            r matches Some(fx) ==> fx.wf() && raw_starts(fx, 1970, 2100) == obs_raw_starts(*obs)
                && fx.offset_from == obs.tzoffset_from && fx.offset_to == obs.tzoffset_to
                && fx.dtstart == obs.dtstart.secs(),
    {
        let dtstart = match &obs.dtstart {
            CalDateTime::Floating(t) => *t,
            _ => {
                return None;
            },
        };
        let mut rdate: Vec<i64> = Vec::new();
        let mut i: usize = 0;
        while i < obs.rdate.len()
            invariant
                obs.wf(),
                i <= obs.rdate@.len(),
                ints(rdate@) == floating_secs(obs.rdate@.subrange(0, i as int)),
                forall|k: int| 0 <= k < rdate@.len() ==> in_range(#[trigger] rdate@[k] as int),
            decreases obs.rdate@.len() - i,
        {
            proof {
                let t = obs.rdate@.subrange(0, i as int + 1);
                assert(t.drop_last() =~= obs.rdate@.subrange(0, i as int));
                assert(t.last() == obs.rdate@[i as int]);
                assert(in_range(obs.rdate@[i as int].secs()));
            }
            match &obs.rdate[i] {
                CalDateTime::Floating(t) => {
                    proof {
                        lemma_ints_push(rdate@, *t);
                    }
                    rdate.push(*t);
                },
                _ => {
                    assert(ints(rdate@) =~= ints(rdate@) + Seq::<int>::empty());
                },
            }
            i = i + 1;
        }
        proof {
            assert(obs.rdate@.subrange(0, obs.rdate@.len() as int) =~= obs.rdate@);
        }
        let (y, m, d, h, mi, s) = time_fields(dtstart);
        let tod = (h as i64) * 3600 + (mi as i64) * 60 + s as i64;
        let fx = FixedObservance {
            dtstart,
            dt_month: m,
            dt_day: d,
            dt_tod: tod,
            offset_from: obs.tzoffset_from,
            offset_to: obs.tzoffset_to,
            rrule: obs.rrule.as_ref(),
            rdate,
        };
        proof {
            assert(super::civil::valid_ymd(y as int, m as int, d as int));
            assert(super::civil::days_from_civil(y as int, m as int, d as int) * 86400 + tod
                == dtstart);
            assert(raw_starts(fx, 1970, 2100) =~= obs_raw_starts(*obs));
        }
        Some(fx)
    }
}

// ---------------------------------------------------------------------------------------------
// Embedded time zones
// ---------------------------------------------------------------------------------------------

/// A change of UTC offset at a wall-clock time.
#[derive(Copy, Clone, Debug, PartialEq, Eq)]
pub struct Transition {
    /// The wall-clock time of the change, in the offset before it.
    pub local_start: i64,
    pub offset_from: i32,
    pub offset_to: i32,
}

/// A compiled embedded time zone: its transitions sorted by wall-clock time.
///
/// Every observance contributes at least its own first start, so a compiled zone needs no
/// separate fixed offset for times that no transition covers.
#[derive(Debug)]
pub struct EmbeddedTimeZone {
    transitions: Vec<Transition>,
}

impl EmbeddedTimeZone {
    /// The transitions, sorted by wall-clock start.
    pub closed spec fn view(&self) -> Seq<Transition> {
        self.transitions@
    }
}

/// All offsets of the transitions are valid.
pub open spec fn emb_wf(ts: Seq<Transition>) -> bool {
    forall|i: int|
        0 <= i < ts.len() ==> {
            &&& valid_offset((#[trigger] ts[i]).offset_from as int)
            &&& valid_offset(ts[i].offset_to as int)
        }
}

/// The index of the first transition at or after `i` that starts after `key`, or the length; on
/// sorted transitions, the number of those that start at or before `key`.
pub open spec fn scan_le(ts: Seq<Transition>, key: int, i: int) -> int
    decreases ts.len() - i,
{
    if i < 0 || i >= ts.len() || ts[i].local_start > key {
        if i < 0 {
            0
        } else {
            i
        }
    } else {
        scan_le(ts, key, i + 1)
    }
}

/// Inserts a transition after all those that do not start later (a stable insertion).
pub open spec fn insert_by_start(ts: Seq<Transition>, t: Transition) -> Seq<Transition> {
    ts.insert(scan_le(ts, t.local_start as int, 0), t)
}

/// Transitions sorted by their wall-clock start, keeping the order of equal starts, as a
/// stable sort by key gives them.
pub open spec fn sort_by_start(ts: Seq<Transition>) -> Seq<Transition>
    decreases ts.len(),
{
    if ts.len() == 0 {
        seq![]
    } else {
        insert_by_start(sort_by_start(ts.drop_last()), ts.last())
    }
}

/// The transitions of all observances, in their order.
pub open spec fn all_transitions(obs: Seq<CalTimeZoneObservance>) -> Seq<Transition>
    decreases obs.len(),
{
    if obs.len() == 0 {
        seq![]
    } else {
        all_transitions(obs.drop_last()) + obs_transitions(obs.last())
    }
}

/// The compiled form of an embedded time zone: none if an observance does not start at a
/// floating wall-clock time, else all transitions sorted by start.
pub open spec fn compile_spec(obs: Seq<CalTimeZoneObservance>) -> Option<Seq<Transition>> {
    if forall|i: int| 0 <= i < obs.len() ==> (#[trigger] obs[i]).dtstart is Floating {
        Some(sort_by_start(all_transitions(obs)))
    } else {
        None
    }
}

pub proof fn lemma_scan_le(ts: Seq<Transition>, key: int, i: int)
    requires
        0 <= i <= ts.len(),
    ensures
        i <= scan_le(ts, key, i) <= ts.len(),
        forall|k: int| i <= k < scan_le(ts, key, i) ==> (#[trigger] ts[k]).local_start <= key,
        scan_le(ts, key, i) < ts.len() ==> ts[scan_le(ts, key, i)].local_start > key,
    decreases ts.len() - i,
{
    if i < ts.len() && ts[i].local_start <= key {
        lemma_scan_le(ts, key, i + 1);
    }
}

/// The index of the first transition that starts after `key`.
fn scan_le_exec(ts: &Vec<Transition>, key: i64) -> (r: usize)
    ensures
        r == scan_le(ts@, key as int, 0),
{
    let mut i: usize = 0;
    while i < ts.len() && ts[i].local_start <= key
        invariant
            i <= ts@.len(),
            scan_le(ts@, key as int, 0) == scan_le(ts@, key as int, i as int),
        decreases ts@.len() - i,
    {
        i = i + 1;
    }
    i
}

proof fn lemma_insert_keeps(ts: Seq<Transition>, t: Transition, p: int)
    requires
        0 <= p <= ts.len(),
    ensures
        forall|i: int|
            0 <= i < ts.insert(p, t).len() ==> (#[trigger] ts.insert(p, t)[i] == t || ts.contains(
                ts.insert(p, t)[i],
            )),
{
    assert forall|i: int| 0 <= i < ts.insert(p, t).len() implies (#[trigger] ts.insert(p, t)[i]
        == t || ts.contains(ts.insert(p, t)[i])) by {
        if i < p {
            assert(ts[i] == ts.insert(p, t)[i]);
        } else if i > p {
            assert(ts[i - 1] == ts.insert(p, t)[i]);
        }
    }
}

impl EmbeddedTimeZone {
    /// Compiles an embedded time zone definition.
    pub fn compile(timezone: &CalTimeZone) -> (r: Option<EmbeddedTimeZone>)
        requires
            timezone.wf(),
        ensures
            match (r, compile_spec(timezone.observances@)) {
                (Some(t), Some(v)) => t.view() == v && emb_wf(t.view()),
                (None, None) => true,
                _ => false,
            },
    {
        let mut unsorted: Vec<Transition> = Vec::new();
        let mut k: usize = 0;
        let ghost obs = timezone.observances@;
        while k < timezone.observances.len()
            invariant
                obs == timezone.observances@,
                timezone.wf(),
                k <= obs.len(),
                forall|i: int| 0 <= i < k ==> (#[trigger] obs[i]).dtstart is Floating,
                unsorted@ == all_transitions(obs.subrange(0, k as int)),
                emb_wf(unsorted@),
            decreases obs.len() - k,
        {
            let observance = &timezone.observances[k];
            assert(observance.wf());
            let fixed = match FixedObservance::compile(observance) {
                Some(f) => f,
                None => {
                    proof {
                        assert(!(obs[k as int].dtstart is Floating));
                    }
                    return None;
                },
            };
            let starts = fixed.transition_starts(1970, 2100);
            let ghost before = unsorted@;
            let ghost new_ts = obs_transitions(*observance);
            proof {
                assert(starts@ == sorted_unique(obs_raw_starts(*observance)));
            }
            let mut j: usize = 0;
            while j < starts.len()
                invariant
                    j <= starts@.len(),
                    starts@ == sorted_unique(obs_raw_starts(*observance)),
                    new_ts == starts@.map_values(
                        |s: i64|
                            Transition {
                                local_start: s,
                                offset_from: observance.tzoffset_from,
                                offset_to: observance.tzoffset_to,
                            },
                    ),
                    unsorted@ == before + new_ts.subrange(0, j as int),
                    fixed.wf(),
                    raw_starts(fixed, 1970, 2100) == obs_raw_starts(*observance),
                    fixed.offset_from == observance.tzoffset_from,
                    fixed.offset_to == observance.tzoffset_to,
                    emb_wf(unsorted@),
                decreases starts@.len() - j,
            {
                let t = Transition {
                    local_start: starts[j],
                    offset_from: fixed.offset_from,
                    offset_to: fixed.offset_to,
                };
                unsorted.push(t);
                proof {
                    assert(new_ts.subrange(0, j as int + 1) =~= new_ts.subrange(0, j as int).push(
                        t,
                    ));
                    assert(unsorted@ =~= before + new_ts.subrange(0, j as int + 1));
                }
                j = j + 1;
            }
            proof {
                assert(new_ts.subrange(0, new_ts.len() as int) =~= new_ts);
                let t = obs.subrange(0, k as int + 1);
                assert(t.drop_last() =~= obs.subrange(0, k as int));
                assert(t.last() == obs[k as int]);
                assert(starts@.contains(fixed.dtstart));
            }
            k = k + 1;
        }
        proof {
            assert(obs.subrange(0, obs.len() as int) =~= obs);
        }
        // stable insertion sort by start
        let mut sorted: Vec<Transition> = Vec::new();
        let mut i: usize = 0;
        while i < unsorted.len()
            invariant
                i <= unsorted@.len(),
                sorted@ == sort_by_start(unsorted@.subrange(0, i as int)),
                emb_wf(unsorted@),
                forall|k: int| 0 <= k < sorted@.len() ==> unsorted@.contains(#[trigger] sorted@[k]),
            decreases unsorted@.len() - i,
        {
            let t = unsorted[i];
            let p = scan_le_exec(&sorted, t.local_start);
            proof {
                lemma_scan_le(sorted@, t.local_start as int, 0);
                lemma_insert_keeps(sorted@, t, p as int);
                let s = unsorted@.subrange(0, i as int + 1);
                assert(s.drop_last() =~= unsorted@.subrange(0, i as int));
                assert(s.last() == t);
                assert(unsorted@.contains(t));
            }
            sorted.insert(p, t);
            i = i + 1;
        }
        proof {
            assert(unsorted@.subrange(0, unsorted@.len() as int) =~= unsorted@);
            assert forall|k: int| 0 <= k < sorted@.len() implies {
                &&& valid_offset((#[trigger] sorted@[k]).offset_from as int)
                &&& valid_offset(sorted@[k].offset_to as int)
            } by {
                assert(unsorted@.contains(sorted@[k]));
            }
        }
        Some(EmbeddedTimeZone { transitions: sorted })
    }
}

// ---------------------------------------------------------------------------------------------
// Resolving wall-clock times in an embedded time zone
// ---------------------------------------------------------------------------------------------

/// The offset that holds at a wall-clock time outside any gap or fold: before the first
/// transition the offset it leaves, else the offset that the last transition at or before the
/// time enters; none for a zone without transitions.
pub open spec fn emb_base_offset(ts: Seq<Transition>, local: int) -> Option<int> {
    let idx = scan_le(ts, local, 0);
    if ts.len() > 0 && local < ts[0].local_start {
        Some(ts[0].offset_from as int)
    } else if idx > 0 {
        Some(ts[idx - 1].offset_to as int)
    } else {
        None
    }
}

/// The size of the jump that a transition makes: positive for a gap, negative for a fold.
pub open spec fn jump(t: Transition) -> int {
    t.offset_to - t.offset_from
}

/// How a wall-clock time maps to instants in an embedded zone: a gap after a transition that
/// moves the clock forward, both instants in the fold before a transition that moves it back,
/// and else the single instant at the offset that holds.
pub open spec fn emb_resolve_local(ts: Seq<Transition>, local: int) -> LocalMapping {
    let idx = scan_le(ts, local, 0);
    match emb_base_offset(ts, local) {
        None => LocalMapping::Gap,
        Some(base) => if idx > 0 && jump(ts[idx - 1]) > 0 && ts[idx - 1].local_start <= local
            < ts[idx - 1].local_start + jump(ts[idx - 1]) {
            LocalMapping::Gap
        } else if idx < ts.len() && jump(ts[idx]) < 0 && ts[idx].local_start + jump(ts[idx])
            <= local < ts[idx].local_start {
            LocalMapping::Ambiguous(
                ResolvedDateTime::at(local, ts[idx].offset_from as int),
                ResolvedDateTime::at(local, ts[idx].offset_to as int),
            )
        } else {
            LocalMapping::Single(ResolvedDateTime::at(local, base))
        },
    }
}

impl EmbeddedTimeZone {
    /// How a wall-clock time maps to instants in this zone.
    pub fn resolve_local(&self, local: i64) -> (r: LocalMapping)
        requires
            emb_wf(self.view()),
            in_range(local as int),
        ensures
            r == emb_resolve_local(self.view(), local as int),
    {
        let ts = &self.transitions;
        let idx = scan_le_exec(ts, local);
        proof {
            lemma_scan_le(ts@, local as int, 0);
        }
        let base: i32 = if ts.len() > 0 && local < ts[0].local_start {
            ts[0].offset_from
        } else if idx > 0 {
            ts[idx - 1].offset_to
        } else {
            return LocalMapping::Gap;
        };
        if idx > 0 {
            let prev = ts[idx - 1];
            let gap = prev.offset_to as i128 - prev.offset_from as i128;
            if gap > 0 && prev.local_start <= local && (local as i128) < prev.local_start as i128
                + gap {
                return LocalMapping::Gap;
            }
        }
        if idx < ts.len() {
            let next = ts[idx];
            let gap = next.offset_to as i128 - next.offset_from as i128;
            if gap < 0 && next.local_start as i128 + gap <= local as i128 && local
                < next.local_start {
                return LocalMapping::Ambiguous(
                    ResolvedDateTime::fixed(local, next.offset_from),
                    ResolvedDateTime::fixed(local, next.offset_to),
                );
            }
        }
        LocalMapping::Single(ResolvedDateTime::fixed(local, base))
    }
}

/// Every offset of the transitions, the one each leaves and then the one it enters, in order.
pub open spec fn offsets_of(ts: Seq<Transition>) -> Seq<i32>
    decreases ts.len(),
{
    if ts.len() == 0 {
        seq![]
    } else {
        offsets_of(ts.drop_last()) + seq![ts.last().offset_from, ts.last().offset_to]
    }
}

/// The values of a sequence, each at its first occurrence.
pub open spec fn uniq(s: Seq<i32>) -> Seq<i32>
    decreases s.len(),
{
    if s.len() == 0 {
        seq![]
    } else {
        let u = uniq(s.drop_last());
        if u.contains(s.last()) {
            u
        } else {
            u.push(s.last())
        }
    }
}

/// Every distinct offset that occurs in an embedded zone, in the order of first occurrence.
pub open spec fn emb_offsets(ts: Seq<Transition>) -> Seq<i32> {
    uniq(offsets_of(ts))
}

/// Whether a mapping of a wall-clock time yields the given instant.
pub open spec fn maps_to(m: LocalMapping, instant: int) -> bool {
    match m {
        LocalMapping::Single(c) => c.utc == instant,
        LocalMapping::Ambiguous(e, l) => e.utc == instant || l.utc == instant,
        LocalMapping::Gap => false,
    }
}

/// The position, from `i` on, of the first offset at which the wall-clock time of the instant
/// maps back to it.
pub open spec fn first_match_from(ts: Seq<Transition>, offs: Seq<i32>, utc: int, i: int) -> Option<
    int,
>
    decreases offs.len() - i,
{
    if i < 0 || i >= offs.len() {
        None
    } else if maps_to(emb_resolve_local(ts, utc + offs[i]), utc) {
        Some(i)
    } else {
        first_match_from(ts, offs, utc, i + 1)
    }
}

/// The greatest value of a sequence, none for an empty one.
pub open spec fn max_of(s: Seq<i32>) -> Option<int>
    decreases s.len(),
{
    if s.len() == 0 {
        None
    } else {
        match max_of(s.drop_last()) {
            None => Some(s.last() as int),
            Some(m) => Some(
                if s.last() > m {
                    s.last() as int
                } else {
                    m
                },
            ),
        }
    }
}

/// The wall-clock time of an instant in an embedded zone: at the first of its offsets whose
/// wall-clock time maps back to the instant; failing that at its greatest offset, and in a zone
/// without offsets the UTC time.
pub open spec fn emb_localize(ts: Seq<Transition>, utc: int) -> int {
    let offs = emb_offsets(ts);
    match first_match_from(ts, offs, utc, 0) {
        Some(i) => utc + offs[i],
        None => match max_of(offs) {
            Some(m) => utc + m,
            None => utc,
        },
    }
}

proof fn lemma_first_match(ts: Seq<Transition>, offs: Seq<i32>, utc: int, k: int, i: int)
    requires
        0 <= k <= i <= offs.len(),
        forall|j: int| k <= j < i ==> !maps_to(emb_resolve_local(ts, utc + offs[j]), utc),
    ensures
        first_match_from(ts, offs, utc, k) == first_match_from(ts, offs, utc, i),
    decreases i - k,
{
    if k < i {
        lemma_first_match(ts, offs, utc, k + 1, i);
    }
}

/// Appends `x` unless the vector holds it already.
fn push_unique(v: &mut Vec<i32>, x: i32)
    ensures
        final(v)@ == (if old(v)@.contains(x) {
            old(v)@
        } else {
            old(v)@.push(x)
        }),
{
    let mut i: usize = 0;
    while i < v.len()
        invariant
            i <= v@.len(),
            forall|j: int| 0 <= j < i ==> v@[j] != x,
        decreases v@.len() - i,
    {
        if v[i] == x {
            return;
        }
        i = i + 1;
    }
    v.push(x);
}

impl EmbeddedTimeZone {
    /// Every distinct offset of this zone, in the order of first occurrence.
    fn all_offsets(&self) -> (r: Vec<i32>)
        requires
            emb_wf(self.view()),
        ensures
            r@ == emb_offsets(self.view()),
            forall|k: int| 0 <= k < r@.len() ==> valid_offset(#[trigger] r@[k] as int),
    {
        let ts = &self.transitions;
        let mut offs: Vec<i32> = Vec::new();
        let mut i: usize = 0;
        while i < ts.len()
            invariant
                i <= ts@.len(),
                emb_wf(ts@),
                offs@ == uniq(offsets_of(ts@.subrange(0, i as int))),
                forall|k: int| 0 <= k < offs@.len() ==> valid_offset(#[trigger] offs@[k] as int),
            decreases ts@.len() - i,
        {
            let t = ts[i];
            let ghost o = offsets_of(ts@.subrange(0, i as int));
            let ghost oa = o + seq![t.offset_from];
            let ghost oab = o + seq![t.offset_from, t.offset_to];
            proof {
                let sub = ts@.subrange(0, i as int + 1);
                assert(sub.drop_last() =~= ts@.subrange(0, i as int));
                assert(sub.last() == t);
                assert(offsets_of(sub) == oab);
                assert(oa.drop_last() =~= o);
                assert(oa.last() == t.offset_from);
                assert(oab.drop_last() =~= oa);
                assert(oab.last() == t.offset_to);
                assert(uniq(oa) == (if uniq(o).contains(t.offset_from) {
                    uniq(o)
                } else {
                    uniq(o).push(t.offset_from)
                }));
                assert(uniq(oab) == (if uniq(oa).contains(t.offset_to) {
                    uniq(oa)
                } else {
                    uniq(oa).push(t.offset_to)
                }));
            }
            push_unique(&mut offs, t.offset_from);
            assert(offs@ == uniq(oa));
            push_unique(&mut offs, t.offset_to);
            assert(offs@ == uniq(oab));
            i = i + 1;
        }
        proof {
            assert(ts@.subrange(0, ts@.len() as int) =~= ts@);
        }
        offs
    }

    /// The wall-clock time of an instant in this zone.
    pub fn localize_instant(&self, instant: ResolvedDateTime) -> (r: i64)
        requires
            emb_wf(self.view()),
            instant_range(instant.utc as int),
        ensures
            r == emb_localize(self.view(), instant.utc as int),
    {
        let utc = instant.utc;
        let offs = self.all_offsets();
        let ghost ts = self.view();
        let mut best: Option<i32> = None;
        let mut i: usize = 0;
        while i < offs.len()
            invariant
                i <= offs@.len(),
                offs@ == emb_offsets(ts),
                ts == self.view(),
                emb_wf(ts),
                utc == instant.utc,
                instant_range(utc as int),
                forall|k: int| 0 <= k < offs@.len() ==> valid_offset(#[trigger] offs@[k] as int),
                forall|j: int|
                    0 <= j < i ==> !maps_to(emb_resolve_local(ts, utc + offs@[j]), utc as int),
                match best {
                    None => max_of(offs@.subrange(0, i as int)) is None,
                    Some(b) => max_of(offs@.subrange(0, i as int)) == Some(b as int),
                },
            decreases offs@.len() - i,
        {
            let o = offs[i];
            let local = utc + o as i64;
            let m = self.resolve_local(local);
            let hit = match m {
                LocalMapping::Single(c) => c.utc == utc,
                LocalMapping::Ambiguous(e, l) => e.utc == utc || l.utc == utc,
                LocalMapping::Gap => false,
            };
            if hit {
                proof {
                    lemma_first_match(ts, offs@, utc as int, 0, i as int);
                }
                return local;
            }
            proof {
                let sub = offs@.subrange(0, i as int + 1);
                assert(sub.drop_last() =~= offs@.subrange(0, i as int));
                assert(sub.last() == o);
            }
            best = match best {
                None => Some(o),
                Some(b) => if o > b {
                    Some(o)
                } else {
                    Some(b)
                },
            };
            i = i + 1;
        }
        proof {
            lemma_first_match(ts, offs@, utc as int, 0, offs@.len() as int);
            assert(offs@.subrange(0, offs@.len() as int) =~= offs@);
        }
        match best {
            Some(b) => utc + b as i64,
            None => utc,
        }
    }
}

// ---------------------------------------------------------------------------------------------
// The resolver
// ---------------------------------------------------------------------------------------------

/// The compiled embedded zones of a calendar by id, in the calendar's order; zones that do not
/// compile are left out.
pub open spec fn compiled_zones(tzs: Seq<CalTimeZone>) -> Seq<(Seq<char>, Seq<Transition>)>
    decreases tzs.len(),
{
    if tzs.len() == 0 {
        seq![]
    } else {
        let prev = compiled_zones(tzs.drop_last());
        match compile_spec(tzs.last().observances@) {
            Some(ts) => prev.push((tzs.last().tzid@, ts)),
            None => prev,
        }
    }
}

/// The embedded zone of the given id; of several, the last one, as a map filled in order keeps
/// it.
pub open spec fn lookup(v: Seq<(Seq<char>, Seq<Transition>)>, name: Seq<char>) -> Option<
    Seq<Transition>,
>
    decreases v.len(),
{
    if v.len() == 0 {
        None
    } else if v.last().0 == name {
        Some(v.last().1)
    } else {
        lookup(v.drop_last(), name)
    }
}

/// How a wall-clock time maps to instants in the zone of the given id: by its embedded
/// definition, else by the zone of that name in the database, else in UTC.
pub open spec fn res_local(v: Seq<(Seq<char>, Seq<Transition>)>, name: Seq<char>, local: int) -> LocalMapping {
    match lookup(v, name) {
        Some(ts) => emb_resolve_local(ts, local),
        None => if tz_known(name) {
            tz_local_offsets(name, local).instants(local)
        } else {
            LocalMapping::Single(ResolvedDateTime::at(local, 0))
        },
    }
}

/// The instant of a mapping, the earlier one in a fold; none in a gap.
pub open spec fn earlier(m: LocalMapping) -> Option<ResolvedDateTime> {
    match m {
        LocalMapping::Single(d) => Some(d),
        LocalMapping::Ambiguous(e, _) => Some(e),
        LocalMapping::Gap => None,
    }
}

/// The offset of the latest wall-clock time before `local`, stepping back by whole minutes from
/// the `k`-th minute on and at most two days, that lies in no gap of the zone of the given id.
pub open spec fn res_gap_offset(v: Seq<(Seq<char>, Seq<Transition>)>, name: Seq<char>, local: int, k: int) -> Option<int>
    decreases 2881 - k,
{
    if k < 1 || k > 2880 {
        None
    } else {
        match earlier(res_local(v, name, local - 60 * k)) {
            Some(d) => Some(d.offset as int),
            None => res_gap_offset(v, name, local, k + 1),
        }
    }
}

/// A wall-clock time in the zone of the given id as one instant: the earlier one in a fold, and
/// in a gap the time at the offset before the gap.
pub open spec fn res_pre_gap(v: Seq<(Seq<char>, Seq<Transition>)>, name: Seq<char>, local: int) -> Option<ResolvedDateTime> {
    match earlier(res_local(v, name, local)) {
        Some(d) => Some(d),
        None => match res_gap_offset(v, name, local, 1) {
            Some(o) => Some(ResolvedDateTime::at(local, o)),
            None => None,
        },
    }
}

/// The offset of the latest wall-clock time before `local`, by whole minutes from the `k`-th
/// minute on and at most two days back, that lies in no gap of the database zone `name`.
pub open spec fn zone_gap_offset(name: Seq<char>, local: int, k: int) -> Option<int>
    decreases 2881 - k,
{
    if k < 1 || k > 2880 {
        None
    } else {
        match tz_local_offsets(name, local - 60 * k) {
            OffsetMapping::Single(o) => Some(o as int),
            OffsetMapping::Ambiguous(a, _) => Some(a as int),
            OffsetMapping::Gap => zone_gap_offset(name, local, k + 1),
        }
    }
}

/// A wall-clock time in the database zone `name` as one instant, chosen as in `res_pre_gap`.
pub open spec fn zone_pre_gap(name: Seq<char>, local: int) -> Option<ResolvedDateTime> {
    match earlier(tz_local_offsets(name, local).instants(local)) {
        Some(d) => Some(d),
        None => match zone_gap_offset(name, local, 1) {
            Some(o) => Some(ResolvedDateTime::at(local, o)),
            None => None,
        },
    }
}

/// The instant of a calendar datetime: UTC as it is, floating times in the fallback zone and
/// times with a time zone id in that zone; none where no offset before a gap is found.
pub open spec fn res_datetime(v: Seq<(Seq<char>, Seq<Transition>)>, dt: DateTimeView, fallback: Seq<char>) -> Option<ResolvedDateTime> {
    match dt {
        DateTimeView::Utc(t) => Some(ResolvedDateTime::at(t, 0)),
        DateTimeView::Floating(local) => zone_pre_gap(fallback, local),
        DateTimeView::Timezone(local, name) => res_pre_gap(v, name, local),
    }
}

/// The instant at which a calendar date starts: a day at its midnight in the fallback zone.
pub open spec fn res_date_start(v: Seq<(Seq<char>, Seq<Transition>)>, d: DateView, fallback: Seq<char>) -> Option<ResolvedDateTime> {
    match d {
        DateView::Date(day, _) => zone_pre_gap(fallback, day * 86400),
        DateView::DateTime(dt) => res_datetime(v, dt, fallback),
    }
}

/// The instant at which a calendar date ends: an exclusive day a second before its midnight, an
/// inclusive day at 23:59:59, both in the fallback zone.
pub open spec fn res_date_end(v: Seq<(Seq<char>, Seq<Transition>)>, d: DateView, fallback: Seq<char>) -> Option<ResolvedDateTime> {
    match d {
        DateView::Date(day, CalDateType::Exclusive) => match zone_pre_gap(fallback, day * 86400) {
            Some(m) => Some(ResolvedDateTime { utc: (m.utc - 1) as i64, offset: m.offset }),
            None => None,
        },
        DateView::Date(day, CalDateType::Inclusive) => zone_pre_gap(fallback, day * 86400 + 86399),
        DateView::DateTime(dt) => res_datetime(v, dt, fallback),
    }
}

/// Dates whose times resolution can probe around.
pub open spec fn date_near_range(d: DateView) -> bool {
    match d {
        DateView::Date(day, _) => near_range(day * 86400) && near_range(day * 86400 + 86399),
        DateView::DateTime(DateTimeView::Utc(t)) => near_range(t),
        DateView::DateTime(DateTimeView::Floating(t)) => near_range(t),
        DateView::DateTime(DateTimeView::Timezone(t, _)) => near_range(t),
    }
}

/// The wall-clock time of an instant in the zone of the given id.
pub open spec fn res_localize(v: Seq<(Seq<char>, Seq<Transition>)>, utc: int, name: Seq<char>) -> int {
    match lookup(v, name) {
        Some(ts) => emb_localize(ts, utc),
        None => if tz_known(name) {
            utc + tz_offset_at(name, utc)
        } else {
            utc
        },
    }
}

/// Resolves calendar dates and datetimes using embedded `VTIMEZONE` data when available.
///
/// This type is the boundary between unresolved calendar values and concrete instants. It
/// prefers valid embedded time zone definitions from the calendar itself and falls back to the
/// time zone database only when no usable embedded definition exists for a TZID.
#[derive(Debug)]
pub struct CalendarTimeZoneResolver {
    embedded: Vec<(String, EmbeddedTimeZone)>,
}

impl Default for CalendarTimeZoneResolver {
    fn default() -> (r: Self)
        ensures
            r.view().len() == 0,
    {
        CalendarTimeZoneResolver { embedded: Vec::new() }
    }
}

impl CalendarTimeZoneResolver {
    /// The compiled embedded zones by id, in the order they were found.
    pub closed spec fn view(&self) -> Seq<(Seq<char>, Seq<Transition>)> {
        self.embedded@.map_values(|e: (String, EmbeddedTimeZone)| (e.0@, e.1.view()))
    }

    #[verifier::type_invariant]
    spec fn offsets_valid(self) -> bool {
        forall|i: int| 0 <= i < self.embedded@.len() ==> emb_wf((#[trigger] self.embedded@[i]).1.view())
    }

    /// Builds a resolver for the given calendar.
    ///
    /// Embedded `VTIMEZONE` definitions are compiled once and kept in the returned resolver.
    /// When a time zone is not available as an embedded definition, resolution falls back to the
    /// database of `chrono-tz`.
    pub fn new(calendar: &Calendar) -> (r: Self)
        requires
            calendar.wf(),
        ensures
            r.view() == compiled_zones(calendar.timezones@),
    {
        let tzs = calendar.timezones();
        let mut embedded: Vec<(String, EmbeddedTimeZone)> = Vec::new();
        let mut i: usize = 0;
        while i < tzs.len()
            invariant
                calendar.wf(),
                tzs == &calendar.timezones,
                i <= tzs@.len(),
                embedded@.map_values(|e: (String, EmbeddedTimeZone)| (e.0@, e.1.view()))
                    == compiled_zones(tzs@.subrange(0, i as int)),
                forall|k: int| 0 <= k < embedded@.len() ==> emb_wf((#[trigger] embedded@[k]).1.view()),
            decreases tzs@.len() - i,
        {
            let tz = &tzs[i];
            assert(tz.wf());
            let ghost before = embedded@;
            proof {
                let sub = tzs@.subrange(0, i as int + 1);
                assert(sub.drop_last() =~= tzs@.subrange(0, i as int));
                assert(sub.last() == *tz);
            }
            match EmbeddedTimeZone::compile(tz) {
                Some(compiled) => {
                    let id = crate::text::to_string(tz.tzid.as_str());
                    embedded.push((id, compiled));
                    proof {
                        assert(embedded@.map_values(|e: (String, EmbeddedTimeZone)| (e.0@, e.1.view()))
                            =~= before.map_values(|e: (String, EmbeddedTimeZone)| (e.0@, e.1.view())).push((tz.tzid@, compiled.view())));
                    }
                },
                None => {},
            }
            i = i + 1;
        }
        proof {
            assert(tzs@.subrange(0, tzs@.len() as int) =~= tzs@);
        }
        CalendarTimeZoneResolver { embedded }
    }

    /// The embedded zone of the given id.
    fn lookup(&self, name: &str) -> (r: Option<&EmbeddedTimeZone>)
        ensures
            match r {
                Some(e) => lookup(self.view(), name@) == Some(e.view()) && emb_wf(e.view()),
                None => lookup(self.view(), name@) is None,
            },
    {
        proof {
            use_type_invariant(self);
        }
        let mut i: usize = self.embedded.len();
        proof {
            assert(self.view().subrange(0, i as int) =~= self.view());
        }
        while i > 0
            invariant
                i <= self.embedded@.len(),
                lookup(self.view(), name@) == lookup(self.view().subrange(0, i as int), name@),
                forall|k: int| 0 <= k < self.embedded@.len() ==> emb_wf((#[trigger] self.embedded@[k]).1.view()),
            decreases i,
        {
            let e = &self.embedded[i - 1];
            proof {
                let sub = self.view().subrange(0, i as int);
                assert(sub.drop_last() =~= self.view().subrange(0, i as int - 1));
                assert(sub.last() == (e.0@, e.1.view()));
            }
            if crate::text::str_eq(e.0.as_str(), name) {
                assert(emb_wf(self.embedded@[i - 1].1.view()));
                return Some(&e.1);
            }
            i = i - 1;
        }
        None
    }

    /// How a wall-clock time maps to instants in the zone of the given id.
    pub(crate) fn resolve_local(&self, tzid: &str, local: i64) -> (r: LocalMapping)
        requires
            in_range(local as int),
        ensures
            r == res_local(self.view(), tzid@, local as int),
            match r {
                LocalMapping::Single(d) => d.wf(),
                LocalMapping::Ambiguous(e, l) => e.wf() && l.wf(),
                LocalMapping::Gap => true,
            },
    {
        match self.lookup(tzid) {
            Some(tz) => {
                let r = tz.resolve_local(local);
                proof {
                    let ts = tz.view();
                    lemma_scan_le(ts, local as int, 0);
                }
                r
            },
            None => match named_local_offsets(tzid, local) {
                Some(OffsetMapping::Single(o)) => LocalMapping::Single(ResolvedDateTime::fixed(local, o)),
                Some(OffsetMapping::Ambiguous(a, b)) => LocalMapping::Ambiguous(
                    ResolvedDateTime::fixed(local, a),
                    ResolvedDateTime::fixed(local, b),
                ),
                Some(OffsetMapping::Gap) => LocalMapping::Gap,
                None => LocalMapping::Single(ResolvedDateTime::fixed(local, 0)),
            },
        }
    }
}

/// A wall-clock time in a database zone as its instant, the earlier one in a fold.
fn fixed_from_fallback_opt(zone: &Zone, local: i64) -> (r: Option<ResolvedDateTime>)
    requires
        in_range(local as int),
    ensures
        r == earlier(tz_local_offsets(zone.name_view(), local as int).instants(local as int)),
        r matches Some(d) ==> d.wf() && d.utc + d.offset == local,
{
    match zone.local_offsets(local) {
        OffsetMapping::Single(o) => Some(ResolvedDateTime::fixed(local, o)),
        OffsetMapping::Ambiguous(a, _) => Some(ResolvedDateTime::fixed(local, a)),
        OffsetMapping::Gap => None,
    }
}

/// The offset before a gap of a database zone, probing back minute by minute for two days.
fn zone_offset_before_gap(zone: &Zone, local: i64) -> (r: Option<i32>)
    requires
        near_range(local as int),
    ensures
        match r {
            Some(o) => zone_gap_offset(zone.name_view(), local as int, 1) == Some(o as int)
                && valid_offset(o as int),
            None => zone_gap_offset(zone.name_view(), local as int, 1) is None,
        },
{
    let mut k: i64 = 1;
    while k <= 2880
        invariant
            1 <= k <= 2881,
            near_range(local as int),
            zone_gap_offset(zone.name_view(), local as int, 1) == zone_gap_offset(
                zone.name_view(),
                local as int,
                k as int,
            ),
        decreases 2881 - k,
    {
        match zone.local_offsets(local - 60 * k) {
            OffsetMapping::Single(o) => {
                return Some(o);
            },
            OffsetMapping::Ambiguous(a, _) => {
                return Some(a);
            },
            OffsetMapping::Gap => {},
        }
        k = k + 1;
    }
    None
}

/// A wall-clock time in a database zone as one instant: the earlier one in a fold, and in a gap
/// the time at the offset before the gap; none where no such offset is found.
fn fixed_from_fallback(zone: &Zone, local: i64) -> (r: Option<ResolvedDateTime>)
    requires
        near_range(local as int),
    ensures
        r == zone_pre_gap(zone.name_view(), local as int),
        r matches Some(d) ==> d.wf() && d.utc + d.offset == local,
{
    match fixed_from_fallback_opt(zone, local) {
        Some(d) => Some(d),
        None => match zone_offset_before_gap(zone, local) {
            Some(o) => Some(ResolvedDateTime::fixed(local, o)),
            None => None,
        },
    }
}

impl CalendarTimeZoneResolver {
    /// The offset before a gap in the zone of the given id, probing back minute by minute for
    /// two days. RFC 5545 interprets times in gaps with the UTC offset before the gap.
    fn offset_before_gap(&self, tzid: &str, local: i64) -> (r: Option<i32>)
        requires
            near_range(local as int),
        ensures
            match r {
                Some(o) => res_gap_offset(self.view(), tzid@, local as int, 1) == Some(o as int)
                    && valid_offset(o as int),
                None => res_gap_offset(self.view(), tzid@, local as int, 1) is None,
            },
    {
        let mut k: i64 = 1;
        while k <= 2880
            invariant
                1 <= k <= 2881,
                near_range(local as int),
                res_gap_offset(self.view(), tzid@, local as int, 1) == res_gap_offset(
                    self.view(),
                    tzid@,
                    local as int,
                    k as int,
                ),
            decreases 2881 - k,
        {
            match self.resolve_local(tzid, local - 60 * k) {
                LocalMapping::Single(d) => {
                    return Some(d.offset);
                },
                LocalMapping::Ambiguous(e, _) => {
                    return Some(e.offset);
                },
                LocalMapping::Gap => {},
            }
            k = k + 1;
        }
        None
    }

    /// A wall-clock time in the zone of the given id as one instant.
    fn resolve_local_or_pre_gap(&self, tzid: &str, local: i64) -> (r: Option<ResolvedDateTime>)
        requires
            near_range(local as int),
        ensures
            r == res_pre_gap(self.view(), tzid@, local as int),
            r matches Some(d) ==> d.wf(),
    {
        match self.resolve_local(tzid, local) {
            LocalMapping::Single(d) => Some(d),
            LocalMapping::Ambiguous(e, _) => Some(e),
            LocalMapping::Gap => match self.offset_before_gap(tzid, local) {
                Some(o) => Some(ResolvedDateTime::fixed(local, o)),
                None => None,
            },
        }
    }

    fn resolve_datetime_opt(&self, dt: &CalDateTime, fallback: &Zone) -> (r: Option<
        ResolvedDateTime,
    >)
        requires
            date_near_range(DateView::DateTime(dt.view())),
        ensures
            r == res_datetime(self.view(), dt.view(), fallback.name_view()),
            r matches Some(d) ==> d.wf(),
    {
        match dt {
            CalDateTime::Utc(t) => Some(ResolvedDateTime::fixed(*t, 0)),
            CalDateTime::Floating(local) => fixed_from_fallback(fallback, *local),
            CalDateTime::Timezone(local, tzid) => self.resolve_local_or_pre_gap(
                tzid.as_str(),
                *local,
            ),
        }
    }

    /// Resolves a calendar datetime into a concrete instant.
    ///
    /// UTC values keep their instant, floating values are interpreted in the fallback zone, and
    /// `TZID` values are resolved against embedded `VTIMEZONE` data or the database when no
    /// embedded definition exists. Times in a gap take the offset before the gap.
    pub fn resolve_datetime(&self, dt: &CalDateTime, fallback: &Zone) -> (r: ResolvedDateTime)
        requires
            date_near_range(DateView::DateTime(dt.view())),
            res_datetime(self.view(), dt.view(), fallback.name_view()) is Some,
        ensures
            Some(r) == res_datetime(self.view(), dt.view(), fallback.name_view()),
            r.wf(),
    {
        self.resolve_datetime_opt(dt, fallback).unwrap()
    }

    /// Resolves a calendar datetime as `resolve_datetime` does, or gives none where no offset
    /// before a gap is found two days back.
    pub fn try_resolve_datetime(&self, dt: &CalDateTime, fallback: &Zone) -> (r: Option<
        ResolvedDateTime,
    >)
        requires
            date_near_range(DateView::DateTime(dt.view())),
        ensures
            r == res_datetime(self.view(), dt.view(), fallback.name_view()),
            r matches Some(d) ==> d.wf(),
    {
        match self.resolve_datetime_opt(dt, fallback) {
            Some(_) => Some(self.resolve_datetime(dt, fallback)),
            None => None,
        }
    }

    fn resolve_date_start_opt(&self, date: &CalDate, fallback: &Zone) -> (r: Option<
        ResolvedDateTime,
    >)
        requires
            date_near_range(date.view()),
        ensures
            r == res_date_start(self.view(), date.view(), fallback.name_view()),
            r matches Some(d) ==> d.wf(),
    {
        match date {
            CalDate::Date(day, _) => fixed_from_fallback(fallback, *day * 86400),
            CalDate::DateTime(dt) => self.resolve_datetime_opt(dt, fallback),
        }
    }

    /// Resolves the start instant represented by the given calendar date.
    ///
    /// `DATE` values are interpreted at local midnight in the fallback zone. `DATE-TIME` values
    /// are resolved according to their own time zone semantics, using the fallback zone for
    /// floating values.
    pub fn resolve_date_start(&self, date: &CalDate, fallback: &Zone) -> (r: ResolvedDateTime)
        requires
            date_near_range(date.view()),
            res_date_start(self.view(), date.view(), fallback.name_view()) is Some,
        ensures
            Some(r) == res_date_start(self.view(), date.view(), fallback.name_view()),
            r.wf(),
    {
        self.resolve_date_start_opt(date, fallback).unwrap()
    }

    /// Resolves the start of a date as `resolve_date_start` does, or gives none where no offset
    /// before a gap is found two days back.
    pub fn try_resolve_date_start(&self, date: &CalDate, fallback: &Zone) -> (r: Option<
        ResolvedDateTime,
    >)
        requires
            date_near_range(date.view()),
        ensures
            r == res_date_start(self.view(), date.view(), fallback.name_view()),
            r matches Some(d) ==> d.wf(),
    {
        match self.resolve_date_start_opt(date, fallback) {
            Some(_) => Some(self.resolve_date_start(date, fallback)),
            None => None,
        }
    }

    fn resolve_date_end_opt(&self, date: &CalDate, fallback: &Zone) -> (r: Option<
        ResolvedDateTime,
    >)
        requires
            date_near_range(date.view()),
        ensures
            r == res_date_end(self.view(), date.view(), fallback.name_view()),
            r matches Some(d) ==> d.wf(),
    {
        match date {
            CalDate::Date(day, CalDateType::Exclusive) => match fixed_from_fallback(
                fallback,
                *day * 86400,
            ) {
                Some(m) => Some(ResolvedDateTime { utc: m.utc - 1, offset: m.offset }),
                None => None,
            },
            CalDate::Date(day, CalDateType::Inclusive) => fixed_from_fallback(
                fallback,
                *day * 86400 + 86399,
            ),
            CalDate::DateTime(dt) => self.resolve_datetime_opt(dt, fallback),
        }
    }

    /// Resolves the end instant represented by the given calendar date.
    ///
    /// Exclusive `DATE` values resolve to the last second of the previous day, inclusive `DATE`
    /// values resolve to `23:59:59`, and `DATE-TIME` values are resolved according to their own
    /// time zone semantics.
    pub fn resolve_date_end(&self, date: &CalDate, fallback: &Zone) -> (r: ResolvedDateTime)
        requires
            date_near_range(date.view()),
            res_date_end(self.view(), date.view(), fallback.name_view()) is Some,
        ensures
            Some(r) == res_date_end(self.view(), date.view(), fallback.name_view()),
            r.wf(),
    {
        self.resolve_date_end_opt(date, fallback).unwrap()
    }

    /// Resolves the end of a date as `resolve_date_end` does, or gives none where no offset
    /// before a gap is found two days back.
    pub fn try_resolve_date_end(&self, date: &CalDate, fallback: &Zone) -> (r: Option<
        ResolvedDateTime,
    >)
        requires
            date_near_range(date.view()),
        ensures
            r == res_date_end(self.view(), date.view(), fallback.name_view()),
            r matches Some(d) ==> d.wf(),
    {
        match self.resolve_date_end_opt(date, fallback) {
            Some(_) => Some(self.resolve_date_end(date, fallback)),
            None => None,
        }
    }

    /// Converts the start of a calendar date into a pseudo-local recurrence seed: the seconds of
    /// its wall-clock fields as if they were UTC. UTC datetimes keep their instant.
    pub fn pseudo_local_date_start(&self, date: &CalDate, fallback: &Zone) -> (r: i64)
        requires
            date.wf(),
        ensures
            r == (match date.view() {
                DateView::Date(day, _) => day * 86400,
                DateView::DateTime(DateTimeView::Utc(t)) => t,
                DateView::DateTime(DateTimeView::Floating(t)) => t,
                DateView::DateTime(DateTimeView::Timezone(t, _)) => t,
            }),
    {
        match date {
            CalDate::Date(day, _) => *day * 86400,
            CalDate::DateTime(CalDateTime::Utc(t)) => *t,
            CalDate::DateTime(CalDateTime::Floating(t)) => *t,
            CalDate::DateTime(CalDateTime::Timezone(t, _)) => *t,
        }
    }

    /// Resolves a pseudo-local recurrence datetime into a concrete instant: its fields are
    /// wall-clock values in the zone of the given id, or else in the fallback zone. Times in a
    /// gap give none; in a fold the earlier instant.
    pub fn resolve_pseudo_local(&self, pseudo: i64, tzid: Option<&str>, fallback: &Zone) -> (r:
        Option<ResolvedDateTime>)
        requires
            in_range(pseudo as int),
        ensures
            r == (match tzid {
                Some(name) => earlier(res_local(self.view(), name@, pseudo as int)),
                None => earlier(
                    tz_local_offsets(fallback.name_view(), pseudo as int).instants(pseudo as int),
                ),
            }),
    {
        match tzid {
            Some(name) => match self.resolve_local(name, pseudo) {
                LocalMapping::Single(d) => Some(d),
                LocalMapping::Ambiguous(e, _) => Some(e),
                LocalMapping::Gap => None,
            },
            None => fixed_from_fallback_opt(fallback, pseudo),
        }
    }

    /// The wall-clock time of an instant in the zone of the given id.
    fn localize_in_timezone(&self, instant: ResolvedDateTime, tzid: &str) -> (r: i64)
        requires
            instant_range(instant.utc as int),
        ensures
            r == res_localize(self.view(), instant.utc as int, tzid@),
            in_range(r as int),
            lookup(self.view(), tzid@) is None && tz_known(tzid@) ==> zone_runs_back(tzid@, instant.utc as int),
    {
        match self.lookup(tzid) {
            Some(tz) => {
                let r = tz.localize_instant(instant);
                proof {
                    lemma_localize_in_range(tz.view(), instant.utc as int);
                }
                r
            },
            None => match named_offset_at(tzid, instant.utc) {
                Some(o) => instant.utc + o as i64,
                None => instant.utc,
            },
        }
    }

    /// Converts a concrete instant back into a wall-clock time in the zone of the given id, or
    /// else in the fallback zone.
    pub fn instant_to_local(&self, instant: ResolvedDateTime, tzid: Option<&str>, fallback: &Zone) -> (r: i64)
        requires
            instant_range(instant.utc as int),
        ensures
            r == (match tzid {
                Some(name) => res_localize(self.view(), instant.utc as int, name@),
                None => instant.utc + tz_offset_at(fallback.name_view(), instant.utc as int),
            }),
            in_range(r as int),
            match tzid {
                Some(name) => (lookup(self.view(), name@) is None && tz_known(name@)) ==> maps_to(
                    res_local(self.view(), name@, r as int),
                    instant.utc as int,
                ),
                None => maps_to(
                    tz_local_offsets(fallback.name_view(), r as int).instants(r as int),
                    instant.utc as int,
                ),
            },
    {
        match tzid {
            Some(name) => {
                let r = self.localize_in_timezone(instant, name);
                proof {
                    if lookup(self.view(), name@) is None && tz_known(name@) {
                        lemma_zone_runs_back(name@, instant.utc as int);
                    }
                }
                r
            },
            None => {
                let r = instant.utc + fallback.offset_at(instant.utc) as i64;
                proof {
                    lemma_zone_runs_back(fallback.name_view(), instant.utc as int);
                }
                r
            },
        }
    }

    /// Whether the given wall-clock time falls into a fold in the zone of the given id.
    pub fn is_fold_local_time(&self, tzid: &str, local: i64) -> (r: bool)
        requires
            in_range(local as int),
        ensures
            r == (res_local(self.view(), tzid@, local as int) is Ambiguous),
    {
        match self.resolve_local(tzid, local) {
            LocalMapping::Ambiguous(_, _) => true,
            _ => false,
        }
    }

    /// Whether this instant maps to a folded wall-clock time in the zone of the given id.
    pub fn instant_is_fold_local_time(&self, instant: ResolvedDateTime, tzid: &str) -> (r: bool)
        requires
            instant_range(instant.utc as int),
        ensures
            r == (res_local(
                self.view(),
                tzid@,
                res_localize(self.view(), instant.utc as int, tzid@),
            ) matches LocalMapping::Ambiguous(e, l) && (e.utc == instant.utc || l.utc
                == instant.utc)),
    {
        let local = self.localize_in_timezone(instant, tzid);
        match self.resolve_local(tzid, local) {
            LocalMapping::Ambiguous(e, l) => e.utc == instant.utc || l.utc == instant.utc,
            _ => false,
        }
    }
}

/// The wall-clock time of an instant in an embedded zone lies within a day of it.
proof fn lemma_localize_in_range(ts: Seq<Transition>, utc: int)
    requires
        emb_wf(ts),
        instant_range(utc),
    ensures
        in_range(emb_localize(ts, utc)),
{
    let offs = emb_offsets(ts);
    lemma_offsets_valid(ts);
    match first_match_from(ts, offs, utc, 0) {
        Some(i) => {
            lemma_first_match_bounds(ts, offs, utc, 0);
            assert(valid_offset(offs[i] as int));
        },
        None => {
            lemma_max_of(offs);
        },
    }
}

proof fn lemma_first_match_bounds(ts: Seq<Transition>, offs: Seq<i32>, utc: int, i: int)
    requires
        0 <= i,
    ensures
        first_match_from(ts, offs, utc, i) matches Some(j) ==> i <= j < offs.len(),
    decreases offs.len() - i,
{
    if i < offs.len() {
        lemma_first_match_bounds(ts, offs, utc, i + 1);
    }
}

proof fn lemma_max_of(s: Seq<i32>)
    ensures
        max_of(s) matches Some(m) ==> exists|i: int| 0 <= i < s.len() && s[i] == m,
    decreases s.len(),
{
    if s.len() > 0 {
        lemma_max_of(s.drop_last());
        if let Some(m) = max_of(s.drop_last()) {
            let i = choose|i: int| 0 <= i < s.drop_last().len() && s.drop_last()[i] == m;
            assert(s[i] == m);
        }
        assert(s[s.len() - 1] == s.last());
    }
}

/// The offsets of a zone with valid offsets are valid.
proof fn lemma_offsets_valid(ts: Seq<Transition>)
    requires
        emb_wf(ts),
    ensures
        forall|k: int| 0 <= k < emb_offsets(ts).len() ==> valid_offset(#[trigger] emb_offsets(ts)[k] as int),
{
    lemma_offsets_of_valid(ts);
    lemma_uniq_subset(offsets_of(ts));
}

proof fn lemma_offsets_of_valid(ts: Seq<Transition>)
    requires
        emb_wf(ts),
    ensures
        forall|k: int| 0 <= k < offsets_of(ts).len() ==> valid_offset(#[trigger] offsets_of(ts)[k] as int),
    decreases ts.len(),
{
    if ts.len() > 0 {
        let p = ts.drop_last();
        assert(emb_wf(p)) by {
            assert forall|i: int| 0 <= i < p.len() implies valid_offset((#[trigger] p[i]).offset_from as int) && valid_offset(p[i].offset_to as int) by {
                assert(p[i] == ts[i]);
            }
        }
        lemma_offsets_of_valid(p);
        let last = ts[ts.len() - 1];
        assert(valid_offset(last.offset_from as int) && valid_offset(last.offset_to as int));
        let o = offsets_of(ts);
        assert forall|k: int| 0 <= k < o.len() implies valid_offset(#[trigger] o[k] as int) by {
            if k < offsets_of(p).len() {
                assert(o[k] == offsets_of(p)[k]);
            }
        }
    }
}

proof fn lemma_uniq_subset(s: Seq<i32>)
    ensures
        forall|k: int| 0 <= k < uniq(s).len() ==> s.contains(#[trigger] uniq(s)[k]),
    decreases s.len(),
{
    if s.len() > 0 {
        let p = s.drop_last();
        lemma_uniq_subset(p);
        let u = uniq(s);
        assert forall|k: int| 0 <= k < u.len() implies s.contains(#[trigger] u[k]) by {
            if k < uniq(p).len() {
                assert(u[k] == uniq(p)[k]);
                let j = choose|j: int| 0 <= j < p.len() && p[j] == u[k];
                assert(s[j] == u[k]);
            } else {
                assert(s[s.len() - 1] == u[k]);
            }
        }
    }
}

/// An exclusive day ends one second before it starts, at the offset it starts with; an
/// inclusive day ends at 23:59:59 of the same day.
pub proof fn lemma_day_end(v: Seq<(Seq<char>, Seq<Transition>)>, day: int, ty: CalDateType, fb: Seq<char>)
    ensures
        res_date_end(v, DateView::Date(day, CalDateType::Exclusive), fb) == match res_date_start(
            v,
            DateView::Date(day, ty),
            fb,
        ) {
            Some(s) => Some(ResolvedDateTime { utc: (s.utc - 1) as i64, offset: s.offset }),
            None => None,
        },
        res_date_end(v, DateView::Date(day, CalDateType::Inclusive), fb) == zone_pre_gap(
            fb,
            day * 86400 + 86399,
        ),
{
}

/// Where the clock of a database zone runs back at an instant, the wall-clock time of the instant
/// there maps back to it.
pub proof fn lemma_zone_runs_back(name: Seq<char>, utc: int)
    requires
        zone_runs_back(name, utc),
        i64::MIN <= utc <= i64::MAX,
    ensures
        maps_to(
            tz_local_offsets(name, utc + tz_offset_at(name, utc)).instants(utc + tz_offset_at(name, utc)),
            utc,
        ),
{
}

/// In a database zone (an id without an embedded definition that the database knows), the
/// wall-clock time of an instant at which the zone's clock runs back (as `Zone::offset_at` and
/// `instant_to_local` show of every instant they are asked) resolves back to that instant: as it
/// is where the instant is single or the earlier one of a fold, and as the later instant of a
/// fold otherwise.
pub proof fn lemma_db_instant_to_local_resolves_back(v: Seq<(Seq<char>, Seq<Transition>)>, name: Seq<char>, utc: int, fb: Seq<char>)
    requires
        lookup(v, name) is None,
        tz_known(name),
        zone_runs_back(name, utc),
        i64::MIN <= utc <= i64::MAX,
    ensures
        maps_to(res_local(v, name, res_localize(v, utc, name)), utc),
        res_datetime(v, DateTimeView::Timezone(res_localize(v, utc, name), name), fb) matches Some(r)
            && (r.utc == utc || (res_local(v, name, res_localize(v, utc, name)) matches LocalMapping::Ambiguous(
            _,
            l,
        ) && l.utc == utc)),
{
    lemma_zone_runs_back(name, utc);
}

/// A datetime ends where it starts: at the instant it resolves to.
pub proof fn lemma_datetime_end(v: Seq<(Seq<char>, Seq<Transition>)>, dt: DateTimeView, fb: Seq<char>)
    ensures
        res_date_end(v, DateView::DateTime(dt), fb) == res_date_start(v, DateView::DateTime(dt), fb),
        res_date_start(v, DateView::DateTime(dt), fb) == res_datetime(v, dt, fb),
{
}

/// Before a gap, a zone without an embedded definition steps back as a resolver without embedded
/// zones does.
proof fn lemma_gap_offset_unembedded(v: Seq<(Seq<char>, Seq<Transition>)>, name: Seq<char>, local: int, k: int)
    requires
        lookup(v, name) is None,
    ensures
        res_gap_offset(v, name, local, k) == res_gap_offset(seq![], name, local, k),
    decreases 2881 - k,
{
    if 1 <= k <= 2880 {
        lemma_gap_offset_unembedded(v, name, local, k + 1);
    }
}

/// A resolver resolves every zone id without an embedded definition as a resolver without
/// embedded zones (the default one) does: wall-clock times, datetimes and dates alike, and the
/// wall-clock times of instants.
pub proof fn lemma_unembedded_as_default(v: Seq<(Seq<char>, Seq<Transition>)>, name: Seq<char>, local: int, utc: int, fb: Seq<char>)
    requires
        lookup(v, name) is None,
    ensures
        res_local(v, name, local) == res_local(seq![], name, local),
        res_localize(v, utc, name) == res_localize(seq![], utc, name),
        res_datetime(v, DateTimeView::Timezone(local, name), fb) == res_datetime(
            seq![],
            DateTimeView::Timezone(local, name),
            fb,
        ),
        res_date_start(v, DateView::DateTime(DateTimeView::Timezone(local, name)), fb)
            == res_date_start(seq![], DateView::DateTime(DateTimeView::Timezone(local, name)), fb),
        res_date_end(v, DateView::DateTime(DateTimeView::Timezone(local, name)), fb)
            == res_date_end(seq![], DateView::DateTime(DateTimeView::Timezone(local, name)), fb),
{
    lemma_gap_offset_unembedded(v, name, local, 1);
}

/// Resolving the pseudo-local seed of a date's start gives back where the date starts, except in
/// a gap, which gives none: a datetime in a zone by that zone, a day in the fallback zone.
pub proof fn lemma_pseudo_local_round_trip(v: Seq<(Seq<char>, Seq<Transition>)>, local: int, name: Seq<char>, day: int, ty: CalDateType, fb: Seq<char>)
    ensures
        earlier(res_local(v, name, local)) == if res_local(v, name, local) is Gap {
            None
        } else {
            res_date_start(v, DateView::DateTime(DateTimeView::Timezone(local, name)), fb)
        },
        earlier(tz_local_offsets(fb, day * 86400).instants(day * 86400)) == if tz_local_offsets(
            fb,
            day * 86400,
        ).instants(day * 86400) is Gap {
            None
        } else {
            res_date_start(v, DateView::Date(day, ty), fb)
        },
{
}

/// In a zone with an embedded definition, the wall-clock time of an instant that some wall-clock
/// time resolves to resolves back to that instant: as it is where the instant is single or the
/// earlier one of a fold, and as the later instant of a fold otherwise.
pub proof fn lemma_instant_to_local_resolves_back(v: Seq<(Seq<char>, Seq<Transition>)>, name: Seq<char>, local: int, utc: int, fb: Seq<char>)
    requires
        lookup(v, name) matches Some(ts) && emb_wf(ts),
        in_range(local),
        maps_to(res_local(v, name, local), utc),
    ensures
        maps_to(res_local(v, name, res_localize(v, utc, name)), utc),
        res_datetime(v, DateTimeView::Timezone(res_localize(v, utc, name), name), fb) matches Some(r)
            && (r.utc == utc || (res_local(v, name, res_localize(v, utc, name)) matches LocalMapping::Ambiguous(
            _,
            l,
        ) && l.utc == utc)),
{
    let ts = lookup(v, name)->0;
    lemma_localize_resolves_back(ts, local);
}

/// A first match exists from `k` on when some offset from `k` on matches.
proof fn lemma_first_match_found(ts: Seq<Transition>, offs: Seq<i32>, utc: int, k: int, i: int)
    requires
        0 <= k <= i < offs.len(),
        maps_to(emb_resolve_local(ts, utc + offs[i]), utc),
    ensures
        first_match_from(ts, offs, utc, k) matches Some(j) && k <= j < offs.len() && maps_to(
            emb_resolve_local(ts, utc + offs[j]),
            utc,
        ),
    decreases i - k,
{
    if k < i && !maps_to(emb_resolve_local(ts, utc + offs[k]), utc) {
        lemma_first_match_found(ts, offs, utc, k + 1, i);
    }
}

/// The distinct values keep every value.
proof fn lemma_uniq_keeps(s: Seq<i32>, x: i32)
    requires
        s.contains(x),
    ensures
        uniq(s).contains(x),
    decreases s.len(),
{
    let p = s.drop_last();
    if p.contains(x) {
        lemma_uniq_keeps(p, x);
        let u = uniq(p);
        let j = choose|j: int| 0 <= j < u.len() && u[j] == x;
        if !u.contains(s.last()) {
            assert(u.push(s.last())[j] == x);
        }
    } else {
        let j = choose|j: int| 0 <= j < s.len() && s[j] == x;
        if j < p.len() {
            assert(p[j] == x);
        }
        assert(s.last() == x);
        let u = uniq(p);
        if !u.contains(x) {
            assert(u.push(x)[u.len() as int] == x);
        }
    }
}

/// Both offsets of every transition are offsets of the zone.
proof fn lemma_transition_offsets(ts: Seq<Transition>, i: int)
    requires
        0 <= i < ts.len(),
    ensures
        offsets_of(ts).contains(ts[i].offset_from),
        offsets_of(ts).contains(ts[i].offset_to),
    decreases ts.len(),
{
    let p = ts.drop_last();
    let o = offsets_of(ts);
    assert(o == offsets_of(p) + seq![ts.last().offset_from, ts.last().offset_to]);
    if i < p.len() {
        lemma_transition_offsets(p, i);
        let a = choose|a: int| 0 <= a < offsets_of(p).len() && offsets_of(p)[a] == ts[i].offset_from;
        let b = choose|b: int| 0 <= b < offsets_of(p).len() && offsets_of(p)[b] == ts[i].offset_to;
        assert(p[i] == ts[i]);
        assert(o[a] == ts[i].offset_from);
        assert(o[b] == ts[i].offset_to);
    } else {
        assert(o[offsets_of(p).len() as int] == ts[i].offset_from);
        assert(o[offsets_of(p).len() as int + 1] == ts[i].offset_to);
    }
}

/// An offset of the zone maps an instant at it back to the instant.
proof fn lemma_localize_finds(ts: Seq<Transition>, utc: int, o: i32)
    requires
        emb_offsets(ts).contains(o),
        maps_to(emb_resolve_local(ts, utc + o), utc),
    ensures
        maps_to(emb_resolve_local(ts, emb_localize(ts, utc)), utc),
{
    let offs = emb_offsets(ts);
    let i = choose|i: int| 0 <= i < offs.len() && offs[i] == o;
    lemma_first_match_found(ts, offs, utc, 0, i);
}

/// Localizing the instants that a wall-clock time resolves to in an embedded zone, and resolving
/// the wall-clock time found, gives each of them back: a single instant, and both instants of a
/// fold.
pub proof fn lemma_localize_resolves_back(ts: Seq<Transition>, local: int)
    requires
        in_range(local),
        emb_wf(ts),
    ensures
        match emb_resolve_local(ts, local) {
            LocalMapping::Single(d) => maps_to(
                emb_resolve_local(ts, emb_localize(ts, d.utc as int)),
                d.utc as int,
            ),
            LocalMapping::Ambiguous(e, l) => maps_to(
                emb_resolve_local(ts, emb_localize(ts, e.utc as int)),
                e.utc as int,
            ) && maps_to(emb_resolve_local(ts, emb_localize(ts, l.utc as int)), l.utc as int),
            LocalMapping::Gap => true,
        },
{
    lemma_scan_le(ts, local, 0);
    let idx = scan_le(ts, local, 0);
    match emb_resolve_local(ts, local) {
        LocalMapping::Single(d) => {
            let k = if ts.len() > 0 && local < ts[0].local_start {
                0
            } else {
                idx - 1
            };
            lemma_transition_offsets(ts, k);
            let o = if ts.len() > 0 && local < ts[0].local_start {
                ts[0].offset_from
            } else {
                ts[idx - 1].offset_to
            };
            assert(valid_offset(o as int));
            assert(d == ResolvedDateTime::at(local, o as int));
            assert(d.utc + o == local);
            lemma_uniq_keeps(offsets_of(ts), o);
            lemma_localize_finds(ts, d.utc as int, o);
        },
        LocalMapping::Ambiguous(e, l) => {
            lemma_transition_offsets(ts, idx);
            let t = ts[idx];
            assert(valid_offset(t.offset_from as int) && valid_offset(t.offset_to as int));
            assert(e.utc + t.offset_from == local);
            assert(l.utc + t.offset_to == local);
            lemma_uniq_keeps(offsets_of(ts), t.offset_from);
            lemma_uniq_keeps(offsets_of(ts), t.offset_to);
            lemma_localize_finds(ts, e.utc as int, t.offset_from);
            lemma_localize_finds(ts, l.utc as int, t.offset_to);
        },
        LocalMapping::Gap => {},
    }
}

impl EmbeddedTimeZone {
    /// A copy of this zone.
    pub fn copy(&self) -> (r: EmbeddedTimeZone)
        ensures
            r.view() == self.view(),
    {
        let mut ts: Vec<Transition> = Vec::new();
        let mut i: usize = 0;
        while i < self.transitions.len()
            invariant
                i <= self.transitions@.len(),
                ts@ == self.transitions@.subrange(0, i as int),
            decreases self.transitions@.len() - i,
        {
            ts.push(self.transitions[i]);
            proof {
                assert(ts@ =~= self.transitions@.subrange(0, i as int + 1));
            }
            i = i + 1;
        }
        proof {
            assert(self.transitions@.subrange(0, self.transitions@.len() as int) =~= self.transitions@);
        }
        EmbeddedTimeZone { transitions: ts }
    }
}

impl Clone for CalendarTimeZoneResolver {
    fn clone(&self) -> (r: Self)
        ensures
            r.view() == self.view(),
    {
        proof {
            use_type_invariant(self);
        }
        let mut embedded: Vec<(String, EmbeddedTimeZone)> = Vec::new();
        let mut i: usize = 0;
        while i < self.embedded.len()
            invariant
                i <= self.embedded@.len(),
                embedded@.map_values(|e: (String, EmbeddedTimeZone)| (e.0@, e.1.view()))
                    == self.view().subrange(0, i as int),
                forall|k: int| 0 <= k < self.embedded@.len() ==> emb_wf((#[trigger] self.embedded@[k]).1.view()),
                forall|k: int| 0 <= k < embedded@.len() ==> emb_wf((#[trigger] embedded@[k]).1.view()),
            decreases self.embedded@.len() - i,
        {
            let e = &self.embedded[i];
            let ghost before = embedded@;
            let copy = (crate::text::to_string(e.0.as_str()), e.1.copy());
            embedded.push(copy);
            proof {
                assert(embedded@.map_values(|e: (String, EmbeddedTimeZone)| (e.0@, e.1.view()))
                    =~= before.map_values(|e: (String, EmbeddedTimeZone)| (e.0@, e.1.view())).push((self.embedded@[i as int].0@, self.embedded@[i as int].1.view())));
                assert(self.view().subrange(0, i as int + 1) =~= self.view().subrange(0, i as int).push((self.embedded@[i as int].0@, self.embedded@[i as int].1.view())));
            }
            i = i + 1;
        }
        proof {
            assert(self.view().subrange(0, self.embedded@.len() as int) =~= self.view());
        }
        CalendarTimeZoneResolver { embedded }
    }
}

} // verus!
