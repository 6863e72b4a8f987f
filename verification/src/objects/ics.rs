//! Reading the events of an iCalendar text.

use vstd::prelude::*;

use super::event::{
    empty_event, error_for, parse_event, parse_event_rest, vevent, CalEvent, EventProblem,
    EventView,
};
use crate::parser::error::ParseError;
use crate::parser::line::{
    after_first_logical, decoded, first_logical, lemma_continuation_count_bound, nonempty_lines,
    physical_lines_from, LineReader,
};
use crate::parser::prop::{parse_property, Property};
use crate::text::str_eq;

verus! {

/// Reading an event leaves no more lines than there were.
pub proof fn lemma_parse_event_rest_len(pending: Seq<Seq<u8>>, acc: EventView)
    ensures
        parse_event_rest(pending, acc).len() <= pending.len(),
    decreases pending.len(),
{
    if pending.len() > 0 {
        lemma_continuation_count_bound(pending.drop_first());
        let rest = after_first_logical(pending);
        if let Some(text) = decoded(first_logical(pending)) {
            if let Ok(p) = parse_property(text) {
                if let Ok(a) = super::event::apply_prop(acc, p) {
                    lemma_parse_event_rest_len(rest, a);
                }
            }
        }
    }
}

/// The events of the pending lines, read from the line after `read` on: each `BEGIN:VEVENT` line
/// starts an event that runs to its `END:VEVENT` line, other lines are passed over, and reading
/// stops at the end or at a line that is not UTF-8; the first line that fails gives the error.
pub open spec fn events_of(pending: Seq<Seq<u8>>, read: nat) -> Result<Seq<EventView>, (nat, EventProblem)>
    decreases pending.len(),
{
    if pending.len() == 0 {
        Ok(seq![])
    } else {
        proof {
            lemma_continuation_count_bound(pending.drop_first());
        }
        let rest = after_first_logical(pending);
        match decoded(first_logical(pending)) {
            None => Ok(seq![]),
            Some(text) => match parse_property(text) {
                Err(t) => Err((read + 1, EventProblem::Parse(t))),
                Ok(p) => if p.name == "BEGIN"@ && p.value == vevent() {
                    match parse_event(rest, read + 1, empty_event()) {
                        Err(e) => Err(e),
                        Ok((v, _, n)) => {
                            proof {
                                lemma_parse_event_rest_len(rest, empty_event());
                            }
                            match events_of(parse_event_rest(rest, empty_event()), n) {
                                Ok(vs) => Ok(seq![v] + vs),
                                Err(e) => Err(e),
                            }
                        },
                    }
                } else {
                    events_of(rest, read + 1)
                },
            },
        }
    }
}

/// The events read so far, followed by those still to be read, or the error still to come.
pub open spec fn after_events(done: Seq<EventView>, later: Result<Seq<EventView>, (nat, EventProblem)>) -> Result<
    Seq<EventView>,
    (nat, EventProblem),
> {
    match later {
        Ok(vs) => Ok(done + vs),
        Err(e) => Err(e),
    }
}

/// Reads every `VEVENT` of an iCalendar text.
pub fn read_events(data: &[u8]) -> (r: Result<Vec<CalEvent>, ParseError>)
    ensures
        match (r, events_of(nonempty_lines(physical_lines_from(data@, 0)), 0)) {
            (Ok(evs), Ok(vs)) => evs@.map_values(|e: CalEvent| e@) == vs && forall|i: int|
                0 <= i < evs@.len() ==> (#[trigger] evs@[i]).wf(),
            (Err(e), Err((l, k))) => error_for(e, l, k),
            _ => false,
        },
{
    proof {
        reveal_strlit("VEVENT");
        assert("VEVENT"@ =~= vevent());
    }
    let mut lines = LineReader::new(data);
    let mut events: Vec<CalEvent> = Vec::new();
    let ghost all = events_of(lines.pending(), 0);
    loop
        invariant
            lines.wf(),
            "VEVENT"@ == vevent(),
            forall|i: int| 0 <= i < events@.len() ==> (#[trigger] events@[i]).wf(),
            all == events_of(nonempty_lines(physical_lines_from(data@, 0)), 0),
            all == after_events(events@.map_values(|e: CalEvent| e@), events_of(lines.pending(), lines.lines_read())),
        decreases lines.pending().len(),
    {
        let ghost pending = lines.pending();
        let ghost read0 = lines.lines_read();
        let ghost done = events@.map_values(|e: CalEvent| e@);
        proof {
            if pending.len() > 0 {
                lemma_continuation_count_bound(pending.drop_first());
            }
        }
        let line = match lines.next() {
            Some(l) => l,
            None => {
                proof {
                    assert(done + seq![] =~= done);
                }
                return Ok(events);
            },
        };
        let prop = match Property::from_str_at(line.as_str(), lines.line_num()) {
            Ok(p) => p,
            Err(e) => {
                return Err(e);
            },
        };
        if str_eq(prop.name().as_str(), "BEGIN") && str_eq(prop.value().as_str(), "VEVENT") {
            let ghost rest = lines.pending();
            let ev = match CalEvent::from_lines(&mut lines, prop) {
                Ok(ev) => ev,
                Err(e) => {
                    return Err(e);
                },
            };
            let ghost v = ev@;
            events.push(ev);
            proof {
                lemma_parse_event_rest_len(rest, empty_event());
                assert(events@.map_values(|e: CalEvent| e@) =~= done.push(v));
                match events_of(lines.pending(), lines.lines_read()) {
                    Ok(vs) => {
                        assert(done + (seq![v] + vs) =~= done.push(v) + vs);
                    },
                    Err(_) => {},
                }
            }
        }
    }
}

} // verus!
