//! The Italian locale: ordinals of weekdays and how a date is put together from its translated
//! parts. Dates are written `DD MMM YYYY` (short) and `dddd DD MMMM YYYY` (long).

use vstd::prelude::*;

use crate::text::{decimal, push_decimal, push_str};

verus! {

/// The Italian ordinal of the n-th weekday of a month, counted from its start or its end.
pub open spec fn nth_day_text(nth: u64, start: bool) -> Seq<char> {
    if start {
        if nth == 1 {
            "primo"@
        } else if nth == 2 {
            "secondo"@
        } else if nth == 3 {
            "terzo"@
        } else {
            decimal(nth as nat) + "esimo"@
        }
    } else {
        if nth == 1 {
            "ultimo"@
        } else if nth == 2 {
            "penultimo"@
        } else {
            decimal(nth as nat) + "esimo dall'ultimo"@
        }
    }
}

/// Italian ordinals: 1 "primo", 2 "secondo", 3 "terzo", n "n-esimo"; counted from the end,
/// 1 "ultimo", 2 "penultimo", n "n-esimo dall'ultimo".
pub fn nth_day(nth: u64, start: bool) -> (r: String)
    ensures
        r@ == nth_day_text(nth, start),
{
    let mut out = String::new();
    if start {
        if nth == 1 {
            push_str(&mut out, "primo");
        } else if nth == 2 {
            push_str(&mut out, "secondo");
        } else if nth == 3 {
            push_str(&mut out, "terzo");
        } else {
            push_decimal(&mut out, nth);
            push_str(&mut out, "esimo");
        }
    } else {
        if nth == 1 {
            push_str(&mut out, "ultimo");
        } else if nth == 2 {
            push_str(&mut out, "penultimo");
        } else {
            push_decimal(&mut out, nth);
            push_str(&mut out, "esimo dall'ultimo");
        }
    }
    proof {
        assert(out@ =~= nth_day_text(nth, start));
    }
    out
}

/// The Italian ordinals: counted from the start, 1 "primo", 2 "secondo", 3 "terzo" and from 4
/// on the number followed by "esimo"; counted from the end, every ordinal ends in "ultimo": 1
/// "ultimo", 2 "penultimo" and from 3 on the number followed by "esimo dall'ultimo". No ordinal
/// from the start ends in "ultimo".
pub proof fn lemma_nth_day_names_the_side(nth: u64, start: bool)
    ensures
        !start ==> nth_day_text(nth, start).len() >= 6 && nth_day_text(nth, start).subrange(
            nth_day_text(nth, start).len() - 6,
            nth_day_text(nth, start).len() as int,
        ) == "ultimo"@,
        start ==> !(nth_day_text(nth, start).len() >= 6 && nth_day_text(nth, start).subrange(
            nth_day_text(nth, start).len() - 6,
            nth_day_text(nth, start).len() as int,
        ) == "ultimo"@),
        start && nth == 1 ==> nth_day_text(nth, start) == "primo"@,
        start && nth == 2 ==> nth_day_text(nth, start) == "secondo"@,
        start && nth == 3 ==> nth_day_text(nth, start) == "terzo"@,
        start && nth >= 4 ==> nth_day_text(nth, start) == decimal(nth as nat) + "esimo"@,
        !start && nth == 1 ==> nth_day_text(nth, start) == "ultimo"@,
        !start && nth == 2 ==> nth_day_text(nth, start) == "penultimo"@,
        !start && nth >= 3 ==> nth_day_text(nth, start) == decimal(nth as nat) + "esimo dall'ultimo"@,
{
    reveal_strlit("primo");
    reveal_strlit("secondo");
    reveal_strlit("terzo");
    reveal_strlit("esimo");
    reveal_strlit("ultimo");
    reveal_strlit("penultimo");
    reveal_strlit("esimo dall'ultimo");
    let t = nth_day_text(nth, start);
    if !start && nth >= 3 {
        let d = decimal(nth as nat);
        let tail = "esimo dall'ultimo"@;
        assert(t == d + tail);
        assert(t.subrange(t.len() - 6, t.len() as int) =~= tail.subrange(tail.len() - 6, tail.len() as int));
        assert(tail.subrange(tail.len() - 6, tail.len() as int) =~= "ultimo"@);
    } else if !start && nth == 2 {
        assert(t.subrange(t.len() - 6, t.len() as int) =~= "ultimo"@);
    } else if !start {
        assert(t.subrange(t.len() - 6, t.len() as int) =~= "ultimo"@);
    } else if nth >= 4 {
        let d = decimal(nth as nat);
        let tail = "esimo"@;
        assert(t == d + tail);
        if t.len() >= 6 {
            assert(t.subrange(t.len() - 6, t.len() as int)[1] == 'e');
            assert("ultimo"@[1] == 'l');
        }
    } else if nth == 1 {
        assert(t.len() == 5);
    } else if nth == 2 {
        assert(t.subrange(t.len() - 6, t.len() as int)[0] == 'e');
        assert("ultimo"@[0] == 'u');
    } else if nth == 3 {
        assert(t.len() == 5);
    } else {
        let d = decimal(nth as nat);
        assert(t == d + "esimo"@);
        if t.len() >= 6 {
            assert(t.subrange(t.len() - 6, t.len() as int)[1] == 'e');
            assert("ultimo"@[1] == 'l');
        }
    }
}

/// An Italian weekday date from its translated parts: `weekday, month day` and the year unless
/// it is short.
pub open spec fn weekdate_text(weekday: Seq<char>, month: Seq<char>, day: Seq<char>) -> Seq<char> {
    weekday + ", "@ + month + " "@ + day
}

/// Puts an Italian weekday date together: the translated weekday, the translated month, and the
/// day (with the year in the long form).
pub fn fmt_weekdate_parts(weekday: &str, month: &str, day: &str) -> (r: String)
    ensures
        r@ == weekdate_text(weekday@, month@, day@),
{
    let mut out = String::new();
    push_str(&mut out, weekday);
    push_str(&mut out, ", ");
    push_str(&mut out, month);
    push_str(&mut out, " ");
    push_str(&mut out, day);
    proof {
        assert(out@ =~= weekdate_text(weekday@, month@, day@));
    }
    out
}

/// An Italian date from its parts: `DD MMM YYYY` in the short form (no weekday) and
/// `dddd DD MMMM YYYY` in the long form, with the translated weekday and month.
pub open spec fn date_parts_text(weekday: Option<Seq<char>>, day: Seq<char>, month: Seq<char>, year: Seq<char>) -> Seq<char> {
    let prefix = match weekday {
        Some(w) => w + " "@,
        None => seq![],
    };
    prefix + day + " "@ + month + " "@ + year
}

/// Puts an Italian date together: the translated weekday (long form only), the two-digit day,
/// the translated month (abbreviated in the short form) and the year.
pub fn fmt_date_parts(weekday: Option<&str>, day: &str, month: &str, year: &str) -> (r: String)
    ensures
        r@ == date_parts_text(
            match weekday {
                Some(w) => Some(w@),
                None => None,
            },
            day@,
            month@,
            year@,
        ),
{
    let mut out = String::new();
    if let Some(w) = weekday {
        push_str(&mut out, w);
        push_str(&mut out, " ");
    }
    push_str(&mut out, day);
    push_str(&mut out, " ");
    push_str(&mut out, month);
    push_str(&mut out, " ");
    push_str(&mut out, year);
    proof {
        assert(out@ =~= date_parts_text(
            match weekday {
                Some(w) => Some(w@),
                None => None,
            },
            day@,
            month@,
            year@,
        ));
    }
    out
}

} // verus!
