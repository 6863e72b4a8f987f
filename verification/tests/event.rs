use chrono::{MappedLocalTime, NaiveDate, NaiveDateTime, TimeZone};
use chrono_tz::Tz;
use eventix::objects::{
    CalCompType, CalDate, CalDateTime, CalEvent, CalEventStatus, Calendar, DateContext,
    ObjectsError, RangeEdge, Zone,
};
use eventix::parser::{LineReader, ParseErrorType, Property};

fn secs(y: i32, m: u32, d: u32, hh: u32, mm: u32) -> i64 {
    naive(y, m, d, hh, mm).and_utc().timestamp()
}

fn naive(y: i32, m: u32, d: u32, hh: u32, mm: u32) -> NaiveDateTime {
    NaiveDate::from_ymd_opt(y, m, d)
        .unwrap()
        .and_hms_opt(hh, mm, 0)
        .unwrap()
}

fn day(y: i32, m: u32, d: u32) -> i64 {
    secs(y, m, d, 0, 0) / 86400
}

fn timed_event(start: CalDate, end: CalDate) -> CalEvent {
    let mut ev = CalEvent::new("uid");
    ev.set_start(Some(start));
    ev.set_end(Some(end));
    ev
}

fn ctx() -> DateContext {
    DateContext::new(&Calendar::new())
}

fn zone(name: &str) -> Zone {
    Zone::from_name(name).unwrap()
}

fn berlin_date(y: i32, m: u32, d: u32, hh: u32, mm: u32) -> CalDate {
    CalDate::DateTime(CalDateTime::Timezone(
        secs(y, m, d, hh, mm),
        "Europe/Berlin".to_string(),
    ))
}

fn new_york_date(y: i32, m: u32, d: u32, hh: u32, mm: u32) -> CalDate {
    CalDate::DateTime(CalDateTime::Timezone(
        secs(y, m, d, hh, mm),
        "America/New_York".to_string(),
    ))
}

fn utc_date(y: i32, m: u32, d: u32, hh: u32, mm: u32) -> CalDate {
    CalDate::DateTime(CalDateTime::Utc(secs(y, m, d, hh, mm)))
}

fn local_date(tz: &str, dt: NaiveDateTime) -> CalDate {
    CalDate::DateTime(CalDateTime::Timezone(dt.and_utc().timestamp(), tz.to_string()))
}

enum DSTEvent {
    Gap,
    Fold,
    NoChange,
}

fn assert_tz_event(naive: NaiveDateTime, tz: &Tz, ev: DSTEvent) {
    let is_gap = matches!(tz.from_local_datetime(&naive), MappedLocalTime::None);
    let is_fold = matches!(
        tz.from_local_datetime(&naive),
        MappedLocalTime::Ambiguous(_, _)
    );
    match ev {
        DSTEvent::Gap => {
            assert!(is_gap, "expected {naive} to be in a DST gap in {tz}");
            assert!(!is_fold, "expected {naive} to NOT be in a DST fold in {tz}");
        }
        DSTEvent::Fold => {
            assert!(!is_gap, "expected {naive} to NOT be in a DST gap in {tz}");
            assert!(is_fold, "expected {naive} to be in a DST fold in {tz}");
        }
        DSTEvent::NoChange => {
            assert!(!is_gap, "expected {naive} to NOT be in a DST gap in {tz}");
            assert!(!is_fold, "expected {naive} to NOT be in a DST fold in {tz}");
        }
    }
}

fn prop_lines(ev: &CalEvent) -> Vec<String> {
    ev.to_props().iter().map(|p| p.to_line()).collect()
}

#[test]
fn parse_and_to_props_roundtrip() {
    let data = "UID:uid-1\n\
DTSTAMP:20250102T090000Z\n\
DTSTART:20250102T100000Z\n\
DTEND:20250102T120000Z\n\
STATUS:CONFIRMED\n\
SUMMARY:Meeting\n\
END:VEVENT\n";
    let mut lines = LineReader::new(data.as_bytes());
    let begin_prop = "BEGIN:VEVENT".parse::<Property>().unwrap();
    let ev = CalEvent::from_lines(&mut lines, begin_prop).expect("failed to parse VEVENT");

    // basics
    assert_eq!(ev.uid().as_str(), "uid-1");
    assert_eq!(ev.status(), Some(CalEventStatus::Confirmed));

    // end is a datetime in UTC and must match the exact textual representation when printed
    let end = ev.end().expect("end missing").to_display();
    assert_eq!(end, "TU2025-01-02T12:00:00");

    // start and summary were parsed into the inner component
    let start_prop = ev.start().expect("start missing").to_display();
    assert_eq!(start_prop, "TU2025-01-02T10:00:00");
    assert_eq!(ev.summary(), Some(&"Meeting".to_string()));

    // check produced properties are in the exact order expected by to_props
    let props = prop_lines(&ev);
    let expected = vec![
        "BEGIN:VEVENT".to_string(),
        "DTEND:20250102T120000Z".to_string(),
        "STATUS:CONFIRMED".to_string(),
        "UID:uid-1".to_string(),
        "DTSTAMP:20250102T090000Z".to_string(),
        "DTSTART:20250102T100000Z".to_string(),
        "SUMMARY:Meeting".to_string(),
        "END:VEVENT".to_string(),
    ];
    assert_eq!(props, expected);
}

#[test]
fn status_and_end_setters() {
    let mut ev = CalEvent::new("my-uid");
    ev.set_status(Some(CalEventStatus::Tentative));
    assert_eq!(ev.status(), Some(CalEventStatus::Tentative));

    ev.set_status(None);
    assert_eq!(ev.status(), None);

    // set and clear end
    let prop = "DTEND:20250103T010203Z".parse::<Property>().unwrap();
    let dtend = CalDate::from_prop(&prop).unwrap();
    ev.set_end(Some(dtend));
    assert!(ev.end().is_some());
    ev.set_end(None);
    assert!(ev.end().is_none());
}

#[test]
fn shift_to_local_fold_switches_to_utc() {
    let ctx = ctx();
    let tz = Tz::Europe__Berlin;
    let mut ev = timed_event(
        berlin_date(2024, 10, 26, 9, 0),
        berlin_date(2024, 10, 26, 10, 0),
    );
    assert_eq!(ev.actual_duration(&ctx), Some(3600));

    let new_start = naive(2024, 10, 27, 2, 30);
    assert_tz_event(new_start, &tz, DSTEvent::Fold);

    ev.shift_to(&ctx, local_date("Europe/Berlin", new_start), &zone("Europe/Berlin"))
        .unwrap();

    assert_eq!(ev.start(), Some(&utc_date(2024, 10, 27, 0, 30)));
    assert_eq!(ev.end(), Some(&utc_date(2024, 10, 27, 1, 30)));
    assert_eq!(ev.actual_duration(&ctx), Some(3600));
}

#[test]
fn shift_to_foreign_fold_switches_to_utc() {
    let ctx = ctx();
    let mut ev = timed_event(
        new_york_date(2024, 11, 2, 9, 0),
        new_york_date(2024, 11, 2, 10, 0),
    );
    assert_eq!(ev.actual_duration(&ctx), Some(3600));

    let new_start = naive(2024, 11, 3, 1, 30);
    assert_tz_event(new_start, &Tz::America__New_York, DSTEvent::Fold);

    ev.shift_to(
        &ctx,
        CalDate::DateTime(CalDateTime::Timezone(
            new_start.and_utc().timestamp(),
            "America/New_York".to_string(),
        )),
        &zone("Europe/Berlin"),
    )
    .unwrap();

    assert_eq!(ev.start(), Some(&utc_date(2024, 11, 3, 5, 30)));
    assert_eq!(ev.end(), Some(&utc_date(2024, 11, 3, 6, 30)));
    assert_eq!(ev.actual_duration(&ctx), Some(3600));
}

#[test]
fn shift_to_local_gap_snaps_forward() {
    let ctx = ctx();
    let tz = Tz::Europe__Berlin;
    let mut ev = timed_event(
        berlin_date(2025, 3, 29, 9, 0),
        berlin_date(2025, 3, 29, 10, 0),
    );
    assert_eq!(ev.actual_duration(&ctx), Some(3600));

    let new_start = naive(2025, 3, 30, 2, 30);
    assert_tz_event(new_start, &tz, DSTEvent::Gap);

    ev.shift_to(&ctx, local_date("Europe/Berlin", new_start), &zone("Europe/Berlin"))
        .unwrap();

    assert_eq!(ev.start(), Some(&berlin_date(2025, 3, 30, 3, 30)));
    assert_eq!(ev.end(), Some(&berlin_date(2025, 3, 30, 4, 30)));
    assert_eq!(ev.actual_duration(&ctx), Some(3600));
}

#[test]
fn shift_to_foreign_gap_snaps_forward() {
    let ctx = ctx();
    let mut ev = timed_event(
        new_york_date(2025, 3, 8, 9, 0),
        new_york_date(2025, 3, 8, 10, 0),
    );
    assert_eq!(ev.actual_duration(&ctx), Some(3600));

    let new_start = naive(2025, 3, 9, 2, 30);
    assert_tz_event(new_start, &Tz::America__New_York, DSTEvent::Gap);

    ev.shift_to(
        &ctx,
        CalDate::DateTime(CalDateTime::Timezone(
            new_start.and_utc().timestamp(),
            "America/New_York".to_string(),
        )),
        &zone("Europe/Berlin"),
    )
    .unwrap();

    assert_eq!(ev.start(), Some(&new_york_date(2025, 3, 9, 3, 30)));
    assert_eq!(ev.end(), Some(&new_york_date(2025, 3, 9, 4, 30)));
    assert_eq!(ev.actual_duration(&ctx), Some(3600));
}

#[test]
fn shift_to_utc_event_stays_utc() {
    let ctx = ctx();
    let tz = Tz::Europe__Berlin;
    let mut ev = timed_event(utc_date(2025, 3, 29, 9, 0), utc_date(2025, 3, 29, 10, 0));
    assert_eq!(ev.actual_duration(&ctx), Some(3600));

    let new_start = naive(2025, 3, 30, 2, 30);
    assert_tz_event(new_start, &tz, DSTEvent::Gap);

    ev.shift_to(&ctx, local_date("Europe/Berlin", new_start), &zone("Europe/Berlin"))
        .unwrap();

    assert_eq!(ev.start(), Some(&utc_date(2025, 3, 30, 1, 30)));
    assert_eq!(ev.end(), Some(&utc_date(2025, 3, 30, 2, 30)));
    assert_eq!(ev.actual_duration(&ctx), Some(3600));
}

#[test]
fn shift_to_foreign_in_local_gap_remains() {
    let ctx = ctx();
    let viewer_tz = Tz::Europe__Berlin;
    let mut ev = timed_event(
        new_york_date(2026, 3, 28, 9, 0),
        new_york_date(2026, 3, 28, 10, 0),
    );
    assert_eq!(ev.actual_duration(&ctx), Some(3600));

    let new_start = naive(2026, 3, 29, 2, 30);
    assert_tz_event(new_start, &viewer_tz, DSTEvent::Gap);

    ev.shift_to(
        &ctx,
        CalDate::DateTime(CalDateTime::Timezone(
            new_start.and_utc().timestamp(),
            "America/New_York".to_string(),
        )),
        &zone("Europe/Berlin"),
    )
    .unwrap();

    assert_eq!(ev.start(), Some(&new_york_date(2026, 3, 29, 2, 30)));
    assert_eq!(ev.end(), Some(&new_york_date(2026, 3, 29, 3, 30)));
    assert_eq!(ev.actual_duration(&ctx), Some(3600));
}

#[test]
fn shift_to_move_out_of_gap_back_to_event_timezone() {
    let ctx = ctx();
    let tz = Tz::Europe__Berlin;

    let old_start = naive(2025, 3, 30, 1, 30);
    let old_end = naive(2025, 3, 30, 2, 30);
    assert_tz_event(old_start, &tz, DSTEvent::NoChange);
    assert_tz_event(old_end, &tz, DSTEvent::Gap);

    let mut ev = timed_event(
        CalDate::DateTime(CalDateTime::Utc(old_start.and_utc().timestamp())),
        CalDate::DateTime(CalDateTime::Utc(old_end.and_utc().timestamp())),
    );
    assert_eq!(ev.actual_duration(&ctx), Some(3600));

    let new_start = naive(2025, 3, 31, 9, 0);
    assert_tz_event(new_start, &tz, DSTEvent::NoChange);

    ev.shift_to(&ctx, local_date("Europe/Berlin", new_start), &zone("Europe/Berlin"))
        .unwrap();

    assert_eq!(ev.start(), Some(&utc_date(2025, 3, 31, 7, 0)));
    assert_eq!(ev.end(), Some(&utc_date(2025, 3, 31, 8, 0)));
    assert_eq!(ev.actual_duration(&ctx), Some(3600));
}

#[test]
fn shift_to_all_day_preserves_day_span() {
    let ctx = ctx();
    let ty = CalCompType::Event.date_type();
    let mut ev = timed_event(
        CalDate::Date(day(2025, 4, 10), ty),
        CalDate::Date(day(2025, 4, 12), ty),
    );

    ev.shift_to(&ctx, CalDate::Date(day(2025, 4, 20), ty), &Zone::utc())
        .unwrap();

    assert_eq!(ev.start(), Some(&CalDate::Date(day(2025, 4, 20), ty)));
    assert_eq!(ev.end(), Some(&CalDate::Date(day(2025, 4, 22), ty)));
}

#[test]
fn resize_start_local_fold_converts_unchanged_end_to_utc_too() {
    let ctx = ctx();
    let tz = Tz::Europe__Berlin;
    let mut ev = timed_event(
        berlin_date(2024, 10, 27, 1, 30),
        berlin_date(2024, 10, 27, 4, 30),
    );
    assert_eq!(ev.actual_duration(&ctx), Some(4 * 3600));

    let new_start = naive(2024, 10, 27, 2, 30);
    assert_tz_event(new_start, &tz, DSTEvent::Fold);

    ev.resize(
        &ctx,
        RangeEdge::Start,
        local_date("Europe/Berlin", new_start),
        &zone("Europe/Berlin"),
    )
    .unwrap();

    assert_eq!(ev.start(), Some(&utc_date(2024, 10, 27, 0, 30)));
    assert_eq!(ev.end(), Some(&utc_date(2024, 10, 27, 3, 30)));
    assert_eq!(ev.actual_duration(&ctx), Some(3 * 3600));
}

#[test]
fn resize_end_local_gap_snaps_forward() {
    let ctx = ctx();
    let tz = Tz::Europe__Berlin;
    let mut ev = timed_event(
        berlin_date(2025, 3, 30, 1, 30),
        berlin_date(2025, 3, 30, 4, 30),
    );

    let new_end = naive(2025, 3, 30, 2, 30);
    assert_tz_event(new_end, &tz, DSTEvent::Gap);

    ev.resize(
        &ctx,
        RangeEdge::End,
        local_date("Europe/Berlin", new_end),
        &zone("Europe/Berlin"),
    )
    .unwrap();

    assert_eq!(ev.start(), Some(&berlin_date(2025, 3, 30, 1, 30)));
    assert_eq!(ev.end(), Some(&berlin_date(2025, 3, 30, 3, 30)));
    assert_eq!(ev.actual_duration(&ctx), Some(3600));
}

#[test]
fn resize_rejects_all_day_events() {
    let ctx = ctx();
    let ty = CalCompType::Event.date_type();
    let mut ev = timed_event(
        CalDate::Date(day(2025, 4, 10), ty),
        CalDate::Date(day(2025, 4, 11), ty),
    );

    let res = ev.resize(
        &ctx,
        RangeEdge::Start,
        CalDate::Date(day(2025, 4, 9), ty),
        &Zone::utc(),
    );

    assert_eq!(res, Err(ObjectsError::ResizeAllDay));
}

// ----- further cases -----

#[test]
fn shift_without_end_reports_missing_duration() {
    let ctx = ctx();
    let mut ev = CalEvent::new("x");
    ev.set_start(Some(utc_date(2025, 1, 1, 9, 0)));
    let res = ev.shift_to(&ctx, utc_date(2025, 1, 2, 9, 0), &Zone::utc());
    assert_eq!(res, Err(ObjectsError::MissingDuration));
    assert_eq!(ev.start(), Some(&utc_date(2025, 1, 1, 9, 0)));
    assert_eq!(ev.actual_duration(&ctx), None);
}

#[test]
fn shift_utc_event_keeps_duration() {
    let ctx = ctx();
    let mut ev = timed_event(utc_date(2025, 6, 1, 8, 15), utc_date(2025, 6, 1, 11, 45));
    ev.shift_to(&ctx, utc_date(2025, 7, 4, 20, 0), &Zone::utc()).unwrap();
    assert_eq!(ev.start(), Some(&utc_date(2025, 7, 4, 20, 0)));
    assert_eq!(ev.end(), Some(&utc_date(2025, 7, 4, 23, 30)));
    assert_eq!(ev.actual_duration(&ctx), Some(3 * 3600 + 1800));
}

#[test]
fn shift_timed_event_to_day_spans_whole_days() {
    let ctx = ctx();
    let ty = CalCompType::Event.date_type();
    let mut ev = timed_event(utc_date(2025, 6, 1, 8, 0), utc_date(2025, 6, 3, 9, 0));
    ev.shift_to(&ctx, CalDate::Date(day(2025, 6, 10), ty), &Zone::utc()).unwrap();
    assert_eq!(ev.start(), Some(&CalDate::Date(day(2025, 6, 10), ty)));
    assert_eq!(ev.end(), Some(&CalDate::Date(day(2025, 6, 12), ty)));
}

#[test]
fn resize_end_keeps_start() {
    let ctx = ctx();
    let mut ev = timed_event(utc_date(2025, 6, 1, 8, 0), utc_date(2025, 6, 1, 9, 0));
    ev.resize(&ctx, RangeEdge::End, utc_date(2025, 6, 1, 12, 0), &Zone::utc()).unwrap();
    assert_eq!(ev.start(), Some(&utc_date(2025, 6, 1, 8, 0)));
    assert_eq!(ev.end(), Some(&utc_date(2025, 6, 1, 12, 0)));
}

#[test]
fn try_shift_to_checks_first() {
    let ctx = ctx();
    let mut ev = timed_event(utc_date(2025, 6, 1, 8, 0), utc_date(2025, 6, 1, 9, 0));
    let r = ev.try_shift_to(&ctx, utc_date(2025, 6, 2, 8, 0), &Zone::utc());
    assert_eq!(r, Some(Ok(())));
    assert_eq!(ev.end(), Some(&utc_date(2025, 6, 2, 9, 0)));
    assert_eq!(ev.try_actual_duration(&ctx), Some(Some(3600)));
    let r = ev.try_resize(&ctx, RangeEdge::Start, utc_date(2025, 6, 2, 7, 0), &Zone::utc());
    assert_eq!(r, Some(Ok(())));
    assert_eq!(ev.start(), Some(&utc_date(2025, 6, 2, 7, 0)));
}

#[test]
fn floating_dates_rebuild_in_fallback_zone() {
    let ctx = ctx();
    let mut ev = timed_event(
        CalDate::DateTime(CalDateTime::Floating(secs(2025, 6, 1, 10, 0))),
        CalDate::DateTime(CalDateTime::Floating(secs(2025, 6, 1, 11, 0))),
    );
    ev.resize(
        &ctx,
        RangeEdge::End,
        CalDate::DateTime(CalDateTime::Floating(secs(2025, 6, 1, 12, 0))),
        &zone("Europe/Berlin"),
    )
    .unwrap();
    assert_eq!(
        ev.end(),
        Some(&CalDate::DateTime(CalDateTime::Floating(secs(2025, 6, 1, 12, 0))))
    );
}

#[test]
fn status_text_roundtrip() {
    for s in [
        CalEventStatus::Tentative,
        CalEventStatus::Confirmed,
        CalEventStatus::Cancelled,
    ] {
        assert_eq!(CalEventStatus::parse(s.as_str()), Ok(s));
    }
    assert_eq!(
        CalEventStatus::parse("DONE"),
        Err(ParseErrorType::InvalidStatus("DONE".to_string()))
    );
}

fn parse_event(data: &str) -> Result<CalEvent, eventix::parser::ParseError> {
    let mut lines = LineReader::new(data.as_bytes());
    CalEvent::from_lines(&mut lines, "BEGIN:VEVENT".parse::<Property>().unwrap())
}

#[test]
fn from_lines_reports_eof_with_line() {
    let err = parse_event("UID:a\nSUMMARY:b\n").unwrap_err();
    assert_eq!(err.ty(), &ParseErrorType::UnexpectedEOF);
    assert_eq!(err.line_num(), 2);
}

#[test]
fn from_lines_reports_bad_status() {
    let err = parse_event("UID:a\nSTATUS:MAYBE\nEND:VEVENT\n").unwrap_err();
    assert_eq!(err.ty(), &ParseErrorType::InvalidStatus("MAYBE".to_string()));
    assert_eq!(err.line_num(), 2);
}

#[test]
fn from_lines_reports_bad_dates() {
    let err = parse_event("DTSTART:2025\nEND:VEVENT\n").unwrap_err();
    assert_eq!(err.ty(), &ParseErrorType::MalformedDate("2025".to_string()));
    assert_eq!(err.line_num(), 1);
    let err = parse_event("UID:x\nDTEND:20251332T000000Z\nEND:VEVENT\n").unwrap_err();
    assert_eq!(
        err.ty(),
        &ParseErrorType::InvalidDate("20251332T000000Z".to_string())
    );
    assert_eq!(err.line_num(), 2);
}

#[test]
fn from_lines_reports_bad_property() {
    let err = parse_event("UID:x\nNOCOLON\n").unwrap_err();
    assert_eq!(err.ty(), &ParseErrorType::MissingNameEnd);
    assert_eq!(err.line_num(), 2);
}

#[test]
fn from_lines_keeps_other_properties_and_stops_at_end() {
    let data = "UID:u\nLOCATION:Room 1\nDTSTART;VALUE=DATE:20250410\nEND:VEVENT\nUID:next\n";
    let mut lines = LineReader::new(data.as_bytes());
    let ev = CalEvent::from_lines(&mut lines, "BEGIN:VEVENT".parse::<Property>().unwrap())
        .unwrap();
    assert_eq!(lines.line_num(), 4);
    assert_eq!(lines.next(), Some("UID:next".to_string()));
    assert_eq!(
        prop_lines(&ev),
        vec![
            "BEGIN:VEVENT",
            "UID:u",
            "DTSTART;VALUE=DATE:20250410",
            "LOCATION:Room 1",
            "END:VEVENT"
        ]
    );
    assert!(ev.is_all_day());
}

#[test]
fn errors_convert_without_line() {
    let e = eventix::parser::ParseError::from(ParseErrorType::UnexpectedEOF);
    assert_eq!(e.line_num(), 0);
    assert_eq!(e.ty(), &ParseErrorType::UnexpectedEOF);
    let e = e.with_line(7);
    assert_eq!(e.line_num(), 7);
}

#[test]
fn resize_utc_event_moves_only_the_edge() {
    let ctx = ctx();
    let mut ev = timed_event(utc_date(2025, 3, 29, 9, 0), utc_date(2025, 3, 29, 10, 0));
    // the new start resolves in its own zone, and is written in UTC
    ev.resize(
        &ctx,
        RangeEdge::Start,
        berlin_date(2025, 3, 29, 8, 0),
        &zone("Europe/Berlin"),
    )
    .unwrap();
    assert_eq!(ev.start(), Some(&utc_date(2025, 3, 29, 7, 0)));
    assert_eq!(ev.end(), Some(&utc_date(2025, 3, 29, 10, 0)));
    ev.resize(
        &ctx,
        RangeEdge::End,
        new_york_date(2025, 3, 29, 7, 0),
        &zone("Europe/Berlin"),
    )
    .unwrap();
    assert_eq!(ev.start(), Some(&utc_date(2025, 3, 29, 7, 0)));
    assert_eq!(ev.end(), Some(&utc_date(2025, 3, 29, 11, 0)));
    assert_eq!(ev.actual_duration(&ctx), Some(4 * 3600));
}

fn custom_zone_context() -> DateContext {
    // A zone like Central Europe, defined in the calendar itself.
    let last_sunday = |month: u8| eventix::objects::CalRRule {
        by_month: Some(vec![month]),
        by_day: Some(vec![eventix::objects::CalWDayDesc {
            day: 6,
            nth: Some((1, eventix::objects::CalRRuleSide::End)),
        }]),
        by_mon_day: None,
    };
    let observance = |start: i64, from: i32, to: i32, month: u8| {
        eventix::objects::CalTimeZoneObservance {
            dtstart: CalDateTime::Floating(start),
            tzoffset_from: from,
            tzoffset_to: to,
            rrule: Some(last_sunday(month)),
            rdate: vec![],
        }
    };
    DateContext::new(&Calendar {
        timezones: vec![eventix::objects::CalTimeZone {
            tzid: "Custom/Zone".to_string(),
            observances: vec![
                observance(secs(1981, 3, 29, 2, 0), 3600, 7200, 3),
                observance(secs(1996, 10, 27, 3, 0), 7200, 3600, 10),
            ],
        }],
    })
}

fn custom_date(y: i32, m: u32, d: u32, hh: u32, mm: u32) -> CalDate {
    CalDate::DateTime(CalDateTime::Timezone(secs(y, m, d, hh, mm), "Custom/Zone".to_string()))
}

#[test]
fn shift_and_resize_in_embedded_zone() {
    let ctx = custom_zone_context();
    let mut ev = timed_event(custom_date(2025, 3, 29, 9, 0), custom_date(2025, 3, 29, 10, 0));
    assert_eq!(ev.actual_duration(&ctx), Some(3600));
    // across the change to summer time the event keeps its hour
    ev.shift_to(&ctx, custom_date(2025, 3, 30, 9, 0), &Zone::utc()).unwrap();
    assert_eq!(ev.start(), Some(&custom_date(2025, 3, 30, 9, 0)));
    assert_eq!(ev.end(), Some(&custom_date(2025, 3, 30, 10, 0)));
    assert_eq!(ev.actual_duration(&ctx), Some(3600));
    // moving the end keeps the start
    ev.resize(&ctx, RangeEdge::End, custom_date(2025, 3, 30, 12, 0), &Zone::utc())
        .unwrap();
    assert_eq!(ev.start(), Some(&custom_date(2025, 3, 30, 9, 0)));
    assert_eq!(ev.end(), Some(&custom_date(2025, 3, 30, 12, 0)));
    assert_eq!(ev.actual_duration(&ctx), Some(3 * 3600));
}

#[test]
fn from_lines_stops_after_the_failing_line() {
    let mut lines = LineReader::new("".as_bytes());
    let err = CalEvent::from_lines(&mut lines, "BEGIN:VEVENT".parse::<Property>().unwrap())
        .unwrap_err();
    assert_eq!(err.ty(), &ParseErrorType::UnexpectedEOF);
    assert_eq!(err.line_num(), lines.line_num());
    let mut lines = LineReader::new("UID:x\nNOCOLON\nSUMMARY:after\n".as_bytes());
    let err = CalEvent::from_lines(&mut lines, "BEGIN:VEVENT".parse::<Property>().unwrap())
        .unwrap_err();
    assert_eq!(err.line_num(), lines.line_num());
    assert_eq!(lines.next(), Some("SUMMARY:after".to_string()));
}

#[test]
fn shift_in_database_zone_keeps_duration() {
    let ctx = ctx();
    let mut ev = timed_event(berlin_date(2025, 3, 29, 9, 0), berlin_date(2025, 3, 29, 10, 0));
    ev.shift_to(&ctx, berlin_date(2025, 3, 30, 9, 0), &zone("Europe/Berlin"))
        .unwrap();
    assert_eq!(ev.start(), Some(&berlin_date(2025, 3, 30, 9, 0)));
    assert_eq!(ev.end(), Some(&berlin_date(2025, 3, 30, 10, 0)));
    assert_eq!(ev.actual_duration(&ctx), Some(3600));
}

#[test]
fn read_events_of_a_calendar() {
    let text = "BEGIN:VCALENDAR\nVERSION:2.0\nBEGIN:VEVENT\nUID:a\nSUMMARY:first\nEND:VEVENT\nBEGIN:VEVENT\nUID:b\nEND:VEVENT\nEND:VCALENDAR\n";
    let events = eventix::objects::ics::read_events(text.as_bytes()).unwrap();
    assert_eq!(events.len(), 2);
    assert_eq!(events[0].uid(), "a");
    assert_eq!(events[1].uid(), "b");
    let err = eventix::objects::ics::read_events("BEGIN:VEVENT\nUID:a\n".as_bytes()).unwrap_err();
    assert_eq!(err.ty(), &ParseErrorType::UnexpectedEOF);
    assert_eq!(err.line_num(), 2);
    let err = eventix::objects::ics::read_events("VERSION:2.0\nNOCOLON\n".as_bytes()).unwrap_err();
    assert_eq!(err.ty(), &ParseErrorType::MissingNameEnd);
    assert_eq!(err.line_num(), 2);
}
