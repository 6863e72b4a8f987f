use eventix::api::dstwarn::{dst_warning_time, format_minute, parse_datetime, FieldError, Request};
use eventix::objects::CalendarTimeZoneResolver;

fn req(from: (&str, &str), to: (&str, &str)) -> Request {
    Request {
        from_date: Some(from.0.to_string()),
        from_time: Some(from.1.to_string()),
        to_date: Some(to.0.to_string()),
        to_time: Some(to.1.to_string()),
        timezone: "Europe/Berlin".to_string(),
    }
}

#[test]
fn returns_gap_hit_for_range_spanning_spring_forward() {
    let resolver = CalendarTimeZoneResolver::default();
    let r = req(("2026-03-29", "01:30"), ("2026-03-29", "03:30"));
    assert_eq!(
        dst_warning_time(&r, &resolver),
        Some("2026-03-29 02:00".to_string())
    );
}

#[test]
fn returns_fold_hit_for_range_spanning_fall_back() {
    let resolver = CalendarTimeZoneResolver::default();
    let r = req(("2025-10-26", "01:30"), ("2025-10-26", "03:30"));
    assert_eq!(
        dst_warning_time(&r, &resolver),
        Some("2025-10-26 02:00".to_string())
    );
}

#[test]
fn returns_null_without_transition() {
    let resolver = CalendarTimeZoneResolver::default();
    let r = req(("2026-04-15", "09:00"), ("2026-04-15", "10:00"));
    assert_eq!(dst_warning_time(&r, &resolver), None);
}

#[test]
fn returns_null_for_incomplete_fields() {
    let resolver = CalendarTimeZoneResolver::default();
    let r = req(("2026-03-29", "01:30"), ("2026-03-29", "10:"));
    assert_eq!(dst_warning_time(&r, &resolver), None);
    let mut r = req(("2026-03-29", "01:30"), ("2026-03-29", "03:30"));
    r.to_time = None;
    assert_eq!(dst_warning_time(&r, &resolver), None);
}

#[test]
fn fields_are_read_together() {
    assert_eq!(
        parse_datetime(Some("1970-01-02"), Some("00:01")),
        Ok(Some(86400 + 60))
    );
    assert_eq!(parse_datetime(Some(""), Some("00:01")), Ok(None));
    assert_eq!(parse_datetime(None, Some("00:01")), Ok(None));
    assert_eq!(
        parse_datetime(Some("2025-13-01"), Some("00:01")),
        Err(FieldError::InvalidDate("2025-13-01".to_string()))
    );
    assert_eq!(
        parse_datetime(Some("2025-12-01"), Some("25:00")),
        Err(FieldError::InvalidTime("25:00".to_string()))
    );
}

#[test]
fn minutes_are_written_with_date() {
    assert_eq!(format_minute(0), "1970-01-01 00:00");
    assert_eq!(format_minute(1_774_751_400), "2026-03-29 02:30");
    assert_eq!(format_minute(-60), "1969-12-31 23:59");
}
