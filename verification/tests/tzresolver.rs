use chrono::NaiveDate;
use eventix::objects::observance::{expand_observance_rrule, FixedObservance};
use eventix::objects::{
    CalDate, CalDateTime, CalDateType, CalRRule, CalTimeZone, CalTimeZoneObservance,
    CalWDayDesc, Calendar, CalendarTimeZoneResolver, Zone,
};

fn secs(y: i32, m: u32, d: u32, hh: u32, mm: u32) -> i64 {
    NaiveDate::from_ymd_opt(y, m, d)
        .unwrap()
        .and_hms_opt(hh, mm, 0)
        .unwrap()
        .and_utc()
        .timestamp()
}

#[test]
fn observance_byday_without_ordinal_expands_all_matching_weekdays() {
    let dtstart = secs(2025, 10, 1, 2, 0);
    let rrule = CalRRule {
        by_month: Some(vec![10]),
        by_day: Some(vec![CalWDayDesc { day: 6, nth: None }]),
        by_mon_day: None,
    };
    let fx = FixedObservance {
        dtstart,
        dt_month: 10,
        dt_day: 1,
        dt_tod: 2 * 3600,
        offset_from: 7200,
        offset_to: 3600,
        rrule: Some(&rrule),
        rdate: vec![],
    };

    let starts = expand_observance_rrule(&fx, &rrule, 2025);

    assert_eq!(
        starts,
        vec![
            secs(2025, 10, 5, 2, 0),
            secs(2025, 10, 12, 2, 0),
            secs(2025, 10, 19, 2, 0),
            secs(2025, 10, 26, 2, 0),
        ]
    );
}

#[test]
fn resolve_date_start_uses_pre_gap_offset_for_nonexistent_tzid_time() {
    let resolver = CalendarTimeZoneResolver::default();
    let date = CalDate::DateTime(CalDateTime::Timezone(
        secs(2026, 3, 29, 2, 30),
        "Europe/Berlin".to_string(),
    ));

    let resolved = resolver.resolve_date_start(&date, &Zone::utc());

    // 2026-03-29T02:30:00+01:00
    assert_eq!(resolved.offset, 3600);
    assert_eq!(resolved.local(), secs(2026, 3, 29, 2, 30));
    // 2026-03-29T01:30:00+00:00
    assert_eq!(resolved.timestamp(), secs(2026, 3, 29, 1, 30));
}

#[test]
fn resolve_date_start_keeps_first_occurrence_for_ambiguous_tzid_time() {
    let resolver = CalendarTimeZoneResolver::default();
    let date = CalDate::DateTime(CalDateTime::Timezone(
        secs(2025, 10, 26, 2, 30),
        "Europe/Berlin".to_string(),
    ));

    let resolved = resolver.resolve_date_start(&date, &Zone::utc());

    // 2025-10-26T02:30:00+02:00
    assert_eq!(resolved.offset, 7200);
    assert_eq!(resolved.local(), secs(2025, 10, 26, 2, 30));
    // 2025-10-26T00:30:00+00:00
    assert_eq!(resolved.timestamp(), secs(2025, 10, 26, 0, 30));
}

fn embedded_calendar() -> Calendar {
    // A zone like Central Europe: daylight time from the last Sunday in March at 02:00,
    // standard time from the last Sunday in October at 03:00.
    let last_sunday = |month: u8| CalRRule {
        by_month: Some(vec![month]),
        by_day: Some(vec![CalWDayDesc {
            day: 6,
            nth: Some((1, eventix::objects::CalRRuleSide::End)),
        }]),
        by_mon_day: None,
    };
    Calendar {
        timezones: vec![CalTimeZone {
            tzid: "Custom/Zone".to_string(),
            observances: vec![
                CalTimeZoneObservance {
                    dtstart: CalDateTime::Floating(secs(1981, 3, 29, 2, 0)),
                    tzoffset_from: 3600,
                    tzoffset_to: 7200,
                    rrule: Some(last_sunday(3)),
                    rdate: vec![],
                },
                CalTimeZoneObservance {
                    dtstart: CalDateTime::Floating(secs(1996, 10, 27, 3, 0)),
                    tzoffset_from: 7200,
                    tzoffset_to: 3600,
                    rrule: Some(last_sunday(10)),
                    rdate: vec![],
                },
            ],
        }],
    }
}

#[test]
fn embedded_zone_resolves_gaps_and_folds() {
    let resolver = CalendarTimeZoneResolver::new(&embedded_calendar());
    let fallback = Zone::utc();
    let at = |t: i64| CalDateTime::Timezone(t, "Custom/Zone".to_string());

    // summer time
    let r = resolver.resolve_datetime(&at(secs(2025, 7, 1, 12, 0)), &fallback);
    assert_eq!((r.timestamp(), r.offset), (secs(2025, 7, 1, 10, 0), 7200));
    // winter time
    let r = resolver.resolve_datetime(&at(secs(2025, 1, 1, 12, 0)), &fallback);
    assert_eq!((r.timestamp(), r.offset), (secs(2025, 1, 1, 11, 0), 3600));
    // in the gap: the offset before it
    let r = resolver.resolve_datetime(&at(secs(2025, 3, 30, 2, 30)), &fallback);
    assert_eq!((r.timestamp(), r.offset), (secs(2025, 3, 30, 1, 30), 3600));
    assert_eq!(
        resolver.resolve_pseudo_local(secs(2025, 3, 30, 2, 30), Some("Custom/Zone"), &fallback),
        None
    );
    // in the fold: the earlier instant
    let r = resolver.resolve_datetime(&at(secs(2025, 10, 26, 2, 30)), &fallback);
    assert_eq!((r.timestamp(), r.offset), (secs(2025, 10, 26, 0, 30), 7200));
    assert!(resolver.is_fold_local_time("Custom/Zone", secs(2025, 10, 26, 2, 30)));
    assert!(!resolver.is_fold_local_time("Custom/Zone", secs(2025, 10, 26, 3, 30)));
    // back to wall-clock time
    assert_eq!(
        resolver.instant_to_local(r, Some("Custom/Zone"), &fallback),
        secs(2025, 10, 26, 2, 30)
    );
    assert!(resolver.instant_is_fold_local_time(r, "Custom/Zone"));
}

#[test]
fn unknown_zone_falls_back_to_utc() {
    let resolver = CalendarTimeZoneResolver::default();
    let d = CalDate::DateTime(CalDateTime::Timezone(
        secs(2025, 7, 1, 12, 0),
        "Not/AZone".to_string(),
    ));
    let r = resolver.resolve_date_start(&d, &Zone::utc());
    assert_eq!((r.timestamp(), r.offset), (secs(2025, 7, 1, 12, 0), 0));
    assert!(Zone::from_name("Not/AZone").is_none());
}

#[test]
fn day_bounds_in_fallback_zone() {
    let resolver = CalendarTimeZoneResolver::default();
    let berlin = Zone::from_name("Europe/Berlin").unwrap();
    let day = secs(2025, 7, 1, 0, 0) / 86400;
    let start = resolver.resolve_date_start(&CalDate::Date(day, CalDateType::Exclusive), &berlin);
    assert_eq!(start.timestamp(), secs(2025, 6, 30, 22, 0));
    let end = resolver.resolve_date_end(&CalDate::Date(day, CalDateType::Exclusive), &berlin);
    assert_eq!(end.timestamp(), secs(2025, 6, 30, 21, 59) + 59);
    let end = resolver.resolve_date_end(&CalDate::Date(day, CalDateType::Inclusive), &berlin);
    assert_eq!(end.timestamp(), secs(2025, 7, 1, 21, 59) + 59);
    assert_eq!(
        resolver.try_resolve_date_start(&CalDate::Date(day, CalDateType::Exclusive), &berlin),
        Some(start)
    );
    assert_eq!(
        resolver.instant_to_local(start, None, &berlin),
        secs(2025, 7, 1, 0, 0)
    );
    assert_eq!(
        resolver.pseudo_local_date_start(&CalDate::Date(day, CalDateType::Inclusive), &berlin),
        secs(2025, 7, 1, 0, 0)
    );
}

#[test]
fn embedded_zone_without_observances_has_only_gaps() {
    let cal = Calendar {
        timezones: vec![CalTimeZone {
            tzid: "Empty/Zone".to_string(),
            observances: vec![],
        }],
    };
    let resolver = CalendarTimeZoneResolver::new(&cal);
    let d = CalDate::DateTime(CalDateTime::Timezone(
        secs(2025, 7, 1, 12, 0),
        "Empty/Zone".to_string(),
    ));
    assert_eq!(resolver.try_resolve_date_start(&d, &Zone::utc()), None);
}

#[test]
fn cloned_resolver_resolves_alike() {
    let resolver = CalendarTimeZoneResolver::new(&embedded_calendar());
    let copy = resolver.clone();
    let d = CalDate::DateTime(CalDateTime::Timezone(
        secs(2025, 7, 1, 12, 0),
        "Custom/Zone".to_string(),
    ));
    assert_eq!(
        copy.resolve_date_start(&d, &Zone::utc()),
        resolver.resolve_date_start(&d, &Zone::utc())
    );
}

#[test]
fn localized_instants_resolve_back() {
    let resolver = CalendarTimeZoneResolver::new(&embedded_calendar());
    let fallback = Zone::utc();
    for (y, m, d, h) in [(2025, 7, 1, 12), (2025, 1, 1, 0), (2025, 10, 26, 2), (2025, 3, 30, 3)] {
        let dt = CalDateTime::Timezone(secs(y, m, d, h, 15), "Custom/Zone".to_string());
        let r = resolver.resolve_datetime(&dt, &fallback);
        let local = resolver.instant_to_local(r, Some("Custom/Zone"), &fallback);
        let again = resolver.resolve_datetime(
            &CalDateTime::Timezone(local, "Custom/Zone".to_string()),
            &fallback,
        );
        assert!(
            again.timestamp() == r.timestamp()
                || resolver.instant_is_fold_local_time(r, "Custom/Zone")
        );
    }
}

#[test]
fn zones_without_embedded_definition_resolve_as_default() {
    let resolver = CalendarTimeZoneResolver::new(&embedded_calendar());
    let default = CalendarTimeZoneResolver::default();
    let berlin = Zone::from_name("Europe/Berlin").unwrap();
    for t in [secs(2025, 7, 1, 12, 0), secs(2026, 3, 29, 2, 30), secs(2025, 10, 26, 2, 30)] {
        for name in ["Europe/Berlin", "Not/AZone"] {
            let dt = CalDateTime::Timezone(t, name.to_string());
            assert_eq!(
                resolver.resolve_datetime(&dt, &berlin),
                default.resolve_datetime(&dt, &berlin)
            );
            let i = default.resolve_datetime(&dt, &berlin);
            assert_eq!(
                resolver.instant_to_local(i, Some(name), &berlin),
                default.instant_to_local(i, Some(name), &berlin)
            );
        }
    }
}

#[test]
fn pseudo_local_start_resolves_as_the_start() {
    let resolver = CalendarTimeZoneResolver::default();
    let utc = Zone::utc();
    // Berlin: a gap time gives none, a fold time its earlier instant
    let gap = CalDate::DateTime(CalDateTime::Timezone(
        secs(2026, 3, 29, 2, 30),
        "Europe/Berlin".to_string(),
    ));
    let p = resolver.pseudo_local_date_start(&gap, &utc);
    assert_eq!(resolver.resolve_pseudo_local(p, Some("Europe/Berlin"), &utc), None);
    let fold = CalDate::DateTime(CalDateTime::Timezone(
        secs(2025, 10, 26, 2, 30),
        "Europe/Berlin".to_string(),
    ));
    let p = resolver.pseudo_local_date_start(&fold, &utc);
    let r = resolver.resolve_pseudo_local(p, Some("Europe/Berlin"), &utc).unwrap();
    assert_eq!(r, resolver.resolve_date_start(&fold, &utc));
    assert_eq!((r.timestamp(), r.offset), (secs(2025, 10, 26, 0, 30), 7200));
}

#[test]
fn datetimes_end_where_they_start() {
    let resolver = CalendarTimeZoneResolver::new(&embedded_calendar());
    let d = CalDate::DateTime(CalDateTime::Timezone(
        secs(2025, 7, 1, 12, 0),
        "Custom/Zone".to_string(),
    ));
    let start = resolver.resolve_date_start(&d, &Zone::utc());
    assert_eq!(resolver.resolve_date_end(&d, &Zone::utc()), start);
    let day = secs(2025, 4, 12, 0, 0) / 86400;
    let end = resolver.resolve_date_end(&CalDate::Date(day, CalDateType::Exclusive), &Zone::utc());
    assert_eq!(end.timestamp(), secs(2025, 4, 11, 23, 59) + 59);
}

#[test]
fn database_zone_instants_resolve_back() {
    let resolver = CalendarTimeZoneResolver::default();
    let fallback = Zone::utc();
    for (y, m, d, h) in [(2025, 7, 1, 12), (2025, 1, 1, 0), (2025, 10, 26, 2), (2025, 3, 30, 3)] {
        let dt = CalDateTime::Timezone(secs(y, m, d, h, 15), "Europe/Berlin".to_string());
        let r = resolver.resolve_datetime(&dt, &fallback);
        let local = resolver.instant_to_local(r, Some("Europe/Berlin"), &fallback);
        let again = resolver.resolve_datetime(
            &CalDateTime::Timezone(local, "Europe/Berlin".to_string()),
            &fallback,
        );
        assert_eq!(again.timestamp(), r.timestamp());
    }
    // the later instant of a fold resolves to the earlier one
    let later = resolver.resolve_datetime(&CalDateTime::Utc(secs(2025, 10, 26, 1, 30)), &fallback);
    let local = resolver.instant_to_local(later, Some("Europe/Berlin"), &fallback);
    assert_eq!(local, secs(2025, 10, 26, 2, 30));
    assert!(resolver.instant_is_fold_local_time(later, "Europe/Berlin"));
}
