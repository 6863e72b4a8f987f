use chrono::NaiveDate;
use eventix::objects::Zone;
use eventix::pages::events::{days_with_occurrences, sidebar_days};
use eventix::pages::monthly::{month_grid, neighbour_params};

fn day(y: i32, m: u32, d: u32) -> i64 {
    NaiveDate::from_ymd_opt(y, m, d)
        .unwrap()
        .and_hms_opt(0, 0, 0)
        .unwrap()
        .and_utc()
        .timestamp()
        / 86400
}

#[test]
fn february_grid_runs_from_monday_to_sunday() {
    let grid = month_grid(2025, 2);
    assert_eq!(grid.len(), 35);
    assert_eq!(grid[0].day, day(2025, 1, 27));
    assert_eq!(grid[34].day, day(2025, 3, 2));
    for (i, g) in grid.iter().enumerate() {
        assert_eq!(g.day, day(2025, 1, 27) + i as i64);
        assert_eq!(g.cur_month, g.day >= day(2025, 2, 1) && g.day <= day(2025, 2, 28));
    }
    let shown: Vec<i64> = grid.iter().filter(|g| g.show_month).map(|g| g.day).collect();
    assert_eq!(
        shown,
        vec![day(2025, 1, 31), day(2025, 2, 1), day(2025, 2, 28), day(2025, 3, 1)]
    );
}

#[test]
fn month_ending_on_sunday_gets_a_whole_extra_week() {
    let grid = month_grid(2025, 8);
    assert_eq!(grid[0].day, day(2025, 7, 28));
    assert_eq!(grid.len(), 42);
    assert_eq!(grid[41].day, day(2025, 9, 7));
}

#[test]
fn neighbouring_months() {
    let (p, n) = neighbour_params(2025, 1);
    assert_eq!((p.as_str(), n.as_str()), ("2024-12", "2025-2"));
    let (p, n) = neighbour_params(2025, 12);
    assert_eq!((p.as_str(), n.as_str()), ("2025-11", "2026-1"));
}

#[test]
fn sidebar_days_follow_the_viewer_zone() {
    let berlin = Zone::from_name("Europe/Berlin").unwrap();
    let now = NaiveDate::from_ymd_opt(2025, 3, 29)
        .unwrap()
        .and_hms_opt(22, 30, 0)
        .unwrap()
        .and_utc()
        .timestamp();
    // 23:30 local on the 29th; a day later it is 00:30 local on the 31st after the change to
    // summer time, so two days are listed.
    assert_eq!(sidebar_days(now, 1, &berlin), vec![day(2025, 3, 29), day(2025, 3, 30)]);
    assert_eq!(sidebar_days(now, 0, &Zone::utc()), Vec::<i64>::new());
    assert_eq!(
        sidebar_days(now, 7, &Zone::utc()),
        (0..7).map(|i| day(2025, 3, 29) + i).collect::<Vec<_>>()
    );
}

#[test]
fn sidebar_keeps_days_with_occurrences() {
    let days = vec![10, 11, 12, 13];
    assert_eq!(days_with_occurrences(&days, &vec![0, 2, 0, 1]), vec![11, 13]);
    assert_eq!(days_with_occurrences(&days, &vec![0, 0, 0, 0]), Vec::<i64>::new());
}
