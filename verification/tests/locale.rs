use eventix::locale::it::{fmt_date_parts, fmt_weekdate_parts, nth_day};

#[test]
fn italian_ordinals() {
    assert_eq!(nth_day(1, true), "primo");
    assert_eq!(nth_day(2, true), "secondo");
    assert_eq!(nth_day(3, true), "terzo");
    assert_eq!(nth_day(4, true), "4esimo");
    assert_eq!(nth_day(1, false), "ultimo");
    assert_eq!(nth_day(2, false), "penultimo");
    assert_eq!(nth_day(5, false), "5esimo dall'ultimo");
}

#[test]
fn italian_dates_from_parts() {
    assert_eq!(
        fmt_date_parts(Some("domenica"), "05", "gennaio", "2025"),
        "domenica 05 gennaio 2025"
    );
    assert_eq!(fmt_date_parts(None, "05", "gen", "2025"), "05 gen 2025");
    assert_eq!(fmt_weekdate_parts("lun", "gen", "05"), "lun, gen 05");
}
