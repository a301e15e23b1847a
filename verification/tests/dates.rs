use skew::dates::{
    civil_from_days, days_from_civil, fmt_ymd, is_weekend, parse_ymd, weekday, weekdays,
    weekdays_between, within_i64,
};

#[test]
fn epoch() {
    assert_eq!(days_from_civil(1970, 1, 1), 0);
    assert_eq!(civil_from_days(0), (1970, 1, 1));
}

#[test]
fn known_day_numbers() {
    assert_eq!(days_from_civil(2000, 3, 1), 11017);
    assert_eq!(days_from_civil(2026, 6, 18), 20622);
    assert_eq!(days_from_civil(1969, 12, 31), -1);
    assert_eq!(days_from_civil(0, 3, 1), -719468);
    assert_eq!(days_from_civil(-1, 12, 31), -719529);
}

#[test]
fn months_and_days_outside_the_calendar() {
    assert_eq!(days_from_civil(2026, 13, 1), days_from_civil(2027, 1, 1));
    assert_eq!(days_from_civil(2026, 6, 31), days_from_civil(2026, 7, 1));
    assert_eq!(days_from_civil(2026, 6, 0), days_from_civil(2026, 5, 31));
}

#[test]
fn dates_round_trip() {
    let mut z: i64 = -800_000;
    while z < 800_000 {
        let (y, m, d) = civil_from_days(z);
        assert_eq!(days_from_civil(y, m, d), z);
        assert!(1 <= m && m <= 12 && 1 <= d && d <= 31);
        z += 173;
    }
}

#[test]
fn leap_days() {
    assert_eq!(days_from_civil(2024, 3, 1) - days_from_civil(2024, 2, 28), 2);
    assert_eq!(days_from_civil(2023, 3, 1) - days_from_civil(2023, 2, 28), 1);
    assert_eq!(days_from_civil(1900, 3, 1) - days_from_civil(1900, 2, 28), 1);
    assert_eq!(days_from_civil(2000, 3, 1) - days_from_civil(2000, 2, 28), 2);
    assert_eq!(civil_from_days(days_from_civil(2024, 2, 29)), (2024, 2, 29));
}

#[test]
fn years_have_their_length() {
    assert_eq!(days_from_civil(2025, 1, 1) - days_from_civil(2024, 1, 1), 366);
    assert_eq!(days_from_civil(2026, 1, 1) - days_from_civil(2025, 1, 1), 365);
}

#[test]
fn later_dates_have_greater_numbers() {
    assert!(days_from_civil(2025, 12, 31) < days_from_civil(2026, 1, 1));
    assert!(days_from_civil(2026, 1, 31) < days_from_civil(2026, 2, 1));
}

#[test]
fn parse_dates() {
    assert_eq!(parse_ymd("2026-05-15"), Some(20588));
    assert_eq!(parse_ymd(" 2026-05-15 "), Some(20588));
    assert_eq!(parse_ymd("2026-05-15T16:00:00"), Some(20588));
    assert_eq!(parse_ymd("2026-05-15 16:00"), Some(20588));
    assert_eq!(parse_ymd("2026-5-15"), Some(20588));
    assert_eq!(parse_ymd("2026-05-15-9"), Some(20588));
    assert_eq!(parse_ymd("2026-05"), None);
    assert_eq!(parse_ymd("2026-05-xx"), None);
    assert_eq!(parse_ymd("-2026-05-15"), None);
    assert_eq!(parse_ymd(""), None);
}

#[test]
fn dates_that_leave_the_range() {
    assert_eq!(parse_ymd("9223372036854775807-01-01"), None);
    assert_eq!(parse_ymd("99999999999999999999-01-01"), None);
    assert!(!within_i64(i64::MAX, 1, 1));
    assert!(within_i64(2026, 1, 1));
}

#[test]
fn format_dates() {
    assert_eq!(fmt_ymd(0), "1970-01-01");
    assert_eq!(fmt_ymd(20588), "2026-05-15");
    assert_eq!(fmt_ymd(-719528), "0000-01-01");
    assert_eq!(fmt_ymd(days_from_civil(12345, 6, 7)), "12345-06-07");
    assert_eq!(fmt_ymd(days_from_civil(-5, 6, 7)), "-005-06-07");
}

#[test]
fn reading_undoes_formatting() {
    let mut z: i64 = -719_528;
    while z < 100_000 {
        assert_eq!(parse_ymd(&fmt_ymd(z)), Some(z));
        z += 997;
    }
}

#[test]
fn days_of_the_week() {
    assert_eq!(weekday(0), 4);
    assert_eq!(weekday(-1), 3);
    assert_eq!(weekday(-4), 0);
    assert_eq!(weekday(20588), 5);
    assert!(is_weekend(2) && is_weekend(3));
    assert!(!is_weekend(1) && !is_weekend(4));
}

#[test]
fn working_days_of_a_range() {
    assert_eq!(weekdays(0, 5), vec!["1970-01-01", "1970-01-02", "1970-01-05", "1970-01-06"]);
    assert!(weekdays(2, 3).is_empty());
    assert!(weekdays(5, 0).is_empty());
    let days = weekdays_between("2026-06-11", "2026-06-16").unwrap();
    assert_eq!(days, vec!["2026-06-11", "2026-06-12", "2026-06-15", "2026-06-16"]);
    assert_eq!(weekdays_between("2026-06-16", "2026-06-11"), Some(vec![]));
    assert_eq!(weekdays_between("soon", "2026-06-11"), None);
    assert_eq!(weekdays_between("2026-06-11", ""), None);
}

#[test]
fn texts_are_in_the_order_of_days() {
    let mut z: i64 = -719_528;
    while z + 613 <= 2_932_896 {
        assert!(fmt_ymd(z) < fmt_ymd(z + 1) && fmt_ymd(z) < fmt_ymd(z + 613));
        z += 613;
    }
    assert_eq!((fmt_ymd(-719_528), fmt_ymd(2_932_896)), ("0000-01-01".to_string(), "9999-12-31".to_string()));
    assert!(fmt_ymd(2_932_897) < fmt_ymd(2_932_896));
}
