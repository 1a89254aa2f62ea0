use day_skies::calendar::{
    days_in_month, parse_ymd, weekday_index, weekday_index_offset, weekday_supported,
};

#[test]
fn weekday_of_known_dates() {
    // 15 July 2026 is a Wednesday; 1 January 1970 a Thursday; 29 February 2000 a Tuesday.
    assert_eq!(weekday_index(2026, 7, 15), 3);
    assert_eq!(weekday_index(1970, 1, 1), 4);
    assert_eq!(weekday_index(2000, 2, 29), 2);
    assert_eq!(weekday_index(2024, 12, 31), 2);
}

#[test]
fn day_overflow_rolls_into_following_months() {
    // 32 July is 1 August (Saturday); 31 December + 1 is 1 January of the next year.
    assert_eq!(weekday_index(2026, 7, 32), weekday_index(2026, 8, 1));
    assert_eq!(weekday_index(2026, 8, 1), 6);
    assert_eq!(weekday_index(2025, 12, 32), weekday_index(2026, 1, 1));
    // 2024 is a leap year: 30 February is 1 March.
    assert_eq!(weekday_index(2024, 2, 30), weekday_index(2024, 3, 1));
    assert_eq!(weekday_index(2023, 2, 29), weekday_index(2023, 3, 1));
}

#[test]
fn consecutive_days_have_consecutive_weekdays() {
    for (y, m) in [(2024, 2), (2026, 12), (1900, 2), (2000, 2), (2026, 7)] {
        for d in 1..40 {
            assert_eq!(weekday_index(y, m, d + 1), (weekday_index(y, m, d) + 1) % 7);
        }
    }
}

#[test]
fn offsets_from_a_base_date() {
    assert_eq!(weekday_index_offset(2026, 7, 15, 0), 3);
    assert_eq!(weekday_index_offset(2026, 7, 15, 1), 4);
    assert_eq!(weekday_index_offset(2026, 7, 15, 9), 5);
    assert_eq!(weekday_index_offset(2026, 7, 15, 17), weekday_index(2026, 8, 1));
}

#[test]
fn month_lengths() {
    assert_eq!(days_in_month(2026, 1), 31);
    assert_eq!(days_in_month(2026, 4), 30);
    assert_eq!(days_in_month(2024, 2), 29);
    assert_eq!(days_in_month(2023, 2), 28);
    assert_eq!(days_in_month(1900, 2), 28);
    assert_eq!(days_in_month(2000, 2), 29);
    assert_eq!(days_in_month(2026, 13), 30);
}

#[test]
fn date_fields() {
    assert_eq!(parse_ymd("2026-07-15"), (2026, 7, 15));
    assert_eq!(parse_ymd("2026-07-15T06:12"), (2026, 7, 15));
    assert_eq!(parse_ymd("1999-12"), (1999, 12, 1));
    assert_eq!(parse_ymd("garbage"), (2026, 1, 1));
    assert_eq!(parse_ymd(""), (2026, 1, 1));
    assert_eq!(parse_ymd("x-3-+4"), (2026, 3, 4));
    assert_eq!(parse_ymd("2026--9"), (2026, 1, 9));
}

#[test]
fn months_out_of_range_are_carried_when_days_run_over() {
    // Month 13 with 32 days carries into January of the next year; month 0 with 45 days
    // (a 30-day month) into January of the same year.
    assert!(weekday_supported(2026, 13, 32));
    assert_eq!(weekday_index(2026, 13, 32), weekday_index(2027, 1, 2));
    assert!(weekday_supported(2026, 0, 45));
    assert_eq!(weekday_index(2026, 0, 45), weekday_index(2026, 1, 15));
    assert!(!weekday_supported(2026, 13, 5));
    assert!(!weekday_supported(2026, 0, 30));
    assert!(weekday_supported(2026, 7, -3));
    assert!(!weekday_supported(i64::MAX, 7, 1));
    assert!(!weekday_supported(2026, i64::MAX, 1));
}

#[test]
fn very_large_years_are_computed() {
    // The formula stays inside i64 far beyond any calendar in use.
    assert!(weekday_supported(1 << 61, 7, 15));
    let w = weekday_index(1 << 61, 7, 15);
    assert!(w < 7);
    assert!(weekday_supported(7_000_000_000_000_000_000, 7, 15));
    assert!(!weekday_supported(9_000_000_000_000_000_000, 7, 15));
    assert!(!weekday_supported(i64::MAX, 12, 32));
    assert!(weekday_supported(i64::MIN / 2, 7, 15));
}

#[test]
fn weeks_repeat_and_match_the_gregorian_calendar() {
    for (y, m, d) in [(1, 1, 1), (2026, 7, 15), (1582, 10, 15), (2000, 2, 28), (2024, 12, 30)] {
        assert_eq!(weekday_index(y, m, d + 7), weekday_index(y, m, d));
    }
    // 1 January of year 1 (proleptic Gregorian) was a Monday; 15 October 1582 a Friday.
    assert_eq!(weekday_index(1, 1, 1), 1);
    assert_eq!(weekday_index(1582, 10, 15), 5);
}

#[test]
fn formatted_dates_read_back() {
    for (y, m, d) in [(0, 1, 1), (2026, 7, 15), (999, 12, 31), (9999, 2, 29)] {
        let s = format!("{y:04}-{m:02}-{d:02}");
        assert_eq!(parse_ymd(&s), (y, m, d));
        assert_eq!(parse_ymd(&format!("{s}T06:12")), (y, m, d));
    }
}
