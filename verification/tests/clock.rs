use ai_memory_panel::clock::{
    age_label, day_key, format_us, humanize, humanize_at, EARLIEST_US, LATEST_US,
};

#[test]
fn dates_are_in_utc() {
    assert_eq!(day_key(0), "1970-01-01");
    assert_eq!(day_key(-1), "1969-12-31");
    assert_eq!(day_key(86_399_999_999), "1970-01-01");
    assert_eq!(day_key(86_400_000_000), "1970-01-02");
    assert_eq!(day_key(951_782_400_000_000), "2000-02-29");
    assert_eq!(day_key(1_790_899_200_000_000), "2026-10-02");
}

#[test]
fn dates_at_the_ends_of_the_range() {
    assert_eq!(day_key(LATEST_US), "9999-12-30");
    assert_eq!(day_key(LATEST_US + 1), "");
    assert_eq!(day_key(EARLIEST_US), "-9999-01-02");
    assert_eq!(day_key(EARLIEST_US - 1), "");
    assert_eq!(day_key(i64::MAX), "");
    assert_eq!(day_key(i64::MIN), "");
    // The first day of year zero, and the day before.
    assert_eq!(day_key(-62_167_219_200_000_000), "0000-01-01");
    assert_eq!(day_key(-62_167_219_200_000_001), "-001-12-31");
}

#[test]
fn every_day_of_four_centuries_follows_the_one_before() {
    let mut last = String::new();
    let mut us: i64 = -6_847_804_800_000_000;
    while us < 5_775_667_200_000_000 {
        let day = day_key(us);
        assert!(last < day, "{last} {day}");
        last = day;
        us += 86_400_000_000;
    }
    assert_eq!(last, "2153-01-08");
}

#[test]
fn points_in_time_are_written_and_read_back() {
    assert_eq!(format_us(0), "1970-01-01T00:00:00Z");
    assert_eq!(format_us(1_500_000), "1970-01-01T00:00:01.5Z");
    assert_eq!(format_us(LATEST_US + 1), "253402207200000001");
    assert_eq!(format_us(i64::MIN), "-9223372036854775808");
    for us in [0, -1, 1, 1_790_899_200_123_456, EARLIEST_US, LATEST_US] {
        let text = format_us(us);
        assert_eq!(
            text.parse::<jiff::Timestamp>().unwrap().as_microsecond(),
            us
        );
    }
}

#[test]
fn ages_are_in_the_greatest_unit() {
    let s = 1_000_000i64;
    for (secs, expected) in [
        (0, "just now"),
        (59, "just now"),
        (60, "1 minute ago"),
        (119, "1 minute ago"),
        (120, "2 minutes ago"),
        (3_599, "59 minutes ago"),
        (3_600, "1 hour ago"),
        (86_399, "23 hours ago"),
        (86_400, "1 day ago"),
        (29 * 86_400, "29 days ago"),
        (30 * 86_400, "1 month ago"),
        (359 * 86_400, "11 months ago"),
        (360 * 86_400, "1 year ago"),
        (720 * 86_400, "2 years ago"),
    ] {
        assert_eq!(age_label(0, secs * s), expected);
        assert_eq!(age_label(secs * s, 0), expected);
    }
    assert_eq!(age_label(0, 59 * s + 999_999), "just now");
    assert_eq!(age_label(i64::MIN, i64::MAX), "593066 years ago");
}

#[test]
fn texts_that_are_no_timestamps_are_left_alone() {
    assert_eq!(humanize("yesterday"), "yesterday");
    assert_eq!(humanize(""), "");
    assert_eq!(humanize("2026-09-25T00:00:00"), "2026-09-25T00:00:00");
    assert_eq!(humanize_at("x", 0), "x");
}

#[test]
fn timestamps_become_ages() {
    assert_eq!(
        humanize_at("1970-01-01T00:00:00Z", 7_200_000_000),
        "2 hours ago"
    );
    assert_eq!(
        humanize_at("1970-01-01T02:00:00+02:00", 60_000_000),
        "1 minute ago"
    );
    let now = jiff::Timestamp::now();
    assert_eq!(humanize(&now.to_string()), "just now");
    let past = jiff::Timestamp::from_second(now.as_second() - 3 * 86_400 - 100).unwrap();
    assert_eq!(humanize(&past.to_string()), "3 days ago");
}
