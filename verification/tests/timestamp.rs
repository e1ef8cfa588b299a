use loglint::timestamp::{parse_timestamp, Timestamp};

fn chars(s: &str) -> Vec<char> {
    s.chars().collect()
}

fn parse(s: &str) -> Result<Timestamp, String> {
    parse_timestamp(&chars(s))
}

#[test]
fn parses_valid_timestamp() {
    let ts = parse("2026-09-16T10:23:01.123Z").unwrap();
    assert_eq!(
        ts,
        Timestamp { year: 2026, month: 9, day: 16, hour: 10, minute: 23, second: 1, millis: 123 }
    );
}

#[test]
fn length_is_counted_in_bytes() {
    assert_eq!(
        parse("2026-09-16T10:23:03Z").unwrap_err(),
        "timestamp must be exactly 24 characters (YYYY-MM-DDTHH:MM:SS.mmmZ), got 20"
    );
    assert_eq!(
        parse("2026-09-16T10:23:01.123\u{e9}").unwrap_err(),
        "timestamp must be exactly 24 characters (YYYY-MM-DDTHH:MM:SS.mmmZ), got 25"
    );
    assert_eq!(
        parse("").unwrap_err(),
        "timestamp must be exactly 24 characters (YYYY-MM-DDTHH:MM:SS.mmmZ), got 0"
    );
}

#[test]
fn reports_first_layout_mismatch() {
    assert_eq!(
        parse("2026-09-16T10:23:01.1x3Z").unwrap_err(),
        "expected digit at position 21, found 'x'"
    );
    assert_eq!(
        parse("2026/09-16T10:23:01.123Z").unwrap_err(),
        "expected '-' at position 4, found '/'"
    );
    assert_eq!(
        parse("2026-09-16 10:23:01.123Z").unwrap_err(),
        "expected 'T' at position 10, found ' '"
    );
    assert_eq!(
        parse("2026-09-16T10:23:01.123z").unwrap_err(),
        "expected 'Z' at position 23, found 'z'"
    );
}

#[test]
fn non_ascii_shows_its_first_byte() {
    // 21 ASCII characters, a two-byte character and 'Z': 24 bytes.
    assert_eq!(
        parse("2026-09-16T10:23:01.1\u{e9}Z").unwrap_err(),
        "expected digit at position 21, found '\u{c3}'"
    );
}

#[test]
fn reports_ranges_in_order() {
    assert_eq!(parse("2026-13-16T10:23:01.123Z").unwrap_err(), "month 13 out of range");
    assert_eq!(parse("2026-00-16T10:23:01.123Z").unwrap_err(), "month 0 out of range");
    assert_eq!(
        parse("2025-02-29T10:23:01.123Z").unwrap_err(),
        "day 29 out of range for 2025-02"
    );
    assert_eq!(
        parse("0099-04-31T10:23:01.123Z").unwrap_err(),
        "day 31 out of range for 0099-04"
    );
    assert_eq!(parse("2026-09-00T10:23:01.123Z").unwrap_err(), "day 0 out of range for 2026-09");
    assert_eq!(parse("2026-09-16T24:23:01.123Z").unwrap_err(), "hour 24 out of range");
    assert_eq!(parse("2026-09-16T23:60:01.123Z").unwrap_err(), "minute 60 out of range");
    assert_eq!(parse("2026-09-16T23:59:60.123Z").unwrap_err(), "second 60 out of range");
    assert_eq!(parse("2026-13-32T99:99:99.123Z").unwrap_err(), "month 13 out of range");
}

#[test]
fn leap_years() {
    assert!(parse("2024-02-29T00:00:00.000Z").is_ok());
    assert!(parse("2000-02-29T00:00:00.000Z").is_ok());
    assert_eq!(
        parse("1900-02-29T00:00:00.000Z").unwrap_err(),
        "day 29 out of range for 1900-02"
    );
    assert!(Timestamp::is_leap_year(2024));
    assert!(Timestamp::is_leap_year(2000));
    assert!(!Timestamp::is_leap_year(1900));
    assert!(!Timestamp::is_leap_year(2023));
}

#[test]
fn days_in_each_month() {
    assert_eq!(Timestamp::days_in_month(2023, 1), 31);
    assert_eq!(Timestamp::days_in_month(2023, 2), 28);
    assert_eq!(Timestamp::days_in_month(2024, 2), 29);
    assert_eq!(Timestamp::days_in_month(2023, 4), 30);
    assert_eq!(Timestamp::days_in_month(2023, 12), 31);
    assert_eq!(Timestamp::days_in_month(2023, 0), 0);
    assert_eq!(Timestamp::days_in_month(2023, 13), 0);
}

#[test]
fn validate_checks_fields() {
    let mut ts = Timestamp { year: 2026, month: 9, day: 16, hour: 10, minute: 23, second: 1, millis: 123 };
    assert_eq!(ts.validate(), Ok(()));
    ts.minute = 75;
    assert_eq!(ts.validate(), Err("minute 75 out of range".to_string()));
    ts.year = 12345;
    ts.month = 2;
    ts.day = 30;
    assert_eq!(ts.validate(), Err("day 30 out of range for 12345-02".to_string()));
}

#[test]
fn renders_zero_padded() {
    let ts = Timestamp { year: 5, month: 1, day: 2, hour: 3, minute: 4, second: 5, millis: 6 };
    assert_eq!(ts.to_string(), "0005-01-02T03:04:05.006Z");
    let ts = Timestamp { year: 12345, month: 1, day: 2, hour: 3, minute: 4, second: 5, millis: 1000 };
    assert_eq!(ts.to_string(), "12345-01-02T03:04:05.1000Z");
}

#[test]
fn text_parses_back_and_is_canonical() {
    let text = "2026-09-16T10:23:01.123Z";
    let ts = parse(text).unwrap();
    assert_eq!(ts.to_string(), text);
    assert_eq!(parse(&ts.to_string()).unwrap(), ts);
    let ts = Timestamp { year: 1, month: 12, day: 31, hour: 23, minute: 59, second: 59, millis: 999 };
    assert_eq!(parse(&ts.to_string()).unwrap(), ts);
}
