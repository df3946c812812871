use wtrm::timeutil::{now_unix, seconds_to_unix, age_label, format_age, format_utc, parse_duration, civil_from_days, DurationError};

#[test]
fn epoch_is_unix_start() {
    assert_eq!(format_utc(0), "1970-01-01 00:00:00Z");
    assert_eq!(format_utc(86_400), "1970-01-02 00:00:00Z");
}

#[test]
fn age_buckets() {
    assert_eq!(format_age(5), "5s");
    assert_eq!(format_age(90), "1m");
    assert_eq!(format_age(3_600), "1h");
    assert_eq!(format_age(86_400 * 2), "2d");
    assert_eq!(format_age(86_400 * 40), "1mo");
}

#[test]
fn durations() {
    assert_eq!(parse_duration("14d").unwrap(), 14 * 86_400);
    assert_eq!(parse_duration("48h").unwrap(), 48 * 3_600);
    assert_eq!(parse_duration("2w").unwrap(), 14 * 86_400);
    assert!(parse_duration("x").is_err());
}

#[test]
fn years_and_dates() {
    assert_eq!(format_age(86_400 * 365 * 3), "3y");
    assert_eq!(format_age(59), "59s");
    assert_eq!(format_age(86_400 * 364), "12mo");
    assert_eq!(format_utc(951_782_400), "2000-02-29 00:00:00Z");
    assert_eq!(format_utc(1_709_251_199), "2024-02-29 23:59:59Z");
    assert_eq!(format_utc(-1), "1969-12-31 23:59:59Z");
    assert_eq!(format_utc(-62_135_596_800), "0001-01-01 00:00:00Z");
    assert_eq!(format_utc(-62_167_219_200 - 86_400), "-001-12-31 00:00:00Z");
    assert_eq!(civil_from_days(0), (1970, 1, 1));
    assert_eq!(civil_from_days(11_016), (2000, 2, 29));
    assert_eq!(civil_from_days(-719_468), (0, 3, 1));
}

#[test]
fn age_labels() {
    assert_eq!(age_label(None, 100), "\u{2014}");
    assert_eq!(age_label(Some(100), 50), "0s");
    assert_eq!(age_label(Some(0), 7_200), "2h");
    assert_eq!(age_label(Some(i64::MIN), i64::MAX), format_age(i64::MAX as u64));
}

#[test]
fn duration_units_and_errors() {
    assert_eq!(parse_duration("  90  ").unwrap(), 90);
    assert_eq!(parse_duration("5s").unwrap(), 5);
    assert_eq!(parse_duration("3m").unwrap(), 180);
    assert_eq!(parse_duration("99999999999999w").unwrap(), i64::MAX);
    assert_eq!(parse_duration("").unwrap_err(), DurationError::NoNumber);
    assert_eq!(parse_duration("-3d").unwrap_err(), DurationError::NoNumber);
    assert_eq!(
        parse_duration("99999999999999999999d").unwrap_err(),
        DurationError::BadNumber("99999999999999999999".to_string())
    );
    assert_eq!(parse_duration("3 d").unwrap_err(), DurationError::UnknownUnit(" d".to_string()));
    assert_eq!(parse_duration("3dd").unwrap_err(), DurationError::UnknownUnit("dd".to_string()));
    assert_eq!(
        parse_duration("3y").unwrap_err().message(),
        "unknown unit y; use s, m, h, d, or w"
    );
    assert_eq!(
        parse_duration("x").unwrap_err().message(),
        "duration must start with a number, for example 14d, 48h, 2w"
    );
}

#[test]
fn clock_reads_after_1970() {
    assert!(now_unix() > 1_600_000_000);
    assert_eq!(seconds_to_unix(Some(1_700_000_000)), 1_700_000_000);
    assert_eq!(seconds_to_unix(None), 0);
}
