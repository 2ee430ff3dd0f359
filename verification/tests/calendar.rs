//! Dates and timestamps.

use pulse_ingestor::calendar::{UtcTime, MAX_MICROS, MIN_MICROS};
use pulse_ingestor::parquet_writer::parse_rfc3339_micros;
use pulse_ingestor::units::{clamp_millis, Duration};

fn date(micros: i64) -> String {
    UtcTime::from_micros(micros).expect("in range").date()
}

#[test]
fn an_instant_has_the_date_it_falls_on() {
    assert_eq!(date(0), "1970-01-01");
    assert_eq!(date(-1), "1969-12-31");
    assert_eq!(date(1_709_251_199_000_000), "2024-02-29");
    assert_eq!(date(1_709_251_200_000_000), "2024-03-01");
    assert_eq!(date(1_789_387_200_000_000), "2026-09-14");
}

#[test]
fn the_first_and_the_last_instant_have_a_date() {
    assert_eq!(date(MIN_MICROS), "-262143-01-01");
    assert_eq!(date(MAX_MICROS), "+262142-12-31");
    assert!(UtcTime::from_micros(MIN_MICROS - 1).is_none());
    assert!(UtcTime::from_micros(MAX_MICROS + 1).is_none());
    assert_eq!(
        UtcTime::from_micros(42).unwrap().timestamp_micros(),
        42
    );
}

#[test]
fn a_year_has_four_digits_at_least() {
    // 0099-12-31T00:00:00Z and 10000-01-01T00:00:00Z.
    assert_eq!(date(-59_011_545_600_000_000), "0099-12-31");
    assert_eq!(date(253_402_300_800_000_000), "+10000-01-01");
    // The first days of the years 0 and -5.
    assert_eq!(date(-62_167_219_200_000_000), "0000-01-01");
    assert_eq!(date(-62_324_985_600_000_000), "-0005-01-01");
}

#[test]
fn a_timestamp_is_read_in_its_own_zone() {
    assert_eq!(
        parse_rfc3339_micros("2026-09-14T10:00:00Z"),
        Some(1_789_380_000_000_000)
    );
    assert_eq!(
        parse_rfc3339_micros("2026-09-14T12:00:00+02:00"),
        Some(1_789_380_000_000_000)
    );
    assert_eq!(
        parse_rfc3339_micros("2026-09-14T10:00:00.000001Z"),
        Some(1_789_380_000_000_001)
    );
    assert_eq!(parse_rfc3339_micros("not a timestamp"), None);
    assert_eq!(parse_rfc3339_micros(""), None);
}

#[test]
fn spans_convert_between_units() {
    assert_eq!(Duration::from_millis(250).as_nanos(), 250_000_000);
    assert_eq!(Duration::from_millis(u64::MAX).as_millis(), u64::MAX as u128);
    assert_eq!(Duration::zero().as_nanos(), 0);
    assert_eq!(Duration::from_nanos(1_999_999).unwrap().as_millis(), 1);
    assert!(Duration::from_nanos(u128::MAX).is_none());
    assert_eq!(clamp_millis(7), 7);
    assert_eq!(clamp_millis(u64::MAX as u128 + 1), u64::MAX);
}
