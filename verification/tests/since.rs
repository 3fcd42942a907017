use bm25_cli::since::{days_from_epoch, parse_since, since_in_range, SinceError};
use bm25_cli::age::age;

const NOW: u64 = 1_000_000_000;

#[test]
fn relative_days_hours_weeks() {
    assert_eq!(parse_since("7d", NOW), Ok(NOW - 7 * 86_400));
    assert_eq!(parse_since("24h", NOW), Ok(NOW - 24 * 3_600));
    assert_eq!(parse_since("2w", NOW), Ok(NOW - 2 * 604_800));
    assert_eq!(parse_since("+3d", NOW), Ok(NOW - 3 * 86_400));
}

#[test]
fn relative_value_saturates_at_zero() {
    assert_eq!(parse_since("100000w", NOW), Ok(0));
}

#[test]
fn relative_value_with_bad_count() {
    assert_eq!(parse_since("xd", NOW), Err(SinceError::InvalidNumber));
    assert_eq!(parse_since("d", NOW), Err(SinceError::InvalidNumber));
    assert_eq!(parse_since("-1d", NOW), Err(SinceError::InvalidNumber));
    assert_eq!(parse_since("2024-01-0d", NOW), Err(SinceError::InvalidNumber));
}

#[test]
fn dates_are_midnight_utc() {
    assert_eq!(parse_since("2024-01-01", NOW), Ok(1_704_067_200));
    assert_eq!(parse_since("1970-01-01", NOW), Ok(0));
    assert_eq!(parse_since("2000-02-29", NOW), Ok(951_782_400));
    assert_eq!(parse_since("+2000-03-01", NOW), Ok(951_868_800));
}

#[test]
fn dates_before_the_epoch_wrap() {
    assert_eq!(parse_since("1969-12-31", NOW), Ok((-86_400i64) as u64));
}

#[test]
fn malformed_values() {
    assert_eq!(parse_since("yesterday", NOW), Err(SinceError::InvalidFormat));
    assert_eq!(parse_since("2024-01", NOW), Err(SinceError::InvalidFormat));
    assert_eq!(parse_since("2024-01-01-01", NOW), Err(SinceError::InvalidFormat));
    assert_eq!(parse_since("2024-aa-01", NOW), Err(SinceError::InvalidFormat));
    assert_eq!(parse_since("", NOW), Err(SinceError::InvalidFormat));
}

#[test]
fn overflowing_values_are_detected() {
    assert!(since_in_range("7d"));
    assert!(since_in_range("2024-01-01"));
    assert!(since_in_range("nonsense"));
    assert!(!since_in_range("999999999999999999d"));
    assert!(!since_in_range("9223372036854775807-01-01"));
}

#[test]
fn day_counts() {
    assert_eq!(days_from_epoch(1970, 1, 1), 0);
    assert_eq!(days_from_epoch(2024, 1, 1), 19_723);
    assert_eq!(days_from_epoch(2000, 3, 1), 11_017);
    assert_eq!(days_from_epoch(1969, 12, 31), -1);
}

#[test]
fn ages_in_words() {
    assert_eq!(age(1000, 1030), "just now");
    assert_eq!(age(1000, 500), "just now");
    assert_eq!(age(0, 120), "2 min ago");
    assert_eq!(age(0, 7_200), "2 hours ago");
    assert_eq!(age(0, 3 * 86_400 + 5), "3 days ago");
    assert_eq!(age(0, 3_599), "59 min ago");
}

#[test]
fn day_count_steps_across_month_and_year_ends() {
    assert_eq!(days_from_epoch(2024, 3, 1), days_from_epoch(2024, 2, 29) + 1);
    assert_eq!(days_from_epoch(2023, 3, 1), days_from_epoch(2023, 2, 28) + 1);
    assert_eq!(days_from_epoch(2000, 3, 1), days_from_epoch(2000, 2, 29) + 1);
    assert_eq!(days_from_epoch(1900, 3, 1), days_from_epoch(1900, 2, 28) + 1);
    assert_eq!(days_from_epoch(2025, 5, 1), days_from_epoch(2025, 4, 30) + 1);
    assert_eq!(days_from_epoch(1970, 1, 1), days_from_epoch(1969, 12, 31) + 1);
    assert_eq!(days_from_epoch(2025, 1, 1), days_from_epoch(2024, 12, 31) + 1);
}
