//! Date normalization and instant resolution.

use sportshub::dates::{closest_year_instant, date_parser, date_parser_to_instant, DateParseError};

#[test]
fn test_1st_jan() {
    let date = "1st January at 0:00";
    let parsed_date = date_parser(date);

    assert_eq!(parsed_date, "1-1-0-00".to_string());
}

#[test]
fn test_2nd_feb() {
    let date = "2nd February at 0:00";
    let parsed_date = date_parser(date);

    assert_eq!(parsed_date, "2-2-0-00".to_string());
}

#[test]
fn test_3rd_mar() {
    let date = "3rd March at 0:00";
    let parsed_date = date_parser(date);

    assert_eq!(parsed_date, "3-3-0-00".to_string());
}

#[test]
fn test_4th_apr() {
    let date = "4th April at 0:00";
    let parsed_date = date_parser(date);

    assert_eq!(parsed_date, "4-4-0-00".to_string());
}

#[test]
fn test_random_date_1() {
    let date = "1st April at 3:45";
    let parsed_date = date_parser(date);

    assert_eq!(parsed_date, "1-4-3-45".to_string());
}

#[test]
fn test_random_date_2() {
    let date = "2nd August at 8:15";
    let parsed_date = date_parser(date);

    assert_eq!(parsed_date, "2-8-8-15".to_string());
}

#[test]
fn test_random_date_3() {
    let date = "3rd December at 12:00";
    let parsed_date = date_parser(date);

    assert_eq!(parsed_date, "3-12-12-00".to_string());
}

#[test]
fn test_random_date_4() {
    let date = "4th May at 23:59";
    let parsed_date = date_parser(date);

    assert_eq!(parsed_date, "4-5-23-59".to_string());
}

#[test]
fn test_random_date_5() {
    let date = "5th June at 23:59";
    let parsed_date = date_parser(date);

    assert_eq!(parsed_date, "5-6-23-59".to_string());
}

#[test]
fn date_parser_test_1st_jan() {
    let date = "1-1-0-00";
    let year = 2024;
    let parsed_date = date_parser_to_instant(date, year).unwrap();

    assert_eq!(parsed_date, 1704067200);
}

#[test]
fn date_parser_test_2nd_feb() {
    let date = "2-2-0-00";
    let year = 2024;
    let parsed_date = date_parser_to_instant(date, year).unwrap();

    assert_eq!(parsed_date, 1706832000);
}

#[test]
fn date_parser_test_3rd_mar() {
    let date = "3-3-0-00";
    let year = 2024;
    let parsed_date = date_parser_to_instant(date, year).unwrap();

    assert_eq!(parsed_date, 1709424000);
}

#[test]
fn date_parser_test_4th_apr() {
    let date = "4-4-0-00";
    let year = 2024;
    let parsed_date = date_parser_to_instant(date, year).unwrap();

    assert_eq!(parsed_date, 1712188800);
}

#[test]
fn date_parser_test_random_date_1() {
    let date = "1-4-3-45";
    let year = 2024;
    let parsed_date = date_parser_to_instant(date, year).unwrap();

    assert_eq!(parsed_date, 1711943100);
}

#[test]
fn date_parser_test_random_date_2() {
    let date = "2-8-8-15";
    let year = 2024;
    let parsed_date = date_parser_to_instant(date, year).unwrap();

    assert_eq!(parsed_date, 1722586500);
}

#[test]
fn date_parser_test_random_date_3() {
    let date = "3-12-12-00";
    let year = 2024;
    let parsed_date = date_parser_to_instant(date, year).unwrap();

    assert_eq!(parsed_date, 1733227200);
}

#[test]
fn date_parser_test_random_date_4() {
    let date = "4-5-23-59";
    let year = 2024;
    let parsed_date = date_parser_to_instant(date, year).unwrap();

    assert_eq!(parsed_date, 1714867140);
}

#[test]
fn date_parser_test_random_date_5() {
    let date = "5-6-23-59";
    let year = 2024;
    let parsed_date = date_parser_to_instant(date, year).unwrap();

    assert_eq!(parsed_date, 1717631940);
}

#[test]
fn canonicalizes_plain_example() {
    assert_eq!(date_parser("1 February at 0:00"), "1-2-0-00".to_string());
    assert_eq!(date_parser("  12 October at 18:30  "), "12-10-18-30".to_string());
}

#[test]
fn sentinel_components_resolve_to_1990() {
    // day, month, hour and minute all equal to one is the site's
    // "time unknown" marker; the year collapses to 1990 whatever was asked.
    let expected = 631155660; // 1990-01-01 01:01:00 UTC
    assert_eq!(date_parser_to_instant("1-1-1-1", 2024).unwrap(), expected);
    assert_eq!(date_parser_to_instant("1-1-1-01", 1975).unwrap(), expected);
}

#[test]
fn invalid_calendar_instant_is_rejected() {
    let e = DateParseError::InvalidInstant;
    assert_eq!(date_parser_to_instant("30-2-0-00", 2024).unwrap_err(), e);
    assert_eq!(date_parser_to_instant("32-1-0-00", 2024).unwrap_err(), e);
    assert_eq!(date_parser_to_instant("1-13-0-00", 2024).unwrap_err(), e);
    assert_eq!(date_parser_to_instant("1-1-24-00", 2024).unwrap_err(), e);
    assert_eq!(date_parser_to_instant("1-1-0-60", 2024).unwrap_err(), e);
    // Feb 29 exists only in leap years
    assert_eq!(date_parser_to_instant("29-2-0-00", 2024).unwrap(), 1709164800);
    assert_eq!(date_parser_to_instant("29-2-0-00", 2023).unwrap_err(), e);
}

#[test]
fn unparseable_components_are_rejected() {
    let e = DateParseError::Unparseable;
    assert_eq!(date_parser_to_instant("a-b-c-d", 2024).unwrap_err(), e);
    assert_eq!(date_parser_to_instant("1-2", 2024).unwrap_err(), e);
    assert_eq!(date_parser_to_instant("", 2024).unwrap_err(), e);
    assert_eq!(date_parser_to_instant("1-2-0-", 2024).unwrap_err(), e);
}

#[test]
fn leap_year_shift_is_366_days() {
    // March 1st, shifted from 2023 to 2024, crosses Feb 29 2024.
    let a = date_parser_to_instant("1-3-0-00", 2023).unwrap();
    let b = date_parser_to_instant("1-3-0-00", 2024).unwrap();
    assert_eq!(b - a, 366 * 86400);

    // January 15th, shifted from 2023 to 2024, crosses no leap day.
    let c = date_parser_to_instant("15-1-0-00", 2023).unwrap();
    let d = date_parser_to_instant("15-1-0-00", 2024).unwrap();
    assert_eq!(d - c, 365 * 86400);
}

#[test]
fn closest_year_picks_minimal_distance() {
    // The clock reads Feb 1 2024; Feb 1 of 2024 is the closest candidate.
    let now = 1706745600;
    assert_eq!(closest_year_instant("1-2-0-00", now, 2024).unwrap(), 1706745600);

    // Dec 12 of 2023 is closer to Feb 1 2024 than Dec 12 2024 or 2025.
    assert_eq!(closest_year_instant("12-12-0-00", now, 2024).unwrap(), 1702339200);
}
