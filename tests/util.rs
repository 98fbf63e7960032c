use chrono::{Datelike, Timelike};
use daily_stallman::util::{is_http, parse_date_time, DateError, DateTime};

fn date(d: &str) -> DateTime {
    let n = chrono::DateTime::parse_from_rfc3339(d).unwrap().naive_utc();
    DateTime { year: n.year(), month: n.month(), day: n.day(), hour: n.hour(), minute: n.minute(), second: n.second() }
}

#[test]
fn test_parse_date_time() {
    assert_eq!(parse_date_time("2019-01-01T00:00:00Z").unwrap(), date("2019-01-01T00:00:00Z"));
    assert_eq!(parse_date_time("2019-01-01T12").unwrap(), date("2019-01-01T12:00:00Z"));
    assert_eq!(parse_date_time("2019-01-15").unwrap(), date("2019-01-15T00:00:00Z"));
    assert_eq!(parse_date_time("2019-10").unwrap(), date("2019-10-01T00:00:00Z"));
    assert!(parse_date_time("2019-13-01").is_err());
    assert!(parse_date_time("2019-12-01T24:00:00").is_err());
}

#[test]
fn date_errors_name_their_cause() {
    assert_eq!(parse_date_time("no date here"), Err(DateError::InvalidFormat));
    assert_eq!(parse_date_time("2019-02-30"), Err(DateError::OutOfRange));
    assert_eq!(parse_date_time("2020-02-29").unwrap().day, 29);
}

#[test]
fn http_prefixes_are_recognised() {
    assert!(is_http("http://a.org"));
    assert!(is_http("https://a.org"));
    assert!(!is_http("ftp://a.org"));
    assert!(!is_http("/img.png"));
}
