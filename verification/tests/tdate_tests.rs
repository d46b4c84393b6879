use thttpd::tdate::try_parse_http_date;
use thttpd::tdate::{format_http_date, parse_http_date};

#[test]
fn test_rfc1123() {
    let ts = parse_http_date("Sun, 06 Nov 1994 08:49:37 GMT");
    assert_eq!(ts, Some(784111777));
}

#[test]
fn test_plain_integer() {
    let ts = parse_http_date("784111777");
    assert_eq!(ts, Some(784111777));
}

#[test]
fn test_roundtrip() {
    let ts: i64 = 784111777;
    let formatted = format_http_date(ts);
    let parsed = parse_http_date(&formatted);
    assert_eq!(parsed, Some(ts));
}

#[test]
fn other_forms() {
    // RFC 850: weekday, date, clock, zone.
    assert_eq!(parse_http_date("Sunday, 06-Nov-94 08:49:37 GMT"), Some(784111777));
    assert_eq!(parse_http_date("Sunday, 06-Nov-14 08:49:37 GMT"), Some(1415263777));
    // Without the weekday the pieces are too few.
    assert_eq!(parse_http_date("06-Nov-94 08:49:37 GMT"), None);
    assert_eq!(parse_http_date("Sun Nov  6 08:49:37 1994"), Some(784111777));
    assert_eq!(parse_http_date("  784111777 \n"), Some(784111777));
    assert_eq!(parse_http_date("garbage"), None);
}

#[test]
fn formatted_text_is_exact() {
    assert_eq!(format_http_date(0), "Thu, 01 Jan 1970 00:00:00 GMT");
    assert_eq!(format_http_date(784111777), "Sun, 06 Nov 1994 08:49:37 GMT");
    assert_eq!(format_http_date(951782400), "Tue, 29 Feb 2000 00:00:00 GMT");
}

#[test]
fn leap_days_round_trip() {
    for ts in [951782400i64, 1709164800, 0, 86399, 4102444800] {
        assert_eq!(parse_http_date(&format_http_date(ts)), Some(ts));
    }
}

#[test]
fn try_parse_http_date_refuses_day_zero_only() {
    assert_eq!(try_parse_http_date("Sun, 06 Nov 1994 08:49:37 GMT"), Some(Some(784111777)));
    assert_eq!(try_parse_http_date("Sun, 00 Nov 1994 08:49:37 GMT"), None);
    assert_eq!(try_parse_http_date("not a date"), Some(None));
    assert_eq!(try_parse_http_date(" 12345 "), Some(Some(12345)));
}

#[test]
fn before_the_epoch_the_fields_wrap() {
    assert_eq!(format_http_date(-1), "Thu, 01 Jan 1970 00:00:4294967295 GMT");
    assert_eq!(
        format_http_date(-200000),
        "Tue, 4294967295 Jan 1970 4294967289:4294967263:4294967276 GMT"
    );
}
