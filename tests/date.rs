use log_date::calendar::is_leap_year;
use log_date::parse::{
    parse_asctime, parse_date_bytes, parse_imf_fixdate, parse_rfc850_date, toint_1, toint_2,
    toint_4, DateError,
};
use log_date::LogDate;
use std::cmp::Ordering;

fn date(year: u16, mon: u8, day: u8, hour: u8, min: u8, sec: u8, wday: u8) -> LogDate {
    LogDate { nano: 0, sec, min, hour, day, mon, year, wday }
}

fn sunday_1994() -> LogDate {
    date(1994, 11, 6, 8, 49, 37, 7)
}

#[test]
fn round_trip_keeps_instant_and_nanos() {
    for &secs in &[0u64, 59, 86399, 86400, 784111777, 951782400, 951868800, 1709208000,
        4107542400, 253402300799]
    {
        for &nanos in &[0u32, 1, 999_999_999] {
            let d = LogDate::from_unix(secs, nanos);
            assert!(d.is_valid());
            assert_eq!(d.to_unix(), (secs, nanos));
        }
    }
    let mut secs: u64 = 0;
    while secs < 253402300800 {
        let d = LogDate::from_unix(secs, 7);
        assert_eq!(d.to_unix(), (secs, 7));
        secs += 86_399 * 37 + 11;
    }
}

#[test]
fn from_unix_exact_values() {
    assert_eq!(LogDate::from_unix(0, 0), date(1970, 1, 1, 0, 0, 0, 4));
    assert_eq!(LogDate::from_unix(784111777, 5), LogDate { nano: 5, ..sunday_1994() });
    assert_eq!(LogDate::from_unix(951782400, 0), date(2000, 2, 29, 0, 0, 0, 2));
    assert_eq!(LogDate::from_unix(951868800, 0), date(2000, 3, 1, 0, 0, 0, 3));
    assert_eq!(LogDate::from_unix(4107542400, 0), date(2100, 3, 1, 0, 0, 0, 1));
    assert_eq!(LogDate::from_unix(253402300799, 0), date(9999, 12, 31, 23, 59, 59, 5));
}

#[test]
fn to_unix_exact_values() {
    assert_eq!(sunday_1994().to_unix(), (784111777, 0));
    assert_eq!(date(2004, 2, 29, 0, 0, 0, 7).to_unix(), (1078012800, 0));
    assert_eq!(LogDate { nano: 42, ..date(2024, 2, 29, 12, 0, 0, 4) }.to_unix(), (1709208000, 42));
}

#[test]
fn validity_rejects_impossible_dates() {
    assert!(!date(1994, 13, 6, 8, 49, 37, 7).is_valid());
    assert!(!date(1994, 4, 31, 0, 0, 0, 7).is_valid());
    assert!(!date(2000, 2, 30, 0, 0, 0, 3).is_valid());
    assert!(!date(1994, 11, 6, 24, 49, 37, 7).is_valid());
    assert!(!date(1994, 11, 6, 8, 49, 60, 7).is_valid());
    assert!(!date(1994, 11, 6, 8, 60, 37, 7).is_valid());
    assert!(!date(1969, 12, 31, 0, 0, 0, 3).is_valid());
    assert!(!date(1994, 11, 0, 8, 49, 37, 6).is_valid());
    assert!(!LogDate { nano: 1_000_000_000, ..sunday_1994() }.is_valid());
    assert!(sunday_1994().is_valid());
}

#[test]
fn validity_rejects_feb_29_1900() {
    // 1900 lies before the supported range as well as being a common year.
    assert!(!date(1900, 2, 29, 0, 0, 0, 4).is_valid());
    assert!(!date(2100, 2, 29, 0, 0, 0, 1).is_valid());
}

#[test]
fn validity_accepts_leap_days() {
    assert!(date(2000, 2, 29, 0, 0, 0, 2).is_valid());
    assert!(date(2004, 2, 29, 0, 0, 0, 7).is_valid());
    assert!(!date(2004, 2, 29, 0, 0, 0, 1).is_valid());
}

#[test]
fn leap_year_rule() {
    assert!(is_leap_year(2000));
    assert!(is_leap_year(2004));
    assert!(!is_leap_year(1900));
    assert!(!is_leap_year(2100));
    assert!(!is_leap_year(2023));
}

#[test]
fn three_layouts_agree() {
    let a: LogDate = "Sun, 06 Nov 1994 08:49:37 GMT".parse().unwrap();
    let b: LogDate = "Sunday, 06-Nov-94 08:49:37 GMT".parse().unwrap();
    let c: LogDate = "Sun Nov  6 08:49:37 1994".parse().unwrap();
    assert_eq!(a, sunday_1994());
    assert_eq!(b, sunday_1994());
    assert_eq!(c, sunday_1994());
    assert_eq!(a.cmp(&b), Ordering::Equal);
    assert_eq!(b.cmp(&c), Ordering::Equal);
    assert_eq!(a.partial_cmp(&c), Some(Ordering::Equal));
}

#[test]
fn wrong_weekday_rejected() {
    assert_eq!(LogDate::parse("Mon, 06 Nov 1994 08:49:37 GMT"), Err(DateError));
    assert_eq!(LogDate::parse("Monday, 06-Nov-94 08:49:37 GMT"), Err(DateError));
    assert_eq!(LogDate::parse("Mon Nov  6 08:49:37 1994"), Err(DateError));
}

#[test]
fn wrong_zone_rejected() {
    let s = "Sun, 06 Nov 1994 08:49:37 EST";
    assert_eq!(LogDate::parse(s), Err(DateError));
    assert_eq!(parse_imf_fixdate(s.as_bytes()), Err(DateError));
    assert_eq!(parse_rfc850_date(s.as_bytes()), Err(DateError));
    assert_eq!(parse_asctime(s.as_bytes()), Err(DateError));
}

#[test]
fn canonical_text_is_not_parsed() {
    let d: LogDate = "Sun, 06 Nov 1994 08:49:37 GMT".parse().unwrap();
    let text = d.to_string();
    assert_eq!(text, "1994-11-06 08:49:37.        0");
    assert_eq!(LogDate::parse(&text), Err(DateError));
    assert_eq!(parse_imf_fixdate(text.as_bytes()), Err(DateError));
    assert_eq!(parse_rfc850_date(text.as_bytes()), Err(DateError));
    assert_eq!(parse_asctime(text.as_bytes()), Err(DateError));
}

#[test]
fn canonical_text_nanos() {
    let d = LogDate::from_unix(951782400, 123);
    assert_eq!(d.to_string(), "2000-02-29 00:00:00.      123");
    let d = LogDate::from_unix(0, 999_999_999);
    assert_eq!(d.to_string(), "1970-01-01 00:00:00.999999999");
    let wide = LogDate { nano: 4_000_000_000, ..sunday_1994() };
    assert_eq!(wide.to_string(), "1994-11-06 08:49:37.4000000000");
}

#[test]
fn surrounding_whitespace_trimmed() {
    let d = LogDate::parse(" \t Sun, 06 Nov 1994 08:49:37 GMT\r\n").unwrap();
    assert_eq!(d, sunday_1994());
    assert_eq!(LogDate::parse("\u{b}Sun Nov  6 08:49:37 1994\u{c}"), Ok(sunday_1994()));
}

#[test]
fn non_ascii_rejected() {
    assert_eq!(LogDate::parse("Sun, 06 Nov 1994 08:49:37 GMT\u{e9}"), Err(DateError));
    assert_eq!(LogDate::parse("\u{a0}Sun, 06 Nov 1994 08:49:37 GMT"), Err(DateError));
}

#[test]
fn two_digit_year_pivot() {
    let d = LogDate::parse("Wednesday, 06-Nov-69 08:49:37 GMT").unwrap();
    assert_eq!(d, date(2069, 11, 6, 8, 49, 37, 3));
    let d: LogDate = "Saturday, 01-Jan-00 00:00:00 GMT".parse().unwrap();
    assert_eq!(d, date(2000, 1, 1, 0, 0, 0, 6));
    let d = LogDate::parse("Thursday, 01-Jan-70 00:00:00 GMT").unwrap();
    assert_eq!(d, date(1970, 1, 1, 0, 0, 0, 4));
}

#[test]
fn asctime_day_forms() {
    assert_eq!(parse_asctime(b"Sun Nov  6 08:49:37 1994"), Ok(sunday_1994()));
    assert_eq!(parse_asctime(b"Sun Nov 06 08:49:37 1994"), Ok(sunday_1994()));
    assert_eq!(parse_asctime(b"Sun Nov  x 08:49:37 1994"), Err(DateError));
    assert_eq!(parse_asctime(b"Sun Nov 6  08:49:37 1994"), Err(DateError));
}

#[test]
fn layouts_structure_only() {
    // A layout reader checks form, not the calendar.
    assert_eq!(
        parse_imf_fixdate(b"Mon, 31 Feb 1994 08:49:37 GMT"),
        Ok(date(1994, 2, 31, 8, 49, 37, 1))
    );
    assert_eq!(parse_date_bytes(b"Mon, 31 Feb 1994 08:49:37 GMT"), Err(DateError));
    assert_eq!(parse_imf_fixdate(b"Sun, 06 Nov 1994 08:49:37 GMT "), Err(DateError));
    assert_eq!(parse_imf_fixdate(b"Sun, 06 Nvv 1994 08:49:37 GMT"), Err(DateError));
    assert_eq!(parse_rfc850_date(b"Sundy, 06-Nov-94 08:49:37 GMT"), Err(DateError));
    assert_eq!(parse_rfc850_date(b"Sunday, 06-Nov-94 08:49:37 GMT"), Ok(sunday_1994()));
    assert_eq!(parse_rfc850_date(b"Sunday, 06-Nov-94X08:49:37 GMT"), Err(DateError));
    assert_eq!(LogDate::parse("Sunday, 06-Nov-94X08:49:37 GMT"), Err(DateError));
    assert_eq!(parse_date_bytes(b""), Err(DateError));
}

#[test]
fn digit_decoders() {
    assert_eq!(toint_1(b'7'), Ok(7));
    assert_eq!(toint_1(b'/'), Err(DateError));
    assert_eq!(toint_1(b':'), Err(DateError));
    assert_eq!(toint_2(b"42"), Ok(42));
    assert_eq!(toint_2(b"4a"), Err(DateError));
    assert_eq!(toint_2(b"-4"), Err(DateError));
    assert_eq!(toint_4(b"1994"), Ok(1994));
    assert_eq!(toint_4(b"19 4"), Err(DateError));
    assert_eq!(toint_4(b"+994"), Err(DateError));
}

#[test]
fn ordering_by_instant() {
    let a = LogDate::from_unix(784111777, 0);
    let b = LogDate::from_unix(784111777, 1);
    let c = LogDate::from_unix(784111778, 0);
    assert_eq!(a.cmp(&b), Ordering::Less);
    assert_eq!(c.cmp(&b), Ordering::Greater);
    assert_eq!(a.cmp(&a), Ordering::Equal);
    assert_eq!(date(2000, 1, 1, 0, 0, 0, 1).cmp(&date(1999, 12, 31, 23, 59, 59, 1)), Ordering::Greater);
}
