use std::str::FromStr;
use timens::{Date, Month, OfDay, Span, Time, TimeParseError};

#[test]
fn time() {
    let time = Time::from_str("2020-01-16T11:22:33.456Z").unwrap();
    assert_eq!(time.to_string_gmt(), "2020-01-16 11:22:33.456Z");
    let time = Time::from_str("2020-01-16 11:22:33.456Z").unwrap();
    assert_eq!(time.to_string_gmt(), "2020-01-16 11:22:33.456Z");
    let time = time + Span::SEC() * 5;
    assert_eq!(time.to_string_gmt(), "2020-01-16 11:22:38.456Z");
    let time = time + Span::MS() * 544;
    assert_eq!(time.to_string_gmt(), "2020-01-16 11:22:39Z");
    let time = time - Span::NS();
    assert_eq!(time.to_string_gmt(), "2020-01-16 11:22:38.999999999Z");
}

#[test]
fn from_str() {
    let time = Time::from_str("2020-01-16 11:22:33.456Z").unwrap();
    assert_eq!(time.to_string_gmt(), "2020-01-16 11:22:33.456Z");
    let time2 = Time::from_str("2020-01-16 11:22:33.456+01").unwrap();
    assert_eq!(time2.to_string_gmt(), "2020-01-16 12:22:33.456Z");
    assert_eq!(time2, time + Span::HR());
    let time2 = Time::from_str("2020-01-16 11:22:33.456+01:00").unwrap();
    assert_eq!(time2, time + Span::HR());
    let time2 = Time::from_str("2020-01-16 11:22:33.456+00:00").unwrap();
    assert_eq!(time2, time);
    let time2 = Time::from_str("2020-01-16 11:22:33.456-00:00").unwrap();
    assert_eq!(time2, time);
    let time2 = Time::from_str("2020-01-16 11:22:33.456-07:00").unwrap();
    assert_eq!(time2, time - Span::HR() * 7);
    let time2 = Time::from_str("2020-01-16 11:22:33.456-07:30").unwrap();
    assert_eq!(time2, time - Span::HR() * 7 - Span::MIN() * 30);
    let time2 = Time::from_str("2020-01-16 11:22:33.456-07:30:00").unwrap();
    assert_eq!(time2, time - Span::HR() * 7 - Span::MIN() * 30);
    let time2 = Time::from_str("2020-01-16 11:22:33.456-07:30:59").unwrap();
    assert_eq!(time2, time - Span::HR() * 7 - Span::MIN() * 30 - Span::SEC() * 59);
    let time2 = Time::from_str("2020-01-16 11:22:33.456 America/New_York").unwrap();
    assert_eq!(time2, time + Span::HR() * 5);
    assert_eq!(
        Time::from_str("2020-01-16 23:22:33 America/New_York").unwrap(),
        Time::from_str("2020-01-17 04:22:33 GMT").unwrap(),
    );
}

#[test]
fn of_date_ofday_gmt() {
    let time: Time = "2020-01-16 11:22:33.456Z".parse().unwrap();
    let date = Date::create(2020, Month::Jan, 16).unwrap();
    let ofday = OfDay::create(11, 22, 33, 456_000_000).unwrap();
    let (date2, ofday2) = time.to_date_ofday_gmt();
    let time2 = Time::of_date_ofday_gmt(date, ofday);
    assert_eq!(date, date2);
    assert_eq!(ofday, ofday2);
    assert_eq!(time, time2);
    assert_eq!(
        Time::of_date_ofday_gmt(date, OfDay::START_OF_DAY()).to_string_gmt(),
        "2020-01-16 00:00:00Z"
    );
    assert_eq!(
        Time::of_date_ofday_gmt(date, OfDay::START_OF_NEXT_DAY()).to_string_gmt(),
        "2020-01-17 00:00:00Z"
    );
}

#[test]
fn time_before_epoch_and_rounding() {
    let t = Time::of_int_ns_since_epoch(-1);
    assert_eq!(t.to_string_gmt(), "1969-12-31 23:59:59.999999999Z");
    assert_eq!(Time::EPOCH().to_string_gmt(), "1970-01-01 00:00:00Z");
    assert_eq!(t.prev_multiple(Span::SEC()).to_int_ns_since_epoch(), -1_000_000_000);
    assert_eq!(t.next_multiple(Span::SEC()), Time::EPOCH());
    assert_eq!(Time::of_span_since_epoch(Span::HR()).to_span_since_epoch(), Span::HR());
    assert_eq!(Time::of_span_since_epoch(Span::HR()) - Time::EPOCH(), Span::HR());
    assert_eq!(Time::of_int_ns_since_epoch(5).to_string_with_offset(-3_600 * 5 - 30 * 60 - 15), "1969-12-31 18:29:45.000000005-05:30:15");
}

#[test]
fn time_parse_errors() {
    assert_eq!(Time::from_str("2020-01-16"), Err(TimeParseError::NoSpace));
    assert_eq!(Time::from_str("2020-01-16 11:22"), Err(TimeParseError::NoZone));
    assert_eq!(Time::from_str("2020-01-16 11:22+x"), Err(TimeParseError::ExpectedIntInZone));
    assert_eq!(Time::from_str("2020-01-16 11:22+1:2:3:4"), Err(TimeParseError::NoZone));
    assert!(matches!(Time::from_str("2020-13-16 11:22Z"), Err(TimeParseError::DateError(_))));
    assert!(matches!(Time::from_str("2020-01-16 25:22Z"), Err(TimeParseError::OfDayError(_))));
    assert!(matches!(Time::from_str("2020-01-16 11:22 Mars/Olympus"), Err(TimeParseError::TzParseError(_))));
}

#[test]
fn now_is_after_epoch() {
    let now = Time::now().unwrap();
    assert!(now > Time::EPOCH());
    assert!(Date::today(timens::Tz::UTC).unwrap().year() >= 2024);
}

#[test]
fn write_tz_appends() {
    let t = Time::from_str("2021-08-26 23:09:46Z").unwrap();
    let mut s = String::from("at ");
    t.write_tz(&mut s, timens::Tz::Europe__London);
    assert_eq!(s, "at 2021-08-27 00:09:46+01:00");
}
