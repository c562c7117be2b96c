use timens::{OfDay, OfDayError, ParseOfDayError, Span};

fn test_str(h: u8, m: u8, s: u8, ns: u32, str: &str) {
    let ofday = OfDay::create(h, m, s, ns).unwrap();
    assert_eq!(ofday.to_string(), str);
    let v: OfDay = str.parse().unwrap();
    assert_eq!(ofday, v);
}

#[test]
fn ofday_tests_to_string() {
    test_str(0, 0, 0, 0, "00:00:00");
    test_str(0, 0, 0, 1, "00:00:00.000000001");
    test_str(12, 34, 56, 0, "12:34:56");
    test_str(12, 34, 56, 1, "12:34:56.000000001");
    test_str(12, 34, 56, 10, "12:34:56.00000001");
    test_str(12, 34, 56, 1000, "12:34:56.000001");
    test_str(12, 34, 56, 1000000, "12:34:56.001");
    test_str(12, 34, 56, 789000000, "12:34:56.789");
    test_str(12, 34, 56, 789101100, "12:34:56.7891011");
    test_str(23, 59, 59, 999999999, "23:59:59.999999999");
}

#[test]
fn ops() {
    let ofday = OfDay::create(12, 0, 0, 0).unwrap();
    assert_eq!(ofday.to_string(), "12:00:00");
    assert_eq!((ofday + Span::SEC()).to_string(), "12:00:01");
    assert_eq!((ofday - Span::DAY()).to_string(), "00:00:00");
    assert_eq!((ofday + Span::DAY()).to_string(), "24:00:00");
    assert_eq!((ofday + Span::DAY() - Span::NS()).to_string(), "23:59:59.999999999");
    assert_eq!(((ofday + Span::MS()) % Span::SEC()).to_string(), "1ms");
    assert_eq!(((ofday + Span::MS()) % Span::HR()).to_string(), "1ms");
}

#[test]
fn ofday_parse_forms() {
    assert_eq!("13".parse::<OfDay>().unwrap().to_string(), "13:00:00");
    assert_eq!("13:37".parse::<OfDay>().unwrap().to_string(), "13:37:00");
    assert_eq!("13:37:01".parse::<OfDay>().unwrap().to_string(), "13:37:01");
    assert_eq!("13:37:01.0001".parse::<OfDay>().unwrap().to_string(), "13:37:01.0001");
    assert_eq!("24:00:00".parse::<OfDay>().unwrap(), OfDay::START_OF_NEXT_DAY());
    assert_eq!("00:00".parse::<OfDay>().unwrap(), OfDay::START_OF_DAY());
}

#[test]
fn ofday_errors() {
    assert_eq!(OfDay::create(24, 0, 0, 1), Err(OfDayError::InvalidHour(24)));
    assert_eq!(OfDay::create(25, 0, 0, 0), Err(OfDayError::InvalidHour(25)));
    assert_eq!(OfDay::create(1, 60, 0, 0), Err(OfDayError::InvalidMinute(60)));
    assert_eq!(OfDay::create(1, 0, 60, 0), Err(OfDayError::InvalidSecond(60)));
    assert_eq!(OfDay::create(1, 0, 0, 1_000_000_000), Err(OfDayError::InvalidNanosecond(1_000_000_000)));
    assert_eq!("1:2:3:4".parse::<OfDay>(), Err(ParseOfDayError::MoreThanTwoColumns));
    assert_eq!("1:2:3.4.5".parse::<OfDay>(), Err(ParseOfDayError::MoreThanOneDot));
    assert_eq!("1:2:3.x".parse::<OfDay>(), Err(ParseOfDayError::InvalidNanosecondString("x".to_string())));
    assert_eq!("a:2".parse::<OfDay>(), Err(ParseOfDayError::ParseIntError));
    assert_eq!("1:2:3.\u{0663}".parse::<OfDay>(), Err(ParseOfDayError::ParseIntError));
    assert_eq!("1:2:3.".parse::<OfDay>(), Err(ParseOfDayError::ParseIntError));
    assert_eq!("".parse::<OfDay>(), Err(ParseOfDayError::ParseIntError));
    assert_eq!("25".parse::<OfDay>(), Err(ParseOfDayError::OfDayError(OfDayError::InvalidHour(25))));
}

#[test]
fn ofday_fields_and_clamping() {
    let o = OfDay::create(13, 37, 1, 250_000_000).unwrap();
    assert_eq!(o.hour(), 13);
    assert_eq!(o.minute(), 37);
    assert_eq!(o.second(), 1);
    assert_eq!(o.nanosecond(), 250_000_000);
    assert_eq!(OfDay::of_ns_since_midnight(-5), OfDay::START_OF_DAY());
    assert_eq!(OfDay::of_ns_since_midnight(i64::MAX), OfDay::START_OF_NEXT_DAY());
    assert_eq!(o.prev_multiple(Span::MIN()).to_string(), "13:37:00");
    assert_eq!(o.next_multiple(Span::MIN()).to_string(), "13:38:00");
    assert_eq!((o - OfDay::START_OF_DAY()).to_int_ns(), o.to_ns_since_midnight());
    assert_eq!(OfDay::of_span_since_midnight(Span::HR()).to_span_since_midnight(), Span::HR());
}
