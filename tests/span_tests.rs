use timens::{ParseSpanError, Span};

fn test_str(s: Span, str: &str) {
    assert_eq!(s.to_string(), str);
    let v: Span = str.parse().unwrap();
    assert_eq!(s, v);
}

fn times(s: Span, f: f64) -> Span {
    Span::of_int_ns((s.to_int_ns() as f64 * f) as i64)
}

fn of_day(f: f64) -> Span {
    Span::of_int_ns((f * Span::DAY().to_int_ns() as f64) as i64)
}

#[test]
fn span_tests_to_string() {
    test_str(Span::ZERO(), "0s");
    test_str(Span::SEC(), "1s");
    test_str(times(Span::MS(), 1.), "1ms");
    test_str(times(Span::MS(), 2.), "2ms");
    test_str(times(Span::MS(), 222.), "222ms");
    test_str(times(Span::MS(), 222.002), "222.002ms");
    test_str(times(Span::MS(), 222.022), "222.022ms");
    test_str(times(Span::MS(), 222.222), "222.222ms");
    test_str(times(Span::MS(), 1.5), "1.5ms");
    test_str(times(Span::MS(), 1.2), "1.2ms");
    test_str(times(Span::MS(), 1.23), "1.23ms");
    test_str(times(Span::MS(), 1.234), "1.234ms");
    test_str(times(Span::MS(), 1.2345), "1.2345ms");
    test_str(times(Span::MS(), 1.23456), "1.23456ms");
    test_str(times(Span::MS(), 1.234567), "1.234567ms");
    test_str(times(Span::MS(), 1.034567), "1.034567ms");
    test_str(times(Span::MS(), 0.5), "500us");
    test_str(Span::US(), "1us");
    test_str(Span::NS(), "1ns");
    test_str(of_day(12.), "12d");
    test_str(Span::DAY() * 12 + Span::NS(), "12d1ns");
    test_str(-Span::DAY() * 12 - Span::NS(), "-12d1ns");
    test_str(-Span::DAY() * 12 + Span::NS(), "-11d23h59m59.999999999s");
    test_str(Span::DAY() * 12 + Span::MS() + Span::NS(), "12d1.000001ms");
    test_str(Span::DAY() + Span::MS() + Span::US(), "1d1.001ms");
    test_str(Span::DAY() + Span::MS() * 123456 + Span::US(), "1d2m3.456001s");
    test_str(Span::DAY() + Span::MS() * 123456, "1d2m3.456s");
    test_str(Span::HR() + Span::US() * 123456, "1h123.456ms");
    test_str(Span::MIN() * 12 + Span::US() * 123456, "12m123.456ms");
    test_str(Span::MIN() * 12 + Span::NS() * 123000, "12m123us");
    test_str(Span::MIN() * 12 + Span::NS() * 123001, "12m123.001us");

    assert_eq!("1.1d".parse::<Span>().unwrap(), Span::DAY() + Span::MIN() * 144);

    // Some weird formatting
    assert_eq!("1.d0s.0s.1d".parse::<Span>().unwrap(), Span::DAY() + Span::MIN() * 144);
}

#[test]
fn span_round_trip_samples() {
    for ns in [1i64, 999, 1_000, 1_001, 59_999_999_999, 60_000_000_000, 86_399_999_999_999, 86_400_000_000_001, i64::MAX, i64::MIN + 1, -1, -1_500_000] {
        let s = Span::of_int_ns(ns);
        assert_eq!(s.to_string().parse::<Span>().unwrap(), s);
    }
    assert_eq!(Span::of_int_ns(i64::MAX).to_string(), "106751d23h47m16.854775807s");
    assert_eq!(
        Span::of_int_ns(i64::MIN).to_string().parse::<Span>(),
        Err(ParseSpanError::Overflow)
    );
}

#[test]
fn span_parse_errors_and_rounding() {
    assert_eq!("".parse::<Span>(), Err(ParseSpanError::EmptyString));
    assert_eq!("1x".parse::<Span>(), Err(ParseSpanError::UnexpectedChar("1x".to_string(), 'x')));
    assert_eq!("1u".parse::<Span>(), Err(ParseSpanError::UnexpectedCharAfterU("1u".to_string())));
    assert_eq!("1n".parse::<Span>(), Err(ParseSpanError::UnexpectedCharAfterN("1n".to_string())));
    assert_eq!("99999999999999999999s".parse::<Span>(), Err(ParseSpanError::Overflow));
    assert_eq!("1.5ns".parse::<Span>().unwrap(), Span::NS());
    assert_eq!("1.6ns".parse::<Span>().unwrap(), Span::NS() * 2);
    assert_eq!("+2h".parse::<Span>().unwrap(), Span::HR() * 2);
    assert_eq!("-2m".parse::<Span>().unwrap(), -(Span::MIN() * 2));
    assert_eq!("3".parse::<Span>().unwrap(), Span::ZERO());
}

#[test]
fn span_arithmetic() {
    assert_eq!(Span::of_int_sec(3).to_int_ns(), 3_000_000_000);
    assert_eq!(Span::of_int_min(2), Span::MIN() * 2);
    assert_eq!(Span::of_int_hr(1), Span::HR());
    assert_eq!(Span::of_int_day(1), Span::DAY());
    assert_eq!(Span::of_int_ms(1), Span::MS());
    assert_eq!(Span::of_int_us(1), Span::US());
    assert_eq!((-Span::SEC()).abs(), Span::SEC());
    assert!(Span::SEC().is_positive());
    assert!(Span::ZERO().is_non_negative());
    assert!((-Span::SEC()).is_negative());
    assert!(Span::ZERO().is_non_positive());
    assert_eq!(Span::of_int_ns(-7) / 2, Span::of_int_ns(-3));
    assert_eq!(Span::of_int_ns(-7).prev_multiple(Span::of_int_ns(5)), Span::of_int_ns(-10));
    assert_eq!(Span::of_int_ns(7).next_multiple(Span::of_int_ns(5)), Span::of_int_ns(10));
    assert_eq!(Span::of_int_ns(10).next_multiple(Span::of_int_ns(5)), Span::of_int_ns(10));
}
