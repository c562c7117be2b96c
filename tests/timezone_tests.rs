use chrono::{Offset, TimeZone};
use std::str::FromStr;
use timens::{Date, OfDay, Span, Time, Tz, TzError, TzInfo, TzOffset};

fn to_date_ofday_rt(time: Time, tz: Tz) -> (Date, OfDay) {
    let (date, ofday) = time.to_date_ofday(tz);
    let rt_time = Time::of_date_ofday(date, ofday, tz).unwrap();
    assert_eq!(time, rt_time);
    (date, ofday)
}

#[test]
fn tz() {
    let europe_london = Tz::Europe__London.tz_info();
    let time = Time::of_span_since_epoch(Span::of_int_sec(1637437386));
    assert_eq!(europe_london.offset(time), Span::ZERO());
    let (date, ofday) = to_date_ofday_rt(time, Tz::Europe__London);
    assert_eq!(date.to_string(), "2021-11-20");
    assert_eq!(ofday.to_string(), "19:43:06");
    let (date, ofday) = to_date_ofday_rt(time, Tz::GMT);
    assert_eq!(date.to_string(), "2021-11-20");
    assert_eq!(ofday.to_string(), "19:43:06");
    let time = Time::of_span_since_epoch(Span::of_int_sec(1630037386));
    assert_eq!(europe_london.offset(time), Span::of_int_hr(1));
    let (date, ofday) = to_date_ofday_rt(time, Tz::Europe__London);
    assert_eq!(date.to_string(), "2021-08-27");
    assert_eq!(ofday.to_string(), "05:09:46");
    let (date, ofday) = to_date_ofday_rt(time, Tz::GMT);
    assert_eq!(date.to_string(), "2021-08-27");
    assert_eq!(ofday.to_string(), "04:09:46");
    let time = Time::of_span_since_epoch(Span::of_int_sec(1630037386 - 5 * 3600));
    assert_eq!(europe_london.offset(time), Span::of_int_hr(1));
    let (date, ofday) = to_date_ofday_rt(time, Tz::Europe__London);
    assert_eq!(date.to_string(), "2021-08-27");
    assert_eq!(ofday.to_string(), "00:09:46");
    let (date, ofday) = to_date_ofday_rt(time, Tz::GMT);
    assert_eq!(date.to_string(), "2021-08-26");
    assert_eq!(ofday.to_string(), "23:09:46");
    assert_eq!(time.to_string_tz(Tz::GMT), "2021-08-26 23:09:46Z");
    assert_eq!(time.to_string_tz(Tz::Europe__London), "2021-08-27 00:09:46+01:00");
}

fn of_date_ofday_ldn(date: &str, ofday: &str) -> Result<Time, TzError> {
    let date = Date::from_str(date).unwrap();
    let ofday = OfDay::from_str(ofday).unwrap();
    Time::of_date_ofday(date, ofday, Tz::Europe__London)
}

#[test]
fn tz_daylightsaving() {
    let time = of_date_ofday_ldn("2021-11-21", "20:51:45").unwrap();
    assert_eq!(time.to_string_gmt(), "2021-11-21 20:51:45Z");
    // Day-light saving boundary, the same hour happened twice on 2021-10-31.
    let time = of_date_ofday_ldn("2021-10-31", "00:59:59").unwrap();
    assert_eq!(time.to_string_gmt(), "2021-10-30 23:59:59Z");
    match of_date_ofday_ldn("2021-10-31", "01:00:00") {
        Err(TzError::TwoTimesInThisTz(t1, t2)) => {
            assert_eq!(t1.to_string_gmt(), "2021-10-31 00:00:00Z");
            assert_eq!(t2.to_string_gmt(), "2021-10-31 01:00:00Z");
        }
        otherwise => panic!("unexpected {:?}", otherwise),
    }
    match of_date_ofday_ldn("2021-10-31", "01:30:00") {
        Err(TzError::TwoTimesInThisTz(t1, t2)) => {
            assert_eq!(t1.to_string_gmt(), "2021-10-31 00:30:00Z");
            assert_eq!(t2.to_string_gmt(), "2021-10-31 01:30:00Z");
        }
        otherwise => panic!("unexpected {:?}", otherwise),
    }
    match of_date_ofday_ldn("2021-10-31", "01:59:59.999999999") {
        Err(TzError::TwoTimesInThisTz(t1, t2)) => {
            assert_eq!(t1.to_string_gmt(), "2021-10-31 00:59:59.999999999Z");
            assert_eq!(t2.to_string_gmt(), "2021-10-31 01:59:59.999999999Z");
        }
        otherwise => panic!("unexpected {:?}", otherwise),
    }
    let time = of_date_ofday_ldn("2021-10-31", "02:00:00").unwrap();
    assert_eq!(time.to_string_gmt(), "2021-10-31 02:00:00Z");
    // Day-light saving boundary, an hour disappeared on 2021-03-28.
    let time = of_date_ofday_ldn("2021-03-28", "00:59:59.9").unwrap();
    assert_eq!(time.to_string_gmt(), "2021-03-28 00:59:59.9Z");
    let time = of_date_ofday_ldn("2021-03-28", "02:00:00").unwrap();
    assert_eq!(time.to_string_gmt(), "2021-03-28 01:00:00Z");
    match of_date_ofday_ldn("2021-03-28", "01:59:59.999999999") {
        Err(TzError::NoTimeInThisTz) => (),
        otherwise => panic!("unexpected {:?}", otherwise),
    }
    match of_date_ofday_ldn("2021-03-28", "01:00:00") {
        Err(TzError::NoTimeInThisTz) => (),
        otherwise => panic!("unexpected {:?}", otherwise),
    }
    match of_date_ofday_ldn("2021-03-28", "01:27:00.123456789") {
        Err(TzError::NoTimeInThisTz) => (),
        otherwise => panic!("unexpected {:?}", otherwise),
    }
}

#[test]
fn tz_daylightsaving_nyc() {
    let tz = Tz::America__New_York;
    let time = Time::from_str(&"2021-03-14 06:00Z").unwrap();
    let (date, ofday) = time.to_date_ofday(tz);
    let time2 = Time::of_date_ofday(date, ofday, tz).unwrap();
    assert_eq!(time, time2);
    assert_eq!(time.to_string_tz(tz), "2021-03-14 01:00:00-05:00");
    let time = Time::from_str(&"2021-03-14 06:59:59.9Z").unwrap();
    let (date, ofday) = time.to_date_ofday(tz);
    let time2 = Time::of_date_ofday(date, ofday, tz).unwrap();
    assert_eq!(time, time2);
    assert_eq!(time.to_string_tz(tz), "2021-03-14 01:59:59.9-05:00");
    let time = Time::from_str(&"2021-03-14 07:00Z").unwrap();
    let (date, ofday) = time.to_date_ofday(tz);
    let time2 = Time::of_date_ofday(date, ofday, tz).unwrap();
    assert_eq!(time, time2);
    assert_eq!(time.to_string_tz(tz), "2021-03-14 03:00:00-04:00");
}

fn table() -> TzInfo {
    let plus_one = TzOffset { utc_offset: 0, dst_offset: 3600 };
    TzInfo { first: TzOffset::ZERO(), rest: vec![(1_000_000, plus_one), (2_000_000, TzOffset::ZERO())] }
}

#[test]
fn hand_built_table_fold_and_gap() {
    let z = table();
    // Before the first change: offset zero.
    assert_eq!(z.find(Time::of_int_ns_since_epoch(0)).total_offset_sec(), 0);
    assert_eq!(z.find(Time::of_int_ns_since_epoch(1_000_000 * 1_000_000_000)).total_offset_sec(), 3600);
    assert_eq!(z.find(Time::of_int_ns_since_epoch(999_999 * 1_000_000_000)).total_offset_sec(), 0);
    // The hour after the forward change is skipped.
    assert_eq!(z.resolve_local_ns((1_000_000 + 10) * 1_000_000_000), Err(TzError::NoTimeInThisTz));
    assert_eq!(
        z.resolve_local_ns((1_000_000 + 3600) * 1_000_000_000),
        Ok(Time::of_int_ns_since_epoch(1_000_000 * 1_000_000_000))
    );
    // The hour after the backward change happens twice.
    assert_eq!(
        z.resolve_local_ns((2_000_000 + 10) * 1_000_000_000 + 5),
        Err(TzError::TwoTimesInThisTz(
            Time::of_int_ns_since_epoch((2_000_000 + 10 - 3600) * 1_000_000_000 + 5),
            Time::of_int_ns_since_epoch((2_000_000 + 10) * 1_000_000_000 + 5)
        ))
    );
    assert_eq!(
        z.resolve_local_ns((2_000_000 - 10) * 1_000_000_000),
        Ok(Time::of_int_ns_since_epoch((2_000_000 - 3610) * 1_000_000_000))
    );
    assert_eq!(TzInfo::GMT().resolve_local_ns(42), Ok(Time::of_int_ns_since_epoch(42)));
}

#[test]
fn instant_round_trip_across_a_year() {
    for tz in [Tz::Europe__London, Tz::America__New_York, Tz::Asia__Hong_Kong, Tz::UTC] {
        let info = tz.tz_info();
        let mut t = Time::from_str("2021-01-01 00:00:00Z").unwrap();
        for _ in 0..(365 * 4) {
            let (d, o) = info.time_to_date_ofday(t);
            match info.date_ofday_to_time(d, o) {
                Ok(back) => assert_eq!(back, t),
                Err(TzError::TwoTimesInThisTz(a, b)) => assert!(a == t || b == t),
                Err(e) => panic!("unexpected {:?}", e),
            }
            t = t + Span::HR() * 6 + Span::SEC() * 17;
        }
    }
}

#[test]
fn zone_names() {
    assert_eq!(Tz::from_str("Europe/London"), Ok(Tz::Europe__London));
    assert_eq!(Tz::Asia__Hong_Kong.name(), "Asia/Hong_Kong");
    assert_eq!(Tz::from_str("Nowhere"), Err(timens::TzParseError::UnknownZone("Nowhere".to_string())));
    let hk = Time::from_str("2021-06-01 00:00:00Z").unwrap();
    assert_eq!(hk.to_string_tz(Tz::Asia__Hong_Kong), "2021-06-01 08:00:00+08:00");
    assert_eq!(hk.to_date(Tz::America__New_York).to_string(), "2021-05-31");
    assert_eq!(hk.to_ofday(Tz::America__New_York).to_string(), "20:00:00");
}

#[test]
fn tables_agree_with_the_database() {
    let zones = [
        (Tz::Europe__London, chrono_tz::Tz::Europe__London),
        (Tz::America__New_York, chrono_tz::Tz::America__New_York),
        (Tz::Asia__Hong_Kong, chrono_tz::Tz::Asia__Hong_Kong),
        (Tz::GMT, chrono_tz::Tz::GMT),
    ];
    for (tz, ctz) in zones {
        let info = tz.tz_info();
        let mut sec: i64 = -3_786_825_600; // 1850-01-01
        while sec < 4_070_908_800 {
            // 2099-01-01
            let naive = chrono::DateTime::from_timestamp(sec, 0).unwrap().naive_utc();
            let expected = ctz.offset_from_utc_datetime(&naive).fix().local_minus_utc() as i64;
            let got = info.offset(Time::of_int_ns_since_epoch(sec * 1_000_000_000)).to_int_ns();
            assert_eq!(got, expected * 1_000_000_000, "{:?} at {}", tz, sec);
            sec += 86_400 * 3 + 3_617;
        }
    }
}
