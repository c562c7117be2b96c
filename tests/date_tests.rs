use std::str::FromStr;
use timens::{Date, DateError, DayOfWeek, Days, Month};

fn show(dates: &[Date]) -> String {
    format!("[{}]", dates.iter().map(|d| d.to_string()).collect::<Vec<_>>().join(", "))
}

#[test]
fn add_sub() {
    let d = Date::create(2000, Month::Jan, 1).unwrap();
    assert_eq!(d.to_string(), "2000-01-01");
    assert_eq!((d + 1).to_string(), "2000-01-02");
    assert_eq!((d - 1).to_string(), "1999-12-31");
    assert_eq!((d + 365).to_string(), "2000-12-31");
    assert_eq!((d + 366).to_string(), "2001-01-01");
    let d = Date::from_str("2021-11-17").unwrap();
    assert_eq!(d.to_string(), "2021-11-17");
    for i in -10_000..10_000 {
        assert_eq!(d - i + i, d);
        assert_eq!(d + i - i, d);
    }
}

#[test]
fn add_months() {
    let d = Date::from_str("2020-01-16").unwrap();
    assert_eq!(d.to_string(), "2020-01-16");
    assert_eq!(d.day_of_week(), DayOfWeek::Thu);
    assert_eq!(d.add_months(0).to_string(), "2020-01-16");
    assert_eq!(d.add_months(1).to_string(), "2020-02-16");
    assert_eq!(d.add_months(2).to_string(), "2020-03-16");
    assert_eq!(d.add_months(20).to_string(), "2021-09-16");
    assert_eq!(d.add_months(-1).to_string(), "2019-12-16");
    assert_eq!(d.add_months(-2).to_string(), "2019-11-16");
    assert_eq!(d.add_months(-20).to_string(), "2018-05-16");
    let d = Date::from_str("2020-01-31").unwrap();
    assert_eq!(d.to_string(), "2020-01-31");
    assert_eq!(d.day_of_week(), DayOfWeek::Fri);
    assert_eq!(Days::of_date(d).day_of_week(), DayOfWeek::Fri);
    assert_eq!(d.add_months(0).to_string(), "2020-01-31");
    assert_eq!(d.add_months(1).to_string(), "2020-02-29");
    assert_eq!(d.add_months(13).to_string(), "2021-02-28");
    assert_eq!(d.add_months(2).to_string(), "2020-03-31");
    assert_eq!(d.add_months(20).to_string(), "2021-09-30");
    assert_eq!(d.add_months(-1).to_string(), "2019-12-31");
    assert_eq!(d.add_months(-2).to_string(), "2019-11-30");
    assert_eq!(d.add_months(-20).to_string(), "2018-05-31");
}

#[test]
fn create() {
    let mut tested_dates = 0;
    for y in [2014, 9999, 2000, 2020] {
        for m in 1..=12 {
            for d in 1..=31 {
                let month = Month::of_u8(m).unwrap();
                assert_eq!(month.to_u8(), m);
                if d > month.days_in_month(y) {
                    continue;
                }
                let date = Date::create(y, month, d).unwrap();
                assert_eq!(date.year(), y);
                assert_eq!(date.month(), month);
                assert_eq!(date.day(), d);
                let date2 = Date::from_str(&date.to_string()).unwrap();
                assert_eq!(date, date2);
                let date2 = Date::from_str(&date.to_string_iso8601_basic()).unwrap();
                assert_eq!(date, date2);
                let date2 = Date::from_str(&date.to_string().replace('-', "/")).unwrap();
                assert_eq!(date, date2);
                tested_dates += 1;
            }
        }
    }
    assert_eq!(tested_dates, 4 * 365 + 2);
}

#[test]
fn iter() {
    let lo = Date::from_str("2021-01-14").unwrap();
    let up = Date::from_str("2021-01-20").unwrap();
    assert_eq!(lo.day_of_week(), DayOfWeek::Thu);
    assert_eq!(Days::of_date(lo).day_of_week(), DayOfWeek::Thu);
    let dates: Vec<_> = lo.dates_until(up).collect();
    assert_eq!(
        show(&dates),
        "[2021-01-14, 2021-01-15, 2021-01-16, 2021-01-17, 2021-01-18, 2021-01-19, 2021-01-20]"
    );
    let dates: Vec<_> = lo.weekdays_until(up).collect();
    assert_eq!(show(&dates), "[2021-01-14, 2021-01-15, 2021-01-18, 2021-01-19, 2021-01-20]");
    for diff in [0, 1, 2, 7, 12, 23, 125, 365] {
        let up = lo + diff;
        assert_eq!(lo.dates_until(up).count(), diff as usize + 1)
    }
}

#[test]
fn business_date() {
    let date = Date::from_str("2021-01-16").unwrap();
    assert_eq!(date.round_forward_to_business_day(|d| d.is_weekday()).unwrap(), date + 2);
    assert_eq!(date.round_backward_to_business_day(|d| d.is_weekday()).unwrap(), date - 1);
    assert_eq!((date + 2).round_forward_to_business_day(|d| d.is_weekday()).unwrap(), date + 2);
    assert_eq!((date + 2).round_backward_to_business_day(|d| d.is_weekday()).unwrap(), date + 2);
    let dates: Vec<_> = date.business_days_until(date + 30, |d| d.is_weekend()).collect();
    assert_eq!(
        show(&dates),
        "[2021-01-16, 2021-01-17, 2021-01-23, 2021-01-24, 2021-01-30, 2021-01-31, 2021-02-06, 2021-02-07, 2021-02-13, 2021-02-14]"
    );
    assert_eq!(
        date.add_business_days_rounding_forward(104, |d| d.is_weekend()).unwrap().to_string(),
        "2022-01-15"
    );
    assert_eq!(
        date.add_business_days_rounding_backward(104, |d| d.is_weekend()).unwrap().to_string(),
        "2022-01-15"
    );
    assert_eq!(
        (date - 1).add_business_days_rounding_forward(104, |d| d.is_weekend()).unwrap().to_string(),
        "2022-01-15"
    );
    assert_eq!(
        (date - 1).add_business_days_rounding_backward(104, |d| d.is_weekend()).unwrap().to_string(),
        "2022-01-09"
    );
    assert_eq!(
        (date - 1).add_business_days_rounding_forward(-104, |d| d.is_weekend()).unwrap().to_string(),
        "2020-01-18"
    );
    assert_eq!(
        (date - 1).add_business_days_rounding_backward(-104, |d| d.is_weekend()).unwrap().to_string(),
        "2020-01-12"
    );
    assert_eq!(
        (date - 1).add_business_days_rounding_backward(-1, |d| d.is_weekend()).unwrap().to_string(),
        "2021-01-09"
    );
    assert_eq!(
        (date - 1).add_business_days_rounding_backward(1, |d| d.is_weekend()).unwrap().to_string(),
        "2021-01-16"
    );
    assert_eq!(
        (date - 1).add_business_days_rounding_forward(1, |d| d.is_weekend()).unwrap().to_string(),
        "2021-01-17"
    );
}

#[test]
fn shift_round_trip_over_wide_range() {
    for text in ["0000-01-01", "0000-02-29", "0000-03-01", "1970-01-01", "2400-02-29", "9999-12-31"] {
        let d = Date::from_str(text).unwrap();
        for n in [0, 1, 59, 60, 365, 366, 146_097, 1_000_000] {
            if Days::of_date(d) - Days::of_date(Date::create(0, Month::Jan, 1).unwrap()) >= n {
                assert_eq!(d - n + n, d);
            }
            if Days::of_date(Date::create(9999, Month::Dec, 31).unwrap()) - Days::of_date(d) >= n {
                assert_eq!(d + n - n, d);
            }
        }
    }
}

#[test]
fn calendar_ends_and_leap_days() {
    let first = Date::create(0, Month::Jan, 1).unwrap();
    let last = Date::create(9999, Month::Dec, 31).unwrap();
    assert_eq!(last - first, 3_652_424);
    assert_eq!((first + 59).to_string(), "0000-02-29");
    assert_eq!((first + 60).to_string(), "0000-03-01");
    assert_eq!((Date::create(1900, Month::Feb, 28).unwrap() + 1).to_string(), "1900-03-01");
    assert_eq!(Date::create(1970, Month::Jan, 1).unwrap() - Date::UNIX_EPOCH(), 0);
    assert_eq!(Date::of_days_since_epoch(18_628).to_string(), "2021-01-01");
    assert_eq!(Date::of_days_since_epoch(-1).to_string(), "1969-12-31");
    assert!(timens::is_leap_year(2000));
    assert!(!timens::is_leap_year(1900));
    assert!(timens::is_leap_year(2024));
    assert_eq!(Month::Feb.days_in_month(2023), 28);
    assert_eq!(first.day_of_week(), DayOfWeek::Sat);
    assert_eq!(Days::of_date(first).day_of_week(), DayOfWeek::Sat);
}

#[test]
fn day_of_week_rules_agree() {
    let mut d = Date::create(1600, Month::Jan, 1).unwrap();
    let end = Date::create(2400, Month::Dec, 31).unwrap();
    while d <= end {
        assert_eq!(d.day_of_week(), Days::of_date(d).day_of_week());
        d = d + 1;
    }
}

#[test]
fn add_years_clamps() {
    let d = Date::create(2020, Month::Feb, 29).unwrap();
    assert_eq!(d.add_years(1).to_string(), "2021-02-28");
    assert_eq!(d.add_years(4).to_string(), "2024-02-29");
    assert_eq!(d.add_years(-1).to_string(), "2019-02-28");
    assert_eq!(d.add_days(366).to_string(), "2021-03-01");
}

#[test]
fn date_errors() {
    assert_eq!(Date::create(10_000, Month::Jan, 1), Err(DateError::InvalidYear(10_000)));
    assert_eq!(
        Date::create(2021, Month::Feb, 29),
        Err(DateError::InvalidDayForMonth(2021, Month::Feb, 29))
    );
    assert_eq!(
        Date::create(2021, Month::Jan, 0),
        Err(DateError::InvalidDayForMonth(2021, Month::Jan, 0))
    );
    assert_eq!(Date::from_str("2021-1-01"), Err(DateError::ParseError));
    assert_eq!(Date::from_str("2021-13-01"), Err(DateError::ParseMonthError));
    assert_eq!(Date::from_str("2021-00-01"), Err(DateError::ParseMonthError));
    assert_eq!(Date::from_str("20a1-01-01"), Err(DateError::ParseIntError));
    assert_eq!(Date::from_str("2021-02-30"), Err(DateError::InvalidDayForMonth(2021, Month::Feb, 30)));
    assert_eq!(Date::from_str("2021/02/03").unwrap().to_string_american(), "02/03/2021");
    assert_eq!(Date::from_str("20210203").unwrap().to_string_iso8601_extended(), "2021-02-03");
    assert_eq!(Days::of_date(Date::from_str("0000-01-01").unwrap()).to_date().unwrap().to_string(), "0000-01-01");
    assert!(matches!((Days::of_date(Date::from_str("9999-12-31").unwrap()) + 1).to_date(), Err(DateError::InvalidYear(_))));
    assert!(matches!((Days::of_date(Date::from_str("0000-01-01").unwrap()) - 1).to_date(), Err(DateError::InvalidYear(_))));
}

#[test]
fn weekday_only_business_days_match_weekday_counts() {
    let start = Date::from_str("2021-01-14").unwrap();
    for n in [0, 1, 2, 5, 6, 7, 13, 30, 100, 365] {
        let up = start + n;
        let business = start.business_days_until(up, |d| d.is_weekday()).count();
        let weekdays = start.weekdays_until(up).count();
        let mut counted = 0;
        for i in 0..=n {
            let dow = (start + i).day_of_week();
            if dow != DayOfWeek::Sat && dow != DayOfWeek::Sun {
                counted += 1;
            }
        }
        assert_eq!(business, counted);
        assert_eq!(weekdays, counted);
    }
}

#[test]
fn day_of_week_conversions() {
    for i in 0..7u8 {
        assert_eq!(DayOfWeek::of_u8(i).unwrap().to_u8(), i);
    }
    assert_eq!(DayOfWeek::of_u8(7), None);
    assert!(DayOfWeek::Mon.is_weekday());
    assert!(DayOfWeek::Sun.is_weekend());
    assert_eq!(Month::of_u8(0), None);
    assert_eq!(Month::of_u8(13), None);
    assert_eq!(Month::Dec.to_u8(), 12);
}

#[test]
fn packed_form() {
    let d = Date::create(2021, Month::Jan, 16).unwrap();
    let p = u32::from(d);
    assert_eq!(p, (2021 << 16) | (1 << 8) | 16);
    assert_eq!(Date::of_packed(p), Ok(d));
    assert!(Date::of_packed((2021 << 16) | (2 << 8) | 30).is_err());
    assert_eq!(Date::of_packed((2021 << 16) | (13 << 8) | 1), Err(DateError::ParseMonthError));
}

#[test]
fn american_form_reads_back() {
    let d = Date::create(2021, Month::Jan, 16).unwrap();
    assert_eq!(d.to_string_american(), "01/16/2021");
    assert_eq!(Date::from_str("01/16/2021"), Ok(d));
    for y in [0, 1970, 2000, 9999] {
        for m in 1..=12 {
            let month = Month::of_u8(m).unwrap();
            let last = Date::create(y, month, month.days_in_month(y)).unwrap();
            assert_eq!(Date::from_str(&last.to_string_american()), Ok(last));
        }
    }
    assert_eq!(Date::from_str("13/01/2021"), Err(DateError::ParseMonthError));
    assert_eq!(Date::from_str("02/30/2021"), Err(DateError::InvalidDayForMonth(2021, Month::Feb, 30)));
}
