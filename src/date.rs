//! The proleptic Gregorian calendar: dates in years 0 to 9999, their day
//! counts, month arithmetic, days of the week and business-day stepping.

use crate::span::div_mod_floor;
use crate::text::{
    chars_of, is_digit, lemma_pad, lemma_pow10_small, pad, parse_uint, pow10, push_padded, push_str,
    uint_at_most,
};
use vstd::prelude::*;

verus! {

/// Gregorian leap-year rule.
pub open spec fn leap(y: int) -> bool {
    (y % 4 == 0 && y % 100 != 0) || y % 400 == 0
}

/// The number of days of month `m` (1 to 12) of year `y`.
pub open spec fn month_days(y: int, m: int) -> int {
    if m == 2 {
        if leap(y) {
            29
        } else {
            28
        }
    } else if m == 4 || m == 6 || m == 9 || m == 11 {
        30
    } else {
        31
    }
}

/// A month and day that exist in year `y` of the proleptic Gregorian calendar.
pub open spec fn proleptic_ymd(y: int, m: int, d: int) -> bool {
    1 <= m <= 12 && 1 <= d <= month_days(y, m)
}

/// A date that this library can hold: years 0 to 9999.
pub open spec fn valid_ymd(y: int, m: int, d: int) -> bool {
    0 <= y <= 9999 && proleptic_ymd(y, m, d)
}

/// The day count of March 1st of year `y`, where March 1st of year 0 is day 0.
pub open spec fn year_start(y: int) -> int {
    365 * y + y / 4 - y / 100 + y / 400
}

/// Days from March 1st to the first day of the `mi`-th month of a year that
/// starts in March (0 is March, 11 is February).
pub open spec fn shifted_month_start(mi: int) -> int {
    (306 * mi + 5) / 10
}

/// Months counted from March: 0 for March, 11 for February.
pub open spec fn shifted_month(m: int) -> int {
    (m + 9) % 12
}

/// The year that starts on the March before the given month.
pub open spec fn shifted_year(y: int, m: int) -> int {
    y - shifted_month(m) / 10
}

/// The day count of a date, where March 1st of year 0 is day 0.
pub open spec fn civil_days(y: int, m: int, d: int) -> int {
    year_start(shifted_year(y, m)) + shifted_month_start(shifted_month(m)) + d - 1
}

/// The day count of 1970-01-01.
pub open spec fn unix_epoch_days() -> int {
    719_468
}

/// The smallest and largest day counts of a date this library holds.
pub open spec fn min_days() -> int {
    -60
}

pub open spec fn max_days() -> int {
    3_652_364
}

proof fn lemma_floor_step(y: int, k: int)
    requires
        k > 0,
    ensures
        (y + 1) / k - y / k == if (y + 1) % k == 0 {
            1int
        } else {
            0int
        },
{
    vstd::arithmetic::div_mod::lemma_fundamental_div_mod(y, k);
    vstd::arithmetic::div_mod::lemma_fundamental_div_mod(y + 1, k);
    vstd::arithmetic::div_mod::lemma_mod_bound(y, k);
    vstd::arithmetic::div_mod::lemma_mod_bound(y + 1, k);
    let q = y / k;
    let r = y % k;
    if r + 1 == k {
        assert(y + 1 == (q + 1) * k + 0) by (nonlinear_arith)
            requires
                y == k * q + r,
                r + 1 == k,
        ;
        vstd::arithmetic::div_mod::lemma_fundamental_div_mod_converse(y + 1, k, q + 1, 0);
    } else {
        assert(y + 1 == q * k + (r + 1)) by (nonlinear_arith)
            requires
                y == k * q + r,
        ;
        vstd::arithmetic::div_mod::lemma_fundamental_div_mod_converse(y + 1, k, q, r + 1);
    }
}

proof fn lemma_year_len(y: int)
    ensures
        year_start(y + 1) - year_start(y) == if leap(y + 1) {
            366int
        } else {
            365int
        },
{
    lemma_floor_step(y, 4);
    lemma_floor_step(y, 100);
    lemma_floor_step(y, 400);
    if (y + 1) % 100 == 0 {
        let k = (y + 1) / 100;
        vstd::arithmetic::div_mod::lemma_fundamental_div_mod(y + 1, 100);
        vstd::arithmetic::div_mod::lemma_fundamental_div_mod_converse(y + 1, 4, 25 * k, 0);
    }
    if (y + 1) % 400 == 0 {
        let k = (y + 1) / 400;
        vstd::arithmetic::div_mod::lemma_fundamental_div_mod(y + 1, 400);
        vstd::arithmetic::div_mod::lemma_fundamental_div_mod_converse(y + 1, 100, 4 * k, 0);
    }
}

proof fn lemma_year_start_mono(a: int, b: int)
    requires
        a <= b,
    ensures
        year_start(a) + 365 * (b - a) <= year_start(b),
    decreases b - a,
{
    if a < b {
        lemma_year_start_mono(a, b - 1);
        lemma_year_len(b - 1);
    }
}

/// Linear bounds on `year_start`, scaled by 400.
proof fn lemma_year_start_bounds(y: int)
    ensures
        146_097 * y - 800 < 400 * year_start(y) < 146_097 * y + 400,
{
    vstd::arithmetic::div_mod::lemma_fundamental_div_mod(y, 4);
    vstd::arithmetic::div_mod::lemma_fundamental_div_mod(y, 100);
    vstd::arithmetic::div_mod::lemma_fundamental_div_mod(y, 400);
}

/// The month starts of the year that begins in March.
proof fn lemma_month_starts()
    ensures
        shifted_month_start(0) == 0,
        shifted_month_start(1) == 31,
        shifted_month_start(2) == 61,
        shifted_month_start(3) == 92,
        shifted_month_start(4) == 122,
        shifted_month_start(5) == 153,
        shifted_month_start(6) == 184,
        shifted_month_start(7) == 214,
        shifted_month_start(8) == 245,
        shifted_month_start(9) == 275,
        shifted_month_start(10) == 306,
        shifted_month_start(11) == 337,
{
}

/// The day within its shifted year, and the shifted month, of a date.
proof fn lemma_civil_bracket(y: int, m: int, d: int)
    requires
        proleptic_ymd(y, m, d),
    ensures
        ({
            let yy = shifted_year(y, m);
            let mi = shifted_month(m);
            let n = civil_days(y, m, d);
            &&& 0 <= mi < 12
            &&& year_start(yy) <= n < year_start(yy + 1)
            &&& shifted_month_start(mi) <= n - year_start(yy)
            &&& (mi < 11 ==> n - year_start(yy) < shifted_month_start(mi + 1))
        }),
{
    lemma_month_starts();
    let yy = shifted_year(y, m);
    lemma_year_len(yy);
    assert(shifted_month(m) == (m + 9) % 12);
    if m <= 2 {
        assert(yy + 1 == y);
    } else {
        assert(yy == y);
    }
}

/// The month and day that lie `ddd` days into the shifted year `yy`.
proof fn lemma_decode_month(yy: int, ddd: int, mi: int)
    requires
        0 <= ddd < year_start(yy + 1) - year_start(yy),
        mi == (100 * ddd + 52) / 3060,
    ensures
        0 <= mi < 12,
        shifted_month_start(mi) <= ddd,
        mi < 11 ==> ddd < shifted_month_start(mi + 1),
        ({
            let y = yy + (mi + 2) / 12;
            let m = (mi + 2) % 12 + 1;
            let d = ddd - shifted_month_start(mi) + 1;
            &&& proleptic_ymd(y, m, d)
            &&& shifted_month(m) == mi
            &&& shifted_year(y, m) == yy
            &&& civil_days(y, m, d) == year_start(yy) + ddd
        }),
{
    lemma_month_starts();
    lemma_year_len(yy);
    vstd::arithmetic::div_mod::lemma_fundamental_div_mod(100 * ddd + 52, 3060);
}

/// Two dates of the proleptic calendar with the same day count are the same.
pub proof fn lemma_civil_days_injective(y1: int, m1: int, d1: int, y2: int, m2: int, d2: int)
    requires
        proleptic_ymd(y1, m1, d1),
        proleptic_ymd(y2, m2, d2),
        civil_days(y1, m1, d1) == civil_days(y2, m2, d2),
    ensures
        y1 == y2 && m1 == m2 && d1 == d2,
{
    lemma_civil_bracket(y1, m1, d1);
    lemma_civil_bracket(y2, m2, d2);
    lemma_month_starts();
    let a = shifted_year(y1, m1);
    let b = shifted_year(y2, m2);
    if a < b {
        lemma_year_start_mono(a + 1, b);
    } else if b < a {
        lemma_year_start_mono(b + 1, a);
    }
    assert(a == b);
    assert(shifted_month(m1) == shifted_month(m2));
}

/// A month of the year.
#[derive(Clone, Copy, Debug, PartialEq, Eq, Structural, PartialOrd, Ord, Hash)]
pub enum Month {
    Jan,
    Feb,
    Mar,
    Apr,
    May,
    Jun,
    Jul,
    Aug,
    Sep,
    Oct,
    Nov,
    Dec,
}

impl Month {
    /// 1 for January, 2 for February, and so on.
    pub open spec fn index(self) -> int {
        match self {
            Month::Jan => 1,
            Month::Feb => 2,
            Month::Mar => 3,
            Month::Apr => 4,
            Month::May => 5,
            Month::Jun => 6,
            Month::Jul => 7,
            Month::Aug => 8,
            Month::Sep => 9,
            Month::Oct => 10,
            Month::Nov => 11,
            Month::Dec => 12,
        }
    }

    /// The number of days of this month in the given year.
    pub fn days_in_month(self, year: u32) -> (r: u8)
        ensures
            r == month_days(year as int, self.index()),
    {
        match self {
            Month::Jan | Month::Mar | Month::May | Month::Jul | Month::Aug | Month::Oct
            | Month::Dec => 31,
            Month::Apr | Month::Jun | Month::Sep | Month::Nov => 30,
            Month::Feb => {
                if is_leap_year(year) {
                    29
                } else {
                    28
                }
            },
        }
    }

    /// Converts to an int, 1 for January, 2 for February, etc.
    pub fn to_u8(self) -> (r: u8)
        ensures
            r == self.index(),
    {
        match self {
            Month::Jan => 1,
            Month::Feb => 2,
            Month::Mar => 3,
            Month::Apr => 4,
            Month::May => 5,
            Month::Jun => 6,
            Month::Jul => 7,
            Month::Aug => 8,
            Month::Sep => 9,
            Month::Oct => 10,
            Month::Nov => 11,
            Month::Dec => 12,
        }
    }

    /// Converts from an int, 1 for January, 2 for February, etc.
    pub fn of_u8(m: u8) -> (r: Option<Month>)
        ensures
            r is Some <==> 1 <= m <= 12,
            r is Some ==> r->0.index() == m,
    {
        match m {
            1 => Some(Month::Jan),
            2 => Some(Month::Feb),
            3 => Some(Month::Mar),
            4 => Some(Month::Apr),
            5 => Some(Month::May),
            6 => Some(Month::Jun),
            7 => Some(Month::Jul),
            8 => Some(Month::Aug),
            9 => Some(Month::Sep),
            10 => Some(Month::Oct),
            11 => Some(Month::Nov),
            12 => Some(Month::Dec),
            _ => None,
        }
    }
}

/// Returns whether `year` is a leap year or not.
pub fn is_leap_year(year: u32) -> (r: bool)
    ensures
        r == leap(year as int),
{
    year % 4 == 0 && year % 100 != 0 || year % 400 == 0
}

/// A day of the week.
#[derive(Clone, Copy, Debug, PartialEq, Eq, Structural, PartialOrd, Ord, Hash)]
pub enum DayOfWeek {
    Sun,
    Mon,
    Tue,
    Wed,
    Thu,
    Fri,
    Sat,
}

impl DayOfWeek {
    /// 0 for Sunday, 1 for Monday, and so on.
    pub open spec fn index(self) -> int {
        match self {
            DayOfWeek::Sun => 0,
            DayOfWeek::Mon => 1,
            DayOfWeek::Tue => 2,
            DayOfWeek::Wed => 3,
            DayOfWeek::Thu => 4,
            DayOfWeek::Fri => 5,
            DayOfWeek::Sat => 6,
        }
    }

    /// Conversion from an int, 0 for Sunday, 1 for Monday, etc.
    pub fn of_u8(i: u8) -> (r: Option<DayOfWeek>)
        ensures
            r is Some <==> i < 7,
            r is Some ==> r->0.index() == i,
    {
        match i {
            0 => Some(DayOfWeek::Sun),
            1 => Some(DayOfWeek::Mon),
            2 => Some(DayOfWeek::Tue),
            3 => Some(DayOfWeek::Wed),
            4 => Some(DayOfWeek::Thu),
            5 => Some(DayOfWeek::Fri),
            6 => Some(DayOfWeek::Sat),
            _ => None,
        }
    }

    /// Conversion to an int, 0 for Sunday, 1 for Monday, etc.
    pub fn to_u8(self) -> (r: u8)
        ensures
            r == self.index(),
    {
        match self {
            DayOfWeek::Sun => 0,
            DayOfWeek::Mon => 1,
            DayOfWeek::Tue => 2,
            DayOfWeek::Wed => 3,
            DayOfWeek::Thu => 4,
            DayOfWeek::Fri => 5,
            DayOfWeek::Sat => 6,
        }
    }

    /// Returns true for any day except Saturday and Sunday.
    pub fn is_weekday(self) -> (r: bool)
        ensures
            r == (1 <= self.index() <= 5),
    {
        match self {
            DayOfWeek::Mon | DayOfWeek::Tue | DayOfWeek::Wed | DayOfWeek::Thu | DayOfWeek::Fri => true,
            DayOfWeek::Sat | DayOfWeek::Sun => false,
        }
    }

    /// Returns true for Saturday and Sunday.
    pub fn is_weekend(self) -> (r: bool)
        ensures
            r == !(1 <= self.index() <= 5),
    {
        !self.is_weekday()
    }
}

/// Why a date could not be built or read.
#[derive(Clone, Debug, PartialEq, Eq, Structural)]
pub enum DateError {
    InvalidYear(u32),
    InvalidDayForMonth(u32, Month, u8),
    ParseIntError,
    ParseMonthError,
    ParseError,
}

/// A date of the proleptic Gregorian calendar, in years 0 to 9999.
#[derive(Clone, Copy, PartialEq, Eq, Structural, PartialOrd, Ord, Hash, Debug)]
pub struct Date {
    year: u32,
    month: u8,
    day: u8,
}

impl View for Date {
    type V = (int, int, int);

    /// Year, month (1 to 12) and day of the month.
    closed spec fn view(&self) -> (int, int, int) {
        (self.year as int, self.month as int, self.day as int)
    }
}

/// The day count of a date (March 1st of year 0 is day 0).
pub open spec fn date_days(d: (int, int, int)) -> int {
    civil_days(d.0, d.1, d.2)
}

impl Date {
    #[verifier::type_invariant]
    spec fn inv(self) -> bool {
        valid_ymd(self.year as int, self.month as int, self.day as int)
    }

    /// The year for this date.
    pub fn year(self) -> (r: u32)
        ensures
            r == self@.0,
            r <= 9999,
    {
        proof {
            use_type_invariant(&self);
        }
        self.year
    }

    /// The month for this date as an int, between 1 and 12.
    pub fn month_int(self) -> (r: u8)
        ensures
            r == self@.1,
            1 <= r <= 12,
    {
        proof {
            use_type_invariant(&self);
        }
        self.month
    }

    /// The month for this date.
    pub fn month(self) -> (r: Month)
        ensures
            r.index() == self@.1,
    {
        proof {
            use_type_invariant(&self);
        }
        match Month::of_u8(self.month) {
            Some(m) => m,
            None => Month::Jan,
        }
    }

    /// The day of the month for this date, as an int between 1 and 31.
    pub fn day(self) -> (r: u8)
        ensures
            r == self@.2,
            1 <= r <= month_days(self@.0, self@.1),
    {
        proof {
            use_type_invariant(&self);
        }
        self.day
    }

    /// Create a date based on a year, a month, and a day.
    pub fn create(year: u32, month: Month, day: u8) -> (r: Result<Date, DateError>)
        ensures
            year > 9999 ==> r == Err::<Date, DateError>(DateError::InvalidYear(year)),
            year <= 9999 && !(1 <= day <= month_days(year as int, month.index())) ==> r == Err::<
                Date,
                DateError,
            >(DateError::InvalidDayForMonth(year, month, day)),
            valid_ymd(year as int, month.index(), day as int) ==> r is Ok && r->Ok_0@ == (
                year as int,
                month.index(),
                day as int,
            ),
    {
        if year > 9999 {
            return Err(DateError::InvalidYear(year));
        }
        if day == 0 || day > month.days_in_month(year) {
            return Err(DateError::InvalidDayForMonth(year, month, day));
        }
        Ok(Date { year, month: month.to_u8(), day })
    }
}

/// A day count, where March 1st of year 0 is day 0.
#[derive(Clone, Copy, PartialEq, Eq, Structural, PartialOrd, Ord, Hash, Debug)]
pub struct Days(i32);

impl View for Days {
    type V = int;

    closed spec fn view(&self) -> int {
        self.0 as int
    }
}

/// The day count of March 1st of year `y`.
fn of_year(y: i64) -> (r: i64)
    requires
        -6_000_000 <= y <= 6_000_000,
    ensures
        r == year_start(y as int),
{
    let (q4, _) = div_mod_floor(y, 4);
    let (q100, _) = div_mod_floor(y, 100);
    let (q400, _) = div_mod_floor(y, 400);
    proof {
        vstd::arithmetic::div_mod::lemma_fundamental_div_mod(y as int, 4);
        vstd::arithmetic::div_mod::lemma_fundamental_div_mod(y as int, 100);
        vstd::arithmetic::div_mod::lemma_fundamental_div_mod(y as int, 400);
    }
    365 * y + q4 - q100 + q400
}

/// A date of the proleptic calendar lies in years 0 to 9999 exactly when its
/// day count lies between those of 0000-01-01 and 9999-12-31.
pub proof fn lemma_valid_iff_in_range(y: int, m: int, d: int)
    requires
        proleptic_ymd(y, m, d),
    ensures
        (0 <= y <= 9999) <==> (min_days() <= civil_days(y, m, d) <= max_days()),
{
    lemma_month_starts();
    lemma_year_len(y - 1);
    lemma_civil_bracket(y, m, d);
    assert(year_start(-1) == -366);
    assert(year_start(9999) == 3_652_059);
    if y >= 0 {
        lemma_year_start_mono(-1, y - 1);
    } else {
        lemma_year_start_mono(y, -1);
    }
    if y <= 9999 {
        lemma_year_start_mono(y, 9999);
    } else {
        lemma_year_start_mono(9999, y - 1);
    }
}

impl Days {
    /// The day count of `date`.
    pub fn of_date(date: Date) -> (r: Days)
        ensures
            r@ == date_days(date@),
            min_days() <= r@ <= max_days(),
    {
        let y0 = date.year();
        let m0 = date.month_int();
        let d0 = date.day();
        proof {
            lemma_valid_iff_in_range(y0 as int, m0 as int, d0 as int);
            lemma_month_starts();
        }
        let m = (m0 as i64 + 9) % 12;
        let y = y0 as i64 - m / 10;
        let days = of_year(y) + (m * 306 + 5) / 10 + d0 as i64 - 1;
        Days(days as i32)
    }

    /// The date with this day count, if it lies in years 0 to 9999.
    pub fn to_date(self) -> (r: Result<Date, DateError>)
        ensures
            r is Ok <==> min_days() <= self@ <= max_days(),
            r is Ok ==> date_days(r->Ok_0@) == self@,
            r is Err ==> r->Err_0 is InvalidYear,
    {
        let n = self.0 as i64;
        let (est, _) = div_mod_floor(n * 10_000 + 14_780, 3_652_425);
        proof {
            vstd::arithmetic::div_mod::lemma_fundamental_div_mod(n * 10_000 + 14_780, 3_652_425);
        }
        let mut y: i64 = est;
        while of_year(y) > n
            invariant
                -6_000_000 <= y <= 6_000_000,
                n == self@,
                i32::MIN <= n <= i32::MAX,
            decreases y + 6_000_000,
        {
            proof {
                lemma_year_start_bounds(y as int);
            }
            y = y - 1;
        }
        while of_year(y + 1) <= n
            invariant
                -6_000_000 <= y <= 6_000_000,
                year_start(y as int) <= n,
                n == self@,
                i32::MIN <= n <= i32::MAX,
            decreases 6_000_000 - y,
        {
            proof {
                lemma_year_start_bounds(y + 1);
            }
            y = y + 1;
        }
        let ddd = n - of_year(y);
        proof {
            lemma_year_len(y as int);
        }
        let mi = (100 * ddd + 52) / 3060;
        proof {
            lemma_decode_month(y as int, ddd as int, mi as int);
        }
        let year = y + (mi + 2) / 12;
        let m = (mi + 2) % 12 + 1;
        let d = ddd - (mi * 306 + 5) / 10 + 1;
        proof {
            lemma_valid_iff_in_range(year as int, m as int, d as int);
        }
        if year < 0 || year > 9999 {
            return Err(DateError::InvalidYear(year as u32));
        }
        Ok(Date { year: year as u32, month: m as u8, day: d as u8 })
    }
}

/// The day-of-week offsets of the months, for the closed-form rule.
pub open spec fn dow_month_offset(m: int) -> int {
    if m == 1 {
        0
    } else if m == 2 {
        3
    } else if m == 3 {
        2
    } else if m == 4 {
        5
    } else if m == 5 {
        0
    } else if m == 6 {
        3
    } else if m == 7 {
        5
    } else if m == 8 {
        1
    } else if m == 9 {
        4
    } else if m == 10 {
        6
    } else if m == 11 {
        2
    } else {
        4
    }
}

/// The closed-form day of the week, 0 for Sunday, of a date.
pub open spec fn closed_form_dow(y: int, m: int, d: int) -> int {
    let yy = if m < 3 {
        y - 1
    } else {
        y
    };
    (yy + yy / 4 - yy / 100 + yy / 400 + dow_month_offset(m) + d) % 7
}

/// The day of the week, 0 for Sunday, of a day count.
pub open spec fn days_dow(n: int) -> int {
    (n + 3) % 7
}

/// The closed-form day of the week of a date agrees with the one read from
/// its day count.
pub proof fn lemma_day_of_week_agree(y: int, m: int, d: int)
    requires
        proleptic_ymd(y, m, d),
    ensures
        closed_form_dow(y, m, d) == days_dow(civil_days(y, m, d)),
{
    lemma_month_starts();
    let yy = shifted_year(y, m);
    assert(yy == if m < 3 {
        y - 1
    } else {
        y
    });
    let a = yy + yy / 4 - yy / 100 + yy / 400 + dow_month_offset(m) + d;
    let b = civil_days(y, m, d) + 3;
    assert(b == a + 364 * yy + shifted_month_start(shifted_month(m)) + 2 - dow_month_offset(m));
    let c = shifted_month_start(shifted_month(m)) + 2 - dow_month_offset(m);
    let k = c / 7;
    vstd::arithmetic::div_mod::lemma_fundamental_div_mod(c, 7);
    assert(c % 7 == 0);
    assert(b == a + 7 * (52 * yy + k));
    vstd::arithmetic::div_mod::lemma_mod_multiples_vanish(52 * yy + k, a, 7);
}

impl vstd::std_specs::ops::AddSpecImpl<i32> for Days {
    open spec fn obeys_add_spec() -> bool {
        false
    }

    open spec fn add_req(self, rhs: i32) -> bool {
        i32::MIN <= self@ + rhs <= i32::MAX
    }

    open spec fn add_spec(self, rhs: i32) -> Days {
        self
    }
}

impl core::ops::Add<i32> for Days {
    type Output = Days;

    fn add(self, other: i32) -> (r: Days)
        ensures
            r@ == self@ + other,
    {
        Days(self.0 + other)
    }
}

impl vstd::std_specs::ops::SubSpecImpl<i32> for Days {
    open spec fn obeys_sub_spec() -> bool {
        false
    }

    open spec fn sub_req(self, rhs: i32) -> bool {
        i32::MIN <= self@ - rhs <= i32::MAX
    }

    open spec fn sub_spec(self, rhs: i32) -> Days {
        self
    }
}

impl core::ops::Sub<i32> for Days {
    type Output = Days;

    fn sub(self, other: i32) -> (r: Days)
        ensures
            r@ == self@ - other,
    {
        Days(self.0 - other)
    }
}

impl vstd::std_specs::ops::SubSpecImpl<Days> for Days {
    open spec fn obeys_sub_spec() -> bool {
        true
    }

    open spec fn sub_req(self, rhs: Days) -> bool {
        i32::MIN <= self@ - rhs@ <= i32::MAX
    }

    open spec fn sub_spec(self, rhs: Days) -> i32 {
        (self@ - rhs@) as i32
    }
}

impl core::ops::Sub<Days> for Days {
    type Output = i32;

    fn sub(self, other: Days) -> (r: i32)
        ensures
            r == self@ - other@,
    {
        self.0 - other.0
    }
}

impl Days {
    /// The day of the week of this day count.
    pub fn day_of_week(self) -> (r: DayOfWeek)
        ensures
            r.index() == days_dow(self@),
    {
        let (_, w) = div_mod_floor(self.0 as i64 + 3, 7);
        match DayOfWeek::of_u8(w as u8) {
            Some(d) => d,
            None => DayOfWeek::Sun,
        }
    }

    pub fn is_weekday(self) -> (r: bool)
        ensures
            r == (1 <= days_dow(self@) <= 5),
    {
        self.day_of_week().is_weekday()
    }

    pub fn is_weekend(self) -> (r: bool)
        ensures
            r == !(1 <= days_dow(self@) <= 5),
    {
        self.day_of_week().is_weekend()
    }
}

impl vstd::std_specs::ops::AddSpecImpl<i32> for Date {
    open spec fn obeys_add_spec() -> bool {
        false
    }

    open spec fn add_req(self, rhs: i32) -> bool {
        min_days() <= date_days(self@) + rhs <= max_days()
    }

    open spec fn add_spec(self, rhs: i32) -> Date {
        self
    }
}

impl core::ops::Add<i32> for Date {
    type Output = Date;

    /// The date `other` days later.
    fn add(self, other: i32) -> (r: Date)
        ensures
            date_days(r@) == date_days(self@) + other,
    {
        let days = Days::of_date(self);
        match (days + other).to_date() {
            Ok(d) => d,
            Err(_) => self,
        }
    }
}

impl vstd::std_specs::ops::SubSpecImpl<i32> for Date {
    open spec fn obeys_sub_spec() -> bool {
        false
    }

    open spec fn sub_req(self, rhs: i32) -> bool {
        min_days() <= date_days(self@) - rhs <= max_days()
    }

    open spec fn sub_spec(self, rhs: i32) -> Date {
        self
    }
}

impl core::ops::Sub<i32> for Date {
    type Output = Date;

    /// The date `other` days earlier.
    fn sub(self, other: i32) -> (r: Date)
        ensures
            date_days(r@) == date_days(self@) - other,
    {
        let days = Days::of_date(self);
        match (days - other).to_date() {
            Ok(d) => d,
            Err(_) => self,
        }
    }
}

impl vstd::std_specs::ops::SubSpecImpl<Date> for Date {
    open spec fn obeys_sub_spec() -> bool {
        true
    }

    open spec fn sub_req(self, rhs: Date) -> bool {
        true
    }

    open spec fn sub_spec(self, rhs: Date) -> i32 {
        (date_days(self@) - date_days(rhs@)) as i32
    }
}

impl core::ops::Sub<Date> for Date {
    type Output = i32;

    /// The number of days from `other` to `self`.
    fn sub(self, other: Date) -> (r: i32)
        ensures
            r == date_days(self@) - date_days(other@),
    {
        Days::of_date(self) - Days::of_date(other)
    }
}

/// Moving a date `n` days forward and then `n` days back, or back and then
/// forward, gives the date again.
pub proof fn lemma_shift_round_trip(a: Date, b: Date, c: Date, n: int)
    requires
        valid_ymd(a@.0, a@.1, a@.2),
        valid_ymd(c@.0, c@.1, c@.2),
        date_days(b@) == date_days(a@) + n,
        date_days(c@) == date_days(b@) - n,
    ensures
        c == a,
{
    lemma_civil_days_injective(a@.0, a@.1, a@.2, c@.0, c@.1, c@.2);
}

impl Date {
    /// 1970-01-01.
    #[allow(non_snake_case)]
    pub fn UNIX_EPOCH() -> (r: Date)
        ensures
            r@ == (1970int, 1int, 1int),
            date_days(r@) == unix_epoch_days(),
    {
        Date { year: 1970, month: 1, day: 1 }
    }

    /// Add a number of days to this date.
    pub fn add_days(self, n: i32) -> (r: Date)
        requires
            min_days() <= date_days(self@) + n <= max_days(),
        ensures
            date_days(r@) == date_days(self@) + n,
    {
        self + n
    }

    /// The date with the given number of days since 1970-01-01.
    pub fn of_days_since_epoch(d: i32) -> (r: Date)
        requires
            min_days() <= unix_epoch_days() + d <= max_days(),
        ensures
            date_days(r@) == unix_epoch_days() + d,
    {
        Self::UNIX_EPOCH() + d
    }

    /// Add some number of months to a date. Where the day does not exist in
    /// the month reached, the last day of that month is returned, e.g. adding
    /// a month to Jan 31 gives Feb 28 or Feb 29.
    pub fn add_months(self, m: i32) -> (r: Date)
        requires
            0 <= (self@.0 * 12 + self@.1 - 1 + m) / 12 <= 9999,
        ensures
            ({
                let t = self@.0 * 12 + self@.1 - 1 + m;
                let ny = t / 12;
                let nm = t % 12 + 1;
                let nd = if self@.2 <= month_days(ny, nm) {
                    self@.2
                } else {
                    month_days(ny, nm)
                };
                r@ == (ny, nm, nd)
            }),
    {
        let total: i64 = self.year() as i64 * 12 + self.month_int() as i64 - 1 + m as i64;
        let (ny, nm0) = div_mod_floor(total, 12);
        let nm = nm0 + 1;
        let month = match Month::of_u8(nm as u8) {
            Some(mo) => mo,
            None => Month::Jan,
        };
        let dim = month.days_in_month(ny as u32);
        let d = if self.day() <= dim {
            self.day()
        } else {
            dim
        };
        Date { year: ny as u32, month: nm as u8, day: d }
    }

    /// Add some number of years to a date. Where the day does not exist
    /// (Feb 29), the last day of the month is returned.
    pub fn add_years(self, y: i32) -> (r: Date)
        requires
            i32::MIN <= y * 12 <= i32::MAX,
            0 <= self@.0 + y <= 9999,
        ensures
            ({
                let ny = self@.0 + y;
                let nd = if self@.2 <= month_days(ny, self@.1) {
                    self@.2
                } else {
                    month_days(ny, self@.1)
                };
                r@ == (ny, self@.1, nd)
            }),
    {
        let ghost t = self@.0 * 12 + self@.1 - 1 + y * 12;
        let mo = self.month_int();
        proof {
            vstd::arithmetic::div_mod::lemma_fundamental_div_mod_converse(
                t,
                12,
                self@.0 + y,
                self@.1 - 1,
            );
        }
        self.add_months(y * 12)
    }

    /// The day of the week for this date.
    pub fn day_of_week(self) -> (r: DayOfWeek)
        ensures
            r.index() == closed_form_dow(self@.0, self@.1, self@.2),
            r.index() == days_dow(date_days(self@)),
    {
        let m = self.month_int();
        let y: i64 = if m < 3 {
            self.year() as i64 - 1
        } else {
            self.year() as i64
        };
        let offset: i64 = if m == 1 {
            0
        } else if m == 2 {
            3
        } else if m == 3 {
            2
        } else if m == 4 {
            5
        } else if m == 5 {
            0
        } else if m == 6 {
            3
        } else if m == 7 {
            5
        } else if m == 8 {
            1
        } else if m == 9 {
            4
        } else if m == 10 {
            6
        } else if m == 11 {
            2
        } else {
            4
        };
        let (q4, _) = div_mod_floor(y, 4);
        let (q100, _) = div_mod_floor(y, 100);
        let (q400, _) = div_mod_floor(y, 400);
        let (_, w) = div_mod_floor(y + q4 - q100 + q400 + offset + self.day() as i64, 7);
        proof {
            lemma_day_of_week_agree(self@.0, self@.1, self@.2);
        }
        match DayOfWeek::of_u8(w as u8) {
            Some(d) => d,
            None => DayOfWeek::Sun,
        }
    }

    pub fn is_weekday(self) -> (r: bool)
        ensures
            r == (1 <= days_dow(date_days(self@)) <= 5),
    {
        self.day_of_week().is_weekday()
    }

    pub fn is_weekend(self) -> (r: bool)
        ensures
            r == !(1 <= days_dow(date_days(self@)) <= 5),
    {
        self.day_of_week().is_weekend()
    }
}

/// The month with index `m` (1 for January).
pub open spec fn month_of(m: int) -> Month {
    if m == 1 {
        Month::Jan
    } else if m == 2 {
        Month::Feb
    } else if m == 3 {
        Month::Mar
    } else if m == 4 {
        Month::Apr
    } else if m == 5 {
        Month::May
    } else if m == 6 {
        Month::Jun
    } else if m == 7 {
        Month::Jul
    } else if m == 8 {
        Month::Aug
    } else if m == 9 {
        Month::Sep
    } else if m == 10 {
        Month::Oct
    } else if m == 11 {
        Month::Nov
    } else {
        Month::Dec
    }
}

/// A date as `YYYY-MM-DD`.
pub open spec fn iso_extended_text(d: (int, int, int)) -> Seq<char> {
    pad(d.0 as nat, 4) + seq!['-'] + pad(d.1 as nat, 2) + seq!['-'] + pad(d.2 as nat, 2)
}

/// A date as `YYYYMMDD`.
pub open spec fn iso_basic_text(d: (int, int, int)) -> Seq<char> {
    pad(d.0 as nat, 4) + pad(d.1 as nat, 2) + pad(d.2 as nat, 2)
}

/// A date as `MM/DD/YYYY`.
pub open spec fn american_text(d: (int, int, int)) -> Seq<char> {
    pad(d.1 as nat, 2) + seq!['/'] + pad(d.2 as nat, 2) + seq!['/'] + pad(d.0 as nat, 4)
}

/// Where the year, month and day fields start in a date text, by its shape:
/// `YYYYMMDD`, `YYYY-MM-DD`, `YYYY/MM/DD` or `MM/DD/YYYY`.
pub open spec fn date_field_offsets(s: Seq<char>) -> Option<(int, int, int)> {
    if s.len() == 8 {
        Some((0, 4, 6))
    } else if s.len() == 10 && ((s[4] == '-' && s[7] == '-') || (s[4] == '/' && s[7] == '/')) {
        Some((0, 5, 8))
    } else if s.len() == 10 && s[2] == '/' && s[5] == '/' {
        Some((6, 0, 3))
    } else {
        None
    }
}

/// What reading `s` as a date gives: year, month and day, or the error.
pub open spec fn date_text_value(s: Seq<char>) -> Result<(int, int, int), DateError> {
    match date_field_offsets(s) {
        None => Err(DateError::ParseError),
        Some((yo, mo, dof)) => {
            let y = uint_at_most(s.subrange(yo, yo + 4), u32::MAX as nat);
            let d = uint_at_most(s.subrange(dof, dof + 2), u8::MAX as nat);
            let m = uint_at_most(s.subrange(mo, mo + 2), u8::MAX as nat);
            if y is None || d is None || m is None {
                Err(DateError::ParseIntError)
            } else if !(1 <= m->0 <= 12) {
                Err(DateError::ParseMonthError)
            } else if y->0 > 9999 {
                Err(DateError::InvalidYear(y->0 as u32))
            } else if !(1 <= d->0 <= month_days(y->0 as int, m->0 as int)) {
                Err(DateError::InvalidDayForMonth(y->0 as u32, month_of(m->0 as int), d->0 as u8))
            } else {
                Ok((y->0 as int, m->0 as int, d->0 as int))
            }
        },
    }
}

impl Date {
    /// The date as `YYYY-MM-DD`, e.g. "2021-01-16".
    pub fn to_string(&self) -> (r: String)
        ensures
            r@ == iso_extended_text(self@),
    {
        let mut s = String::new();
        push_padded(&mut s, self.year() as u64, 4);
        proof {
            reveal_strlit("-");
        }
        push_str(&mut s, "-");
        push_padded(&mut s, self.month_int() as u64, 2);
        push_str(&mut s, "-");
        push_padded(&mut s, self.day() as u64, 2);
        s
    }

    /// String representation for the current date, e.g. "2021-01-16".
    pub fn to_string_iso8601_extended(self) -> (r: String)
        ensures
            r@ == iso_extended_text(self@),
    {
        self.to_string()
    }

    /// String representation for the current date, e.g. "20210116".
    pub fn to_string_iso8601_basic(self) -> (r: String)
        ensures
            r@ == iso_basic_text(self@),
    {
        let mut s = String::new();
        push_padded(&mut s, self.year() as u64, 4);
        push_padded(&mut s, self.month_int() as u64, 2);
        push_padded(&mut s, self.day() as u64, 2);
        s
    }

    /// String representation for the current date, e.g. "01/16/2021".
    pub fn to_string_american(self) -> (r: String)
        ensures
            r@ == american_text(self@),
    {
        let mut s = String::new();
        push_padded(&mut s, self.month_int() as u64, 2);
        proof {
            reveal_strlit("/");
        }
        push_str(&mut s, "/");
        push_padded(&mut s, self.day() as u64, 2);
        push_str(&mut s, "/");
        push_padded(&mut s, self.year() as u64, 4);
        s
    }

    /// Reads a date written `YYYY-MM-DD`, `YYYY/MM/DD`, `YYYYMMDD` or
    /// `MM/DD/YYYY`.
    pub fn parse(text: &str) -> (r: Result<Date, DateError>)
        ensures
            match r {
                Ok(d) => date_text_value(text@) == Ok::<(int, int, int), DateError>(d@),
                Err(e) => date_text_value(text@) == Err::<(int, int, int), DateError>(e),
            },
    {
        Self::parse_chars(&chars_of(text))
    }

    /// Reads a date from characters, as `parse` does from text.
    pub fn parse_chars(s: &Vec<char>) -> (r: Result<Date, DateError>)
        ensures
            match r {
                Ok(d) => date_text_value(s@) == Ok::<(int, int, int), DateError>(d@),
                Err(e) => date_text_value(s@) == Err::<(int, int, int), DateError>(e),
            },
    {
        let (yo, mo, dof): (usize, usize, usize) = if s.len() == 8 {
            (0, 4, 6)
        } else if s.len() == 10 && ((s[4] == '-' && s[7] == '-') || (s[4] == '/' && s[7] == '/')) {
            (0, 5, 8)
        } else if s.len() == 10 && s[2] == '/' && s[5] == '/' {
            (6, 0, 3)
        } else {
            return Err(DateError::ParseError);
        };
        let y = parse_uint(s, yo, yo + 4, u32::MAX as u64);
        let d = parse_uint(s, dof, dof + 2, u8::MAX as u64);
        let m = parse_uint(s, mo, mo + 2, u8::MAX as u64);
        match (y, d, m) {
            (Some(y), Some(d), Some(m)) => {
                match Month::of_u8(m as u8) {
                    Some(month) => {
                        proof {
                            assert(month == month_of(m as int));
                        }
                        Date::create(y as u32, month, d as u8)
                    },
                    None => Err(DateError::ParseMonthError),
                }
            },
            _ => Err(DateError::ParseIntError),
        }
    }
}

impl core::str::FromStr for Date {
    type Err = DateError;

    fn from_str(s: &str) -> Result<Date, DateError> {
        Date::parse(s)
    }
}

/// Every date in `[a, b]` (by day count), in direction `step`, was a day
/// on which `f` answered false.
pub open spec fn all_rejected<F: Fn(Date) -> bool>(f: F, a: int, b: int) -> bool {
    forall|x: Date|
        valid_ymd(x@.0, x@.1, x@.2) && a <= date_days(x@) <= b ==> #[trigger] f.ensures((x,), false)
}

impl Date {
    /// The date with the same day count is the same date.
    proof fn lemma_same_days(a: Date, b: Date)
        requires
            valid_ymd(a@.0, a@.1, a@.2),
            valid_ymd(b@.0, b@.1, b@.2),
            date_days(a@) == date_days(b@),
        ensures
            a == b,
    {
        lemma_civil_days_injective(a@.0, a@.1, a@.2, b@.0, b@.1, b@.2);
    }

    /// Steps one day at a time from this date in direction `step` (1 or -1)
    /// until `is_business_day` holds; none when the calendar ends first.
    fn round_step_to_business_day<F>(self, is_business_day: &F, step: i32) -> (r: Option<Date>) where
        F: Fn(Date) -> bool,
        requires
            step == 1 || step == -1,
            forall|d: Date| is_business_day.requires((d,)),
        ensures
            match r {
                Some(d) => is_business_day.ensures((d,), true) && valid_ymd(d@.0, d@.1, d@.2) && (if step == 1 {
                    date_days(self@) <= date_days(d@) && all_rejected(
                        *is_business_day,
                        date_days(self@),
                        date_days(d@) - 1,
                    )
                } else {
                    date_days(d@) <= date_days(self@) && all_rejected(
                        *is_business_day,
                        date_days(d@) + 1,
                        date_days(self@),
                    )
                }),
                None => if step == 1 {
                    all_rejected(*is_business_day, date_days(self@), max_days())
                } else {
                    all_rejected(*is_business_day, min_days(), date_days(self@))
                },
            },
    {
        proof {
            use_type_invariant(&self);
        }
        let mut current = self;
        loop
            invariant
                step == 1 || step == -1,
                forall|d: Date| is_business_day.requires((d,)),
                min_days() <= date_days(current@) <= max_days(),
                valid_ymd(current@.0, current@.1, current@.2),
                step == 1 ==> date_days(self@) <= date_days(current@) && all_rejected(
                    *is_business_day,
                    date_days(self@),
                    date_days(current@) - 1,
                ),
                step == -1 ==> date_days(current@) <= date_days(self@) && all_rejected(
                    *is_business_day,
                    date_days(current@) + 1,
                    date_days(self@),
                ),
            decreases if step == 1 {
                max_days() - date_days(current@)
            } else {
                date_days(current@) - min_days()
            },
        {
            if is_business_day(current) {
                return Some(current);
            }
            let here = Days::of_date(current);
            proof {
                assert forall|x: Date|
                    valid_ymd(x@.0, x@.1, x@.2) && date_days(x@) == date_days(current@) implies #[trigger] is_business_day.ensures((x,), false) by {
                    Date::lemma_same_days(x, current);
                }
            }
            if (step == 1 && here.0 == 3_652_364) || (step == -1 && here.0 == -60) {
                return None;
            }
            current = current + step;
            proof {
                use_type_invariant(&current);
            }
        }
    }

    /// Rounds the date forward to the first date, from this one on, that
    /// satisfies `is_business_day`; none when the calendar ends first.
    pub fn round_forward_to_business_day<F>(self, is_business_day: F) -> (r: Option<Date>) where
        F: Fn(Date) -> bool,
        requires
            forall|d: Date| is_business_day.requires((d,)),
        ensures
            match r {
                Some(d) => is_business_day.ensures((d,), true) && date_days(self@) <= date_days(d@)
                    && all_rejected(is_business_day, date_days(self@), date_days(d@) - 1),
                None => all_rejected(is_business_day, date_days(self@), max_days()),
            },
    {
        self.round_step_to_business_day(&is_business_day, 1)
    }

    /// Rounds the date backward to the last date, up to this one, that
    /// satisfies `is_business_day`; none when the calendar ends first.
    pub fn round_backward_to_business_day<F>(self, is_business_day: F) -> (r: Option<Date>) where
        F: Fn(Date) -> bool,
        requires
            forall|d: Date| is_business_day.requires((d,)),
        ensures
            match r {
                Some(d) => is_business_day.ensures((d,), true) && date_days(d@) <= date_days(self@)
                    && all_rejected(is_business_day, date_days(d@) + 1, date_days(self@)),
                None => all_rejected(is_business_day, min_days(), date_days(self@)),
            },
    {
        self.round_step_to_business_day(&is_business_day, -1)
    }
}

/// `hits`, in the direction `step` from `from` and before `upto`, are dates
/// that `f` accepted, and every other date from `from` up to but not
/// including `upto` was rejected.
pub open spec fn hits_in_order<F: Fn(Date) -> bool>(f: F, hits: Seq<Date>, from: Date, upto: Date, step: int) -> bool {
    &&& forall|i: int|
        0 <= i < hits.len() ==> f.ensures((#[trigger] hits[i],), true) && valid_ymd(
            hits[i]@.0,
            hits[i]@.1,
            hits[i]@.2,
        ) && (if step == 1 {
            date_days(from@) <= date_days(hits[i]@) < date_days(upto@)
        } else {
            date_days(upto@) < date_days(hits[i]@) <= date_days(from@)
        })
    &&& forall|i: int, j: int|
        0 <= i < j < hits.len() ==> step * date_days(hits[i]@) < step * date_days(hits[j]@)
    &&& if step == 1 {
        all_found_or_rejected(f, hits, date_days(from@), date_days(upto@) - 1)
    } else {
        all_found_or_rejected(f, hits, date_days(upto@) + 1, date_days(from@))
    }
}

/// `hits` are all the dates that `f` accepted from `from` (included) to the
/// end of the calendar, forward, or backward where `days` is negative; there
/// are at most `|days|` of them, every other date there was rejected.
pub open spec fn hits_to_end<F: Fn(Date) -> bool>(f: F, hits: Seq<Date>, from: Date, days: int) -> bool {
    &&& hits.len() <= (if days >= 0 {
        days
    } else {
        -days
    })
    &&& forall|i: int|
        0 <= i < hits.len() ==> f.ensures((#[trigger] hits[i],), true) && valid_ymd(
            hits[i]@.0,
            hits[i]@.1,
            hits[i]@.2,
        ) && (if days >= 0 {
            date_days(from@) <= date_days(hits[i]@) <= max_days()
        } else {
            min_days() <= date_days(hits[i]@) <= date_days(from@)
        })
    &&& if days >= 0 {
        all_found_or_rejected(f, hits, date_days(from@), max_days())
    } else {
        all_found_or_rejected(f, hits, min_days(), date_days(from@))
    }
}

/// From `from` to the end of the calendar, in the direction of `days`, `f`
/// accepts at most `|days|` dates: too few to count `days` of them and reach
/// one more.
pub open spec fn runs_out<F: Fn(Date) -> bool>(f: F, from: Date, days: int) -> bool {
    exists|hits: Seq<Date>| #[trigger] hits_to_end(f, hits, from, days)
}

/// `b` is the first date from `from` on in direction `step` that `f`
/// accepted: every date before it in that direction was rejected.
pub open spec fn rounded_to<F: Fn(Date) -> bool>(f: F, from: Date, b: Date, step: int) -> bool {
    &&& f.ensures((b,), true)
    &&& valid_ymd(b@.0, b@.1, b@.2)
    &&& if step == 1 {
        date_days(from@) <= date_days(b@) && all_rejected(f, date_days(from@), date_days(b@) - 1)
    } else {
        date_days(b@) <= date_days(from@) && all_rejected(f, date_days(b@) + 1, date_days(from@))
    }
}

/// `hits` are the `|days|` dates accepted by `f` counted from `from`
/// (included) up to `upto`, forward, or backward where `days` is negative.
pub open spec fn hits_for<F: Fn(Date) -> bool>(f: F, hits: Seq<Date>, from: Date, upto: Date, days: int) -> bool {
    &&& hits.len() == (if days >= 0 {
        days
    } else {
        -days
    })
    &&& hits_in_order(
        f,
        hits,
        from,
        upto,
        if days >= 0 {
            1int
        } else {
            -1int
        },
    )
}

/// `upto` comes after `|days|` dates accepted by `f`, counted from `from`
/// (included) forward, or backward where `days` is negative; every other
/// date between was rejected.
pub open spec fn counted_business_days<F: Fn(Date) -> bool>(f: F, from: Date, upto: Date, days: int) -> bool {
    exists|hits: Seq<Date>| #[trigger] hits_for(f, hits, from, upto, days)
}

impl Date {
    /// Counts `days` dates that satisfy `is_business_day` from this one on
    /// (backward where `days` is negative), this date included, and returns
    /// the next such date after them; none when the calendar ends first.
    fn add_business_days_no_rounding<F>(self, days: i64, is_business_day: &F) -> (r: Option<Date>) where
        F: Fn(Date) -> bool,
        requires
            forall|d: Date| is_business_day.requires((d,)),
        ensures
            r is Some ==> is_business_day.ensures((r->0,), true) && counted_business_days(
                *is_business_day,
                self,
                r->0,
                days as int,
            ),
            r is None ==> runs_out(*is_business_day, self, days as int),
    {
        proof {
            use_type_invariant(&self);
        }
        let step: i32 = if days >= 0 {
            1
        } else {
            -1
        };
        let mut left: u64 = if days >= 0 {
            days as u64
        } else {
            (-(days + 1)) as u64 + 1
        };
        let ghost total: int = if days >= 0 {
            days as int
        } else {
            -days
        };
        let ghost mut hits: Seq<Date> = Seq::empty();
        let mut current = self;
        loop
            invariant
                step == (if days >= 0 {
                    1int
                } else {
                    -1int
                }),
                total == (if days >= 0 {
                    days as int
                } else {
                    -days
                }),
                forall|d: Date| is_business_day.requires((d,)),
                min_days() <= date_days(current@) <= max_days(),
                valid_ymd(current@.0, current@.1, current@.2),
                hits.len() + left == total,
                step == 1 ==> date_days(self@) <= date_days(current@),
                step == -1 ==> date_days(current@) <= date_days(self@),
                hits_in_order(*is_business_day, hits, self, current, step as int),
            decreases if step == 1 {
                max_days() - date_days(current@)
            } else {
                date_days(current@) - min_days()
            },
        {
            let ok = is_business_day(current);
            if ok && left == 0 {
                proof {
                    assert(hits_for(*is_business_day, hits, self, current, days as int));
                }
                return Some(current);
            }
            let ghost old_hits = hits;
            proof {
                if ok {
                    hits = hits.push(current);
                }
                let (lo, hi) = if step == 1 {
                    (date_days(self@), date_days(current@))
                } else {
                    (date_days(current@), date_days(self@))
                };
                assert forall|x: Date|
                    valid_ymd(x@.0, x@.1, x@.2) && lo <= date_days(x@) <= hi implies hits.contains(x)
                        || #[trigger] is_business_day.ensures((x,), false) by {
                    if date_days(x@) == date_days(current@) {
                        Date::lemma_same_days(x, current);
                        if ok {
                            assert(hits[hits.len() - 1] == current);
                        }
                    } else if old_hits.contains(x) {
                        let k = choose|k: int| 0 <= k < old_hits.len() && old_hits[k] == x;
                        assert(hits[k] == x);
                    }
                }
            }
            if ok {
                left = left - 1;
            }
            let here = Days::of_date(current);
            if (step == 1 && here.0 == 3_652_364) || (step == -1 && here.0 == -60) {
                proof {
                    assert forall|i: int| 0 <= i < hits.len() implies is_business_day.ensures(
                        (#[trigger] hits[i],),
                        true,
                    ) && valid_ymd(hits[i]@.0, hits[i]@.1, hits[i]@.2) && (if days >= 0 {
                        date_days(self@) <= date_days(hits[i]@) <= max_days()
                    } else {
                        min_days() <= date_days(hits[i]@) <= date_days(self@)
                    }) by {
                        if i < old_hits.len() {
                            assert(hits[i] == old_hits[i]);
                        }
                    }
                    assert(hits_to_end(*is_business_day, hits, self, days as int));
                }
                return None;
            }
            current = current + step;
            proof {
                use_type_invariant(&current);
            }
        }
    }

    /// Rounds backward to a date that satisfies `is_business_day`, then
    /// counts `days` such dates on (backward where negative) and returns the
    /// next one; none when the calendar ends first.
    pub fn add_business_days_rounding_backward<F>(self, days: i64, is_business_day: F) -> (r: Option<Date>) where
        F: Fn(Date) -> bool,
        requires
            forall|d: Date| is_business_day.requires((d,)),
        ensures
            r is Some ==> is_business_day.ensures((r->0,), true) && exists|b: Date|
                #[trigger] rounded_to(is_business_day, self, b, -1) && counted_business_days(
                    is_business_day,
                    b,
                    r->0,
                    days as int,
                ),
            r is None ==> all_rejected(is_business_day, min_days(), date_days(self@)) || exists|b: Date|
                #[trigger] rounded_to(is_business_day, self, b, -1) && runs_out(
                    is_business_day,
                    b,
                    days as int,
                ),
    {
        match self.round_step_to_business_day(&is_business_day, -1) {
            Some(d) => {
                let r = d.add_business_days_no_rounding(days, &is_business_day);
                proof {
                    assert(rounded_to(is_business_day, self, d, -1));
                }
                r
            },
            None => None,
        }
    }

    /// Rounds forward to a date that satisfies `is_business_day`, then
    /// counts `days` such dates on (backward where negative) and returns the
    /// next one; none when the calendar ends first.
    pub fn add_business_days_rounding_forward<F>(self, days: i64, is_business_day: F) -> (r: Option<Date>) where
        F: Fn(Date) -> bool,
        requires
            forall|d: Date| is_business_day.requires((d,)),
        ensures
            r is Some ==> is_business_day.ensures((r->0,), true) && exists|b: Date|
                #[trigger] rounded_to(is_business_day, self, b, 1) && counted_business_days(
                    is_business_day,
                    b,
                    r->0,
                    days as int,
                ),
            r is None ==> all_rejected(is_business_day, date_days(self@), max_days()) || exists|b: Date|
                #[trigger] rounded_to(is_business_day, self, b, 1) && runs_out(
                    is_business_day,
                    b,
                    days as int,
                ),
    {
        match self.round_step_to_business_day(&is_business_day, 1) {
            Some(d) => {
                let r = d.add_business_days_no_rounding(days, &is_business_day);
                proof {
                    assert(rounded_to(is_business_day, self, d, 1));
                }
                r
            },
            None => None,
        }
    }
}

/// The day counts in `[a, b]` that fall on a weekday, in order.
pub open spec fn weekday_days(a: int, b: int) -> Seq<int>
    decreases b - a + 1,
{
    if a > b {
        Seq::empty()
    } else {
        (if 1 <= days_dow(a) <= 5 {
            seq![a]
        } else {
            Seq::empty()
        }) + weekday_days(a + 1, b)
    }
}

/// The dates from one date to another, both included, in order.
pub struct DatesBetween {
    current_day: Days,
    last_day: Days,
}

impl View for DatesBetween {
    type V = (int, int);

    /// The day counts of the next date and of the last one.
    closed spec fn view(&self) -> (int, int) {
        (self.current_day@, self.last_day@)
    }
}

impl DatesBetween {
    #[verifier::type_invariant]
    spec fn inv(self) -> bool {
        &&& min_days() <= self.current_day@ <= max_days() + 1
        &&& min_days() <= self.last_day@ <= max_days()
    }

    /// The next date, if any is left.
    pub fn next(&mut self) -> (r: Option<Date>)
        ensures
            old(self)@.0 <= old(self)@.1 ==> r is Some && date_days(r->0@) == old(self)@.0
                && final(self)@ == (old(self)@.0 + 1, old(self)@.1),
            old(self)@.0 > old(self)@.1 ==> r is None && final(self)@ == old(self)@,
    {
        proof {
            use_type_invariant(&*self);
        }
        if self.current_day.0 <= self.last_day.0 {
            let res = self.current_day.to_date();
            self.current_day = self.current_day + 1;
            match res {
                Ok(d) => Some(d),
                Err(_) => None,
            }
        } else {
            None
        }
    }

    /// All the dates left, in order.
    pub fn collect(self) -> (r: Vec<Date>)
        ensures
            r@.len() == if self@.0 <= self@.1 {
                self@.1 - self@.0 + 1
            } else {
                0
            },
            forall|i: int| 0 <= i < r@.len() ==> date_days((#[trigger] r@[i])@) == self@.0 + i,
    {
        let mut it = self;
        let mut r: Vec<Date> = Vec::new();
        proof {
            use_type_invariant(&it);
        }
        while it.current_day.0 <= it.last_day.0
            invariant
                it@.1 == self@.1,
                it@.0 == self@.0 + r@.len(),
                self@.0 <= self@.1 ==> it@.0 <= self@.1 + 1,
                self@.0 > self@.1 ==> r@.len() == 0,
                min_days() <= it@.0 <= max_days() + 1,
                min_days() <= it@.1 <= max_days(),
                forall|i: int| 0 <= i < r@.len() ==> date_days((#[trigger] r@[i])@) == self@.0 + i,
            decreases it@.1 + 1 - it@.0,
        {
            match it.next() {
                Some(d) => r.push(d),
                None => {},
            }
            proof {
                use_type_invariant(&it);
            }
        }
        r
    }

    /// The number of dates left.
    pub fn count(self) -> (r: usize)
        ensures
            r == if self@.0 <= self@.1 {
                self@.1 - self@.0 + 1
            } else {
                0
            },
    {
        self.collect().len()
    }
}

/// The weekdays from one date to another, both included, in order.
pub struct WeekdaysBetween {
    current_day: Days,
    last_day: Days,
}

impl View for WeekdaysBetween {
    type V = (int, int);

    closed spec fn view(&self) -> (int, int) {
        (self.current_day@, self.last_day@)
    }
}

impl WeekdaysBetween {
    #[verifier::type_invariant]
    spec fn inv(self) -> bool {
        &&& min_days() <= self.current_day@ <= max_days() + 1
        &&& min_days() <= self.last_day@ <= max_days()
    }

    /// The next weekday, if any is left.
    pub fn next(&mut self) -> (r: Option<Date>)
        ensures
            final(self)@.1 == old(self)@.1,
            match r {
                Some(d) => weekday_days(old(self)@.0, old(self)@.1) == seq![date_days(d@)]
                    + weekday_days(final(self)@.0, final(self)@.1) && final(self)@.0 > old(self)@.0
                    && final(self)@.0 <= old(self)@.1 + 1,
                None => weekday_days(old(self)@.0, old(self)@.1).len() == 0 && final(self)@
                    == old(self)@,
            },
    {
        proof {
            use_type_invariant(&*self);
        }
        let last = self.last_day;
        let mut cur = self.current_day;
        while cur.0 <= last.0
            invariant
                last@ == old(self)@.1,
                *self == *old(self),
                old(self)@.0 <= cur@,
                old(self)@.0 <= last@ + 1 ==> cur@ <= last@ + 1,
                weekday_days(old(self)@.0, last@) == weekday_days(cur@, last@),
                min_days() <= cur@ <= max_days() + 1,
                min_days() <= last@ <= max_days(),
            decreases last@ + 1 - cur@,
        {
            if cur.is_weekday() {
                let res = cur.to_date();
                self.current_day = cur + 1;
                return match res {
                    Ok(d) => Some(d),
                    Err(_) => None,
                };
            }
            cur = cur + 1;
        }
        None
    }

    /// All the weekdays left, in order.
    pub fn collect(self) -> (r: Vec<Date>)
        ensures
            r@.len() == weekday_days(self@.0, self@.1).len(),
            forall|i: int|
                0 <= i < r@.len() ==> date_days((#[trigger] r@[i])@) == weekday_days(
                    self@.0,
                    self@.1,
                )[i],
    {
        let mut it = self;
        let mut r: Vec<Date> = Vec::new();
        loop
            invariant
                it@.1 == self@.1,
                it@.0 >= self@.0,
                weekday_days(self@.0, self@.1) == r@.map_values(|d: Date| date_days(d@))
                    + weekday_days(it@.0, it@.1),
            ensures
                weekday_days(self@.0, self@.1) == r@.map_values(|d: Date| date_days(d@)),
            decreases it@.1 + 1 - it@.0,
        {
            proof {
                use_type_invariant(&it);
            }
            match it.next() {
                Some(d) => {
                    proof {
                        assert(r@.push(d).map_values(|d: Date| date_days(d@)) =~= r@.map_values(
                            |d: Date| date_days(d@),
                        ).push(date_days(d@)));
                        assert(weekday_days(self@.0, self@.1) =~= r@.push(d).map_values(
                            |d: Date| date_days(d@),
                        ) + weekday_days(it@.0, it@.1));
                    }
                    r.push(d);
                },
                None => {
                    proof {
                        assert(weekday_days(self@.0, self@.1) =~= r@.map_values(
                            |d: Date| date_days(d@),
                        ));
                    }
                    break;
                },
            }
        }
        proof {
            assert forall|i: int| 0 <= i < r@.len() implies date_days((#[trigger] r@[i])@)
                == weekday_days(self@.0, self@.1)[i] by {
                assert(r@.map_values(|d: Date| date_days(d@))[i] == date_days(r@[i]@));
            }
        }
        r
    }

    /// The number of weekdays left.
    pub fn count(self) -> (r: usize)
        ensures
            r == weekday_days(self@.0, self@.1).len(),
    {
        self.collect().len()
    }
}

impl Date {
    /// Lists all the dates between two dates (inclusive).
    pub fn dates_between(lo: Date, up: Date) -> (r: DatesBetween)
        ensures
            r@ == (date_days(lo@), date_days(up@)),
    {
        DatesBetween { current_day: Days::of_date(lo), last_day: Days::of_date(up) }
    }

    /// Lists all the dates from this date until `up` (inclusive).
    pub fn dates_until(self, up: Date) -> (r: DatesBetween)
        ensures
            r@ == (date_days(self@), date_days(up@)),
    {
        Self::dates_between(self, up)
    }

    /// Lists all the weekdays between two dates (inclusive).
    pub fn weekdays_between(lo: Date, up: Date) -> (r: WeekdaysBetween)
        ensures
            r@ == (date_days(lo@), date_days(up@)),
    {
        WeekdaysBetween { current_day: Days::of_date(lo), last_day: Days::of_date(up) }
    }

    /// Lists all the weekdays from this date until `up` (inclusive).
    pub fn weekdays_until(self, up: Date) -> (r: WeekdaysBetween)
        ensures
            r@ == (date_days(self@), date_days(up@)),
    {
        Self::weekdays_between(self, up)
    }
}

/// The dates from one date to another, both included, that satisfy a
/// predicate, in order.
pub struct BusinessDaysBetween<F: Fn(Date) -> bool> {
    current_day: Days,
    last_day: Days,
    is_business_day: F,
}

impl<F: Fn(Date) -> bool> View for BusinessDaysBetween<F> {
    type V = (int, int);

    closed spec fn view(&self) -> (int, int) {
        (self.current_day@, self.last_day@)
    }
}

/// Every date of the window `[a, b]` (by day count) is in `found` or was
/// rejected by `f`.
pub open spec fn all_found_or_rejected<F: Fn(Date) -> bool>(f: F, found: Seq<Date>, a: int, b: int) -> bool {
    forall|x: Date|
        valid_ymd(x@.0, x@.1, x@.2) && a <= date_days(x@) <= b ==> found.contains(x)
            || #[trigger] f.ensures((x,), false)
}

/// `v` is, in order, every date of the window `[a, b]` (by day count) that
/// `f` accepted; the others were rejected.
pub open spec fn business_window<F: Fn(Date) -> bool>(f: F, v: Seq<Date>, a: int, b: int) -> bool {
    &&& forall|i: int|
        0 <= i < v.len() ==> f.ensures((#[trigger] v[i],), true) && a <= date_days(v[i]@) <= b
    &&& forall|i: int, j: int| 0 <= i < j < v.len() ==> date_days(v[i]@) < date_days(v[j]@)
    &&& all_found_or_rejected(f, v, a, b)
}

impl<F: Fn(Date) -> bool> BusinessDaysBetween<F> {
    #[verifier::type_invariant]
    spec fn inv(self) -> bool {
        &&& min_days() <= self.current_day@ <= max_days() + 1
        &&& min_days() <= self.last_day@ <= max_days()
    }

    /// The predicate that picks the dates.
    pub closed spec fn predicate(&self) -> F {
        self.is_business_day
    }

    /// The next date that satisfies the predicate, if any is left.
    pub fn next(&mut self) -> (r: Option<Date>)
        requires
            forall|d: Date| old(self).predicate().requires((d,)),
        ensures
            final(self)@.1 == old(self)@.1,
            final(self).predicate() == old(self).predicate(),
            match r {
                Some(d) => old(self).predicate().ensures((d,), true) && old(self)@.0 <= date_days(d@)
                    <= old(self)@.1 && final(self)@.0 == date_days(d@) + 1 && all_rejected(
                    old(self).predicate(),
                    old(self)@.0,
                    date_days(d@) - 1,
                ) && valid_ymd(d@.0, d@.1, d@.2),
                None => all_rejected(old(self).predicate(), old(self)@.0, old(self)@.1)
                    && final(self)@ == old(self)@,
            },
    {
        proof {
            use_type_invariant(&*self);
        }
        let last = self.last_day;
        let mut cur = self.current_day;
        while cur.0 <= last.0
            invariant
                last@ == old(self)@.1,
                *self == *old(self),
                forall|d: Date| old(self).predicate().requires((d,)),
                old(self)@.0 <= cur@,
                old(self)@.0 <= last@ + 1 ==> cur@ <= last@ + 1,
                all_rejected(old(self).predicate(), old(self)@.0, cur@ - 1),
                min_days() <= cur@ <= max_days() + 1,
                min_days() <= last@ <= max_days(),
            decreases last@ + 1 - cur@,
        {
            let date = match cur.to_date() {
                Ok(d) => d,
                Err(_) => {
                    return None;
                },
            };
            proof {
                use_type_invariant(&date);
            }
            if (self.is_business_day)(date) {
                self.current_day = cur + 1;
                return Some(date);
            }
            proof {
                assert forall|x: Date|
                    valid_ymd(x@.0, x@.1, x@.2) && old(self)@.0 <= date_days(x@) <= cur@ implies #[trigger] old(self).predicate().ensures((x,), false) by {
                    if date_days(x@) == cur@ {
                        Date::lemma_same_days(x, date);
                    }
                }
            }
            cur = cur + 1;
        }
        None
    }

    /// All the dates left that satisfy the predicate, in order.
    pub fn collect(self) -> (r: Vec<Date>)
        requires
            forall|d: Date| self.predicate().requires((d,)),
        ensures
            business_window(self.predicate(), r@, self@.0, self@.1),
    {
        let mut it = self;
        let mut r: Vec<Date> = Vec::new();
        loop
            invariant
                it@.1 == self@.1,
                it.predicate() == self.predicate(),
                forall|d: Date| self.predicate().requires((d,)),
                self@.0 <= it@.0,
                forall|i: int|
                    0 <= i < r@.len() ==> self.predicate().ensures((#[trigger] r@[i],), true)
                        && self@.0 <= date_days(r@[i]@) < it@.0 && date_days(r@[i]@) <= self@.1,
                forall|i: int, j: int|
                    0 <= i < j < r@.len() ==> date_days(r@[i]@) < date_days(r@[j]@),
                all_found_or_rejected(self.predicate(), r@, self@.0, it@.0 - 1),
            ensures
                all_found_or_rejected(self.predicate(), r@, self@.0, self@.1),
                forall|i: int|
                    0 <= i < r@.len() ==> self.predicate().ensures((#[trigger] r@[i],), true)
                        && self@.0 <= date_days(r@[i]@) <= self@.1,
                forall|i: int, j: int|
                    0 <= i < j < r@.len() ==> date_days(r@[i]@) < date_days(r@[j]@),
            decreases it@.1 + 1 - it@.0,
        {
            proof {
                use_type_invariant(&it);
            }
            let ghost before = r@;
            let ghost start = it@.0;
            match it.next() {
                Some(d) => {
                    r.push(d);
                    proof {
                        assert forall|x: Date|
                            valid_ymd(x@.0, x@.1, x@.2) && self@.0 <= date_days(x@) <= it@.0
                                - 1 implies r@.contains(x) || #[trigger] self.predicate().ensures(
                            (x,),
                            false,
                        ) by {
                            if date_days(x@) == date_days(d@) {
                                Date::lemma_same_days(x, d);
                                assert(r@[r@.len() - 1] == d);
                            } else if date_days(x@) < start {
                                if before.contains(x) {
                                    let k = choose|k: int| 0 <= k < before.len() && before[k] == x;
                                    assert(r@[k] == x);
                                }
                            }
                        }
                    }
                },
                None => {
                    proof {
                        assert forall|x: Date|
                            valid_ymd(x@.0, x@.1, x@.2) && self@.0 <= date_days(x@)
                                <= self@.1 implies r@.contains(x) || #[trigger] self.predicate().ensures(
                            (x,),
                            false,
                        ) by {
                            if date_days(x@) >= start {
                            }
                        }
                    }
                    break;
                },
            }
        }
        r
    }

    /// The number of dates left that satisfy the predicate.
    pub fn count(self) -> (r: usize)
        requires
            forall|d: Date| self.predicate().requires((d,)),
        ensures
            exists|v: Seq<Date>|
                v.len() == r && #[trigger] business_window(self.predicate(), v, self@.0, self@.1),
    {
        let v = self.collect();
        proof {
            assert(business_window(self.predicate(), v@, self@.0, self@.1));
        }
        v.len()
    }
}

impl Date {
    /// Lists all the dates between two dates (inclusive) that satisfy
    /// `is_business_day`.
    pub fn business_days_between<F>(lo: Date, up: Date, is_business_day: F) -> (r: BusinessDaysBetween<F>) where
        F: Fn(Date) -> bool,
        ensures
            r@ == (date_days(lo@), date_days(up@)),
            r.predicate() == is_business_day,
    {
        BusinessDaysBetween { current_day: Days::of_date(lo), last_day: Days::of_date(up), is_business_day }
    }

    /// Lists all the dates from this date until `up` (inclusive) that satisfy
    /// `is_business_day`.
    pub fn business_days_until<F>(self, up: Date, is_business_day: F) -> (r: BusinessDaysBetween<F>) where
        F: Fn(Date) -> bool,
        ensures
            r@ == (date_days(self@), date_days(up@)),
            r.predicate() == is_business_day,
    {
        Self::business_days_between(self, up, is_business_day)
    }
}

/// The packed form of a date: the year above the low 16 bits, then the
/// month, then the day, a byte each.
pub open spec fn packed(d: (int, int, int)) -> int {
    d.0 * 65536 + d.1 * 256 + d.2
}

impl vstd::std_specs::convert::FromSpecImpl<Date> for u32 {
    open spec fn obeys_from_spec() -> bool {
        true
    }

    open spec fn from_spec(v: Date) -> u32 {
        packed(v@) as u32
    }
}

impl From<Date> for u32 {
    /// The packed form of the date.
    fn from(value: Date) -> (r: u32) {
        value.year() * 65536 + value.month_int() as u32 * 256 + value.day() as u32
    }
}

impl Date {
    /// The date whose packed form is `value`, where that is a valid date.
    pub fn of_packed(value: u32) -> (r: Result<Date, DateError>)
        ensures
            match r {
                Ok(d) => packed(d@) == value,
                Err(_) => !valid_ymd(
                    value as int / 65536,
                    (value as int / 256) % 256,
                    value as int % 256,
                ),
            },
    {
        let year = value / 65536;
        let month = (value / 256) % 256;
        let day = value % 256;
        match Month::of_u8(month as u8) {
            Some(m) => {
                proof {
                    vstd::arithmetic::div_mod::lemma_fundamental_div_mod(value as int, 256);
                    vstd::arithmetic::div_mod::lemma_fundamental_div_mod(value as int / 256, 256);
                    vstd::arithmetic::div_mod::lemma_div_denominator(value as int, 256, 256);
                }
                match Date::create(year, m, day as u8) {
                    Ok(d) => Ok(d),
                    Err(e) => Err(e),
                }
            },
            None => Err(DateError::ParseMonthError),
        }
    }
}

proof fn lemma_year_bracket(n: int, y: int) -> (yy: int)
    requires
        year_start(y) <= n,
    ensures
        year_start(yy) <= n < year_start(yy + 1),
    decreases n - year_start(y),
{
    lemma_year_len(y);
    if year_start(y + 1) <= n {
        lemma_year_bracket(n, y + 1)
    } else {
        y
    }
}

/// Every day count between those of 0000-01-01 and 9999-12-31 is the day
/// count of a date.
pub proof fn lemma_date_exists(n: int) -> (d: Date)
    requires
        min_days() <= n <= max_days(),
    ensures
        valid_ymd(d@.0, d@.1, d@.2),
        date_days(d@) == n,
{
    assert(year_start(-1) == -366);
    let yy = lemma_year_bracket(n, -1);
    let ddd = n - year_start(yy);
    let mi = (100 * ddd + 52) / 3060;
    lemma_decode_month(yy, ddd, mi);
    let y = yy + (mi + 2) / 12;
    let m = (mi + 2) % 12 + 1;
    let dd = ddd - shifted_month_start(mi) + 1;
    lemma_valid_iff_in_range(y, m, dd);
    Date { year: y as u32, month: m as u8, day: dd as u8 }
}

/// A predicate that accepts exactly the weekdays.
pub open spec fn weekday_only<F: Fn(Date) -> bool>(f: F) -> bool {
    forall|d: Date, r: bool|
        #[trigger] f.ensures((d,), r) ==> r == (1 <= days_dow(date_days(d@)) <= 5)
}

/// With a predicate that accepts exactly the weekdays, the dates that a
/// business-day window yields are as many as the weekdays in it.
pub proof fn lemma_weekday_business_count<F: Fn(Date) -> bool>(f: F, v: Seq<Date>, a: int, b: int)
    requires
        weekday_only(f),
        business_window(f, v, a, b),
        min_days() <= a,
        b <= max_days(),
    ensures
        v.len() == weekday_days(a, b).len(),
    decreases b - a + 1,
{
    if a > b {
        if v.len() > 0 {
            assert(f.ensures((v[0],), true));
        }
    } else {
        let x = lemma_date_exists(a);
        if 1 <= days_dow(a) <= 5 {
            if !v.contains(x) {
                assert(f.ensures((x,), false));
            }
            let k = choose|k: int| 0 <= k < v.len() && v[k] == x;
            if k > 0 {
                assert(date_days(v[0]@) < date_days(v[k]@));
            }
            let rest = v.drop_first();
            assert(business_window(f, rest, a + 1, b)) by {
                assert forall|i: int| 0 <= i < rest.len() implies f.ensures((#[trigger] rest[i],), true)
                    && a + 1 <= date_days(rest[i]@) <= b by {
                    assert(rest[i] == v[i + 1]);
                    assert(date_days(v[0]@) < date_days(v[i + 1]@));
                }
                assert forall|i: int, j: int| 0 <= i < j < rest.len() implies date_days(rest[i]@)
                    < date_days(rest[j]@) by {
                    assert(rest[i] == v[i + 1]);
                    assert(rest[j] == v[j + 1]);
                }
                assert forall|y: Date|
                    valid_ymd(y@.0, y@.1, y@.2) && a + 1 <= date_days(y@) <= b implies rest.contains(y)
                        || #[trigger] f.ensures((y,), false) by {
                    if v.contains(y) {
                        let j = choose|j: int| 0 <= j < v.len() && v[j] == y;
                        assert(j != 0);
                        assert(rest[j - 1] == y);
                    }
                }
            }
            lemma_weekday_business_count(f, rest, a + 1, b);
        } else {
            assert(business_window(f, v, a + 1, b)) by {
                assert forall|i: int| 0 <= i < v.len() implies f.ensures((#[trigger] v[i],), true)
                    && a + 1 <= date_days(v[i]@) <= b by {
                    if date_days(v[i]@) == a {
                        assert(f.ensures((v[i],), true));
                    }
                }
            }
            lemma_weekday_business_count(f, v, a + 1, b);
        }
    }
}

/// `YYYY-MM-DD` with slashes.
pub open spec fn iso_slash_text(d: (int, int, int)) -> Seq<char> {
    pad(d.0 as nat, 4) + seq!['/'] + pad(d.1 as nat, 2) + seq!['/'] + pad(d.2 as nat, 2)
}

proof fn lemma_uint_pad(n: nat, w: nat, max: nat)
    requires
        n <= max,
    ensures
        uint_at_most(pad(n, w), max) == Some(n),
{
    lemma_pad(n, w);
    let p = pad(n, w);
    assert(is_digit(p[0]));
}

/// Every text form of a date reads back as that date.
pub proof fn lemma_date_text_round_trip(y: int, m: int, d: int)
    requires
        valid_ymd(y, m, d),
    ensures
        date_text_value(iso_extended_text((y, m, d))) == Ok::<(int, int, int), DateError>((y, m, d)),
        date_text_value(iso_basic_text((y, m, d))) == Ok::<(int, int, int), DateError>((y, m, d)),
        date_text_value(iso_slash_text((y, m, d))) == Ok::<(int, int, int), DateError>((y, m, d)),
        date_text_value(american_text((y, m, d))) == Ok::<(int, int, int), DateError>((y, m, d)),
{
    lemma_pow10_small(4);
    lemma_pow10_small(2);
    assert(pow10(4) == 10000) by {
        assert(pow10(0) == 1);
        assert(pow10(1) == 10);
        assert(pow10(2) == 100);
        assert(pow10(3) == 1000);
    }
    lemma_pad(y as nat, 4);
    lemma_pad(m as nat, 2);
    lemma_pad(d as nat, 2);
    lemma_uint_pad(y as nat, 4, u32::MAX as nat);
    lemma_uint_pad(m as nat, 2, u8::MAX as nat);
    lemma_uint_pad(d as nat, 2, u8::MAX as nat);
    let py = pad(y as nat, 4);
    let pm = pad(m as nat, 2);
    let pd = pad(d as nat, 2);
    let e = iso_extended_text((y, m, d));
    assert(e.subrange(0, 4) =~= py);
    assert(e.subrange(5, 7) =~= pm);
    assert(e.subrange(8, 10) =~= pd);
    assert(e[4] == '-' && e[7] == '-');
    let b = iso_basic_text((y, m, d));
    assert(b.subrange(0, 4) =~= py);
    assert(b.subrange(4, 6) =~= pm);
    assert(b.subrange(6, 8) =~= pd);
    let sl = iso_slash_text((y, m, d));
    assert(sl.subrange(0, 4) =~= py);
    assert(sl.subrange(5, 7) =~= pm);
    assert(sl.subrange(8, 10) =~= pd);
    assert(sl[4] == '/' && sl[7] == '/');
    let a = american_text((y, m, d));
    assert(a.subrange(0, 2) =~= pm);
    assert(a.subrange(3, 5) =~= pd);
    assert(a.subrange(6, 10) =~= py);
    assert(a[2] == '/' && a[5] == '/');
    assert(a[4] == pd[1] && a[7] == py[1]);
    assert(is_digit(pd[1]) && is_digit(py[1]));
}

} // verus!
