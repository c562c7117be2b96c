//! Times of day, in nanoseconds since midnight, clamped to the day.

use crate::span::{div_mod_floor, Span, NS_PER_DAY, NS_PER_SEC};
use crate::text::{
    all_digits, all_numeric, chars_of, digits_value, find, find_char, frac_text, is_digit, is_numeric,
    lemma_digits_value_bound, numeric_char, uint_text,
    pad, parse_uint, pow10, push_char, push_frac, push_padded, push_str, uint_at_most,
};
use vstd::prelude::*;

verus! {

broadcast use crate::span::lemma_span_range;

/// Nanoseconds in one day, as a spec constant.
pub open spec fn day_ns() -> int {
    86_400_000_000_000
}

/// `x` brought into the range of a time of day, from midnight to the next.
pub open spec fn clamp_ofday(x: int) -> int {
    if x < 0 {
        0
    } else if x > day_ns() {
        day_ns()
    } else {
        x
    }
}

/// What building a time of day from these fields gives.
pub open spec fn ofday_create(hour: int, minute: int, second: int, nanosecond: int) -> Result<
    int,
    OfDayError,
> {
    if hour >= 24 && !(hour == 24 && minute == 0 && second == 0 && nanosecond == 0) {
        Err(OfDayError::InvalidHour(hour as u8))
    } else if minute >= 60 {
        Err(OfDayError::InvalidMinute(minute as u8))
    } else if second >= 60 {
        Err(OfDayError::InvalidSecond(second as u8))
    } else if nanosecond >= 1_000_000_000 {
        Err(OfDayError::InvalidNanosecond(nanosecond as u32))
    } else {
        Ok((hour * 3600 + minute * 60 + second) * 1_000_000_000 + nanosecond)
    }
}

/// A time of day as `HH:MM:SS`, with `.` and the fraction of a second
/// without trailing zeros where it is not zero.
pub open spec fn ofday_text(o: int) -> Seq<char> {
    pad((o / 3_600_000_000_000) as nat, 2) + seq![':'] + pad(((o / 60_000_000_000) % 60) as nat, 2)
        + seq![':'] + pad(((o / 1_000_000_000) % 60) as nat, 2) + frac_text(
        (o % 1_000_000_000) as nat,
        9,
    )
}

/// A time of day, in nanoseconds since midnight; the end of the day,
/// 24:00:00, is the largest value.
#[derive(Clone, Copy, PartialEq, Eq, Structural, PartialOrd, Ord, Hash, Debug)]
pub struct OfDay(i64);

/// Why a time of day could not be built.
#[derive(Clone, Debug, PartialEq, Eq, Structural)]
pub enum OfDayError {
    InvalidHour(u8),
    InvalidMinute(u8),
    InvalidSecond(u8),
    InvalidNanosecond(u32),
}

impl View for OfDay {
    type V = int;

    closed spec fn view(&self) -> int {
        self.0 as int
    }
}

impl OfDay {
    #[verifier::type_invariant]
    spec fn inv(self) -> bool {
        0 <= self.0 <= day_ns()
    }

    /// Midnight, at the start of the day.
    #[allow(non_snake_case)]
    pub fn START_OF_DAY() -> (r: OfDay)
        ensures
            r@ == 0,
    {
        OfDay(0)
    }

    /// Midnight, at the end of the day.
    #[allow(non_snake_case)]
    pub fn START_OF_NEXT_DAY() -> (r: OfDay)
        ensures
            r@ == day_ns(),
    {
        OfDay(NS_PER_DAY)
    }

    /// The time of day `i` nanoseconds after midnight, clamped to the day.
    pub fn of_ns_since_midnight(i: i64) -> (r: OfDay)
        ensures
            r@ == clamp_ofday(i as int),
    {
        if i < 0 {
            OfDay(0)
        } else if i > NS_PER_DAY {
            OfDay(NS_PER_DAY)
        } else {
            OfDay(i)
        }
    }

    /// The number of nanoseconds since midnight.
    pub fn to_ns_since_midnight(self) -> (r: i64)
        ensures
            r == self@,
            0 <= r <= day_ns(),
    {
        proof {
            use_type_invariant(&self);
        }
        self.0
    }

    pub fn to_span_since_midnight(self) -> (r: Span)
        ensures
            r@ == self@,
            0 <= r@ <= day_ns(),
    {
        Span::of_int_ns(self.to_ns_since_midnight())
    }

    pub fn of_span_since_midnight(span: Span) -> (r: OfDay)
        ensures
            r@ == clamp_ofday(span@),
    {
        Self::of_ns_since_midnight(span.to_int_ns())
    }

    /// The hour in the day, between 0 and 23 (or 24 for the end of the day).
    pub fn hour(self) -> (r: i64)
        ensures
            r == self@ / 3_600_000_000_000,
    {
        self.to_ns_since_midnight() / 1_000_000_000 / 60 / 60
    }

    /// The minute, between 0 and 59.
    pub fn minute(self) -> (r: i64)
        ensures
            r == (self@ / 60_000_000_000) % 60,
    {
        (self.to_ns_since_midnight() / 1_000_000_000 / 60) % 60
    }

    /// The second, between 0 and 59.
    pub fn second(self) -> (r: i64)
        ensures
            r == (self@ / 1_000_000_000) % 60,
    {
        (self.to_ns_since_midnight() / 1_000_000_000) % 60
    }

    /// The nanosecond, between 0 and 999_999_999.
    pub fn nanosecond(self) -> (r: i64)
        ensures
            r == self@ % 1_000_000_000,
    {
        self.to_ns_since_midnight() % 1_000_000_000
    }

    /// Creates a time of day from hour, minute, second and nanosecond;
    /// 24:00:00 is accepted as the end of the day.
    pub fn create(hour: u8, minute: u8, second: u8, nanosecond: u32) -> (r: Result<
        OfDay,
        OfDayError,
    >)
        ensures
            match r {
                Ok(o) => ofday_create(hour as int, minute as int, second as int, nanosecond as int)
                    == Ok::<int, OfDayError>(o@),
                Err(e) => ofday_create(hour as int, minute as int, second as int, nanosecond as int)
                    == Err::<int, OfDayError>(e),
            },
    {
        if hour >= 24 && !(hour == 24 && minute == 0 && second == 0 && nanosecond == 0) {
            Err(OfDayError::InvalidHour(hour))
        } else if minute >= 60 {
            Err(OfDayError::InvalidMinute(minute))
        } else if second >= 60 {
            Err(OfDayError::InvalidSecond(second))
        } else if nanosecond >= 1_000_000_000 {
            Err(OfDayError::InvalidNanosecond(nanosecond))
        } else {
            let second = hour as i64 * 3600 + minute as i64 * 60 + second as i64;
            Ok(OfDay(second * NS_PER_SEC + nanosecond as i64))
        }
    }

    /// Rounds the time down to a multiple of `rhs`.
    pub fn prev_multiple(self, rhs: Span) -> (r: OfDay)
        requires
            rhs@ > 0,
        ensures
            r@ == clamp_ofday(self@ - self@ % rhs@),
    {
        let s = self.to_span_since_midnight();
        proof {
            vstd::arithmetic::div_mod::lemma_mod_bound(self@, rhs@);
        }
        Self::of_span_since_midnight(s.prev_multiple(rhs))
    }

    /// Rounds the time up to a multiple of `rhs`, at most to the end of the
    /// day.
    pub fn next_multiple(self, rhs: Span) -> (r: OfDay)
        requires
            rhs@ > 0,
            self@ - 1 - (self@ - 1) % rhs@ + rhs@ <= i64::MAX,
        ensures
            r@ == clamp_ofday(self@ - 1 - (self@ - 1) % rhs@ + rhs@),
    {
        let s = self.to_span_since_midnight();
        proof {
            vstd::arithmetic::div_mod::lemma_mod_bound(self@ - 1, rhs@);
        }
        Self::of_span_since_midnight(s.next_multiple(rhs))
    }
}

impl vstd::std_specs::ops::AddSpecImpl<Span> for OfDay {
    open spec fn obeys_add_spec() -> bool {
        false
    }

    open spec fn add_req(self, rhs: Span) -> bool {
        i64::MIN <= self@ + rhs@ <= i64::MAX
    }

    open spec fn add_spec(self, rhs: Span) -> OfDay {
        self
    }
}

impl core::ops::Add<Span> for OfDay {
    type Output = OfDay;

    /// Adds a span, clamping to the day.
    fn add(self, other: Span) -> (r: OfDay)
        ensures
            r@ == clamp_ofday(self@ + other@),
    {
        Self::of_ns_since_midnight(self.to_ns_since_midnight() + other.to_int_ns())
    }
}

impl vstd::std_specs::ops::SubSpecImpl<Span> for OfDay {
    open spec fn obeys_sub_spec() -> bool {
        false
    }

    open spec fn sub_req(self, rhs: Span) -> bool {
        i64::MIN <= self@ - rhs@ <= i64::MAX
    }

    open spec fn sub_spec(self, rhs: Span) -> OfDay {
        self
    }
}

impl core::ops::Sub<Span> for OfDay {
    type Output = OfDay;

    /// Subtracts a span, clamping to the day.
    fn sub(self, other: Span) -> (r: OfDay)
        ensures
            r@ == clamp_ofday(self@ - other@),
    {
        Self::of_ns_since_midnight(self.to_ns_since_midnight() - other.to_int_ns())
    }
}

impl vstd::std_specs::ops::SubSpecImpl<OfDay> for OfDay {
    open spec fn obeys_sub_spec() -> bool {
        false
    }

    open spec fn sub_req(self, rhs: OfDay) -> bool {
        true
    }

    open spec fn sub_spec(self, rhs: OfDay) -> Span {
        vstd::pervasive::arbitrary()
    }
}

impl core::ops::Sub<OfDay> for OfDay {
    type Output = Span;

    /// The span from `other` to `self`.
    fn sub(self, other: OfDay) -> (r: Span)
        ensures
            r@ == self@ - other@,
    {
        Span::of_int_ns(self.to_ns_since_midnight() - other.to_ns_since_midnight())
    }
}

impl vstd::std_specs::ops::RemSpecImpl<Span> for OfDay {
    open spec fn obeys_rem_spec() -> bool {
        false
    }

    open spec fn rem_req(self, rhs: Span) -> bool {
        rhs@ > 0
    }

    open spec fn rem_spec(self, rhs: Span) -> Span {
        rhs
    }
}

impl core::ops::Rem<Span> for OfDay {
    type Output = Span;

    /// The time since the last multiple of `other`.
    fn rem(self, other: Span) -> (r: Span)
        ensures
            r@ == self@ % other@,
    {
        let a = self.to_ns_since_midnight();
        let b = other.to_int_ns();
        Span::of_int_ns(a % b)
    }
}

/// Why a time of day could not be read.
#[derive(Clone, Debug, PartialEq, Eq)]
pub enum ParseOfDayError {
    EmptyString,
    MoreThanTwoColumns,
    MoreThanOneDot,
    InvalidNanosecondString(String),
    ParseIntError,
    OfDayError(OfDayError),
}

/// The fraction digits `t` as nanoseconds: the digits are read as an
/// integer and scaled to nine places.
pub open spec fn nanos_of_digits(t: Seq<char>) -> nat {
    if t.len() < 9 {
        uint_text(t)->0 * pow10((9 - t.len()) as nat)
    } else {
        uint_text(t)->0
    }
}

/// The result of `ofday_create` with errors of reading.
pub open spec fn create_or_error(h: nat, m: nat, sec: nat, ns: nat) -> Result<int, ParseOfDayError> {
    match ofday_create(h as int, m as int, sec as int, ns as int) {
        Ok(v) => Ok(v),
        Err(e) => Err(ParseOfDayError::OfDayError(e)),
    }
}

/// What reading `s` as `H`, `H:M`, `H:M:S` or `H:M:S.F` gives: nanoseconds
/// since midnight, or the error.
pub open spec fn ofday_text_value(s: Seq<char>) -> Result<int, ParseOfDayError> {
    let n = s.len() as int;
    let c1 = find_char(s, ':', 0, n);
    let c2 = find_char(s, ':', c1 + 1, n);
    let c3 = find_char(s, ':', c2 + 1, n);
    let hour = uint_at_most(s.subrange(0, c1), 255);
    if c1 == n {
        if hour is None {
            Err(ParseOfDayError::ParseIntError)
        } else {
            create_or_error(hour->0, 0, 0, 0)
        }
    } else if c2 == n {
        let minute = uint_at_most(s.subrange(c1 + 1, n), 255);
        if hour is None || minute is None {
            Err(ParseOfDayError::ParseIntError)
        } else {
            create_or_error(hour->0, minute->0, 0, 0)
        }
    } else if c3 == n {
        let minute = uint_at_most(s.subrange(c1 + 1, c2), 255);
        let q1 = find_char(s, '.', c2 + 1, n);
        let q2 = find_char(s, '.', q1 + 1, n);
        if hour is None || minute is None {
            Err(ParseOfDayError::ParseIntError)
        } else if q1 == n {
            let second = uint_at_most(s.subrange(c2 + 1, n), 255);
            if second is None {
                Err(ParseOfDayError::ParseIntError)
            } else {
                create_or_error(hour->0, minute->0, second->0, 0)
            }
        } else if q2 == n {
            let second = uint_at_most(s.subrange(c2 + 1, q1), 255);
            let t = s.subrange(q1 + 1, n);
            if second is None {
                Err(ParseOfDayError::ParseIntError)
            } else if !all_numeric(t) {
                Err(ParseOfDayError::InvalidNanosecondString(vstd::pervasive::arbitrary()))
            } else if t.len() == 0 || uint_at_most(t, u32::MAX as nat) is None {
                Err(ParseOfDayError::ParseIntError)
            } else {
                create_or_error(hour->0, minute->0, second->0, nanos_of_digits(t))
            }
        } else {
            Err(ParseOfDayError::MoreThanOneDot)
        }
    } else {
        Err(ParseOfDayError::MoreThanTwoColumns)
    }
}

/// Whether `r` is the outcome `v` of reading a time of day; the text of an
/// invalid fraction is not compared.
pub open spec fn ofday_parse_matches(r: Result<OfDay, ParseOfDayError>, v: Result<int, ParseOfDayError>) -> bool {
    match r {
        Ok(o) => v == Ok::<int, ParseOfDayError>(o@),
        Err(ParseOfDayError::InvalidNanosecondString(_)) => v is Err && v->Err_0 is InvalidNanosecondString,
        Err(e) => v == Err::<int, ParseOfDayError>(e),
    }
}

fn create_for_parse(h: u64, m: u64, sec: u64, ns: u64) -> (r: Result<OfDay, ParseOfDayError>)
    requires
        h <= 255 && m <= 255 && sec <= 255 && ns <= u32::MAX,
    ensures
        ofday_parse_matches(r, create_or_error(h as nat, m as nat, sec as nat, ns as nat)),
{
    match OfDay::create(h as u8, m as u8, sec as u8, ns as u32) {
        Ok(o) => Ok(o),
        Err(e) => Err(ParseOfDayError::OfDayError(e)),
    }
}

impl OfDay {
    /// The time of day as `HH:MM:SS`, with the fraction of a second where it
    /// is not zero, e.g. "12:34:56.789".
    pub fn to_string(&self) -> (r: String)
        ensures
            r@ == ofday_text(self@),
    {
        let hr = self.hour();
        let min = self.minute();
        let sec = self.second();
        let ns = self.nanosecond();
        proof {
            reveal_strlit(":");
            use_type_invariant(self);
        }
        let mut s = String::new();
        push_padded(&mut s, hr as u64, 2);
        push_str(&mut s, ":");
        push_padded(&mut s, min as u64, 2);
        push_str(&mut s, ":");
        push_padded(&mut s, sec as u64, 2);
        push_frac(&mut s, ns as u64, 9);
        s
    }

    /// Reads a time of day written `H`, `H:M`, `H:M:S` or `H:M:S.F`.
    pub fn parse(text: &str) -> (r: Result<OfDay, ParseOfDayError>)
        ensures
            ofday_parse_matches(r, ofday_text_value(text@)),
    {
        Self::parse_chars(&chars_of(text))
    }

    /// Reads a time of day from characters, as `parse` does from text.
    pub fn parse_chars(s: &Vec<char>) -> (r: Result<OfDay, ParseOfDayError>)
        ensures
            ofday_parse_matches(r, ofday_text_value(s@)),
    {
        let n = s.len();
        let c1 = find(s, ':', 0, n);
        let hour = parse_uint(s, 0, c1, 255);
        if c1 == n {
            return match hour {
                None => Err(ParseOfDayError::ParseIntError),
                Some(h) => create_for_parse(h, 0, 0, 0),
            };
        }
        let c2 = find(s, ':', c1 + 1, n);
        if c2 == n {
            let minute = parse_uint(s, c1 + 1, n, 255);
            return match (hour, minute) {
                (Some(h), Some(m)) => create_for_parse(h, m, 0, 0),
                _ => Err(ParseOfDayError::ParseIntError),
            };
        }
        let c3 = find(s, ':', c2 + 1, n);
        if c3 != n {
            return Err(ParseOfDayError::MoreThanTwoColumns);
        }
        let minute = parse_uint(s, c1 + 1, c2, 255);
        let q1 = find(s, '.', c2 + 1, n);
        let q2 = if q1 < n {
            find(s, '.', q1 + 1, n)
        } else {
            n
        };
        let (h, m) = match (hour, minute) {
            (Some(h), Some(m)) => (h, m),
            _ => {
                return Err(ParseOfDayError::ParseIntError);
            },
        };
        if q1 == n {
            return match parse_uint(s, c2 + 1, n, 255) {
                Some(sec) => create_for_parse(h, m, sec, 0),
                None => Err(ParseOfDayError::ParseIntError),
            };
        }
        if q2 != n {
            return Err(ParseOfDayError::MoreThanOneDot);
        }
        let sec = match parse_uint(s, c2 + 1, q1, 255) {
            Some(sec) => sec,
            None => {
                return Err(ParseOfDayError::ParseIntError);
            },
        };
        proof {
            assert(ofday_text_value(s@) == (if !all_numeric(s@.subrange(q1 + 1, n as int)) {
                Err(ParseOfDayError::InvalidNanosecondString(vstd::pervasive::arbitrary()))
            } else {
                ofday_text_value(s@)
            }));
        }
        let mut i = q1 + 1;
        while i < n
            invariant
                q1 + 1 <= i <= n == s@.len(),
                ofday_text_value(s@) == (if !all_numeric(s@.subrange(q1 + 1, n as int)) {
                    Err(ParseOfDayError::InvalidNanosecondString(vstd::pervasive::arbitrary()))
                } else {
                    ofday_text_value(s@)
                }),
                all_numeric(s@.subrange(q1 + 1, i as int)),
            decreases n - i,
        {
            if !is_numeric(s[i]) {
                let mut frac = String::new();
                let mut j = q1 + 1;
                while j < n
                    invariant
                        q1 + 1 <= j <= n == s@.len(),
                    decreases n - j,
                {
                    let c = s[j];
                    push_char(&mut frac, c);
                    j = j + 1;
                }
                proof {
                    let t = s@.subrange(q1 + 1, n as int);
                    assert(t[i - q1 - 1] == s@[i as int]);
                    assert(!numeric_char(t[i - q1 - 1]));
                    assert(!all_numeric(t));
                }
                return Err(ParseOfDayError::InvalidNanosecondString(frac));
            }
            proof {
                assert forall|k: int| 0 <= k < i + 1 - (q1 + 1) implies numeric_char(
                    #[trigger] s@.subrange(q1 + 1, i + 1)[k],
                ) by {
                    if k < i - (q1 + 1) {
                        assert(s@.subrange(q1 + 1, i as int)[k] == s@.subrange(q1 + 1, i + 1)[k]);
                    }
                }
            }
            i = i + 1;
        }
        let t_len = n - (q1 + 1);
        let v = match parse_uint(s, q1 + 1, n, u32::MAX as u64) {
            Some(v) => v,
            None => {
                return Err(ParseOfDayError::ParseIntError);
            },
        };
        let ghost t = s@.subrange(q1 + 1, n as int);
        proof {
            assert(t.len() > 0);
            assert(uint_at_most(t, u32::MAX as nat) == Some(v as nat));
            let body = if t[0] == '+' {
                t.skip(1)
            } else {
                t
            };
            lemma_digits_value_bound(body);
            lemma_pow10_mono(body.len(), t.len());
        }
        let mut ns = v;
        let mut w = t_len;
        proof {
            assert(pow10(0) == 1);
            assert((w - t_len) as nat == 0);
            assert(pow10((w - t_len) as nat) == 1);
            assert(ns == v * pow10((w - t_len) as nat)) by (nonlinear_arith)
                requires
                    ns == v,
                    pow10((w - t_len) as nat) == 1,
            ;
        }
        while w < 9
            invariant
                t_len <= 9 ==> t_len <= w <= 9,
                t_len > 9 ==> w == t_len,
                v == uint_text(t)->0,
                t_len == t.len(),
                v < pow10(t.len()),
                v <= u32::MAX,
                w <= 9 ==> ns == v * pow10((w - t_len) as nat),
                w <= 9 ==> ns < pow10(w as nat),
                w > 9 ==> ns == v,
            decreases 9 - w,
        {
            proof {
                assert(pow10((w + 1 - t_len) as nat) == 10 * pow10((w - t_len) as nat));
                assert(pow10((w + 1) as nat) == 10 * pow10(w as nat));
                assert(pow10(w as nat) <= 100_000_000) by {
                    lemma_pow10_mono(w as nat, 8);
                    assert(pow10(0) == 1);
                    assert(pow10(1) == 10);
                    assert(pow10(2) == 100);
                    assert(pow10(3) == 1000);
                    assert(pow10(4) == 10000);
                    assert(pow10(5) == 100000);
                    assert(pow10(6) == 1000000);
                    assert(pow10(7) == 10000000);
                    assert(pow10(8) == 100000000);
                }
            }
            ns = ns * 10;
            proof {
                assert(ns == v * pow10((w + 1 - t_len) as nat)) by (nonlinear_arith)
                    requires
                        ns == (v * pow10((w - t_len) as nat)) * 10,
                        pow10((w + 1 - t_len) as nat) == 10 * pow10((w - t_len) as nat),
                ;
            }
            w = w + 1;
        }
        proof {
            if t_len <= 9 {
                assert(pow10(0) == 1);
                assert(pow10(1) == 10);
                assert(pow10(2) == 100);
                assert(pow10(3) == 1000);
                assert(pow10(4) == 10000);
                assert(pow10(5) == 100000);
                assert(pow10(6) == 1000000);
                assert(pow10(7) == 10000000);
                assert(pow10(8) == 100000000);
                assert(pow10(9) == 1000000000);
            }
        }
        create_for_parse(h, m, sec, ns)
    }
}

proof fn lemma_pow10_mono(a: nat, b: nat)
    requires
        a <= b,
    ensures
        pow10(a) <= pow10(b),
    decreases b,
{
    if a < b {
        lemma_pow10_mono(a, (b - 1) as nat);
    }
}

impl core::str::FromStr for OfDay {
    type Err = ParseOfDayError;

    fn from_str(s: &str) -> Result<OfDay, ParseOfDayError> {
        OfDay::parse(s)
    }
}

} // verus!
