//! Signed durations in nanoseconds, their arithmetic and their text form.

use crate::text::{chars_of, dec, digit_value, frac_text, push_frac, push_padded, push_str};
use vstd::prelude::*;

verus! {

/// Nanoseconds in one microsecond.
pub const NS_PER_US: i64 = 1_000;
/// Nanoseconds in one millisecond.
pub const NS_PER_MS: i64 = 1_000_000;
/// Nanoseconds in one second.
pub const NS_PER_SEC: i64 = 1_000_000_000;
/// Nanoseconds in one minute.
pub const NS_PER_MIN: i64 = 60_000_000_000;
/// Nanoseconds in one hour.
pub const NS_PER_HR: i64 = 3_600_000_000_000;
/// Nanoseconds in one day.
pub const NS_PER_DAY: i64 = 86_400_000_000_000;

pub open spec fn in_i64(x: int) -> bool {
    i64::MIN <= x <= i64::MAX
}

/// Floor division and the matching non-negative remainder of `x` by a
/// positive `d`.
pub fn div_mod_floor(x: i64, d: i64) -> (r: (i64, i64))
    requires
        d > 0,
    ensures
        r.0 == x / d,
        r.1 == x % d,
{
    if x >= 0 {
        let q = x / d;
        let m = x % d;
        proof {
            vstd::arithmetic::div_mod::lemma_fundamental_div_mod(x as int, d as int);
        }
        (q, m)
    } else {
        let p: i64 = -(x + 1);
        let qp = p / d;
        let mp = p % d;
        proof {
            vstd::arithmetic::div_mod::lemma_fundamental_div_mod(p as int, d as int);
            let q = -(qp as int) - 1;
            let m = d - 1 - (mp as int);
            assert(x == d * q + m) by (nonlinear_arith)
                requires
                    p == d * qp + mp,
                    x == -(p + 1),
                    q == -(qp as int) - 1,
                    m == d - 1 - (mp as int),
            ;
            vstd::arithmetic::div_mod::lemma_fundamental_div_mod_converse(x as int, d as int, q, m);
        }
        (-qp - 1, d - 1 - mp)
    }
}

/// A signed duration, counted in nanoseconds.
#[derive(Clone, Copy, PartialEq, Eq, Structural, PartialOrd, Ord, Hash, Debug)]
pub struct Span(i64);

impl View for Span {
    type V = int;

    closed spec fn view(&self) -> int {
        self.0 as int
    }
}

/// A span's nanosecond count fits an `i64`.
pub broadcast proof fn lemma_span_range(s: Span)
    ensures
        i64::MIN <= #[trigger] s@ <= i64::MAX,
{
}

impl Span {
    /// The span of zero.
    #[allow(non_snake_case)]
    pub fn ZERO() -> (r: Span)
        ensures
            r@ == 0,
    {
        Span(0)
    }

    /// The span of one nanosecond.
    #[allow(non_snake_case)]
    pub fn NS() -> (r: Span)
        ensures
            r@ == 1,
    {
        Span(1)
    }

    /// The span of one microsecond.
    #[allow(non_snake_case)]
    pub fn US() -> (r: Span)
        ensures
            r@ == NS_PER_US,
    {
        Span(NS_PER_US)
    }

    /// The span of one millisecond.
    #[allow(non_snake_case)]
    pub fn MS() -> (r: Span)
        ensures
            r@ == NS_PER_MS,
    {
        Span(NS_PER_MS)
    }

    /// The span of one second.
    #[allow(non_snake_case)]
    pub fn SEC() -> (r: Span)
        ensures
            r@ == NS_PER_SEC,
    {
        Span(NS_PER_SEC)
    }

    /// The span of one minute.
    #[allow(non_snake_case)]
    pub fn MIN() -> (r: Span)
        ensures
            r@ == NS_PER_MIN,
    {
        Span(NS_PER_MIN)
    }

    /// The span of one hour.
    #[allow(non_snake_case)]
    pub fn HR() -> (r: Span)
        ensures
            r@ == NS_PER_HR,
    {
        Span(NS_PER_HR)
    }

    /// The span of one day.
    #[allow(non_snake_case)]
    pub fn DAY() -> (r: Span)
        ensures
            r@ == NS_PER_DAY,
    {
        Span(NS_PER_DAY)
    }

    pub fn of_int_ns(i: i64) -> (r: Span)
        ensures
            r@ == i,
    {
        Span(i)
    }

    /// The span of `i` microseconds.
    pub fn of_int_us(i: i64) -> (r: Span)
        requires
            in_i64(i * NS_PER_US),
        ensures
            r@ == i * NS_PER_US,
    {
        Span(i * NS_PER_US)
    }

    /// The span of `i` milliseconds.
    pub fn of_int_ms(i: i64) -> (r: Span)
        requires
            in_i64(i * NS_PER_MS),
        ensures
            r@ == i * NS_PER_MS,
    {
        Span(i * NS_PER_MS)
    }

    /// The span of `i` seconds.
    pub fn of_int_sec(i: i64) -> (r: Span)
        requires
            in_i64(i * NS_PER_SEC),
        ensures
            r@ == i * NS_PER_SEC,
    {
        Span(i * NS_PER_SEC)
    }

    /// The span of `i` minutes.
    pub fn of_int_min(i: i64) -> (r: Span)
        requires
            in_i64(i * NS_PER_MIN),
        ensures
            r@ == i * NS_PER_MIN,
    {
        Span(i * NS_PER_MIN)
    }

    /// The span of `i` hours.
    pub fn of_int_hr(i: i64) -> (r: Span)
        requires
            in_i64(i * NS_PER_HR),
        ensures
            r@ == i * NS_PER_HR,
    {
        Span(i * NS_PER_HR)
    }

    /// The span of `i` days.
    pub fn of_int_day(i: i64) -> (r: Span)
        requires
            in_i64(i * NS_PER_DAY),
        ensures
            r@ == i * NS_PER_DAY,
    {
        Span(i * NS_PER_DAY)
    }

    pub fn to_int_ns(self) -> (r: i64)
        ensures
            r == self@,
    {
        self.0
    }
}

impl vstd::std_specs::ops::AddSpecImpl<Span> for Span {
    open spec fn obeys_add_spec() -> bool {
        false
    }

    open spec fn add_req(self, rhs: Span) -> bool {
        in_i64(self@ + rhs@)
    }

    open spec fn add_spec(self, rhs: Span) -> Span {
        self
    }
}

impl core::ops::Add<Span> for Span {
    type Output = Span;

    fn add(self, other: Span) -> (r: Span)
        ensures
            r@ == self@ + other@,
    {
        Span(self.0 + other.0)
    }
}

impl vstd::std_specs::ops::SubSpecImpl<Span> for Span {
    open spec fn obeys_sub_spec() -> bool {
        false
    }

    open spec fn sub_req(self, rhs: Span) -> bool {
        in_i64(self@ - rhs@)
    }

    open spec fn sub_spec(self, rhs: Span) -> Span {
        self
    }
}

impl core::ops::Sub<Span> for Span {
    type Output = Span;

    fn sub(self, other: Span) -> (r: Span)
        ensures
            r@ == self@ - other@,
    {
        Span(self.0 - other.0)
    }
}

impl vstd::std_specs::ops::MulSpecImpl<i64> for Span {
    open spec fn obeys_mul_spec() -> bool {
        false
    }

    open spec fn mul_req(self, rhs: i64) -> bool {
        in_i64(self@ * rhs)
    }

    open spec fn mul_spec(self, rhs: i64) -> Span {
        self
    }
}

impl core::ops::Mul<i64> for Span {
    type Output = Span;

    fn mul(self, other: i64) -> (r: Span)
        ensures
            r@ == self@ * other,
    {
        Span(self.0 * other)
    }
}

impl vstd::std_specs::ops::DivSpecImpl<i64> for Span {
    open spec fn obeys_div_spec() -> bool {
        false
    }

    open spec fn div_req(self, rhs: i64) -> bool {
        rhs > 0
    }

    open spec fn div_spec(self, rhs: i64) -> Span {
        self
    }
}

impl core::ops::Div<i64> for Span {
    type Output = Span;

    fn div(self, other: i64) -> (r: Span)
        ensures
            r@ == if self@ >= 0 { self@ / other as int } else { -((-self@) / other as int) },
    {
        Span(self.0 / other)
    }
}

impl vstd::std_specs::ops::NegSpecImpl for Span {
    open spec fn obeys_neg_spec() -> bool {
        false
    }

    open spec fn neg_req(self) -> bool {
        self@ != i64::MIN
    }

    open spec fn neg_spec(self) -> Span {
        self
    }
}

impl core::ops::Neg for Span {
    type Output = Span;

    fn neg(self) -> (r: Span)
        ensures
            r@ == -self@,
    {
        Span(-self.0)
    }
}

impl Span {
    pub fn abs(self) -> (r: Span)
        requires
            self@ != i64::MIN,
        ensures
            r@ == if self@ < 0 {
                -self@
            } else {
                self@
            },
    {
        if self.0 < 0 {
            Span(-self.0)
        } else {
            self
        }
    }

    pub fn is_positive(self) -> (r: bool)
        ensures
            r == (self@ > 0),
    {
        self.0 > 0
    }

    pub fn is_non_negative(self) -> (r: bool)
        ensures
            r == (self@ >= 0),
    {
        self.0 >= 0
    }

    pub fn is_negative(self) -> (r: bool)
        ensures
            r == (self@ < 0),
    {
        self.0 < 0
    }

    pub fn is_non_positive(self) -> (r: bool)
        ensures
            r == (self@ <= 0),
    {
        self.0 <= 0
    }

    /// The greatest multiple of `rhs` that is not above `self`.
    pub fn prev_multiple(self, rhs: Span) -> (r: Span)
        requires
            rhs@ > 0,
            in_i64(self@ - self@ % rhs@),
        ensures
            r@ == self@ - self@ % rhs@,
    {
        let (_, m) = div_mod_floor(self.0, rhs.0);
        Span(self.0 - m)
    }

    /// The least multiple of `rhs` that is not below `self`.
    pub fn next_multiple(self, rhs: Span) -> (r: Span)
        requires
            rhs@ > 0,
            self@ > i64::MIN,
            in_i64((self@ - 1) - (self@ - 1) % rhs@),
            in_i64((self@ - 1) - (self@ - 1) % rhs@ + rhs@),
        ensures
            r@ == (self@ - 1) - (self@ - 1) % rhs@ + rhs@,
    {
        let p = Span(self.0 - 1);
        proof {
            vstd::arithmetic::div_mod::lemma_fundamental_div_mod(self@ - 1, rhs@);
        }
        let q = p.prev_multiple(rhs);
        q + rhs
    }
}

/// `a` counted in `unit`s followed by `suffix`, where there is at least one.
pub open spec fn unit_text(a: nat, unit: nat, suffix: Seq<char>) -> Seq<char> {
    if a >= unit {
        dec(a / unit) + suffix
    } else {
        Seq::empty()
    }
}

/// Less than a minute, in the coarsest of seconds, milliseconds,
/// microseconds or nanoseconds that it reaches, with a fraction where needed.
pub open spec fn sub_minute_text(ns: nat) -> Seq<char> {
    if ns == 0 {
        Seq::empty()
    } else if ns < 1_000 {
        dec(ns) + seq!['n', 's']
    } else if ns < 1_000_000 {
        dec(ns / 1_000) + frac_text(ns % 1_000, 3) + seq!['u', 's']
    } else if ns < 1_000_000_000 {
        dec(ns / 1_000_000) + frac_text(ns % 1_000_000, 6) + seq!['m', 's']
    } else {
        dec(ns / 1_000_000_000) + frac_text(ns % 1_000_000_000, 9) + seq!['s']
    }
}

/// A span as text: `0s` for zero, else a sign where negative, then days,
/// hours and minutes where present, then the rest below a minute.
pub open spec fn span_text(ns: int) -> Seq<char> {
    if ns == 0 {
        seq!['0', 's']
    } else {
        let a = (if ns < 0 {
            -ns
        } else {
            ns
        }) as nat;
        (if ns < 0 {
            seq!['-']
        } else {
            Seq::empty()
        }) + unit_text(a, 86_400_000_000_000, seq!['d']) + unit_text(
            a % 86_400_000_000_000,
            3_600_000_000_000,
            seq!['h'],
        ) + unit_text(a % 3_600_000_000_000, 60_000_000_000, seq!['m']) + sub_minute_text(
            a % 60_000_000_000,
        )
    }
}

fn push_unit(s: &mut String, a: u64, unit: u64, suffix: &str)
    requires
        unit > 0,
    ensures
        final(s)@ == old(s)@ + unit_text(a as nat, unit as nat, suffix@),
{
    if a >= unit {
        push_padded(s, a / unit, 1);
        push_str(s, suffix);
    } else {
        proof {
            assert(old(s)@ + unit_text(a as nat, unit as nat, suffix@) =~= old(s)@);
        }
    }
}

fn push_sub_unit(s: &mut String, ns: u64, unit: u64, width: u64, suffix: &str)
    requires
        unit > 0,
    ensures
        final(s)@ == old(s)@ + dec((ns / unit) as nat) + frac_text((ns % unit) as nat, width as nat) + suffix@,
{
    push_padded(s, ns / unit, 1);
    push_frac(s, ns % unit, width);
    push_str(s, suffix);
}

fn push_sub_minute(s: &mut String, ns: u64)
    ensures
        final(s)@ == old(s)@ + sub_minute_text(ns as nat),
{
    proof {
        reveal_strlit("ns");
        reveal_strlit("us");
        reveal_strlit("ms");
        reveal_strlit("s");
    }
    if ns == 0 {
        proof {
            assert(old(s)@ + sub_minute_text(ns as nat) =~= old(s)@);
        }
    } else if ns < 1_000 {
        push_padded(s, ns, 1);
        push_str(s, "ns");
        proof {
            assert(final(s)@ =~= old(s)@ + sub_minute_text(ns as nat));
        }
    } else if ns < 1_000_000 {
        push_sub_unit(s, ns, 1_000, 3, "us");
        proof {
            assert(final(s)@ =~= old(s)@ + sub_minute_text(ns as nat));
        }
    } else if ns < 1_000_000_000 {
        push_sub_unit(s, ns, 1_000_000, 6, "ms");
        proof {
            assert(final(s)@ =~= old(s)@ + sub_minute_text(ns as nat));
        }
    } else {
        push_sub_unit(s, ns, 1_000_000_000, 9, "s");
        proof {
            assert(final(s)@ =~= old(s)@ + sub_minute_text(ns as nat));
        }
    }
}

impl Span {
    /// The span as text, e.g. "1.5ms", "-12d1ns", "1d2m3.456s".
    pub fn to_string(&self) -> (r: String)
        ensures
            r@ == span_text(self@),
    {
        proof {
            reveal_strlit("0s");
            reveal_strlit("-");
            reveal_strlit("d");
            reveal_strlit("h");
            reveal_strlit("m");
        }
        let mut s = String::new();
        if self.0 == 0 {
            push_str(&mut s, "0s");
            proof {
                assert(s@ =~= span_text(self@));
            }
            return s;
        }
        if self.0 < 0 {
            push_str(&mut s, "-");
        }
        let a: u64 = if self.0 < 0 {
            (-(self.0 + 1)) as u64 + 1
        } else {
            self.0 as u64
        };
        push_unit(&mut s, a, NS_PER_DAY as u64, "d");
        push_unit(&mut s, a % NS_PER_DAY as u64, NS_PER_HR as u64, "h");
        push_unit(&mut s, a % NS_PER_HR as u64, NS_PER_MIN as u64, "m");
        push_sub_minute(&mut s, a % NS_PER_MIN as u64);
        proof {
            assert(s@ =~= span_text(self@));
        }
        s
    }
}

/// Why a span could not be read. Each variant but `EmptyString` and
/// `Overflow` carries the text that was read.
#[derive(Clone, Debug, PartialEq, Eq)]
pub enum ParseSpanError {
    EmptyString,
    UnexpectedChar(String, char),
    UnexpectedCharAfterU(String),
    UnexpectedCharAfterN(String),
    /// A number in the text does not fit 64 bits of nanoseconds.
    Overflow,
}

/// The state of reading a span: the total so far, and the number being read
/// before its unit (whole part, fraction digits as an integer, and ten to
/// the number of fraction digits).
#[derive(Clone, Copy)]
pub struct SpanReader {
    pub res: i64,
    pub value: i64,
    pub frac_value: i64,
    pub frac_digits: i64,
    pub after_point: bool,
}

pub open spec fn reader_ok(st: SpanReader) -> bool {
    st.res >= 0 && st.value >= 0 && st.frac_value >= 0 && st.frac_digits >= 1
}

pub open spec fn reader_start() -> SpanReader {
    SpanReader { res: 0, value: 0, frac_value: 0, frac_digits: 1, after_point: false }
}

/// `st` with the total raised by its number read in `unit`s (the fraction
/// rounded down to a nanosecond), ready for the next number; none on
/// overflow.
pub open spec fn add_unit(st: SpanReader, unit: int) -> Option<SpanReader> {
    let a = unit * st.value;
    let b = unit * st.frac_value;
    let total = st.res + a + if st.frac_value != 0 {
        b / (st.frac_digits as int)
    } else {
        0
    };
    if !in_i64(a) || !in_i64(st.res + a) || (st.frac_value != 0 && (!in_i64(b) || !in_i64(total))) {
        None
    } else {
        Some(SpanReader { res: total as i64, ..reader_start() })
    }
}

/// `st` with its number read in nanoseconds, the fraction rounded to the
/// nearest (halves down); none on overflow.
pub open spec fn add_ns(st: SpanReader) -> Option<SpanReader> {
    let up = if st.frac_value * 2 > st.frac_digits {
        1int
    } else {
        0
    };
    if !in_i64(st.res + st.value) || !in_i64(st.frac_value * 2) || !in_i64(st.res + st.value + up) {
        None
    } else {
        Some(SpanReader { res: (st.res + st.value + up) as i64, ..reader_start() })
    }
}

pub open spec fn unit_step(r: Option<SpanReader>, next: int) -> Result<(SpanReader, int), ParseSpanError> {
    match r {
        Some(st) => Ok((st, next)),
        None => Err(ParseSpanError::Overflow),
    }
}

/// One step of reading a span at `s[i]`: the next state and where reading
/// goes on, or the error.
pub open spec fn span_step(s: Seq<char>, i: int, st: SpanReader) -> Result<(SpanReader, int), ParseSpanError> {
    let c = s[i];
    let next_is_s = i < s.len() - 1 && s[i + 1] == 's';
    if c == '.' {
        Ok((SpanReader { after_point: true, ..st }, i + 1))
    } else if c == 'd' {
        unit_step(add_unit(st, 86_400_000_000_000), i + 1)
    } else if c == 'h' {
        unit_step(add_unit(st, 3_600_000_000_000), i + 1)
    } else if c == 'm' {
        if next_is_s {
            unit_step(add_unit(st, 1_000_000), i + 2)
        } else {
            unit_step(add_unit(st, 60_000_000_000), i + 1)
        }
    } else if c == 's' {
        unit_step(add_unit(st, 1_000_000_000), i + 1)
    } else if c == 'u' {
        if next_is_s {
            unit_step(add_unit(st, 1_000), i + 2)
        } else {
            Err(ParseSpanError::UnexpectedCharAfterU(vstd::pervasive::arbitrary()))
        }
    } else if c == 'n' {
        if next_is_s {
            unit_step(add_ns(st), i + 2)
        } else {
            Err(ParseSpanError::UnexpectedCharAfterN(vstd::pervasive::arbitrary()))
        }
    } else if '0' <= c <= '9' {
        let d = digit_value(c) as int;
        if st.after_point {
            let fv = 10 * st.frac_value + d;
            let fd = 10 * st.frac_digits;
            if !in_i64(fv) || !in_i64(fd) {
                Err(ParseSpanError::Overflow)
            } else {
                Ok((SpanReader { frac_value: fv as i64, frac_digits: fd as i64, ..st }, i + 1))
            }
        } else {
            let v = 10 * st.value + d;
            if !in_i64(v) {
                Err(ParseSpanError::Overflow)
            } else {
                Ok((SpanReader { value: v as i64, ..st }, i + 1))
            }
        }
    } else {
        Err(ParseSpanError::UnexpectedChar(vstd::pervasive::arbitrary(), c))
    }
}

/// Reading `s` from `i` on in state `st`: the final state or the error.
pub open spec fn span_run(s: Seq<char>, i: int, st: SpanReader) -> Result<SpanReader, ParseSpanError>
    decreases s.len() - i,
{
    if i >= s.len() || i < 0 {
        Ok(st)
    } else {
        match span_step(s, i, st) {
            Ok((st2, j)) => if j > i {
                span_run(s, j, st2)
            } else {
                Ok(st2)
            },
            Err(e) => Err(e),
        }
    }
}

/// What reading `s` as a span gives: an optional sign, then numbers each
/// followed by a unit (`d`, `h`, `m`, `s`, `ms`, `us`, `ns`), all summed.
pub open spec fn span_text_value(s: Seq<char>) -> Result<int, ParseSpanError> {
    if s.len() == 0 {
        Err(ParseSpanError::EmptyString)
    } else {
        let neg = s[0] == '-';
        let start = if s[0] == '+' || s[0] == '-' {
            1int
        } else {
            0
        };
        match span_run(s, start, reader_start()) {
            Ok(st) => Ok(
                if neg {
                    -st.res
                } else {
                    st.res as int
                },
            ),
            Err(e) => Err(e),
        }
    }
}

/// Whether error `e`, read from `text`, is the error `v` of the reading.
pub open spec fn span_error_matches(e: ParseSpanError, v: ParseSpanError, text: Seq<char>) -> bool {
    match (e, v) {
        (ParseSpanError::EmptyString, ParseSpanError::EmptyString) => true,
        (ParseSpanError::Overflow, ParseSpanError::Overflow) => true,
        (ParseSpanError::UnexpectedChar(t, c), ParseSpanError::UnexpectedChar(_, c2)) => t@ == text
            && c == c2,
        (ParseSpanError::UnexpectedCharAfterU(t), ParseSpanError::UnexpectedCharAfterU(_)) => t@
            == text,
        (ParseSpanError::UnexpectedCharAfterN(t), ParseSpanError::UnexpectedCharAfterN(_)) => t@
            == text,
        _ => false,
    }
}

fn add_unit_exec(st: SpanReader, unit: i64) -> (r: Option<SpanReader>)
    requires
        reader_ok(st),
        0 < unit <= NS_PER_DAY,
    ensures
        r == add_unit(st, unit as int),
        r is Some ==> reader_ok(r->0),
{
    proof {
        assert(0 <= (unit as int) * (st.value as int) <= 86_400_000_000_000 * 0x7fff_ffff_ffff_ffff)
            by (nonlinear_arith)
            requires
                0 < unit <= 86_400_000_000_000,
                0 <= st.value <= 0x7fff_ffff_ffff_ffff,
        ;
        assert(0 <= (unit as int) * (st.frac_value as int) <= 86_400_000_000_000
            * 0x7fff_ffff_ffff_ffff) by (nonlinear_arith)
            requires
                0 < unit <= 86_400_000_000_000,
                0 <= st.frac_value <= 0x7fff_ffff_ffff_ffff,
        ;
    }
    let a: i128 = unit as i128 * st.value as i128;
    if a > i64::MAX as i128 || a < i64::MIN as i128 {
        return None;
    }
    let r1: i128 = st.res as i128 + a;
    if r1 > i64::MAX as i128 || r1 < i64::MIN as i128 {
        return None;
    }
    let mut total = r1;
    if st.frac_value != 0 {
        let b: i128 = unit as i128 * st.frac_value as i128;
        if b > i64::MAX as i128 || b < i64::MIN as i128 {
            return None;
        }
        proof {
            assert(b >= 0) by (nonlinear_arith)
                requires
                    b == unit * st.frac_value,
                    unit > 0,
                    st.frac_value >= 0,
            ;
        }
        total = r1 + b / st.frac_digits as i128;
        if total > i64::MAX as i128 || total < i64::MIN as i128 {
            return None;
        }
    }
    proof {
        assert(a >= 0) by (nonlinear_arith)
            requires
                a == unit * st.value,
                unit > 0,
                st.value >= 0,
        ;
    }
    Some(SpanReader { res: total as i64, value: 0, frac_value: 0, frac_digits: 1, after_point: false })
}

fn add_ns_exec(st: SpanReader) -> (r: Option<SpanReader>)
    requires
        reader_ok(st),
    ensures
        r == add_ns(st),
        r is Some ==> reader_ok(r->0),
{
    let v: i128 = st.res as i128 + st.value as i128;
    let f: i128 = st.frac_value as i128 * 2;
    if v > i64::MAX as i128 || f > i64::MAX as i128 {
        return None;
    }
    let up: i128 = if f > st.frac_digits as i128 {
        1
    } else {
        0
    };
    if v + up > i64::MAX as i128 {
        return None;
    }
    Some(SpanReader { res: (v + up) as i64, value: 0, frac_value: 0, frac_digits: 1, after_point: false })
}

fn unit_step_exec(r: Option<SpanReader>, next: usize) -> (out: Result<(SpanReader, usize), ParseSpanError>)
    ensures
        match out {
            Ok((st, j)) => unit_step(r, next as int) == Ok::<(SpanReader, int), ParseSpanError>((st, j as int)),
            Err(e) => e is Overflow && unit_step(r, next as int) is Err && unit_step(r, next as int)->Err_0 is Overflow,
        },
{
    match r {
        Some(st) => Ok((st, next)),
        None => Err(ParseSpanError::Overflow),
    }
}

fn span_step_exec(s: &Vec<char>, i: usize, st: SpanReader, text: &str) -> (out: Result<
    (SpanReader, usize),
    ParseSpanError,
>)
    requires
        i < s@.len(),
        reader_ok(st),
        s@ == text@,
    ensures
        match out {
            Ok((st2, j)) => span_step(s@, i as int, st) == Ok::<(SpanReader, int), ParseSpanError>(
                (st2, j as int),
            ) && reader_ok(st2) && i < j <= s@.len(),
            Err(e) => span_step(s@, i as int, st) is Err && span_error_matches(
                e,
                span_step(s@, i as int, st)->Err_0,
                text@,
            ),
        },
{
    let c = s[i];
    let next_is_s = i < s.len() - 1 && s[i + 1] == 's';
    if c == '.' {
        Ok((SpanReader { after_point: true, ..st }, i + 1))
    } else if c == 'd' {
        unit_step_exec(add_unit_exec(st, NS_PER_DAY), i + 1)
    } else if c == 'h' {
        unit_step_exec(add_unit_exec(st, NS_PER_HR), i + 1)
    } else if c == 'm' {
        if next_is_s {
            unit_step_exec(add_unit_exec(st, NS_PER_MS), i + 2)
        } else {
            unit_step_exec(add_unit_exec(st, NS_PER_MIN), i + 1)
        }
    } else if c == 's' {
        unit_step_exec(add_unit_exec(st, NS_PER_SEC), i + 1)
    } else if c == 'u' {
        if next_is_s {
            unit_step_exec(add_unit_exec(st, NS_PER_US), i + 2)
        } else {
            Err(ParseSpanError::UnexpectedCharAfterU(text.to_owned()))
        }
    } else if c == 'n' {
        if next_is_s {
            unit_step_exec(add_ns_exec(st), i + 2)
        } else {
            Err(ParseSpanError::UnexpectedCharAfterN(text.to_owned()))
        }
    } else if '0' <= c && c <= '9' {
        let d = (c as u32 - '0' as u32) as i128;
        if st.after_point {
            let fv: i128 = 10 * st.frac_value as i128 + d;
            let fd: i128 = 10 * st.frac_digits as i128;
            if fv > i64::MAX as i128 || fd > i64::MAX as i128 {
                Err(ParseSpanError::Overflow)
            } else {
                Ok((SpanReader { frac_value: fv as i64, frac_digits: fd as i64, ..st }, i + 1))
            }
        } else {
            let v: i128 = 10 * st.value as i128 + d;
            if v > i64::MAX as i128 {
                Err(ParseSpanError::Overflow)
            } else {
                Ok((SpanReader { value: v as i64, ..st }, i + 1))
            }
        }
    } else {
        Err(ParseSpanError::UnexpectedChar(text.to_owned(), c))
    }
}

/// Whether `r` is the outcome `v` of reading `text` as a span.
pub open spec fn span_parse_matches(r: Result<Span, ParseSpanError>, v: Result<int, ParseSpanError>, text: Seq<char>) -> bool {
    match r {
        Ok(x) => v == Ok::<int, ParseSpanError>(x@),
        Err(e) => v is Err && span_error_matches(e, v->Err_0, text),
    }
}

impl Span {
    /// Reads a span: an optional sign, then numbers (with an optional
    /// fraction) each followed by a unit `d`, `h`, `m`, `s`, `ms`, `us` or
    /// `ns`, summed; e.g. "1d2m3.456s", "-12d1ns".
    pub fn parse(text: &str) -> (r: Result<Span, ParseSpanError>)
        ensures
            span_parse_matches(r, span_text_value(text@), text@),
    {
        let s = chars_of(text);
        let n = s.len();
        if n == 0 {
            return Err(ParseSpanError::EmptyString);
        }
        let neg = s[0] == '-';
        let start: usize = if s[0] == '+' || s[0] == '-' {
            1
        } else {
            0
        };
        let mut i = start;
        let mut st = SpanReader { res: 0, value: 0, frac_value: 0, frac_digits: 1, after_point: false };
        while i < n
            invariant
                start <= i <= n == s@.len(),
                n > 0,
                start == (if s@[0] == '+' || s@[0] == '-' {
                    1int
                } else {
                    0int
                }),
                neg == (s@[0] == '-'),
                s@ == text@,
                reader_ok(st),
                span_run(s@, i as int, st) == span_run(s@, start as int, reader_start()),
            decreases n - i,
        {
            match span_step_exec(&s, i, st, text) {
                Ok((st2, j)) => {
                    st = st2;
                    i = j;
                },
                Err(e) => {
                    proof {
                        assert(span_run(s@, i as int, st) == Err::<SpanReader, ParseSpanError>(
                            span_step(s@, i as int, st)->Err_0,
                        ));
                    }
                    return Err(e);
                },
            }
        }
        if neg {
            Ok(Span(-st.res))
        } else {
            Ok(Span(st.res))
        }
    }
}

impl core::str::FromStr for Span {
    type Err = ParseSpanError;

    fn from_str(s: &str) -> Result<Span, ParseSpanError> {
        Span::parse(s)
    }
}

} // verus!
