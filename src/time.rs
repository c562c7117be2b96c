//! Instants in nanoseconds since the Unix epoch, their local dates and
//! times, and their text forms.

use crate::date::{
    date_days, iso_extended_text, lemma_civil_days_injective, max_days, min_days, unix_epoch_days,
    valid_ymd, Date,
};
use crate::ofday::{day_ns, ofday_text, OfDay};
use crate::text::{
    chars_of, find, find_char, pad, parse_uint, push_padded, push_str, string_of, sub_chars,
    uint_at_most,
};
use crate::date::{date_text_value, DateError, Days};
use crate::ofday::{ofday_parse_matches, ofday_text_value, ParseOfDayError};
use crate::tz::{zone_of_name, TzParseError};
use crate::span::{div_mod_floor, in_i64, Span, NS_PER_DAY, NS_PER_SEC};
use crate::timezone::{local_ns_in_range, matches_resolution, TzError, TzInfo};
use crate::tz::{
    bounded_at, clamp_scan, clamp_to, is_near_table, is_offset_at, scan_total, well_spaced, Tz, NEAR,
};
use vstd::prelude::*;

verus! {

broadcast use crate::span::lemma_span_range;

/// The instant, in nanoseconds since the epoch, that a date and time of day
/// stand for when read as UTC.
pub open spec fn local_ns(d: (int, int, int), o: int) -> int {
    (date_days(d) - unix_epoch_days()) * day_ns() + o
}

/// The local time, in nanoseconds read as UTC, of instant `t` in `tz`, by
/// the database's offset.
pub open spec fn zone_local_ns(tz: Tz, t: int) -> int {
    t + scan_total(tz, t / 1_000_000_000) * 1_000_000_000
}

/// A date and time of day that stand for local time `l` are its Euclidean
/// split into days and the rest.
proof fn lemma_split(d: (int, int, int), o: int, l: int)
    requires
        local_ns(d, o) == l,
        0 <= o < day_ns(),
    ensures
        date_days(d) == unix_epoch_days() + l / day_ns(),
        o == l % day_ns(),
{
    vstd::arithmetic::div_mod::lemma_fundamental_div_mod_converse(
        l,
        day_ns(),
        date_days(d) - unix_epoch_days(),
        o,
    );
}

/// For a well-spaced database, a schedule of `tz` built near second `c`
/// gives the database's total offset at every second within reach of `c`.
proof fn lemma_near_total(tz: Tz, info: TzInfo, c: int, sec: int)
    requires
        is_near_table(tz, info, c),
        well_spaced(tz),
        c - NEAR <= sec <= c + NEAR,
    ensures
        info.offset_at(sec).total() == scan_total(tz, sec),
{
    assert(is_offset_at(
        tz,
        clamp_to(sec, clamp_scan(c - NEAR), clamp_scan(c + NEAR)),
        info.offset_at(sec),
    ));
    assert(clamp_to(sec, clamp_scan(c - NEAR), clamp_scan(c + NEAR)) == clamp_scan(sec));
}

/// `r` is what converting local time `lns` in `tz` must give by the
/// database's offsets: the one instant with that local time, none where
/// there is none (a gap), or the two in order (a fold).
pub open spec fn zone_resolves(tz: Tz, r: Result<Time, TzError>, lns: int) -> bool {
    match r {
        Ok(t) => zone_local_ns(tz, t@) == lns && forall|t2: int|
            #[trigger] zone_local_ns(tz, t2) == lns ==> t2 == t@,
        Err(TzError::NoTimeInThisTz) => forall|t2: int| #[trigger] zone_local_ns(tz, t2) != lns,
        Err(TzError::TwoTimesInThisTz(a, b)) => a@ < b@ && zone_local_ns(tz, a@) == lns
            && zone_local_ns(tz, b@) == lns && forall|t2: int|
            #[trigger] zone_local_ns(tz, t2) == lns ==> t2 == a@ || t2 == b@,
    }
}

/// An instant whose local time is `lns`, by a schedule or by the database,
/// lies within a day of `lns`; so a schedule built near `lns` and the
/// database agree on it.
proof fn lemma_near_local(tz: Tz, info: TzInfo, lns: int, t: int)
    requires
        is_near_table(tz, info, lns / 1_000_000_000),
        well_spaced(tz),
    ensures
        info.local_of(t) == lns <==> zone_local_ns(tz, t) == lns,
{
    let ts = t / 1_000_000_000;
    let sub = t % 1_000_000_000;
    let c = lns / 1_000_000_000;
    vstd::arithmetic::div_mod::lemma_fundamental_div_mod(t, 1_000_000_000);
    vstd::arithmetic::div_mod::lemma_mod_bound(t, 1_000_000_000);
    info.lemma_regime_of(ts);
    let p = info.regime_of(ts);
    if p > 0 {
        assert(info.rest@[p - 1].1.is_bounded());
    }
    let o1 = info.offset_at(ts).total();
    let o2 = scan_total(tz, ts);
    assert(bounded_at(tz, clamp_scan(ts)));
    if info.local_of(t) == lns {
        assert(lns == 1_000_000_000 * (ts + o1) + sub) by (nonlinear_arith)
            requires
                lns == t + o1 * 1_000_000_000,
                t == 1_000_000_000 * ts + sub,
        ;
        vstd::arithmetic::div_mod::lemma_fundamental_div_mod_converse(lns, 1_000_000_000, ts + o1, sub);
        lemma_near_total(tz, info, c, ts);
    }
    if zone_local_ns(tz, t) == lns {
        assert(lns == 1_000_000_000 * (ts + o2) + sub) by (nonlinear_arith)
            requires
                lns == t + o2 * 1_000_000_000,
                t == 1_000_000_000 * ts + sub,
        ;
        vstd::arithmetic::div_mod::lemma_fundamental_div_mod_converse(lns, 1_000_000_000, ts + o2, sub);
        lemma_near_total(tz, info, c, ts);
    }
}

/// For a well-spaced database, a schedule of `tz` built near `lns` resolves
/// that local time as the database's offsets do.
proof fn lemma_near_resolves(tz: Tz, info: TzInfo, r: Result<Time, TzError>, lns: int)
    requires
        is_near_table(tz, info, lns / 1_000_000_000),
        well_spaced(tz),
        matches_resolution(r, info.resolve(lns)),
    ensures
        zone_resolves(tz, r, lns),
{
    info.lemma_resolve_meaning(lns);
    assert forall|t: int| #[trigger] zone_local_ns(tz, t) == lns <==> info.local_of(t) == lns by {
        lemma_near_local(tz, info, lns, t);
    }
    assert forall|t: int| #[trigger] info.local_of(t) == lns <==> zone_local_ns(tz, t) == lns by {
        lemma_near_local(tz, info, lns, t);
    }
}

/// Reading an instant on the wall clock of `tz` and converting that date and
/// time of day back gives the instant again, or, where the clocks repeated
/// that time, a fold that holds the instant; never a gap.
pub proof fn lemma_zone_round_trip(tz: Tz, t: int, d: (int, int, int), o: int, r: Result<Time, TzError>)
    requires
        well_spaced(tz),
        date_days(d) == unix_epoch_days() + zone_local_ns(tz, t) / day_ns(),
        o == zone_local_ns(tz, t) % day_ns(),
        zone_resolves(tz, r, local_ns(d, o)),
    ensures
        match r {
            Ok(x) => x@ == t,
            Err(TzError::NoTimeInThisTz) => false,
            Err(TzError::TwoTimesInThisTz(a, b)) => a@ == t || b@ == t,
        },
{
    vstd::arithmetic::div_mod::lemma_fundamental_div_mod(zone_local_ns(tz, t), day_ns());
    assert(local_ns(d, o) == zone_local_ns(tz, t));
}

/// An instant, counted in nanoseconds since the Unix epoch (UTC).
#[derive(Clone, Copy, PartialEq, Eq, Structural, PartialOrd, Ord, Hash, Debug)]
pub struct Time(i64);

impl View for Time {
    type V = int;

    closed spec fn view(&self) -> int {
        self.0 as int
    }
}

impl Time {
    /// The Unix epoch, 1970-01-01 00:00:00Z.
    #[allow(non_snake_case)]
    pub fn EPOCH() -> (r: Time)
        ensures
            r@ == 0,
    {
        Time(0)
    }

    pub fn to_span_since_epoch(self) -> (r: Span)
        ensures
            r@ == self@,
    {
        Span::of_int_ns(self.0)
    }

    pub fn of_span_since_epoch(span: Span) -> (r: Time)
        ensures
            r@ == span@,
    {
        Time(span.to_int_ns())
    }

    pub fn to_int_ns_since_epoch(self) -> (r: i64)
        ensures
            r == self@,
    {
        self.0
    }

    pub fn of_int_ns_since_epoch(ns: i64) -> (r: Time)
        ensures
            r@ == ns,
    {
        Time(ns)
    }
}

impl Time {
    /// The date and time of day of this instant in UTC.
    pub fn to_date_ofday_gmt(self) -> (r: (Date, OfDay))
        ensures
            local_ns(r.0@, r.1@) == self@,
            0 <= r.1@ < day_ns(),
    {
        let (days, ofday) = div_mod_floor(self.0, NS_PER_DAY);
        proof {
            vstd::arithmetic::div_mod::lemma_fundamental_div_mod(self@, day_ns());
            vstd::arithmetic::div_mod::lemma_mod_bound(self@, day_ns());
        }
        let date = Date::of_days_since_epoch(days as i32);
        let o = OfDay::of_ns_since_midnight(ofday);
        (date, o)
    }

    /// The instant at `ofday` on `date`, read as UTC.
    pub fn of_date_ofday_gmt(date: Date, ofday: OfDay) -> (r: Time)
        requires
            in_i64(local_ns(date@, 0)),
            in_i64(local_ns(date@, ofday@)),
        ensures
            r@ == local_ns(date@, ofday@),
    {
        let days = (date - Date::UNIX_EPOCH()) as i64;
        let o = ofday.to_ns_since_midnight();
        proof {
            assert(days * day_ns() == local_ns(date@, ofday@) - o);
        }
        Time(days * NS_PER_DAY + o)
    }

    /// The local date and time of day of this instant in `tz`.
    pub fn to_date_ofday(self, tz: Tz) -> (r: (Date, OfDay))
        requires
            i64::MIN + day_ns() <= self@ <= i64::MAX - day_ns(),
        ensures
            0 <= r.1@ < day_ns(),
            exists|info: TzInfo|
                #[trigger] is_near_table(tz, info, self@ / 1_000_000_000) && local_ns(r.0@, r.1@) == self@ + info.offset_at(
                    self@ / 1_000_000_000,
                ).total() * 1_000_000_000,
            well_spaced(tz) ==> date_days(r.0@) == unix_epoch_days() + zone_local_ns(tz, self@)
                / day_ns() && r.1@ == zone_local_ns(tz, self@) % day_ns(),
    {
        let (sec, _) = div_mod_floor(self.0, NS_PER_SEC);
        let info = tz.tz_near(sec);
        let r = info.time_to_date_ofday(self);
        proof {
            if well_spaced(tz) {
                lemma_near_total(tz, info, self@ / 1_000_000_000, self@ / 1_000_000_000);
                lemma_split(r.0@, r.1@, zone_local_ns(tz, self@));
            }
        }
        r
    }

    /// The local date of this instant in `tz`.
    pub fn to_date(self, tz: Tz) -> (r: Date)
        requires
            i64::MIN + day_ns() <= self@ <= i64::MAX - day_ns(),
        ensures
            exists|info: TzInfo, h: int|
                #![trigger is_near_table(tz, info, self@ / 1_000_000_000), local_ns(r@, h)]
                is_near_table(tz, info, self@ / 1_000_000_000) && 0 <= h < day_ns() && local_ns(r@, h) == self@
                    + info.offset_at(self@ / 1_000_000_000).total() * 1_000_000_000,
            well_spaced(tz) ==> date_days(r@) == unix_epoch_days() + zone_local_ns(tz, self@)
                / day_ns(),
    {
        let (d, h) = self.to_date_ofday(tz);
        d
    }

    /// The local time of day of this instant in `tz`.
    pub fn to_ofday(self, tz: Tz) -> (r: OfDay)
        requires
            i64::MIN + day_ns() <= self@ <= i64::MAX - day_ns(),
        ensures
            0 <= r@ < day_ns(),
            exists|info: TzInfo, d: (int, int, int)|
                #![trigger is_near_table(tz, info, self@ / 1_000_000_000), local_ns(d, r@)]
                is_near_table(tz, info, self@ / 1_000_000_000) && local_ns(d, r@) == self@ + info.offset_at(
                    self@ / 1_000_000_000,
                ).total() * 1_000_000_000,
            well_spaced(tz) ==> r@ == zone_local_ns(tz, self@) % day_ns(),
    {
        let (d, h) = self.to_date_ofday(tz);
        h
    }

    /// The instant whose local time in `tz` is `ofday` on `date`: none where
    /// the clocks skipped that time, two where they repeated it.
    pub fn of_date_ofday(date: Date, ofday: OfDay, tz: Tz) -> (r: Result<Time, TzError>)
        requires
            local_ns_in_range(local_ns(date@, ofday@)),
        ensures
            exists|info: TzInfo|
                #[trigger] is_near_table(tz, info, local_ns(date@, ofday@) / 1_000_000_000)
                    && matches_resolution(r, info.resolve(local_ns(date@, ofday@))),
            well_spaced(tz) ==> zone_resolves(tz, r, local_ns(date@, ofday@)),
    {
        let l = local_ns_exec(date, ofday) as i64;
        let (lsec, _) = div_mod_floor(l, NS_PER_SEC);
        let info = tz.tz_near(lsec);
        let r = info.date_ofday_to_time(date, ofday);
        proof {
            if well_spaced(tz) {
                lemma_near_resolves(tz, info, r, local_ns(date@, ofday@));
            }
        }
        r
    }

    /// Rounds down to a multiple of `rhs` since the epoch.
    pub fn prev_multiple(self, rhs: Span) -> (r: Time)
        requires
            rhs@ > 0,
            in_i64(self@ - self@ % rhs@),
        ensures
            r@ == self@ - self@ % rhs@,
    {
        Self::of_span_since_epoch(self.to_span_since_epoch().prev_multiple(rhs))
    }

    /// Rounds up to a multiple of `rhs` since the epoch.
    pub fn next_multiple(self, rhs: Span) -> (r: Time)
        requires
            rhs@ > 0,
            self@ > i64::MIN,
            in_i64((self@ - 1) - (self@ - 1) % rhs@),
            in_i64((self@ - 1) - (self@ - 1) % rhs@ + rhs@),
        ensures
            r@ == (self@ - 1) - (self@ - 1) % rhs@ + rhs@,
    {
        Self::of_span_since_epoch(self.to_span_since_epoch().next_multiple(rhs))
    }
}

impl vstd::std_specs::ops::AddSpecImpl<Span> for Time {
    open spec fn obeys_add_spec() -> bool {
        false
    }

    open spec fn add_req(self, rhs: Span) -> bool {
        in_i64(self@ + rhs@)
    }

    open spec fn add_spec(self, rhs: Span) -> Time {
        self
    }
}

impl core::ops::Add<Span> for Time {
    type Output = Time;

    fn add(self, other: Span) -> (r: Time)
        ensures
            r@ == self@ + other@,
    {
        Time(self.0 + other.to_int_ns())
    }
}

impl vstd::std_specs::ops::SubSpecImpl<Span> for Time {
    open spec fn obeys_sub_spec() -> bool {
        false
    }

    open spec fn sub_req(self, rhs: Span) -> bool {
        in_i64(self@ - rhs@)
    }

    open spec fn sub_spec(self, rhs: Span) -> Time {
        self
    }
}

impl core::ops::Sub<Span> for Time {
    type Output = Time;

    fn sub(self, other: Span) -> (r: Time)
        ensures
            r@ == self@ - other@,
    {
        Time(self.0 - other.to_int_ns())
    }
}

impl vstd::std_specs::ops::SubSpecImpl<Time> for Time {
    open spec fn obeys_sub_spec() -> bool {
        false
    }

    open spec fn sub_req(self, rhs: Time) -> bool {
        in_i64(self@ - rhs@)
    }

    open spec fn sub_spec(self, rhs: Time) -> Span {
        vstd::pervasive::arbitrary()
    }
}

impl core::ops::Sub<Time> for Time {
    type Output = Span;

    /// The span from `other` to `self`.
    fn sub(self, other: Time) -> (r: Span)
        ensures
            r@ == self@ - other@,
    {
        Span::of_int_ns(self.0 - other.0)
    }
}

/// The date of this library with day count `n`.
pub open spec fn date_of_days(n: int) -> (int, int, int) {
    choose|d: (int, int, int)| valid_ymd(d.0, d.1, d.2) && date_days(d) == n
}

/// An instant read as UTC, `YYYY-MM-DD HH:MM:SS` with the fraction of a
/// second where it is not zero.
pub open spec fn local_text(lns: int) -> Seq<char> {
    iso_extended_text(date_of_days(unix_epoch_days() + lns / day_ns())) + seq![' '] + ofday_text(
        lns % day_ns(),
    )
}

/// An offset of `o` seconds: `Z` for zero, else a sign and `HH:MM`, with
/// `:SS` where the seconds are not zero.
pub open spec fn offset_text(o: int) -> Seq<char> {
    if o == 0 {
        seq!['Z']
    } else {
        let a = if o < 0 {
            -o
        } else {
            o
        };
        seq![
            if o < 0 {
                '-'
            } else {
                '+'
            },
        ] + pad((a / 3600) as nat, 2) + seq![':'] + pad(((a / 60) % 60) as nat, 2) + if a % 60 != 0 {
            seq![':'] + pad((a % 60) as nat, 2)
        } else {
            Seq::empty()
        }
    }
}

/// Instant `t` shown on a clock `o` seconds ahead of UTC, with the offset.
pub open spec fn zoned_text(t: int, o: int) -> Seq<char> {
    local_text(t + o * 1_000_000_000) + offset_text(o)
}

fn local_string(lns: i64) -> (r: String)
    ensures
        r@ == local_text(lns as int),
{
    let (date, ofday) = Time(lns).to_date_ofday_gmt();
    let y = date.year();
    let m = date.month_int();
    let d = date.day();
    proof {
        vstd::arithmetic::div_mod::lemma_fundamental_div_mod_converse(
            lns as int,
            day_ns(),
            date_days(date@) - unix_epoch_days(),
            ofday@,
        );
        let c = date_of_days(unix_epoch_days() + (lns as int) / day_ns());
        assert(valid_ymd(date@.0, date@.1, date@.2));
        assert(valid_ymd(c.0, c.1, c.2) && date_days(c) == date_days(date@));
        lemma_civil_days_injective(c.0, c.1, c.2, date@.0, date@.1, date@.2);
        reveal_strlit(" ");
    }
    let mut s = date.to_string();
    push_str(&mut s, " ");
    let t = ofday.to_string();
    push_str(&mut s, t.as_str());
    proof {
        assert(s@ =~= local_text(lns as int));
    }
    s
}

impl Time {
    /// The instant in UTC, e.g. "2020-01-16 11:22:33.456Z".
    pub fn to_string_gmt(self) -> (r: String)
        ensures
            r@ == local_text(self@) + seq!['Z'],
    {
        let mut s = local_string(self.0);
        proof {
            reveal_strlit("Z");
        }
        push_str(&mut s, "Z");
        s
    }

    /// The instant on a clock `offset_sec` seconds ahead of UTC, followed by
    /// that offset, e.g. "2021-08-27 00:09:46+01:00".
    pub fn to_string_with_offset(self, offset_sec: i32) -> (r: String)
        requires
            -86_400 < offset_sec < 86_400,
            in_i64(self@ + offset_sec * 1_000_000_000),
        ensures
            r@ == zoned_text(self@, offset_sec as int),
    {
        let mut s = local_string(self.0 + offset_sec as i64 * 1_000_000_000);
        proof {
            reveal_strlit("Z");
            reveal_strlit(":");
            reveal_strlit("+");
            reveal_strlit("-");
        }
        if offset_sec == 0 {
            push_str(&mut s, "Z");
        } else {
            let a: i64 = if offset_sec < 0 {
                -(offset_sec as i64)
            } else {
                offset_sec as i64
            };
            if offset_sec < 0 {
                push_str(&mut s, "-");
            } else {
                push_str(&mut s, "+");
            }
            push_padded(&mut s, (a / 3600) as u64, 2);
            push_str(&mut s, ":");
            push_padded(&mut s, ((a / 60) % 60) as u64, 2);
            if a % 60 != 0 {
                push_str(&mut s, ":");
                push_padded(&mut s, (a % 60) as u64, 2);
            }
        }
        proof {
            assert(s@ =~= zoned_text(self@, offset_sec as int));
        }
        s
    }

    /// Appends the instant as local time in `tz` followed by the offset in
    /// force, as `to_string_tz` writes it.
    pub fn write_tz(self, w: &mut String, tz: Tz)
        requires
            i64::MIN + day_ns() <= self@ <= i64::MAX - day_ns(),
        ensures
            exists|info: TzInfo|
                #[trigger] is_near_table(tz, info, self@ / 1_000_000_000) && final(w)@ == old(w)@
                    + zoned_text(
                    self@,
                    info.offset_at(self@ / 1_000_000_000).total(),
                ),
            well_spaced(tz) ==> final(w)@ == old(w)@ + zoned_text(
                self@,
                scan_total(tz, self@ / 1_000_000_000),
            ),
    {
        let s = self.to_string_tz(tz);
        push_str(w, s.as_str());
    }

    /// The instant as local time in `tz` followed by the offset in force,
    /// e.g. "2021-08-27 00:09:46+01:00", or with `Z` where the offset is zero.
    pub fn to_string_tz(self, tz: Tz) -> (r: String)
        requires
            i64::MIN + day_ns() <= self@ <= i64::MAX - day_ns(),
        ensures
            exists|info: TzInfo|
                #[trigger] is_near_table(tz, info, self@ / 1_000_000_000) && r@ == zoned_text(
                    self@,
                    info.offset_at(self@ / 1_000_000_000).total(),
                ),
            well_spaced(tz) ==> r@ == zoned_text(self@, scan_total(tz, self@ / 1_000_000_000)),
    {
        let (sec, _) = div_mod_floor(self.0, NS_PER_SEC);
        let info = tz.tz_near(sec);
        let off = info.find(self);
        proof {
            info.lemma_regime_of(self@ / 1_000_000_000);
            let p = info.regime_of(self@ / 1_000_000_000);
            if p > 0 {
                assert(info.rest@[p - 1].1.is_bounded());
            }
        }
        let o = off.total_offset_sec();
        proof {
            if well_spaced(tz) {
                lemma_near_total(tz, info, self@ / 1_000_000_000, self@ / 1_000_000_000);
            }
        }
        self.to_string_with_offset(o)
    }
}

/// Why an instant could not be read.
#[derive(Clone, Debug, PartialEq, Eq)]
pub enum TimeParseError {
    NoSpace,
    DateError(DateError),
    OfDayError(ParseOfDayError),
    NoZone,
    ExpectedIntInZone,
    TzError(TzError),
    TzParseError(TzParseError),
    /// The instant lies outside what 64 bits of nanoseconds hold.
    OutOfRange,
}

/// What reading `s` as a zone offset `H`, `H:M` or `H:M:S` gives, in
/// nanoseconds.
pub open spec fn zone_offset_value(s: Seq<char>) -> Result<int, TimeParseError> {
    let n = s.len() as int;
    let c1 = find_char(s, ':', 0, n);
    let c2 = find_char(s, ':', c1 + 1, n);
    let c3 = find_char(s, ':', c2 + 1, n);
    let h = uint_at_most(s.subrange(0, c1), 255);
    if c1 == n {
        if h is None {
            Err(TimeParseError::ExpectedIntInZone)
        } else {
            Ok((h->0 * 3_600_000_000_000) as int)
        }
    } else {
        let m = uint_at_most(s.subrange(c1 + 1, c2), 255);
        if c2 == n {
            if h is None || m is None {
                Err(TimeParseError::ExpectedIntInZone)
            } else {
                Ok((h->0 * 3_600_000_000_000 + m->0 * 60_000_000_000) as int)
            }
        } else if c3 == n {
            let sec = uint_at_most(s.subrange(c2 + 1, n), 255);
            if h is None || m is None || sec is None {
                Err(TimeParseError::ExpectedIntInZone)
            } else {
                Ok((h->0 * 3_600_000_000_000 + m->0 * 60_000_000_000 + sec->0 * 1_000_000_000) as int)
            }
        } else {
            Err(TimeParseError::NoZone)
        }
    }
}

fn parse_zone_offset(s: &Vec<char>, from: usize, to: usize) -> (r: Result<i64, TimeParseError>)
    requires
        from <= to <= s@.len(),
    ensures
        r is Ok ==> 0 <= r->Ok_0 <= 1_000_000_000_000_000,
        match r {
            Ok(v) => zone_offset_value(s@.subrange(from as int, to as int)) == Ok::<
                int,
                TimeParseError,
            >(v as int),
            Err(e) => zone_offset_value(s@.subrange(from as int, to as int)) == Err::<
                int,
                TimeParseError,
            >(e),
        },
{
    let v = sub_chars(s, from, to);
    let n = v.len();
    let c1 = find(&v, ':', 0, n);
    let h = parse_uint(&v, 0, c1, 255);
    if c1 == n {
        return match h {
            Some(h) => Ok(h as i64 * 3_600_000_000_000),
            None => Err(TimeParseError::ExpectedIntInZone),
        };
    }
    let c2 = find(&v, ':', c1 + 1, n);
    let m = parse_uint(&v, c1 + 1, c2, 255);
    if c2 == n {
        return match (h, m) {
            (Some(h), Some(m)) => Ok(h as i64 * 3_600_000_000_000 + m as i64 * 60_000_000_000),
            _ => Err(TimeParseError::ExpectedIntInZone),
        };
    }
    let c3 = find(&v, ':', c2 + 1, n);
    if c3 != n {
        return Err(TimeParseError::NoZone);
    }
    let sec = parse_uint(&v, c2 + 1, n, 255);
    match (h, m, sec) {
        (Some(h), Some(m), Some(sec)) => Ok(
            h as i64 * 3_600_000_000_000 + m as i64 * 60_000_000_000 + sec as i64 * 1_000_000_000,
        ),
        _ => Err(TimeParseError::ExpectedIntInZone),
    }
}

/// Where the time of day ends in the text after the date, and how the zone
/// follows it: 0 for `Z` at the end, 1 for `+`, 2 for `-`, 3 for a space
/// and a zone name; none when there is no zone.
pub open spec fn zone_split(s: Seq<char>) -> Option<(int, int)> {
    let n = s.len() as int;
    let z = find_char(s, 'Z', 0, n);
    let p = find_char(s, '+', 0, n);
    let m = find_char(s, '-', 0, n);
    let sp = find_char(s, ' ', 0, n);
    if z < n && z == n - 1 {
        Some((z, 0))
    } else if p < n {
        Some((p, 1))
    } else if m < n {
        Some((m, 2))
    } else if sp < n {
        Some((sp, 3))
    } else {
        None
    }
}

/// Where the date ends in an instant's text: at the first space, or where
/// there is none, at the first `T`.
pub open spec fn date_end(s: Seq<char>) -> int {
    let sp = find_char(s, ' ', 0, s.len() as int);
    if sp < s.len() {
        sp
    } else {
        find_char(s, 'T', 0, s.len() as int)
    }
}

/// Whether error `e` is the error `v` of reading, the texts that errors
/// carry aside.
pub open spec fn time_error_matches(e: TimeParseError, v: TimeParseError) -> bool {
    match (e, v) {
        (TimeParseError::OfDayError(a), TimeParseError::OfDayError(b)) => ofday_parse_matches(
            Err(a),
            Err(b),
        ),
        (TimeParseError::TzParseError(_), TimeParseError::TzParseError(_)) => true,
        _ => e == v,
    }
}

/// Whether `r` is what reading `s` as an instant gives: the date, then the
/// time of day with its zone; an instant out of range is refused.
pub open spec fn time_parse_matches(r: Result<Time, TimeParseError>, s: Seq<char>) -> bool {
    let n = s.len() as int;
    let e = date_end(s);
    let rest = s.subrange(e + 1, n);
    if e >= n {
        r == Err::<Time, TimeParseError>(TimeParseError::NoSpace)
    } else {
        match date_text_value(s.subrange(0, e)) {
            Err(de) => r == Err::<Time, TimeParseError>(TimeParseError::DateError(de)),
            Ok(d) => ofday_zone_matches(r, rest, d),
        }
    }
}

/// Whether `r` is what reading `rest`, the text after date `d`, gives: the
/// time of day with its zone; an instant out of range is refused.
pub open spec fn ofday_zone_matches(r: Result<Time, TimeParseError>, rest: Seq<char>, d: (int, int, int)) -> bool {
    match zone_split(rest) {
        None => r == Err::<Time, TimeParseError>(TimeParseError::NoZone),
        Some((k, kind)) => match ofday_text_value(rest.subrange(0, k)) {
            Err(oe) => r is Err && time_error_matches(
                r->Err_0,
                TimeParseError::OfDayError(oe),
            ),
            Ok(o) => {
                let z = rest.subrange(k + 1, rest.len() as int);
                let lns = local_ns(d, o);
                if kind == 0 {
                    match r {
                        Ok(t) => t@ == lns,
                        Err(x) => x is OutOfRange && !in_i64(lns),
                    }
                } else if kind == 1 || kind == 2 {
                    match zone_offset_value(z) {
                        Err(ze) => r == Err::<Time, TimeParseError>(ze),
                        Ok(off) => {
                            let t = if kind == 1 {
                                lns + off
                            } else {
                                lns - off
                            };
                            match r {
                                Ok(x) => x@ == t,
                                Err(x) => x is OutOfRange && !(in_i64(lns) && in_i64(t)),
                            }
                        },
                    }
                } else {
                    match zone_of_name(z) {
                        None => r is Err && r->Err_0 is TzParseError,
                        Some(tz) => match r {
                            Err(TimeParseError::OutOfRange) => !local_ns_in_range(lns),
                            Ok(t) => local_ns_in_range(lns) && (exists|info: TzInfo|
                                #[trigger] is_near_table(tz, info, lns / 1_000_000_000)
                                    && matches_resolution(
                                    Ok(t),
                                    info.resolve(lns),
                                )) && (well_spaced(tz) ==> zone_resolves(tz, Ok(t), lns)),
                            Err(TimeParseError::TzError(te)) => local_ns_in_range(lns) && (
                            exists|info: TzInfo|
                                #[trigger] is_near_table(tz, info, lns / 1_000_000_000)
                                    && matches_resolution(
                                    Err(te),
                                    info.resolve(lns),
                                )) && (well_spaced(tz) ==> zone_resolves(tz, Err(te), lns)),
                            _ => false,
                        },
                    }
                }
            },
        },
    }
}

fn local_ns_exec(date: Date, ofday: OfDay) -> (r: i128)
    ensures
        r == local_ns(date@, ofday@),
        -1_000_000_000_000_000_000_000 <= r <= 1_000_000_000_000_000_000_000,
{
    let a = Days::of_date(date);
    let b = Days::of_date(Date::UNIX_EPOCH());
    let days = (a - b) as i128;
    let dn: i128 = 86_400_000_000_000;
    proof {
        assert(-4_000_000 <= days <= 4_000_000);
        assert(-400_000_000_000_000_000_000 <= days * dn <= 400_000_000_000_000_000_000)
            by (nonlinear_arith)
            requires
                -4_000_000 <= days <= 4_000_000,
                dn == 86_400_000_000_000,
        ;
    }
    days * dn + ofday.to_ns_since_midnight() as i128
}

impl Time {
    /// Reads an instant: a date, a space (or `T`), a time of day, and its
    /// zone: `Z`, an offset `+H[:M[:S]]` or `-H[:M[:S]]` added to or taken
    /// from the time read as UTC, or a space and a zone name.
    ///
    /// An offset suffix moves the instant in its own direction: `+01` gives
    /// the instant an hour after the time read as UTC. This is the reverse of
    /// the sign that `to_string_tz` writes for a clock ahead of UTC, so text
    /// with an offset written by `to_string_tz` does not read back to the
    /// same instant; text with a zone name or `Z` does.
    pub fn parse(text: &str) -> (r: Result<Time, TimeParseError>)
        ensures
            time_parse_matches(r, text@),
    {
        let s = chars_of(text);
        let n = s.len();
        let sp = find(&s, ' ', 0, n);
        let e = if sp < n {
            sp
        } else {
            find(&s, 'T', 0, n)
        };
        if e >= n {
            return Err(TimeParseError::NoSpace);
        }
        let dv = sub_chars(&s, 0, e);
        let date = match Date::parse_chars(&dv) {
            Ok(d) => d,
            Err(de) => {
                return Err(TimeParseError::DateError(de));
            },
        };
        let rest = sub_chars(&s, e + 1, n);
        Self::parse_ofday_with_zone(&rest, date)
    }

    fn parse_ofday_with_zone(rest: &Vec<char>, date: Date) -> (r: Result<Time, TimeParseError>)
        ensures
            ofday_zone_matches(r, rest@, date@),
    {
        let n = rest.len();
        let z = find(rest, 'Z', 0, n);
        let p = find(rest, '+', 0, n);
        let m = find(rest, '-', 0, n);
        let sp = find(rest, ' ', 0, n);
        let (k, kind): (usize, u8) = if z < n && z == n - 1 {
            (z, 0)
        } else if p < n {
            (p, 1)
        } else if m < n {
            (m, 2)
        } else if sp < n {
            (sp, 3)
        } else {
            return Err(TimeParseError::NoZone);
        };
        let ov = sub_chars(rest, 0, k);
        let ofday = match OfDay::parse_chars(&ov) {
            Ok(o) => o,
            Err(oe) => {
                return Err(TimeParseError::OfDayError(oe));
            },
        };
        let lns = local_ns_exec(date, ofday);
        if kind == 0 {
            if lns < i64::MIN as i128 || lns > i64::MAX as i128 {
                return Err(TimeParseError::OutOfRange);
            }
            return Ok(Time(lns as i64));
        }
        if kind == 1 || kind == 2 {
            let off = match parse_zone_offset(rest, k + 1, n) {
                Ok(off) => off,
                Err(ze) => {
                    return Err(ze);
                },
            };
            let t: i128 = if kind == 1 {
                lns + off as i128
            } else {
                lns - off as i128
            };
            if lns < i64::MIN as i128 || lns > i64::MAX as i128 || t < i64::MIN as i128 || t
                > i64::MAX as i128 {
                return Err(TimeParseError::OutOfRange);
            }
            return Ok(Time(t as i64));
        }
        let tz = match Tz::parse_chars(rest, k + 1, n) {
            Some(tz) => tz,
            None => {
                return Err(TimeParseError::TzParseError(TzParseError::UnknownZone(string_of(rest, k + 1, n))));
            },
        };
        if lns < i64::MIN as i128 + 2 * NS_PER_DAY as i128 || lns > i64::MAX as i128 - 2
            * NS_PER_DAY as i128 {
            return Err(TimeParseError::OutOfRange);
        }
        match Self::of_date_ofday(date, ofday, tz) {
            Ok(t) => Ok(t),
            Err(te) => Err(TimeParseError::TzError(te)),
        }
    }
}

impl core::str::FromStr for Time {
    type Err = TimeParseError;

    fn from_str(s: &str) -> Result<Time, TimeParseError> {
        Time::parse(s)
    }
}

/// Relies on `std::time::SystemTime::now`, read against `UNIX_EPOCH` with
/// `duration_since` and `as_nanos`: the nanoseconds since the epoch, or none
/// when the clock reads before it. The value is the time now, of which
/// nothing is known.
#[verifier::external_body]
fn clock_ns_since_epoch() -> (r: Option<u128>) {
    match std::time::SystemTime::now().duration_since(std::time::UNIX_EPOCH) {
        Ok(d) => Some(d.as_nanos()),
        Err(_) => None,
    }
}

impl Time {
    /// The time now, by the system clock; none when the clock reads before
    /// the epoch or past what 64 bits of nanoseconds hold.
    pub fn now() -> (r: Option<Time>)
        ensures
            r is Some ==> r->0@ >= 0,
    {
        match clock_ns_since_epoch() {
            Some(ns) => if ns <= i64::MAX as u128 {
                Some(Time(ns as i64))
            } else {
                None
            },
            None => None,
        }
    }
}

impl Date {
    /// The date now in `tz`, by the system clock; none where `Time::now`
    /// gives none.
    pub fn today(tz: Tz) -> (r: Option<Date>)
        ensures
            r is Some ==> exists|t: int|
                t >= 0 && (well_spaced(tz) ==> date_days(r->0@) == unix_epoch_days()
                    + #[trigger] zone_local_ns(tz, t) / day_ns()),
    {
        match Time::now() {
            Some(t) => if t.to_int_ns_since_epoch() <= i64::MAX - NS_PER_DAY {
                let d = t.to_date(tz);
                proof {
                    assert(zone_local_ns(tz, t@) == t@ + scan_total(tz, t@ / 1_000_000_000)
                        * 1_000_000_000);
                    assert(t@ >= 0 && (well_spaced(tz) ==> date_days(d@) == unix_epoch_days()
                        + zone_local_ns(tz, t@) / day_ns()));
                }
                Some(d)
            } else {
                None
            },
            None => None,
        }
    }
}

} // verus!
