//! The named zones and their schedules, read from the time-zone database.

use crate::timezone::{TzInfo, TzOffset, MIN_TRANSITION_GAP};
use chrono::TimeZone;
use chrono_tz::OffsetComponents;
use crate::text::chars_of;
use vstd::prelude::*;
use vstd::string::StrSliceExecFns;

verus! {

/// The first second of the span that zone tables are read over,
/// 1800-01-01 00:00:00Z.
pub const SCAN_START: i64 = -5_364_662_400;

/// The last sample of that span, 2100-01-01 00:00:00Z.
pub const SCAN_END: i64 = 4_102_444_800;

/// The named time zones that this library carries.
#[allow(non_camel_case_types)]
#[derive(Clone, Copy, PartialEq, Eq, Structural, Hash, Debug)]
pub enum Tz {
    /// America/New_York
    America__New_York,
    /// Asia/Hong_Kong
    Asia__Hong_Kong,
    /// Europe/London
    Europe__London,
    /// GMT
    GMT,
    /// UTC
    UTC,
}

/// Why a zone name could not be read.
#[derive(Clone, Debug, PartialEq, Eq)]
pub enum TzParseError {
    UnknownZone(String),
}

/// The standard and daylight-saving offsets, in seconds, that the time-zone
/// database gives for `zone` at UTC second `utc_sec`.
pub uninterp spec fn zone_offset(zone: Tz, utc_sec: int) -> (int, int);

/// Relies on chrono-tz's `offset_from_utc_datetime` with its
/// `base_utc_offset` and `dst_offset` components: the offset that the bundled
/// time-zone database puts in force at a UTC second, a function of the zone
/// and the second alone. `from_timestamp` accepts every second of the
/// required range.
#[verifier::external_body]
fn database_offset(zone: Tz, utc_sec: i64) -> (r: (i32, i32))
    requires
        -8_000_000_000_000 <= utc_sec <= 8_000_000_000_000,
    ensures
        r.0 as int == zone_offset(zone, utc_sec as int).0,
        r.1 as int == zone_offset(zone, utc_sec as int).1,
{
    let tz = match zone {
        Tz::America__New_York => chrono_tz::Tz::America__New_York,
        Tz::Asia__Hong_Kong => chrono_tz::Tz::Asia__Hong_Kong,
        Tz::Europe__London => chrono_tz::Tz::Europe__London,
        Tz::GMT => chrono_tz::Tz::GMT,
        Tz::UTC => chrono_tz::Tz::UTC,
    };
    let utc = chrono::DateTime::from_timestamp(utc_sec, 0).unwrap().naive_utc();
    let off = tz.offset_from_utc_datetime(&utc);
    (off.base_utc_offset().num_seconds() as i32, off.dst_offset().num_seconds() as i32)
}

/// Whether `o` is the database offset of `zone` at `sec`.
pub open spec fn is_offset_at(zone: Tz, sec: int, o: TzOffset) -> bool {
    o.utc_offset == zone_offset(zone, sec).0 && o.dst_offset == zone_offset(zone, sec).1
}

fn offset_of(zone: Tz, sec: i64) -> (r: TzOffset)
    requires
        SCAN_START <= sec <= SCAN_END + MIN_TRANSITION_GAP,
    ensures
        is_offset_at(zone, sec as int, r),
{
    let (u, d) = database_offset(zone, sec);
    TzOffset { utc_offset: u, dst_offset: d }
}

fn same_offset(a: TzOffset, b: TzOffset) -> (r: bool)
    ensures
        r == (a == b),
{
    a.utc_offset == b.utc_offset && a.dst_offset == b.dst_offset
}

fn bounded(o: TzOffset) -> (r: bool)
    ensures
        r == o.is_bounded(),
{
    let t = o.utc_offset as i64 + o.dst_offset as i64;
    -86_400 < t && t < 86_400
}

impl Tz {
    /// The zone's name in the time-zone database.
    pub fn name(self) -> (r: &'static str)
        ensures
            r@ == zone_name(self),
    {
        match self {
            Tz::America__New_York => "America/New_York",
            Tz::Asia__Hong_Kong => "Asia/Hong_Kong",
            Tz::Europe__London => "Europe/London",
            Tz::GMT => "GMT",
            Tz::UTC => "UTC",
        }
    }

    /// The zone's offset schedule, read from the time-zone database.
    ///
    /// The database is sampled every two days from 1800 to 2100 and each
    /// change is located to the second. Before 1800 the offset of 1800 holds,
    /// after 2100 the offset of 2100. Where the database's offsets are under
    /// a day and its changes at least two days apart (`well_spaced`), the
    /// schedule gives the database's offset at every second of that span. A
    /// change closer than two days to the last kept one, or to an offset of a
    /// day or more, is left out, as the schedule could not hold it.
    ///
    /// Building the schedule reads the database some 55,000 times; the
    /// conversions of `Time` that take a `Tz` build it on each call. To
    /// convert many instants, build it once and use the methods of `TzInfo`,
    /// whose lookups take logarithmic time.
    pub fn tz_info(self) -> (r: TzInfo)
        ensures
            is_zone_table(self, r),
    {
        self.tz_window(SCAN_START, SCAN_END)
    }

    /// The zone's offset schedule over the four days either side of second
    /// `sec` (within the span read), enough to convert instants near it.
    pub fn tz_near(self, sec: i64) -> (r: TzInfo)
        ensures
            is_near_table(self, r, sec as int),
    {
        let from = if sec < SCAN_START + NEAR {
            SCAN_START
        } else if sec > SCAN_END + NEAR {
            SCAN_END
        } else {
            sec - NEAR
        };
        let to = if sec > SCAN_END - NEAR {
            SCAN_END
        } else if sec < SCAN_START - NEAR {
            SCAN_START
        } else {
            sec + NEAR
        };
        self.tz_window(from, to)
    }

    /// The zone's offset schedule over the seconds `from` to `to`, read as
    /// `tz_info` reads the whole span: before `from` the offset at `from`
    /// holds, after `to` the offset at `to`.
    pub fn tz_window(self, from: i64, to: i64) -> (r: TzInfo)
        requires
            SCAN_START <= from <= to <= SCAN_END,
        ensures
            is_zone_window(self, r, from as int, to as int),
    {
        let start = offset_of(self, from);
        let first = if bounded(start) {
            start
        } else {
            TzOffset { utc_offset: 0, dst_offset: 0 }
        };
        let mut rest: Vec<(i64, TzOffset)> = Vec::new();
        let mut prev_sec: i64 = from;
        let mut prev = start;
        proof {
            if well_spaced(self) {
                assert(bounded_at(self, from as int));
            }
        }
        while prev_sec < to
            invariant
                SCAN_START <= from <= to <= SCAN_END,
                from <= prev_sec <= to,
                is_offset_at(self, prev_sec as int, prev),
                first.is_bounded(),
                is_offset_at(self, from as int, first) || first == (TzOffset {
                    utc_offset: 0,
                    dst_offset: 0,
                }),
                well_spaced(self) ==> is_offset_at(self, from as int, first),
                well_spaced(self) ==> forall|s: int|
                    from <= s <= prev_sec ==> is_offset_at(
                        self,
                        s,
                        #[trigger] seq_offset_at(first, rest@, s),
                    ),
                forall|i: int|
                    0 <= i < rest@.len() ==> from < #[trigger] rest@[i].0 <= prev_sec
                        && rest@[i].1.is_bounded() && is_offset_at(self, rest@[i].0 as int, rest@[i].1)
                        && !is_offset_at(self, rest@[i].0 - 1, rest@[i].1),
                forall|i: int, j: int|
                    0 <= i < j < rest@.len() ==> rest@[i].0 + MIN_TRANSITION_GAP <= rest@[j].0,
            decreases to - prev_sec,
        {
            let next_sec = if prev_sec + MIN_TRANSITION_GAP <= to {
                prev_sec + MIN_TRANSITION_GAP
            } else {
                to
            };
            let cur = offset_of(self, next_sec);
            if same_offset(cur, prev) {
                proof {
                    if well_spaced(self) {
                        lemma_constant(self, prev_sec as int, next_sec as int);
                        assert forall|s: int| from <= s <= next_sec implies is_offset_at(
                            self,
                            s,
                            #[trigger] seq_offset_at(first, rest@, s),
                        ) by {
                            if s > prev_sec {
                                lemma_seq_offset_tail(first, rest@, prev_sec as int, s);
                                assert(seq_offset_at(first, rest@, prev_sec as int) == prev);
                            }
                        }
                    }
                }
                prev_sec = next_sec;
            } else {
                let mut lo = prev_sec;
                let mut hi = next_sec;
                while hi - lo > 1
                    invariant
                        SCAN_START <= from <= to <= SCAN_END,
                        prev_sec <= lo < hi <= next_sec,
                        next_sec <= prev_sec + MIN_TRANSITION_GAP,
                        next_sec <= to,
                        from <= prev_sec < to,
                        is_offset_at(self, lo as int, prev),
                        !is_offset_at(self, hi as int, prev),
                    decreases hi - lo,
                {
                    let mid = lo + (hi - lo) / 2;
                    let at_mid = offset_of(self, mid);
                    if same_offset(at_mid, prev) {
                        lo = mid;
                    } else {
                        hi = mid;
                    }
                }
                let found = offset_of(self, hi);
                proof {
                    if well_spaced(self) {
                        lemma_constant(self, prev_sec as int, lo as int);
                        assert(changes_at(self, hi as int));
                        assert(bounded_at(self, hi as int));
                        if rest@.len() > 0 {
                            let c = rest@[rest@.len() - 1].0 as int;
                            assert(changes_at(self, c));
                        }
                    }
                }
                let far_enough = rest.len() == 0 || rest[rest.len() - 1].0 + MIN_TRANSITION_GAP <= hi;
                if far_enough && bounded(found) {
                    let ghost old_rest = rest@;
                    proof {
                        assert(!is_offset_at(self, hi - 1, found));
                    }
                    rest.push((hi, found));
                    proof {
                        if well_spaced(self) {
                            assert forall|s: int| from <= s <= hi implies is_offset_at(
                                self,
                                s,
                                #[trigger] seq_offset_at(first, rest@, s),
                            ) by {
                                lemma_seq_offset_push(first, old_rest, (hi, found), s);
                                if s < hi && s > prev_sec {
                                    lemma_seq_offset_tail(first, old_rest, prev_sec as int, s);
                                    assert(seq_offset_at(first, old_rest, prev_sec as int) == prev);
                                }
                                if s < hi && s <= prev_sec {
                                    assert(is_offset_at(self, s, seq_offset_at(first, old_rest, s)));
                                }
                            }
                        }
                    }
                }
                prev = found;
                prev_sec = hi;
            }
        }
        let r = TzInfo { first, rest };
        proof {
            assert forall|i: int, j: int| 0 <= i < j < r.len() implies #[trigger] r.start(i)
                + MIN_TRANSITION_GAP <= #[trigger] r.start(j) by {}
            assert forall|i: int| 0 <= i < r.len() implies (#[trigger] r.rest@[i]).1.is_bounded() by {
                assert(from < r.rest@[i].0);
            }
            if well_spaced(self) {
                assert forall|s: int| is_offset_at(self, clamp_to(s, from as int, to as int), #[trigger] r.offset_at(s)) by {
                    r.lemma_regime_of(s);
                    let p = r.regime_of(s);
                    assert forall|i: int, j: int| 0 <= i < j < r.rest@.len() implies r.rest@[i].0
                        < r.rest@[j].0 by {
                        assert(r.start(i) + MIN_TRANSITION_GAP <= r.start(j));
                    }
                    lemma_seq_regime(first, r.rest@, p, s);
                    if s < from {
                        lemma_seq_offset_below(first, r.rest@, s);
                    } else if s > to {
                        lemma_seq_offset_tail(first, r.rest@, to as int, s);
                    }
                }
            }
        }
        r
    }
}

/// `s` brought into the seconds `from` to `to`.
pub open spec fn clamp_to(s: int, from: int, to: int) -> int {
    if s < from {
        from
    } else if s > to {
        to
    } else {
        s
    }
}

/// `s` brought into the span that zone tables are read over.
pub open spec fn clamp_scan(s: int) -> int {
    clamp_to(s, SCAN_START as int, SCAN_END as int)
}

/// The database's offset of `zone` at `s`, held constant outside the span
/// that zone tables are read over.
pub open spec fn scan_offset(zone: Tz, s: int) -> (int, int) {
    zone_offset(zone, clamp_scan(s))
}

/// The total of `scan_offset`, in seconds.
pub open spec fn scan_total(zone: Tz, s: int) -> int {
    scan_offset(zone, s).0 + scan_offset(zone, s).1
}

/// The database's offset of `zone` changes at second `c`.
pub open spec fn changes_at(zone: Tz, c: int) -> bool {
    zone_offset(zone, c - 1) != zone_offset(zone, c)
}

/// The database's offset of `zone` at `s` is under a day in magnitude.
pub open spec fn bounded_at(zone: Tz, s: int) -> bool {
    -86_400 < zone_offset(zone, s).0 + zone_offset(zone, s).1 < 86_400
}

/// Over the span that zone tables are read over, the database's offsets of
/// `zone` are under a day, and its changes at least two days apart.
pub open spec fn well_spaced(zone: Tz) -> bool {
    &&& forall|s: int| SCAN_START <= s <= SCAN_END ==> #[trigger] bounded_at(zone, s)
    &&& forall|c1: int, c2: int|
        SCAN_START < c1 < c2 <= SCAN_END && #[trigger] changes_at(zone, c1) && #[trigger] changes_at(
            zone,
            c2,
        ) ==> c1 + MIN_TRANSITION_GAP <= c2
}

/// The offset that the transitions `rest` (ascending), after `first`, put
/// in force at `s`.
pub open spec fn seq_offset_at(first: TzOffset, rest: Seq<(i64, TzOffset)>, s: int) -> TzOffset
    decreases rest.len(),
{
    if rest.len() == 0 {
        first
    } else if rest.last().0 <= s {
        rest.last().1
    } else {
        seq_offset_at(first, rest.drop_last(), s)
    }
}

proof fn lemma_change_between(zone: Tz, a: int, s: int) -> (c: int)
    requires
        a < s,
        zone_offset(zone, a) != zone_offset(zone, s),
    ensures
        a < c <= s,
        changes_at(zone, c),
    decreases s - a,
{
    if zone_offset(zone, s - 1) != zone_offset(zone, s) {
        s
    } else {
        lemma_change_between(zone, a, s - 1)
    }
}

/// Between two seconds at most two days apart with the same offset, a
/// well-spaced database keeps that offset.
proof fn lemma_constant(zone: Tz, a: int, b: int)
    requires
        well_spaced(zone),
        SCAN_START <= a <= b <= SCAN_END,
        b - a <= MIN_TRANSITION_GAP,
        zone_offset(zone, a) == zone_offset(zone, b),
    ensures
        forall|s: int| a <= s <= b ==> zone_offset(zone, s) == zone_offset(zone, a),
{
    assert forall|s: int| a <= s <= b implies zone_offset(zone, s) == zone_offset(zone, a) by {
        if zone_offset(zone, s) != zone_offset(zone, a) {
            let c1 = lemma_change_between(zone, a, s);
            let c2 = lemma_change_between(zone, s, b);
            assert(changes_at(zone, c1) && changes_at(zone, c2));
        }
    }
}

proof fn lemma_seq_offset_tail(first: TzOffset, rest: Seq<(i64, TzOffset)>, a: int, s: int)
    requires
        a <= s,
        forall|i: int| 0 <= i < rest.len() ==> #[trigger] rest[i].0 <= a,
    ensures
        seq_offset_at(first, rest, s) == seq_offset_at(first, rest, a),
{
    if rest.len() > 0 {
        assert(rest.last().0 <= a);
    }
}

proof fn lemma_seq_offset_below(first: TzOffset, rest: Seq<(i64, TzOffset)>, s: int)
    requires
        forall|i: int| 0 <= i < rest.len() ==> #[trigger] rest[i].0 > s,
    ensures
        seq_offset_at(first, rest, s) == first,
    decreases rest.len(),
{
    if rest.len() > 0 {
        assert(rest.last().0 > s);
        assert forall|i: int| 0 <= i < rest.drop_last().len() implies #[trigger] rest.drop_last()[i].0
            > s by {
            assert(rest.drop_last()[i] == rest[i]);
        }
        lemma_seq_offset_below(first, rest.drop_last(), s);
    }
}

proof fn lemma_seq_offset_push(first: TzOffset, rest: Seq<(i64, TzOffset)>, e: (i64, TzOffset), s: int)
    ensures
        seq_offset_at(first, rest.push(e), s) == if e.0 <= s {
            e.1
        } else {
            seq_offset_at(first, rest, s)
        },
{
    assert(rest.push(e).drop_last() =~= rest);
}

proof fn lemma_seq_regime(first: TzOffset, rest: Seq<(i64, TzOffset)>, p: int, s: int)
    requires
        forall|i: int, j: int| 0 <= i < j < rest.len() ==> rest[i].0 < rest[j].0,
        0 <= p <= rest.len(),
        p == 0 || rest[p - 1].0 <= s,
        p == rest.len() || s < rest[p].0,
    ensures
        seq_offset_at(first, rest, s) == if p == 0 {
            first
        } else {
            rest[p - 1].1
        },
    decreases rest.len(),
{
    if rest.len() > 0 {
        let n = rest.len() - 1;
        if rest.last().0 <= s {
            if p < rest.len() {
                if p < n {
                    assert(rest[p].0 < rest[n].0);
                }
            }
        } else {
            let d = rest.drop_last();
            assert forall|i: int, j: int| 0 <= i < j < d.len() implies d[i].0 < d[j].0 by {
                assert(d[i] == rest[i] && d[j] == rest[j]);
            }
            if p > 0 {
                assert(d[p - 1] == rest[p - 1]);
            }
            if p < n {
                assert(d[p] == rest[p]);
            }
            lemma_seq_regime(first, d, p, s);
        }
    }
}

/// A well-formed schedule for `zone` over the seconds `from` to `to`: its
/// first offset is the database's at `from` (or zero, where that is a day or
/// more), each of its transitions is a change of the database's offset, at
/// that very second, to the transition's offset; and, for a well-spaced
/// database, it gives the database's offset at every second from `from` to
/// `to` (held constant outside).
pub open spec fn is_zone_window(zone: Tz, r: TzInfo, from: int, to: int) -> bool {
    &&& r.wf()
    &&& is_offset_at(zone, from, r.first) || r.first == (TzOffset { utc_offset: 0, dst_offset: 0 })
    &&& forall|i: int|
        0 <= i < r.rest@.len() ==> from < #[trigger] r.rest@[i].0 <= to && is_offset_at(
            zone,
            r.rest@[i].0 as int,
            r.rest@[i].1,
        ) && !is_offset_at(zone, r.rest@[i].0 - 1, r.rest@[i].1)
    &&& well_spaced(zone) ==> forall|s: int|
        is_offset_at(zone, clamp_to(s, from, to), #[trigger] r.offset_at(s))
}

/// How far, in seconds, a schedule built near an instant reaches either side.
pub const NEAR: i64 = 345_600;

/// A schedule for `zone` over the four days either side of second `sec`,
/// kept within the span read.
pub open spec fn is_near_table(zone: Tz, r: TzInfo, sec: int) -> bool {
    is_zone_window(zone, r, clamp_scan(sec - NEAR), clamp_scan(sec + NEAR))
}

/// A schedule for `zone` over the whole span read, 1800 to 2100.
pub open spec fn is_zone_table(zone: Tz, r: TzInfo) -> bool {
    is_zone_window(zone, r, SCAN_START as int, SCAN_END as int)
}

/// The database names of the zones.
pub open spec fn zone_name(z: Tz) -> Seq<char> {
    match z {
        Tz::America__New_York => "America/New_York"@,
        Tz::Asia__Hong_Kong => "Asia/Hong_Kong"@,
        Tz::Europe__London => "Europe/London"@,
        Tz::GMT => "GMT"@,
        Tz::UTC => "UTC"@,
    }
}

/// The zone with the given database name.
pub open spec fn zone_of_name(s: Seq<char>) -> Option<Tz> {
    if s == zone_name(Tz::America__New_York) {
        Some(Tz::America__New_York)
    } else if s == zone_name(Tz::Asia__Hong_Kong) {
        Some(Tz::Asia__Hong_Kong)
    } else if s == zone_name(Tz::Europe__London) {
        Some(Tz::Europe__London)
    } else if s == zone_name(Tz::GMT) {
        Some(Tz::GMT)
    } else if s == zone_name(Tz::UTC) {
        Some(Tz::UTC)
    } else {
        None
    }
}

fn same_text(a: &Vec<char>, from: usize, to: usize, b: &str) -> (r: bool)
    requires
        from <= to <= a@.len(),
    ensures
        r == (a@.subrange(from as int, to as int) == b@),
{
    let bv = chars_of(b);
    if to - from != bv.len() {
        return false;
    }
    let mut i: usize = 0;
    while i < bv.len()
        invariant
            to - from == bv@.len(),
            from <= to <= a@.len(),
            0 <= i <= bv@.len(),
            bv@ == b@,
            forall|k: int| 0 <= k < i ==> a@[from + k] == bv@[k],
        decreases bv@.len() - i,
    {
        if a[from + i] != bv[i] {
            proof {
                assert(a@.subrange(from as int, to as int)[i as int] != b@[i as int]);
            }
            return false;
        }
        i = i + 1;
    }
    proof {
        assert(a@.subrange(from as int, to as int) =~= b@);
    }
    true
}

impl Tz {
    /// The zone named `v[from..to]`.
    pub fn parse_chars(v: &Vec<char>, from: usize, to: usize) -> (r: Option<Tz>)
        requires
            from <= to <= v@.len(),
        ensures
            r == zone_of_name(v@.subrange(from as int, to as int)),
    {
        proof {
            reveal_strlit("America/New_York");
            reveal_strlit("Asia/Hong_Kong");
            reveal_strlit("Europe/London");
            reveal_strlit("GMT");
            reveal_strlit("UTC");
        }
        if same_text(v, from, to, "America/New_York") {
            Some(Tz::America__New_York)
        } else if same_text(v, from, to, "Asia/Hong_Kong") {
            Some(Tz::Asia__Hong_Kong)
        } else if same_text(v, from, to, "Europe/London") {
            Some(Tz::Europe__London)
        } else if same_text(v, from, to, "GMT") {
            Some(Tz::GMT)
        } else if same_text(v, from, to, "UTC") {
            Some(Tz::UTC)
        } else {
            None
        }
    }

    /// The zone with the given database name.
    pub fn parse(name: &str) -> (r: Result<Tz, TzParseError>)
        ensures
            match r {
                Ok(z) => zone_of_name(name@) == Some(z),
                Err(TzParseError::UnknownZone(t)) => zone_of_name(name@) is None && t@ == name@,
            },
    {
        let v = chars_of(name);
        match Tz::parse_chars(&v, 0, v.len()) {
            Some(z) => {
                proof {
                    assert(v@.subrange(0, v@.len() as int) =~= name@);
                }
                Ok(z)
            },
            None => {
                proof {
                    assert(v@.subrange(0, v@.len() as int) =~= name@);
                }
                Err(TzParseError::UnknownZone(name.to_owned()))
            },
        }
    }
}

impl core::str::FromStr for Tz {
    type Err = TzParseError;

    fn from_str(s: &str) -> Result<Tz, TzParseError> {
        Tz::parse(s)
    }
}

} // verus!
