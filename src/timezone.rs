//! Offset schedules of time zones: the offset in force at an instant, and
//! the instants that a local wall-clock time stands for.

use crate::span::{div_mod_floor, Span, NS_PER_SEC};
use crate::date::{date_days, unix_epoch_days, Date};
use crate::ofday::{day_ns, OfDay};
use crate::time::{local_ns, Time};
use crate::span::NS_PER_DAY;
use vstd::prelude::*;

verus! {

broadcast use crate::span::lemma_span_range;

/// Seconds in one day: every offset of a zone table is smaller than this in
/// magnitude.
pub const SEC_PER_DAY: i64 = 86_400;

/// The least distance, in seconds, between two transitions of a zone table.
pub const MIN_TRANSITION_GAP: i64 = 172_800;

/// Nanoseconds in one second, as a spec constant.
pub open spec fn ns_per_sec() -> int {
    1_000_000_000
}

/// Local nanosecond values whose candidate instants all fit an `i64`.
pub open spec fn local_ns_in_range(lns: int) -> bool {
    i64::MIN + 2 * 86_400_000_000_000 <= lns <= i64::MAX - 2 * 86_400_000_000_000
}

/// An offset from UTC in seconds, split into a standard part and a daylight
/// saving part; the two always act through their sum.
#[derive(Clone, Copy, PartialEq, Eq, Structural, Debug)]
pub struct TzOffset {
    pub utc_offset: i32,
    pub dst_offset: i32,
}

impl TzOffset {
    pub open spec fn total(self) -> int {
        self.utc_offset + self.dst_offset
    }

    /// The total offset is less than a day in magnitude.
    pub open spec fn is_bounded(self) -> bool {
        -86_400 < self.total() < 86_400
    }

    /// The zero offset.
    #[allow(non_snake_case)]
    pub fn ZERO() -> (r: TzOffset)
        ensures
            r.utc_offset == 0,
            r.dst_offset == 0,
    {
        TzOffset { utc_offset: 0, dst_offset: 0 }
    }

    /// The total offset in seconds.
    pub fn total_offset_sec(&self) -> (r: i32)
        requires
            i32::MIN <= self.total() <= i32::MAX,
        ensures
            r == self.total(),
    {
        self.utc_offset + self.dst_offset
    }
}

/// Why a local date and time of day has no single instant in a zone.
#[derive(Clone, Debug, PartialEq, Eq, Structural)]
pub enum TzError {
    /// The local time was skipped when the clocks moved forward.
    NoTimeInThisTz,
    /// The local time happened twice when the clocks moved back; both
    /// instants, earlier first.
    TwoTimesInThisTz(Time, Time),
}

/// How a local time maps back to instants, in nanoseconds since the epoch.
pub enum Resolution {
    Missing,
    Unique(int),
    Ambiguous(int, int),
}

/// The first two present values among three, in order.
pub open spec fn pick(a: Option<int>, b: Option<int>, c: Option<int>) -> Resolution {
    if a is Some && b is Some {
        Resolution::Ambiguous(a->0, b->0)
    } else if a is Some && c is Some {
        Resolution::Ambiguous(a->0, c->0)
    } else if b is Some && c is Some {
        Resolution::Ambiguous(b->0, c->0)
    } else if a is Some {
        Resolution::Unique(a->0)
    } else if b is Some {
        Resolution::Unique(b->0)
    } else if c is Some {
        Resolution::Unique(c->0)
    } else {
        Resolution::Missing
    }
}

/// Whether a result of a local-to-instant conversion is the resolution `res`.
pub open spec fn matches_resolution(r: Result<Time, TzError>, res: Resolution) -> bool {
    match r {
        Ok(t) => res == Resolution::Unique(t@),
        Err(TzError::NoTimeInThisTz) => res == Resolution::Missing,
        Err(TzError::TwoTimesInThisTz(a, b)) => res == Resolution::Ambiguous(a@, b@),
    }
}

/// The offset schedule of a time zone: `first` is in force before the first
/// transition; each `(start, offset)` of `rest` is in force from second
/// `start` (UTC) up to the next transition.
///
/// Regime `0` is the span of `first`; regime `p > 0` is the span of
/// `rest[p - 1]`.
#[derive(Clone, Debug)]
pub struct TzInfo {
    pub first: TzOffset,
    pub rest: Vec<(i64, TzOffset)>,
}

impl TzInfo {
    pub open spec fn len(&self) -> int {
        self.rest@.len() as int
    }

    pub open spec fn start(&self, i: int) -> int {
        self.rest@[i].0 as int
    }

    /// Offsets below a day in magnitude, and transitions ascending and at
    /// least two days apart.
    pub open spec fn wf(&self) -> bool {
        &&& self.first.is_bounded()
        &&& forall|i: int| 0 <= i < self.len() ==> (#[trigger] self.rest@[i]).1.is_bounded()
        &&& forall|i: int, j: int|
            0 <= i < j < self.len() ==> #[trigger] self.start(i) + MIN_TRANSITION_GAP
                <= #[trigger] self.start(j)
    }

    pub open spec fn regime_offset(&self, p: int) -> TzOffset {
        if p == 0 {
            self.first
        } else {
            self.rest@[p - 1].1
        }
    }

    /// Second `sec` (UTC) lies in regime `p`.
    pub open spec fn in_regime(&self, p: int, sec: int) -> bool {
        &&& 0 <= p <= self.len()
        &&& (p == 0 || self.start(p - 1) <= sec)
        &&& (p == self.len() || sec < self.start(p))
    }

    /// The regime that second `sec` lies in.
    pub open spec fn regime_of(&self, sec: int) -> int {
        choose|p: int| self.in_regime(p, sec)
    }

    /// The offset in force at second `sec` (UTC).
    pub open spec fn offset_at(&self, sec: int) -> TzOffset {
        self.regime_offset(self.regime_of(sec))
    }

    /// The instant, in nanoseconds, that local time `lns` would be if regime
    /// `p` were in force, when that instant does lie in regime `p`.
    pub open spec fn candidate(&self, p: int, lns: int) -> Option<int> {
        let t = lns / ns_per_sec() - self.regime_offset(p).total();
        if self.in_regime(p, t) {
            Some(t * ns_per_sec() + lns % ns_per_sec())
        } else {
            None
        }
    }

    /// The instants whose local time is `lns`, found among the regime that
    /// `lns` falls in when read as UTC and its two neighbours.
    pub open spec fn resolve(&self, lns: int) -> Resolution {
        let p = self.regime_of(lns / ns_per_sec());
        pick(
            if p >= 1 {
                self.candidate(p - 1, lns)
            } else {
                None
            },
            self.candidate(p, lns),
            self.candidate(p + 1, lns),
        )
    }

    pub proof fn lemma_regime_unique(&self, p: int, q: int, sec: int)
        requires
            self.wf(),
            self.in_regime(p, sec),
            self.in_regime(q, sec),
        ensures
            p == q,
    {
        if p < q {
            if p < q - 1 {
                assert(self.start(p) + MIN_TRANSITION_GAP <= self.start(q - 1));
            }
        } else if q < p {
            if q < p - 1 {
                assert(self.start(q) + MIN_TRANSITION_GAP <= self.start(p - 1));
            }
        }
    }

    proof fn lemma_regime_exists_upto(&self, sec: int, n: int)
        requires
            self.wf(),
            0 <= n <= self.len(),
            n == self.len() || sec < self.start(n),
        ensures
            exists|p: int| self.in_regime(p, sec),
        decreases n,
    {
        if n == 0 {
            assert(self.in_regime(0, sec));
        } else if self.start(n - 1) <= sec {
            assert(self.in_regime(n, sec));
        } else {
            self.lemma_regime_exists_upto(sec, n - 1);
        }
    }

    /// Every second lies in exactly one regime.
    pub proof fn lemma_regime_of(&self, sec: int)
        requires
            self.wf(),
        ensures
            self.in_regime(self.regime_of(sec), sec),
            forall|p: int| self.in_regime(p, sec) ==> p == self.regime_of(sec),
    {
        self.lemma_regime_exists_upto(sec, self.len());
        assert forall|p: int| self.in_regime(p, sec) implies p == self.regime_of(sec) by {
            self.lemma_regime_unique(p, self.regime_of(sec), sec);
        }
    }

    /// No local time has a candidate in three neighbouring regimes.
    pub proof fn lemma_no_three_candidates(&self, p: int, lns: int)
        requires
            self.wf(),
            1 <= p,
        ensures
            !(self.candidate(p - 1, lns) is Some && self.candidate(p + 1, lns) is Some),
    {
        let lsec = lns / ns_per_sec();
        if self.candidate(p - 1, lns) is Some && self.candidate(p + 1, lns) is Some {
            assert(self.rest@[p].1.is_bounded());
            if p >= 2 {
                assert(self.rest@[p - 2].1.is_bounded());
            }
            assert(self.start(p - 1) + MIN_TRANSITION_GAP <= self.start(p));
        }
    }

    /// The local time, in nanoseconds read as UTC, of instant `t` on this
    /// zone's wall clock.
    pub open spec fn local_of(&self, t: int) -> int {
        t + self.offset_at(t / ns_per_sec()).total() * ns_per_sec()
    }

    /// Every instant whose local time is `lns` is the candidate of its own
    /// regime, which is next to the regime that `lns` falls in read as UTC.
    proof fn lemma_solution_is_candidate(&self, lns: int, t: int)
        requires
            self.wf(),
            self.local_of(t) == lns,
        ensures
            self.candidate(self.regime_of(t / ns_per_sec()), lns) == Some(t),
            self.regime_of(lns / ns_per_sec()) - 1 <= self.regime_of(t / ns_per_sec())
                <= self.regime_of(lns / ns_per_sec()) + 1,
    {
        let ts = t / ns_per_sec();
        let sub = t % ns_per_sec();
        let pt = self.regime_of(ts);
        self.lemma_regime_of(ts);
        let o = self.offset_at(ts).total();
        if pt > 0 {
            assert(self.rest@[pt - 1].1.is_bounded());
        }
        vstd::arithmetic::div_mod::lemma_fundamental_div_mod(t, ns_per_sec());
        assert(lns == ns_per_sec() * (ts + o) + sub) by (nonlinear_arith)
            requires
                lns == t + o * ns_per_sec(),
                t == ns_per_sec() * ts + sub,
        ;
        vstd::arithmetic::div_mod::lemma_fundamental_div_mod_converse(
            lns,
            ns_per_sec(),
            ts + o,
            sub,
        );
        let lsec = ts + o;
        let p = self.regime_of(lsec);
        self.lemma_regime_of(lsec);
        if p >= pt + 2 {
            assert(self.start(pt) + MIN_TRANSITION_GAP <= self.start(p - 1));
        }
        if p + 2 <= pt {
            assert(self.start(p) + MIN_TRANSITION_GAP <= self.start(pt - 1));
        }
    }

    /// Every candidate is an instant whose local time is `lns`.
    proof fn lemma_candidate_is_solution(&self, p: int, lns: int)
        requires
            self.wf(),
            self.candidate(p, lns) is Some,
        ensures
            self.local_of(self.candidate(p, lns)->0) == lns,
    {
        let lsec = lns / ns_per_sec();
        let sub = lns % ns_per_sec();
        let tc = lsec - self.regime_offset(p).total();
        let v = tc * ns_per_sec() + sub;
        vstd::arithmetic::div_mod::lemma_fundamental_div_mod(lns, ns_per_sec());
        vstd::arithmetic::div_mod::lemma_mod_bound(lns, ns_per_sec());
        vstd::arithmetic::div_mod::lemma_fundamental_div_mod_converse(v, ns_per_sec(), tc, sub);
        self.lemma_regime_of(tc);
        assert(self.regime_of(tc) == p);
        assert(v + self.regime_offset(p).total() * ns_per_sec() == lns) by (nonlinear_arith)
            requires
                v == tc * ns_per_sec() + sub,
                tc == lsec - self.regime_offset(p).total(),
                lns == ns_per_sec() * lsec + sub,
        ;
    }

    /// Candidates of later regimes are later instants.
    proof fn lemma_candidates_ordered(&self, q1: int, q2: int, lns: int)
        requires
            self.wf(),
            q1 < q2,
            self.candidate(q1, lns) is Some,
            self.candidate(q2, lns) is Some,
        ensures
            self.candidate(q1, lns)->0 < self.candidate(q2, lns)->0,
    {
        let lsec = lns / ns_per_sec();
        let t1 = lsec - self.regime_offset(q1).total();
        let t2 = lsec - self.regime_offset(q2).total();
        if q1 < q2 - 1 {
            assert(self.start(q1) + MIN_TRANSITION_GAP <= self.start(q2 - 1));
        }
        assert(t1 < t2);
        assert(t1 * ns_per_sec() < t2 * ns_per_sec()) by (nonlinear_arith)
            requires
                t1 < t2,
        ;
    }

    /// What `resolve` lists: the one instant whose local time is `lns`, the
    /// two such instants in order, or none where there is none.
    pub proof fn lemma_resolve_meaning(&self, lns: int)
        requires
            self.wf(),
        ensures
            match self.resolve(lns) {
                Resolution::Unique(v) => self.local_of(v) == lns && forall|t: int|
                    #[trigger] self.local_of(t) == lns ==> t == v,
                Resolution::Ambiguous(a, b) => a < b && self.local_of(a) == lns && self.local_of(b)
                    == lns && forall|t: int| #[trigger] self.local_of(t) == lns ==> t == a || t == b,
                Resolution::Missing => forall|t: int| #[trigger] self.local_of(t) != lns,
            },
    {
        let p = self.regime_of(lns / ns_per_sec());
        let c0 = if p >= 1 {
            self.candidate(p - 1, lns)
        } else {
            None
        };
        let c1 = self.candidate(p, lns);
        let c2 = self.candidate(p + 1, lns);
        if p >= 1 {
            self.lemma_no_three_candidates(p, lns);
            if c0 is Some {
                self.lemma_candidate_is_solution(p - 1, lns);
            }
            if c0 is Some && c1 is Some {
                self.lemma_candidates_ordered(p - 1, p, lns);
            }
        }
        if c1 is Some {
            self.lemma_candidate_is_solution(p, lns);
        }
        if c2 is Some {
            self.lemma_candidate_is_solution(p + 1, lns);
        }
        if c1 is Some && c2 is Some {
            self.lemma_candidates_ordered(p, p + 1, lns);
        }
        if p >= 1 && c0 is Some && c2 is Some {
            self.lemma_candidates_ordered(p - 1, p + 1, lns);
        }
        assert forall|t: int| #[trigger] self.local_of(t) == lns implies (p >= 1 && c0 == Some(t))
            || c1 == Some(t) || c2 == Some(t) by {
            self.lemma_solution_is_candidate(lns, t);
            let pt = self.regime_of(t / ns_per_sec());
            self.lemma_regime_of(t / ns_per_sec());
        }
    }

    /// Reading an instant on this zone's wall clock and converting that local
    /// time back gives the instant again; where the local time is repeated by
    /// a backward clock change, the instant is one of the two reported.
    pub proof fn lemma_local_round_trip(&self, t: int)
        requires
            self.wf(),
        ensures
            ({
                let lns = t + self.offset_at(t / ns_per_sec()).total() * ns_per_sec();
                match self.resolve(lns) {
                    Resolution::Unique(v) => v == t,
                    Resolution::Ambiguous(a, b) => a == t || b == t,
                    Resolution::Missing => false,
                }
            }),
    {
        let ts = t / ns_per_sec();
        let sub = t % ns_per_sec();
        let pt = self.regime_of(ts);
        self.lemma_regime_of(ts);
        let o = self.offset_at(ts).total();
        if pt > 0 {
            assert(self.rest@[pt - 1].1.is_bounded());
        }
        let lns = t + o * ns_per_sec();
        vstd::arithmetic::div_mod::lemma_fundamental_div_mod(t, ns_per_sec());
        assert(lns == ns_per_sec() * (ts + o) + sub) by (nonlinear_arith)
            requires
                lns == t + o * ns_per_sec(),
                t == ns_per_sec() * ts + sub,
        ;
        vstd::arithmetic::div_mod::lemma_fundamental_div_mod_converse(
            lns,
            ns_per_sec(),
            ts + o,
            sub,
        );
        let lsec = ts + o;
        let p = self.regime_of(lsec);
        self.lemma_regime_of(lsec);
        if p >= pt + 2 {
            assert(self.start(pt) + MIN_TRANSITION_GAP <= self.start(p - 1));
        }
        if p + 2 <= pt {
            assert(self.start(p) + MIN_TRANSITION_GAP <= self.start(pt - 1));
        }
        assert(self.candidate(pt, lns) == Some(t));
        if p >= 1 {
            self.lemma_no_three_candidates(p, lns);
        }
    }

    /// The regime that second `sec` lies in, by binary search.
    fn regime_index(&self, sec: i64) -> (r: usize)
        requires
            self.wf(),
        ensures
            r == self.regime_of(sec as int),
    {
        let mut lo: usize = 0;
        let mut hi: usize = self.rest.len();
        while lo < hi
            invariant
                0 <= lo <= hi <= self.rest@.len(),
                forall|i: int| 0 <= i < lo ==> self.rest@[i].0 <= sec,
                forall|i: int| hi <= i < self.rest@.len() ==> self.rest@[i].0 > sec,
                self.wf(),
            decreases hi - lo,
        {
            let mid = lo + (hi - lo) / 2;
            if self.rest[mid].0 <= sec {
                assert forall|i: int| 0 <= i < mid + 1 implies self.rest@[i].0 <= sec by {
                    if i < mid {
                        assert(self.start(i) + MIN_TRANSITION_GAP <= self.start(mid as int));
                    }
                }
                lo = mid + 1;
            } else {
                assert forall|i: int| mid <= i < self.rest@.len() implies self.rest@[i].0 > sec by {
                    if i > mid {
                        assert(self.start(mid as int) + MIN_TRANSITION_GAP <= self.start(i));
                    }
                }
                hi = mid;
            }
        }
        proof {
            assert(self.in_regime(lo as int, sec as int));
            self.lemma_regime_of(sec as int);
        }
        lo
    }

    /// The offset in force at `time`.
    pub fn find(&self, time: Time) -> (r: &TzOffset)
        requires
            self.wf(),
        ensures
            *r == self.offset_at(time@ / ns_per_sec()),
    {
        let (sec, _) = div_mod_floor(time.to_int_ns_since_epoch(), NS_PER_SEC);
        let index = self.regime_index(sec);
        proof {
            self.lemma_regime_of(sec as int);
        }
        if index == 0 {
            &self.first
        } else {
            &self.rest[index - 1].1
        }
    }

    /// The total offset in force at `time`, as a span.
    pub fn offset(&self, time: Time) -> (r: Span)
        requires
            self.wf(),
        ensures
            r@ == self.offset_at(time@ / ns_per_sec()).total() * ns_per_sec(),
    {
        let fixed_timespan = self.find(time);
        proof {
            self.lemma_regime_of(time@ / ns_per_sec());
            if self.regime_of(time@ / ns_per_sec()) > 0 {
                let k = self.regime_of(time@ / ns_per_sec()) - 1;
                assert(self.rest@[k].1.is_bounded());
            }
        }
        Span::of_int_sec(fixed_timespan.total_offset_sec() as i64)
    }

    /// The instant that local second `gmt_sec` (and `nanosecond` past it)
    /// stands for under regime `next_i`, if that instant lies in the regime.
    fn valid_time(&self, gmt_sec: i64, nanosecond: i64, next_i: usize) -> (r: Option<Time>)
        requires
            self.wf(),
            0 <= nanosecond < ns_per_sec(),
            local_ns_in_range(gmt_sec * ns_per_sec() + nanosecond),
        ensures
            match r {
                Some(t) => self.candidate(next_i as int, gmt_sec * ns_per_sec() + nanosecond)
                    == Some(t@),
                None => next_i > self.len() || self.candidate(
                    next_i as int,
                    gmt_sec * ns_per_sec() + nanosecond,
                ) is None,
            },
    {
        let ghost lns = gmt_sec * ns_per_sec() + nanosecond;
        proof {
            vstd::arithmetic::div_mod::lemma_fundamental_div_mod_converse(
                lns,
                ns_per_sec(),
                gmt_sec as int,
                nanosecond as int,
            );
        }
        if next_i > self.rest.len() {
            return None;
        }
        let tz_info = if next_i == 0 {
            self.first
        } else {
            self.rest[next_i - 1].1
        };
        proof {
            if next_i > 0 {
                assert(self.rest@[next_i - 1].1.is_bounded());
            }
        }
        let off = tz_info.total_offset_sec() as i64;
        let sec = gmt_sec - off;
        let lower_ok = next_i == 0 || sec >= self.rest[next_i - 1].0;
        if lower_ok && (self.rest.len() == next_i || sec < self.rest[next_i].0) {
            proof {
                assert(sec * ns_per_sec() == gmt_sec * ns_per_sec() - off * ns_per_sec())
                    by (nonlinear_arith)
                    requires
                        sec == gmt_sec - off,
                ;
            }
            Some(Time::of_int_ns_since_epoch(sec * NS_PER_SEC + nanosecond))
        } else {
            None
        }
    }

    /// The instants whose local time is `local_ns` nanoseconds past the
    /// epoch, read on a wall clock of this zone.
    pub fn resolve_local_ns(&self, local_ns: i64) -> (r: Result<Time, TzError>)
        requires
            self.wf(),
            local_ns_in_range(local_ns as int),
        ensures
            matches_resolution(r, self.resolve(local_ns as int)),
    {
        let (gmt_sec, nanosecond) = div_mod_floor(local_ns, NS_PER_SEC);
        proof {
            vstd::arithmetic::div_mod::lemma_fundamental_div_mod(local_ns as int, ns_per_sec());
            assert(gmt_sec * ns_per_sec() + nanosecond == local_ns);
        }
        let next_i = self.regime_index(gmt_sec);
        proof {
            self.lemma_regime_of(gmt_sec as int);
        }
        let t0 = if next_i == 0 {
            None
        } else {
            self.valid_time(gmt_sec, nanosecond, next_i - 1)
        };
        let t1 = self.valid_time(gmt_sec, nanosecond, next_i);
        let t2 = if next_i < self.rest.len() {
            self.valid_time(gmt_sec, nanosecond, next_i + 1)
        } else {
            None
        };
        proof {
            if next_i == self.rest.len() {
                assert(self.candidate(next_i + 1, local_ns as int) is None);
            }
        }
        match (t0, t1, t2) {
            (None, None, None) => Err(TzError::NoTimeInThisTz),
            (Some(v), None, None) => Ok(v),
            (None, Some(v), None) => Ok(v),
            (None, None, Some(v)) => Ok(v),
            (Some(v1), Some(v2), _) => Err(TzError::TwoTimesInThisTz(v1, v2)),
            (Some(v1), None, Some(v2)) => Err(TzError::TwoTimesInThisTz(v1, v2)),
            (None, Some(v1), Some(v2)) => Err(TzError::TwoTimesInThisTz(v1, v2)),
        }
    }

    /// The local date and time of day of `time` on this zone's wall clock.
    pub fn time_to_date_ofday(&self, time: Time) -> (r: (Date, OfDay))
        requires
            self.wf(),
            i64::MIN + day_ns() <= time@ <= i64::MAX - day_ns(),
        ensures
            local_ns(r.0@, r.1@) == time@ + self.offset_at(time@ / ns_per_sec()).total()
                * ns_per_sec(),
            0 <= r.1@ < day_ns(),
    {
        let offset = self.offset(time);
        proof {
            self.lemma_regime_of(time@ / ns_per_sec());
            if self.regime_of(time@ / ns_per_sec()) > 0 {
                let k = self.regime_of(time@ / ns_per_sec()) - 1;
                assert(self.rest@[k].1.is_bounded());
            }
        }
        let shifted = Time::of_int_ns_since_epoch(time.to_int_ns_since_epoch() + offset.to_int_ns());
        shifted.to_date_ofday_gmt()
    }

    /// The instant whose local time on this zone's wall clock is `ofday` on
    /// `date`: none where the clocks skipped that time, two where they
    /// repeated it.
    pub fn date_ofday_to_time(&self, date: Date, ofday: OfDay) -> (r: Result<Time, TzError>)
        requires
            self.wf(),
            local_ns_in_range(local_ns(date@, ofday@)),
        ensures
            matches_resolution(r, self.resolve(local_ns(date@, ofday@))),
    {
        let days = (date - Date::UNIX_EPOCH()) as i64;
        let o = ofday.to_ns_since_midnight();
        proof {
            assert(days * day_ns() == local_ns(date@, ofday@) - o);
        }
        let gmt_ns = days * NS_PER_DAY + o;
        self.resolve_local_ns(gmt_ns)
    }

    /// The zone with no offset at any time.
    #[allow(non_snake_case)]
    pub fn GMT() -> (r: TzInfo)
        ensures
            r.wf(),
            r.first.total() == 0,
            r.rest@.len() == 0,
    {
        TzInfo { first: TzOffset::ZERO(), rest: Vec::new() }
    }
}

} // verus!
