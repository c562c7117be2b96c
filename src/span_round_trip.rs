//! Reading back the text of a span gives the span.

use crate::span::{
    in_i64, reader_start, span_run, span_step, span_text, span_text_value, sub_minute_text,
    unit_text, SpanReader,
};
use crate::text::{
    all_digits, dec, digit_value, digits_value, frac_text, is_digit, lemma_digits_value_bound,
    lemma_digits_value_prefix, lemma_frac_scale, lemma_pad, lemma_pow10_small, pad, pow10,
    strip_zeros,
};
use vstd::prelude::*;

verus! {

/// The state of reading after a unit, with `r` read so far.
pub open spec fn reset_with(r: int) -> SpanReader {
    SpanReader { res: r as i64, ..reader_start() }
}

proof fn lemma_run_whole(s: Seq<char>, i: int, j: int, k: int, st: SpanReader)
    requires
        0 <= i,
        0 <= j <= k,
        i + k <= s.len(),
        all_digits(s.subrange(i, i + k)),
        digits_value(s.subrange(i, i + k)) <= i64::MAX,
        !st.after_point,
        st.value == digits_value(s.subrange(i, i + j)),
    ensures
        span_run(s, i + j, st) == span_run(
            s,
            i + k,
            SpanReader { value: digits_value(s.subrange(i, i + k)) as i64, ..st },
        ),
    decreases k - j,
{
    if j < k {
        let c = s[i + j];
        assert(s.subrange(i, i + k)[j] == c);
        assert(is_digit(c));
        assert(s.subrange(i, i + j + 1).drop_last() =~= s.subrange(i, i + j));
        assert(s.subrange(i, i + j + 1).last() == c);
        assert(s.subrange(i, i + k).subrange(0, j + 1) =~= s.subrange(i, i + j + 1));
        lemma_digits_value_prefix(s.subrange(i, i + k), j + 1);
        let v = digits_value(s.subrange(i, i + j + 1));
        let st2 = SpanReader { value: v as i64, ..st };
        assert(span_step(s, i + j, st) == Ok::<(SpanReader, int), crate::span::ParseSpanError>((st2, i + j + 1)));
        lemma_run_whole(s, i, j + 1, k, st2);
    } else {
        assert(SpanReader { value: digits_value(s.subrange(i, i + k)) as i64, ..st } == st);
    }
}

proof fn lemma_run_frac(s: Seq<char>, i: int, j: int, k: int, st: SpanReader)
    requires
        0 <= i,
        0 <= j <= k <= 9,
        i + k <= s.len(),
        all_digits(s.subrange(i, i + k)),
        st.after_point,
        st.frac_value == digits_value(s.subrange(i, i + j)),
        st.frac_digits == pow10(j as nat),
    ensures
        span_run(s, i + j, st) == span_run(
            s,
            i + k,
            SpanReader {
                frac_value: digits_value(s.subrange(i, i + k)) as i64,
                frac_digits: pow10(k as nat) as i64,
                ..st
            },
        ),
    decreases k - j,
{
    lemma_digits_value_bound(s.subrange(i, i + k));
    lemma_pow10_small(k as nat);
    if j < k {
        let c = s[i + j];
        assert(s.subrange(i, i + k)[j] == c);
        assert(is_digit(c));
        assert(s.subrange(i, i + j + 1).drop_last() =~= s.subrange(i, i + j));
        assert(s.subrange(i, i + j + 1).last() == c);
        assert(s.subrange(i, i + k).subrange(0, j + 1) =~= s.subrange(i, i + j + 1));
        lemma_digits_value_prefix(s.subrange(i, i + k), j + 1);
        lemma_pow10_small((j + 1) as nat);
        assert(pow10((j + 1) as nat) == 10 * pow10(j as nat));
        let v = digits_value(s.subrange(i, i + j + 1));
        let st2 = SpanReader {
            frac_value: v as i64,
            frac_digits: pow10((j + 1) as nat) as i64,
            ..st
        };
        assert(span_step(s, i + j, st) == Ok::<(SpanReader, int), crate::span::ParseSpanError>((st2, i + j + 1)));
        lemma_run_frac(s, i, j + 1, k, st2);
    } else {
        assert(SpanReader {
            frac_value: digits_value(s.subrange(i, i + k)) as i64,
            frac_digits: pow10(k as nat) as i64,
            ..st
        } == st);
    }
}

/// Reading the digits of `n` from `i`, in a fresh state with `r` read so far.
proof fn lemma_run_number(s: Seq<char>, i: int, n: nat, r: int)
    requires
        0 <= i,
        i + dec(n).len() <= s.len(),
        s.subrange(i, i + dec(n).len()) == dec(n),
        n <= i64::MAX,
        0 <= r <= i64::MAX,
    ensures
        span_run(s, i, reset_with(r)) == span_run(
            s,
            i + dec(n).len(),
            SpanReader { value: n as i64, ..reset_with(r) },
        ),
        dec(n).len() >= 1,
{
    lemma_pad(n, 1);
    assert(s.subrange(i, i) =~= Seq::<char>::empty());
    lemma_run_whole(s, i, 0, dec(n).len() as int, reset_with(r));
}

/// Reading `n` followed by a one-letter unit worth `u` nanoseconds.
proof fn lemma_chunk_unit(s: Seq<char>, i: int, n: nat, c: char, u: int, r: int)
    requires
        0 <= i,
        i + dec(n).len() + 1 <= s.len(),
        s.subrange(i, i + dec(n).len() + 1) == dec(n) + seq![c],
        (c == 'd' && u == 86_400_000_000_000) || (c == 'h' && u == 3_600_000_000_000) || (c == 's'
            && u == 1_000_000_000) || (c == 'm' && u == 60_000_000_000 && !(i + dec(n).len() + 1
            < s.len() && s[i + dec(n).len() + 1] == 's')),
        0 <= r,
        r + u * n <= i64::MAX,
    ensures
        span_run(s, i, reset_with(r)) == span_run(s, i + dec(n).len() + 1, reset_with(r + u * n)),
{
    let l = dec(n).len() as int;
    assert(s.subrange(i, i + l) =~= s.subrange(i, i + l + 1).subrange(0, l));
    assert(s.subrange(i, i + l + 1).subrange(0, l) =~= dec(n));
    assert(u * n >= n) by (nonlinear_arith)
        requires
            u >= 1,
            n >= 0,
    ;
    lemma_run_number(s, i, n, r);
    assert(s[i + l] == s.subrange(i, i + l + 1)[l]);
    let st = SpanReader { value: n as i64, ..reset_with(r) };
    assert(span_step(s, i + l, st) == Ok::<(SpanReader, int), crate::span::ParseSpanError>((reset_with(r + u * n), i + l + 1)));
}

/// Reading a unit suffix worth `u` nanoseconds in state `st`, with nothing
/// below a nanosecond lost.
proof fn lemma_apply_suffix(s: Seq<char>, q: int, sfx: Seq<char>, u: int, st: SpanReader, total: int)
    requires
        0 <= q,
        q + sfx.len() <= s.len(),
        s.subrange(q, q + sfx.len()) == sfx,
        (sfx == seq!['u', 's'] && u == 1000) || (sfx == seq!['m', 's'] && u == 1_000_000) || (sfx
            == seq!['s'] && u == 1_000_000_000),
        add_unit_total(st, u) == total,
        0 <= st.res,
        0 <= st.value,
        0 <= st.frac_value,
        1 <= st.frac_digits,
        0 <= u * st.value,
        st.res + u * st.value <= total <= i64::MAX,
        st.frac_value != 0 ==> u * st.frac_value <= i64::MAX,
    ensures
        span_run(s, q, st) == span_run(s, q + sfx.len(), reset_with(total)),
{
    assert(s[q] == s.subrange(q, q + sfx.len())[0]);
    if sfx.len() == 2 {
        assert(s[q + 1] == s.subrange(q, q + sfx.len())[1]);
    }
    if st.frac_value != 0 {
        assert(u * st.frac_value >= 0) by (nonlinear_arith)
            requires
                u >= 0,
                st.frac_value >= 0,
        ;
        vstd::arithmetic::div_mod::lemma_div_pos_is_pos(u * st.frac_value, st.frac_digits as int);
    }
    assert(crate::span::add_unit(st, u) == Some(reset_with(total)));
}

/// What `add_unit` totals, overflow aside.
pub open spec fn add_unit_total(st: SpanReader, u: int) -> int {
    st.res + u * st.value + if st.frac_value != 0 {
        (u * st.frac_value) / (st.frac_digits as int)
    } else {
        0
    }
}

proof fn lemma_point(s: Seq<char>, p: int, st: SpanReader)
    requires
        0 <= p < s.len(),
        s[p] == '.',
    ensures
        span_run(s, p, st) == span_run(s, p + 1, SpanReader { after_point: true, ..st }),
{
    assert(span_step(s, p, st) == Ok::<(SpanReader, int), crate::span::ParseSpanError>((SpanReader { after_point: true, ..st }, p + 1)));
}

/// Reading `whole`, a fraction `f` of `10^w`, and a suffix worth `u = 10^w`.
#[verifier::spinoff_prover]
#[verifier::rlimit(100)]
proof fn lemma_chunk_scaled(s: Seq<char>, i: int, whole: nat, f: nat, w: nat, u: nat, sfx: Seq<char>, r: int)
    requires
        (sfx == seq!['u', 's'] && u == 1000 && w == 3) || (sfx == seq!['m', 's'] && u == 1_000_000
            && w == 6) || (sfx == seq!['s'] && u == 1_000_000_000 && w == 9),
        f < u,
        0 <= i,
        i + (dec(whole) + frac_text(f, w) + sfx).len() <= s.len(),
        s.subrange(i, i + (dec(whole) + frac_text(f, w) + sfx).len()) == dec(whole) + frac_text(
            f,
            w,
        ) + sfx,
        0 <= r,
        r + u * whole + f <= i64::MAX,
    ensures
        span_run(s, i, reset_with(r)) == span_run(
            s,
            i + (dec(whole) + frac_text(f, w) + sfx).len(),
            reset_with(r + u * whole + f),
        ),
{
    let t = dec(whole) + frac_text(f, w) + sfx;
    lemma_pow10_small(w);
    let l = dec(whole).len() as int;
    assert(s.subrange(i, i + l) =~= t.subrange(0, l));
    assert(t.subrange(0, l) =~= dec(whole));
    assert(whole <= u * whole) by (nonlinear_arith)
        requires
            u >= 1,
            whole >= 0,
    ;
    lemma_run_number(s, i, whole, r);
    let st = SpanReader { value: whole as i64, ..reset_with(r) };
    let p = i + l;
    if f == 0 {
        assert(frac_text(f, w) =~= Seq::<char>::empty());
        assert(s.subrange(p, p + sfx.len()) =~= t.subrange(l, l + sfx.len()));
        assert(t.subrange(l, l + sfx.len()) =~= sfx);
        lemma_apply_suffix(s, p, sfx, u as int, st, r + u * whole + f);
    } else {
        lemma_chunk_fraction(s, i, whole, f, w, u, sfx, r);
    }
}

#[verifier::spinoff_prover]
#[verifier::rlimit(100)]
proof fn lemma_chunk_fraction(s: Seq<char>, i: int, whole: nat, f: nat, w: nat, u: nat, sfx: Seq<char>, r: int)
    requires
        (sfx == seq!['u', 's'] && u == 1000 && w == 3) || (sfx == seq!['m', 's'] && u == 1_000_000
            && w == 6) || (sfx == seq!['s'] && u == 1_000_000_000 && w == 9),
        0 < f < u,
        0 <= i,
        i + (dec(whole) + frac_text(f, w) + sfx).len() <= s.len(),
        s.subrange(i, i + (dec(whole) + frac_text(f, w) + sfx).len()) == dec(whole) + frac_text(
            f,
            w,
        ) + sfx,
        0 <= r,
        r + u * whole + f <= i64::MAX,
        whole <= u * whole,
        span_run(s, i, reset_with(r)) == span_run(
            s,
            i + dec(whole).len(),
            SpanReader { value: whole as i64, ..reset_with(r) },
        ),
    ensures
        span_run(s, i, reset_with(r)) == span_run(
            s,
            i + (dec(whole) + frac_text(f, w) + sfx).len(),
            reset_with(r + u * whole + f),
        ),
{
    let t = dec(whole) + frac_text(f, w) + sfx;
    lemma_pow10_small(w);
    let l = dec(whole).len() as int;
    let st = SpanReader { value: whole as i64, ..reset_with(r) };
    let p = i + l;
    lemma_frac_scale(f, w);
    let (a, b) = strip_zeros(f, w);
    lemma_pad(a, b);
    assert(pow10(0) == 1);
    let ft = frac_text(f, w);
    assert(ft == seq!['.'] + pad(a, b));
    assert(pad(a, b).len() == b);
    assert(s[p] == t[l]);
    let st1 = SpanReader { after_point: true, ..st };
    lemma_point(s, p, st);
    assert(s.subrange(p + 1, p + 1 + b) == pad(a, b)) by {
        assert(s.subrange(p + 1, p + 1 + b) =~= t.subrange(l + 1, l + 1 + b));
        assert(t.subrange(l + 1, l + 1 + b) =~= pad(a, b));
    }
    assert(s.subrange(p + 1, p + 1) =~= Seq::<char>::empty());
    lemma_run_frac(s, p + 1, 0, b as int, st1);
    let st2 = SpanReader { frac_value: a as i64, frac_digits: pow10(b) as i64, ..st1 };
    let q = p + 1 + b;
    assert(s.subrange(q, q + sfx.len()) == sfx) by {
        assert(s.subrange(q, q + sfx.len()) =~= t.subrange(l + 1 + b, l + 1 + b + sfx.len()));
        assert(t.subrange(l + 1 + b, l + 1 + b + sfx.len()) =~= sfx);
    }
    crate::text::lemma_pow10_pos(b);
    assert(u * a <= 1_000_000_000_000_000_000) by (nonlinear_arith)
        requires
            u <= 1_000_000_000,
            a < pow10(b),
            b <= w,
            pow10(w) <= 1_000_000_000,
            pow10(b) <= pow10(w),
    ;
    lemma_apply_suffix(s, q, sfx, u as int, st2, r + u * whole + f);
}

/// Reading the part below a minute, `x` nanoseconds, written by
/// `sub_minute_text`.
#[verifier::spinoff_prover]
proof fn lemma_chunk_sub_minute(s: Seq<char>, i: int, x: nat, r: int)
    requires
        0 < x < 60_000_000_000,
        0 <= i,
        i + sub_minute_text(x).len() <= s.len(),
        s.subrange(i, i + sub_minute_text(x).len()) == sub_minute_text(x),
        0 <= r,
        r + x <= i64::MAX,
    ensures
        span_run(s, i, reset_with(r)) == span_run(
            s,
            i + sub_minute_text(x).len(),
            reset_with(r + x),
        ),
{
    let t = sub_minute_text(x);
    if x < 1000 {
        let l = dec(x).len() as int;
        assert(t == dec(x) + seq!['n', 's']);
        assert(s.subrange(i, i + l) =~= t.subrange(0, l));
        assert(t.subrange(0, l) =~= dec(x));
        lemma_run_number(s, i, x, r);
        assert(s[i + l] == t[l]);
        assert(s[i + l + 1] == t[l + 1]);
        let st = SpanReader { value: x as i64, ..reset_with(r) };
        assert(crate::span::add_ns(st) == Some(reset_with(r + x)));
    } else {
        let (u, w, sfx): (nat, nat, Seq<char>) = if x < 1_000_000 {
            (1000nat, 3nat, seq!['u', 's'])
        } else if x < 1_000_000_000 {
            (1_000_000nat, 6nat, seq!['m', 's'])
        } else {
            (1_000_000_000nat, 9nat, seq!['s'])
        };
        vstd::arithmetic::div_mod::lemma_fundamental_div_mod(x as int, u as int);
        vstd::arithmetic::div_mod::lemma_mod_bound(x as int, u as int);
        assert(t == dec(x / u) + frac_text(x % u, w) + sfx);
        lemma_chunk_scaled(s, i, x / u, x % u, w, u, sfx, r);
    }
}

/// Reading the part written by `unit_text(x, u, [c])`: the number of whole
/// `u`s in `x`, if any.
proof fn lemma_part(s: Seq<char>, i: int, x: nat, u: int, c: char, r: int)
    requires
        0 <= i,
        i + unit_text(x, u as nat, seq![c]).len() <= s.len(),
        s.subrange(i, i + unit_text(x, u as nat, seq![c]).len()) == unit_text(x, u as nat, seq![c]),
        (c == 'd' && u == 86_400_000_000_000) || (c == 'h' && u == 3_600_000_000_000) || (c
            == 'm' && u == 60_000_000_000 && !(i + unit_text(x, u as nat, seq![c]).len() < s.len()
            && s[i + unit_text(x, u as nat, seq![c]).len()] == 's')),
        0 <= r,
        r + x <= i64::MAX,
    ensures
        span_run(s, i, reset_with(r)) == span_run(
            s,
            i + unit_text(x, u as nat, seq![c]).len(),
            reset_with(r + u * (x / (u as nat))),
        ),
        0 <= u * (x / (u as nat)) <= x,
{
    vstd::arithmetic::div_mod::lemma_fundamental_div_mod(x as int, u);
    vstd::arithmetic::div_mod::lemma_mod_bound(x as int, u);
    vstd::arithmetic::div_mod::lemma_div_pos_is_pos(x as int, u);
    assert(0 <= u * (x / (u as nat))) by (nonlinear_arith)
        requires
            u > 0,
            x / (u as nat) >= 0,
    ;
    if x >= u {
        lemma_chunk_unit(s, i, x / (u as nat), c, u, r);
    } else {
        vstd::arithmetic::div_mod::lemma_basic_div(x as int, u);
        assert(u * (x / (u as nat)) == 0);
    }
}

/// The first character of what `dec` writes is a digit.
proof fn lemma_dec_first(n: nat)
    ensures
        dec(n).len() >= 1,
        is_digit(dec(n)[0]),
{
    lemma_pad(n, 1);
}

proof fn lemma_zero_round_trip()
    ensures
        span_text_value(span_text(0)) == Ok::<int, crate::span::ParseSpanError>(0),
{
    let s = span_text(0);
    assert(s == seq!['0', 's']);
    let st0 = reader_start();
    assert(span_step(s, 0, st0) == Ok::<(SpanReader, int), crate::span::ParseSpanError>((st0, 1)));
    assert(span_step(s, 1, st0) == Ok::<(SpanReader, int), crate::span::ParseSpanError>((reset_with(0), 2)));
    assert(span_run(s, 2, reset_with(0)) == Ok::<SpanReader, crate::span::ParseSpanError>(reset_with(0)));
    assert(reset_with(0) == st0);
    assert(span_run(s, 1, st0) == span_run(s, 2, reset_with(0)));
    assert(span_run(s, 0, st0) == span_run(s, 1, st0));
    assert(!(s[0] == '+' || s[0] == '-'));
}

/// Days, hours, minutes and the rest below a minute add up to the whole.
proof fn lemma_split_sum(a: nat)
    ensures
        86_400_000_000_000 * (a / 86_400_000_000_000) + 3_600_000_000_000 * ((a
            % 86_400_000_000_000) / 3_600_000_000_000) + 60_000_000_000 * ((a % 3_600_000_000_000)
            / 60_000_000_000) + a % 60_000_000_000 == a,
{
    let day: int = 86_400_000_000_000;
    let hr: int = 3_600_000_000_000;
    let mi: int = 60_000_000_000;
    vstd::arithmetic::div_mod::lemma_fundamental_div_mod(a as int, day);
    vstd::arithmetic::div_mod::lemma_fundamental_div_mod((a % (day as nat)) as int, hr);
    vstd::arithmetic::div_mod::lemma_fundamental_div_mod((a % (hr as nat)) as int, mi);
    vstd::arithmetic::div_mod::lemma_mod_mod(a as int, hr, 24);
    vstd::arithmetic::div_mod::lemma_mod_mod(a as int, mi, 60);
}

/// The part below a minute, where there is one, starts with a digit.
proof fn lemma_sub_minute_first(x: nat)
    requires
        0 < x < 60_000_000_000,
    ensures
        sub_minute_text(x).len() >= 1,
        is_digit(sub_minute_text(x)[0]),
{
    let sm = sub_minute_text(x);
    if x < 1000 {
        lemma_dec_first(x);
        assert(sm[0] == dec(x)[0]);
    } else if x < 1_000_000 {
        lemma_dec_first(x / 1000);
        assert(sm[0] == dec(x / 1000)[0]);
    } else if x < 1_000_000_000 {
        lemma_dec_first(x / 1_000_000);
        assert(sm[0] == dec(x / 1_000_000)[0]);
    } else {
        lemma_dec_first(x / 1_000_000_000);
        assert(sm[0] == dec(x / 1_000_000_000)[0]);
    }
}

/// Reading the body of a span's text, after any sign, totals its magnitude.
#[verifier::spinoff_prover]
#[verifier::rlimit(100)]
proof fn lemma_body_run(s: Seq<char>, i0: int, a: nat)
    requires
        0 < a <= i64::MAX,
        0 <= i0 <= s.len(),
        s.subrange(i0, s.len() as int) == unit_text(a, 86_400_000_000_000, seq!['d']) + unit_text(
            a % 86_400_000_000_000,
            3_600_000_000_000,
            seq!['h'],
        ) + unit_text(a % 3_600_000_000_000, 60_000_000_000, seq!['m']) + sub_minute_text(
            a % 60_000_000_000,
        ),
    ensures
        span_run(s, i0, reset_with(0)) == Ok::<SpanReader, crate::span::ParseSpanError>(
            reset_with(a as int),
        ),
{
    let day: int = 86_400_000_000_000;
    let hr: int = 3_600_000_000_000;
    let mi: int = 60_000_000_000;
    let d = unit_text(a, day as nat, seq!['d']);
    let h = unit_text(a % (day as nat), hr as nat, seq!['h']);
    let m = unit_text(a % (hr as nat), mi as nat, seq!['m']);
    let x = a % (mi as nat);
    let sm = sub_minute_text(x);
    let body = d + h + m + sm;
    let i1 = i0 + d.len();
    let i2 = i1 + h.len();
    let i3 = i2 + m.len();
    let i4 = i3 + sm.len();
    assert(body.len() == s.len() - i0);
    assert(i4 == s.len());
    assert(s.subrange(i0, i1) =~= body.subrange(0, d.len() as int));
    assert(body.subrange(0, d.len() as int) =~= d);
    assert(s.subrange(i1, i2) =~= body.subrange(d.len() as int, (d.len() + h.len()) as int));
    assert(body.subrange(d.len() as int, (d.len() + h.len()) as int) =~= h);
    assert(s.subrange(i2, i3) =~= body.subrange((d.len() + h.len()) as int, (d.len() + h.len() + m.len()) as int));
    assert(body.subrange((d.len() + h.len()) as int, (d.len() + h.len() + m.len()) as int) =~= m);
    assert(s.subrange(i3, i4) =~= body.subrange((d.len() + h.len() + m.len()) as int, body.len() as int));
    assert(body.subrange((d.len() + h.len() + m.len()) as int, body.len() as int) =~= sm);
    lemma_split_sum(a);
    vstd::arithmetic::div_mod::lemma_mod_bound(a as int, day);
    vstd::arithmetic::div_mod::lemma_mod_bound(a as int, hr);
    vstd::arithmetic::div_mod::lemma_mod_bound(a as int, mi);
    let r1 = day * (a / (day as nat));
    let r2 = r1 + hr * ((a % (day as nat)) / (hr as nat));
    let r3 = r2 + mi * ((a % (hr as nat)) / (mi as nat));
    if x > 0 {
        lemma_sub_minute_first(x);
        assert(s[i3] == s.subrange(i3, i4)[0]);
    } else {
        assert(sm.len() == 0);
    }
    lemma_part(s, i0, a, day, 'd', 0);
    lemma_part(s, i1, a % (day as nat), hr, 'h', r1);
    lemma_part(s, i2, a % (hr as nat), mi, 'm', r2);
    if x > 0 {
        lemma_chunk_sub_minute(s, i3, x, r3);
    }
}

/// Reading the text of a span gives the span back, for every span but the
/// most negative one (whose magnitude no span holds).
#[verifier::spinoff_prover]
pub proof fn lemma_span_text_round_trip(ns: int)
    requires
        in_i64(ns),
        ns != i64::MIN,
    ensures
        span_text_value(span_text(ns)) == Ok::<int, crate::span::ParseSpanError>(ns),
{
    if ns == 0 {
        lemma_zero_round_trip();
    } else {
        let a: nat = (if ns < 0 {
            -ns
        } else {
            ns
        }) as nat;
        let sign: Seq<char> = if ns < 0 {
            seq!['-']
        } else {
            Seq::empty()
        };
        let body = unit_text(a, 86_400_000_000_000, seq!['d']) + unit_text(
            a % 86_400_000_000_000,
            3_600_000_000_000,
            seq!['h'],
        ) + unit_text(a % 3_600_000_000_000, 60_000_000_000, seq!['m']) + sub_minute_text(
            a % 60_000_000_000,
        );
        let s = span_text(ns);
        assert(s == sign + body);
        let i0 = sign.len() as int;
        assert(s.subrange(i0, s.len() as int) =~= body);
        lemma_body_run(s, i0, a);
        assert(reader_start() == reset_with(0));
        if ns > 0 {
            lemma_first_digit(a);
            assert(s[0] == body[0]);
        } else {
            assert(s[0] == '-');
        }
    }
}

/// The text of a positive magnitude starts with a digit.
proof fn lemma_first_digit(a: nat)
    requires
        0 < a,
    ensures
        ({
            let body = unit_text(a, 86_400_000_000_000, seq!['d']) + unit_text(
                a % 86_400_000_000_000,
                3_600_000_000_000,
                seq!['h'],
            ) + unit_text(a % 3_600_000_000_000, 60_000_000_000, seq!['m']) + sub_minute_text(
                a % 60_000_000_000,
            );
            body.len() > 0 && is_digit(body[0])
        }),
{
    let day: nat = 86_400_000_000_000;
    let hr: nat = 3_600_000_000_000;
    let mi: nat = 60_000_000_000;
    let d = unit_text(a, day, seq!['d']);
    let h = unit_text(a % day, hr, seq!['h']);
    let m = unit_text(a % hr, mi, seq!['m']);
    let sm = sub_minute_text(a % mi);
    let body = d + h + m + sm;
    lemma_split_sum(a);
    if d.len() > 0 {
        lemma_dec_first(a / day);
        assert(body[0] == d[0]);
    } else if h.len() > 0 {
        lemma_dec_first((a % day) / hr);
        assert(body[0] == h[0]);
    } else if m.len() > 0 {
        lemma_dec_first((a % hr) / mi);
        assert(body[0] == m[0]);
    } else {
        vstd::arithmetic::div_mod::lemma_basic_div(a as int, day as int);
        vstd::arithmetic::div_mod::lemma_mod_bound(a as int, mi as int);
        lemma_sub_minute_first(a % mi);
        assert(body[0] == sm[0]);
    }
}

} // verus!
