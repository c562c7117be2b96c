//! Decimal digits: writing numbers into strings and reading them back.

use vstd::prelude::*;
use vstd::string::{StrSliceExecFns, StringExecFns};

verus! {

/// The character of decimal digit `d`.
pub open spec fn digit_char(d: nat) -> char {
    if d == 0 {
        '0'
    } else if d == 1 {
        '1'
    } else if d == 2 {
        '2'
    } else if d == 3 {
        '3'
    } else if d == 4 {
        '4'
    } else if d == 5 {
        '5'
    } else if d == 6 {
        '6'
    } else if d == 7 {
        '7'
    } else if d == 8 {
        '8'
    } else {
        '9'
    }
}

pub open spec fn is_digit(c: char) -> bool {
    '0' <= c <= '9'
}

pub open spec fn digit_value(c: char) -> nat {
    (c as u32 - '0' as u32) as nat
}

/// `n` in decimal, with leading zeros up to `w` digits.
pub open spec fn pad(n: nat, w: nat) -> Seq<char>
    decreases n + w,
{
    if n >= 10 || w > 1 {
        pad(
            n / 10,
            if w > 0 {
                (w - 1) as nat
            } else {
                0
            },
        ) + seq![digit_char(n % 10)]
    } else {
        seq![digit_char(n % 10)]
    }
}

/// `n` in decimal.
pub open spec fn dec(n: nat) -> Seq<char> {
    pad(n, 1)
}

/// The value of a sequence of decimal digits.
pub open spec fn digits_value(s: Seq<char>) -> nat
    decreases s.len(),
{
    if s.len() == 0 {
        0
    } else {
        digits_value(s.drop_last()) * 10 + digit_value(s.last())
    }
}

pub open spec fn all_digits(s: Seq<char>) -> bool {
    forall|i: int| 0 <= i < s.len() ==> is_digit(#[trigger] s[i])
}

/// An unsigned integer as Rust's `from_str` reads it: an optional `+`, then
/// at least one decimal digit.
pub open spec fn uint_text(s: Seq<char>) -> Option<nat> {
    let body = if s.len() > 0 && s[0] == '+' {
        s.skip(1)
    } else {
        s
    };
    if body.len() > 0 && all_digits(body) {
        Some(digits_value(body))
    } else {
        None
    }
}

/// `uint_text(s)` when it is at most `max`.
pub open spec fn uint_at_most(s: Seq<char>, max: nat) -> Option<nat> {
    match uint_text(s) {
        Some(v) => if v <= max {
            Some(v)
        } else {
            None
        },
        None => None,
    }
}

fn digit_str(d: u64) -> (r: &'static str)
    requires
        d < 10,
    ensures
        r@ == seq![digit_char(d as nat)],
{
    proof {
        reveal_strlit("0");
        reveal_strlit("1");
        reveal_strlit("2");
        reveal_strlit("3");
        reveal_strlit("4");
        reveal_strlit("5");
        reveal_strlit("6");
        reveal_strlit("7");
        reveal_strlit("8");
        reveal_strlit("9");
    }
    if d == 0 {
        "0"
    } else if d == 1 {
        "1"
    } else if d == 2 {
        "2"
    } else if d == 3 {
        "3"
    } else if d == 4 {
        "4"
    } else if d == 5 {
        "5"
    } else if d == 6 {
        "6"
    } else if d == 7 {
        "7"
    } else if d == 8 {
        "8"
    } else {
        "9"
    }
}

/// Appends `n` in decimal, with leading zeros up to `w` digits.
pub fn push_padded(s: &mut String, n: u64, w: u64)
    ensures
        final(s)@ == old(s)@ + pad(n as nat, w as nat),
    decreases n + w,
{
    if n >= 10 || w > 1 {
        let w2 = if w > 0 {
            w - 1
        } else {
            0
        };
        push_padded(s, n / 10, w2);
    }
    s.append(digit_str(n % 10));
}

/// Appends a string literal.
pub fn push_str(s: &mut String, t: &str)
    ensures
        final(s)@ == old(s)@ + t@,
{
    s.append(t);
}

/// The characters of `s`.
pub fn chars_of(s: &str) -> (r: Vec<char>)
    ensures
        r@ == s@,
{
    let n = s.unicode_len();
    let mut v: Vec<char> = Vec::new();
    let mut i: usize = 0;
    while i < n
        invariant
            n == s@.len(),
            0 <= i <= n,
            v@ == s@.subrange(0, i as int),
        decreases n - i,
    {
        let c = s.get_char(i);
        v.push(c);
        proof {
            assert(v@ =~= s@.subrange(0, i + 1));
        }
        i = i + 1;
    }
    proof {
        assert(v@ =~= s@);
    }
    v
}

pub proof fn lemma_digits_value_prefix(s: Seq<char>, k: int)
    requires
        0 <= k <= s.len(),
    ensures
        digits_value(s.subrange(0, k)) <= digits_value(s),
    decreases s.len() - k,
{
    if k < s.len() {
        lemma_digits_value_prefix(s, k + 1);
        assert(s.subrange(0, k + 1).drop_last() =~= s.subrange(0, k));
    } else {
        assert(s.subrange(0, k) =~= s);
    }
}

/// Reads `v[from..to]` as an unsigned integer no larger than `max`.
pub fn parse_uint(v: &Vec<char>, from: usize, to: usize, max: u64) -> (r: Option<u64>)
    requires
        from <= to <= v@.len(),
        max < 0x1000_0000_0000_0000,
    ensures
        r == match uint_at_most(v@.subrange(from as int, to as int), max as nat) {
            Some(x) => Some(x as u64),
            None => None::<u64>,
        },
{
    let ghost s = v@.subrange(from as int, to as int);
    let mut i = from;
    if i < to && v[i] == '+' {
        i = i + 1;
    }
    let ghost body = v@.subrange(i as int, to as int);
    proof {
        if s.len() > 0 && s[0] == '+' {
            assert(body =~= s.skip(1));
        } else {
            assert(body =~= s);
        }
    }
    if i == to {
        return None;
    }
    let start = i;
    let mut acc: u64 = 0;
    while i < to
        invariant
            start <= i <= to <= v@.len(),
            body == v@.subrange(start as int, to as int),
            s == v@.subrange(from as int, to as int),
            uint_text(s) == (if body.len() > 0 && all_digits(body) {
                Some(digits_value(body))
            } else {
                None
            }),
            max < 0x1000_0000_0000_0000,
            acc <= max,
            acc == digits_value(v@.subrange(start as int, i as int)),
            all_digits(v@.subrange(start as int, i as int)),
        decreases to - i,
    {
        let c = v[i];
        if !('0' <= c && c <= '9') {
            proof {
                assert(body[(i - start) as int] == c);
                assert(!is_digit(body[(i - start) as int]));
                assert(!all_digits(body));
            }
            return None;
        }
        let d = (c as u32 - '0' as u32) as u64;
        proof {
            assert(v@.subrange(start as int, i + 1).drop_last() =~= v@.subrange(start as int, i as int));
            assert(v@.subrange(start as int, i + 1).last() == c);
        }
        let next = acc * 10 + d;
        if next > max {
            proof {
                assert(body.subrange(0, i + 1 - start) =~= v@.subrange(start as int, i + 1));
                lemma_digits_value_prefix(body, i + 1 - start);
            }
            return None;
        }
        acc = next;
        proof {
            assert forall|j: int| 0 <= j < i + 1 - start implies is_digit(
                #[trigger] v@.subrange(start as int, i + 1)[j],
            ) by {
                if j < i - start {
                    assert(v@.subrange(start as int, i as int)[j] == v@.subrange(
                        start as int,
                        i + 1,
                    )[j]);
                }
            }
        }
        i = i + 1;
    }
    Some(acc)
}

} // verus!

verus! {

/// `10` to the power `k`.
pub open spec fn pow10(k: nat) -> nat
    decreases k,
{
    if k == 0 {
        1
    } else {
        10 * pow10((k - 1) as nat)
    }
}

pub proof fn lemma_digits_value_bound(s: Seq<char>)
    requires
        all_digits(s),
    ensures
        digits_value(s) < pow10(s.len()),
    decreases s.len(),
{
    if s.len() > 0 {
        assert(is_digit(s[s.len() - 1]));
        assert(all_digits(s.drop_last())) by {
            assert forall|i: int| 0 <= i < s.drop_last().len() implies is_digit(
                #[trigger] s.drop_last()[i],
            ) by {
                assert(s.drop_last()[i] == s[i]);
            }
        }
        lemma_digits_value_bound(s.drop_last());
    }
}

/// `v` with its trailing zeros removed, and `w` lowered by one for each.
pub open spec fn strip_zeros(v: nat, w: nat) -> (nat, nat)
    decreases v,
{
    if v > 0 && v % 10 == 0 && w > 0 {
        strip_zeros(v / 10, (w - 1) as nat)
    } else {
        (v, w)
    }
}

/// A fraction `v` of `10^w`, as `.` and its digits without trailing zeros;
/// nothing for zero.
pub open spec fn frac_text(v: nat, w: nat) -> Seq<char> {
    if v == 0 {
        Seq::empty()
    } else {
        seq!['.'] + pad(strip_zeros(v, w).0, strip_zeros(v, w).1)
    }
}

/// Appends the fraction `v` of `10^w` as `frac_text` writes it.
pub fn push_frac(s: &mut String, v: u64, w: u64)
    ensures
        final(s)@ == old(s)@ + frac_text(v as nat, w as nat),
{
    if v == 0 {
        proof {
            assert(old(s)@ + frac_text(v as nat, w as nat) =~= old(s)@);
        }
        return;
    }
    let mut a = v;
    let mut b = w;
    while a > 0 && a % 10 == 0 && b > 0
        invariant
            strip_zeros(a as nat, b as nat) == strip_zeros(v as nat, w as nat),
        decreases a,
    {
        a = a / 10;
        b = b - 1;
    }
    proof {
        reveal_strlit(".");
    }
    push_str(s, ".");
    push_padded(s, a, b);
    proof {
        assert(final(s)@ =~= old(s)@ + frac_text(v as nat, w as nat));
    }
}

/// The first index from `from` on, before `to`, where `s` holds `c`; `to`
/// where there is none.
pub open spec fn find_char(s: Seq<char>, c: char, from: int, to: int) -> int
    decreases to - from,
{
    if from >= to {
        to
    } else if s[from] == c {
        from
    } else {
        find_char(s, c, from + 1, to)
    }
}

pub fn find(v: &Vec<char>, c: char, from: usize, to: usize) -> (r: usize)
    requires
        from <= to <= v@.len(),
    ensures
        r == find_char(v@, c, from as int, to as int),
        from <= r <= to,
    decreases to - from,
{
    if from >= to {
        to
    } else if v[from] == c {
        from
    } else {
        find(v, c, from + 1, to)
    }
}

} // verus!

verus! {

/// The characters `v[from..to]`.
pub fn sub_chars(v: &Vec<char>, from: usize, to: usize) -> (r: Vec<char>)
    requires
        from <= to <= v@.len(),
    ensures
        r@ == v@.subrange(from as int, to as int),
{
    let mut r: Vec<char> = Vec::new();
    let mut i = from;
    while i < to
        invariant
            from <= i <= to <= v@.len(),
            r@ == v@.subrange(from as int, i as int),
        decreases to - i,
    {
        r.push(v[i]);
        proof {
            assert(r@ =~= v@.subrange(from as int, i + 1));
        }
        i = i + 1;
    }
    r
}

/// Appends one character. Relies on `String::push`, which adds `c` at the
/// end.
#[verifier::external_body]
pub fn push_char(s: &mut String, c: char)
    ensures
        final(s)@ == old(s)@.push(c),
{
    s.push(c)
}

/// The characters `v[from..to]` as a string.
pub fn string_of(v: &Vec<char>, from: usize, to: usize) -> (r: String)
    requires
        from <= to <= v@.len(),
    ensures
        r@ == v@.subrange(from as int, to as int),
{
    let mut r = String::new();
    let mut i = from;
    while i < to
        invariant
            from <= i <= to <= v@.len(),
            r@ == v@.subrange(from as int, i as int),
        decreases to - i,
    {
        push_char(&mut r, v[i]);
        proof {
            assert(r@ =~= v@.subrange(from as int, i + 1));
        }
        i = i + 1;
    }
    r
}

} // verus!

verus! {

pub proof fn lemma_digit_char(k: nat)
    requires
        k < 10,
    ensures
        is_digit(digit_char(k)),
        digit_value(digit_char(k)) == k,
{
}

/// What `pad` writes: at least `w` decimal digits (exactly `w` when `n` has
/// no more), at least one, whose value is `n`.
pub proof fn lemma_pad(n: nat, w: nat)
    ensures
        all_digits(pad(n, w)),
        digits_value(pad(n, w)) == n,
        pad(n, w).len() >= 1,
        pad(n, w).len() >= w,
        w >= 1 && n < pow10(w) ==> pad(n, w).len() == w,
    decreases n + w,
{
    lemma_digit_char(n % 10);
    let w2: nat = if w > 0 {
        (w - 1) as nat
    } else {
        0
    };
    if n >= 10 || w > 1 {
        lemma_pad(n / 10, w2);
        let p = pad(n / 10, w2);
        let q = p + seq![digit_char(n % 10)];
        assert(q.drop_last() =~= p);
        assert(q.last() == digit_char(n % 10));
        vstd::arithmetic::div_mod::lemma_fundamental_div_mod(n as int, 10);
        assert(digits_value(q) == digits_value(p) * 10 + digit_value(digit_char(n % 10)));
        assert(all_digits(q)) by {
            assert forall|i: int| 0 <= i < q.len() implies is_digit(#[trigger] q[i]) by {
                if i < p.len() {
                    assert(q[i] == p[i]);
                }
            }
        }
        if w >= 1 && n < pow10(w) {
            if w > 1 {
                assert(n / 10 < pow10(w2));
            } else {
                assert(pow10(1) == 10 * pow10(0));
            }
        }
    } else {
        let q = seq![digit_char(n % 10)];
        assert(q.drop_last() =~= Seq::<char>::empty());
        vstd::arithmetic::div_mod::lemma_small_mod(n, 10);
        assert(digits_value(q) == digits_value(q.drop_last()) * 10 + digit_value(q.last()));
        assert(all_digits(q)) by {
            assert forall|i: int| 0 <= i < q.len() implies is_digit(#[trigger] q[i]) by {}
        }
    }
}

} // verus!

verus! {

pub proof fn lemma_pow10_add(x: nat, y: nat)
    ensures
        pow10(x + y) == pow10(x) * pow10(y),
    decreases x,
{
    if x > 0 {
        lemma_pow10_add((x - 1) as nat, y);
        assert(pow10(x + y) == 10 * pow10((x - 1 + y) as nat));
        assert(pow10(x) * pow10(y) == 10 * (pow10((x - 1) as nat) * pow10(y))) by (nonlinear_arith)
            requires
                pow10(x) == 10 * pow10((x - 1) as nat),
        ;
    } else {
        assert(pow10(0) == 1);
        assert(x + y == y);
    }
}

pub proof fn lemma_pow10_pos(x: nat)
    ensures
        pow10(x) >= 1,
    decreases x,
{
    if x > 0 {
        lemma_pow10_pos((x - 1) as nat);
    }
}

/// Removing trailing zeros keeps the value of a fraction.
pub proof fn lemma_strip_zeros(v: nat, w: nat)
    ensures
        strip_zeros(v, w).1 <= w,
        strip_zeros(v, w).0 * pow10((w - strip_zeros(v, w).1) as nat) == v,
        v < pow10(w) ==> strip_zeros(v, w).0 < pow10(strip_zeros(v, w).1),
    decreases v,
{
    if v > 0 && v % 10 == 0 && w > 0 {
        let w1 = (w - 1) as nat;
        lemma_strip_zeros(v / 10, w1);
        let (a, b) = strip_zeros(v / 10, w1);
        vstd::arithmetic::div_mod::lemma_fundamental_div_mod(v as int, 10);
        assert(pow10((w - b) as nat) == 10 * pow10((w1 - b) as nat));
        assert(a * pow10((w - b) as nat) == 10 * (a * pow10((w1 - b) as nat))) by (nonlinear_arith)
            requires
                pow10((w - b) as nat) == 10 * pow10((w1 - b) as nat),
        ;
        if v < pow10(w) {
            assert(pow10(w) == 10 * pow10(w1));
        }
    } else {
        assert(pow10(0) == 1);
        assert(v * pow10(0) == v);
    }
}

/// The digits of a fraction written by `frac_text`, read back at scale
/// `10^w`, give the fraction.
pub proof fn lemma_frac_scale(v: nat, w: nat)
    requires
        v < pow10(w),
    ensures
        ({
            let (a, b) = strip_zeros(v, w);
            &&& b <= w
            &&& a < pow10(b)
            &&& (pow10(w) * a) as int / (pow10(b) as int) == v
        }),
{
    lemma_strip_zeros(v, w);
    let (a, b) = strip_zeros(v, w);
    lemma_pow10_add((w - b) as nat, b);
    lemma_pow10_pos(b);
    assert(pow10(w) * a == pow10(b) * v) by (nonlinear_arith)
        requires
            pow10(w) == pow10((w - b) as nat) * pow10(b),
            a * pow10((w - b) as nat) == v,
    ;
    vstd::arithmetic::div_mod::lemma_div_multiples_vanish(v as int, pow10(b) as int);
}

} // verus!

verus! {

pub proof fn lemma_pow10_small(k: nat)
    requires
        k <= 9,
    ensures
        1 <= pow10(k) <= 1_000_000_000,
        pow10(3) == 1000,
        pow10(6) == 1_000_000,
        pow10(9) == 1_000_000_000,
    decreases k,
{
    assert(pow10(0) == 1);
    assert(pow10(1) == 10);
    assert(pow10(2) == 100);
    assert(pow10(3) == 1000);
    assert(pow10(4) == 10000);
    assert(pow10(5) == 100000);
    assert(pow10(6) == 1000000);
    assert(pow10(7) == 10000000);
    assert(pow10(8) == 100000000);
    assert(pow10(9) == 1000000000);
    if k > 0 {
        lemma_pow10_small((k - 1) as nat);
    }
}

} // verus!

verus! {

/// Whether `c` belongs to a numeric general category of Unicode.
pub uninterp spec fn numeric_char(c: char) -> bool;

pub open spec fn all_numeric(s: Seq<char>) -> bool {
    forall|i: int| 0 <= i < s.len() ==> numeric_char(#[trigger] s[i])
}

/// Relies on `char::is_numeric`: whether `c` is in a numeric category of
/// Unicode, which the ASCII digits are.
#[verifier::external_body]
pub fn is_numeric(c: char) -> (r: bool)
    ensures
        r == numeric_char(c),
        '0' <= c <= '9' ==> r,
{
    c.is_numeric()
}

} // verus!
