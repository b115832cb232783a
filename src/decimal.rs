//! Decimal text for unsigned integers and for fixed-point values.

use vstd::prelude::*;

use vstd::arithmetic::div_mod::{lemma_div_denominator, lemma_fundamental_div_mod, lemma_fundamental_div_mod_converse};

use crate::chars::{find_char, find_from, lemma_find_char, lemma_find_char_is, subvec};

verus! {

/// The character of the decimal digit `d`.
pub open spec fn digit_char(d: nat) -> char {
    if d == 0 { '0' }
    else if d == 1 { '1' }
    else if d == 2 { '2' }
    else if d == 3 { '3' }
    else if d == 4 { '4' }
    else if d == 5 { '5' }
    else if d == 6 { '6' }
    else if d == 7 { '7' }
    else if d == 8 { '8' }
    else { '9' }
}

/// Whether `c` is one of `0` to `9`.
pub open spec fn is_digit(c: char) -> bool {
    '0' <= c && c <= '9'
}

/// Whether every character of `s` is a digit.
pub open spec fn all_digits(s: Seq<char>) -> bool {
    forall|i: int| 0 <= i < s.len() ==> is_digit(#[trigger] s[i])
}

/// The value of the digit character `c`.
pub open spec fn digit_value(c: char) -> nat {
    (c as u32 - '0' as u32) as nat
}

/// The number that a string of digit characters denotes.
pub open spec fn digits_value(s: Seq<char>) -> nat
    decreases s.len(),
{
    if s.len() == 0 {
        0
    } else {
        digits_value(s.drop_last()) * 10 + digit_value(s.last())
    }
}

/// `10` to the power `k`.
pub open spec fn pow10(k: nat) -> nat
    decreases k,
{
    if k == 0 { 1 } else { 10 * pow10((k - 1) as nat) }
}

/// The shortest decimal text of `n`: no leading zeros, `0` for zero.
pub open spec fn digits(n: nat) -> Seq<char>
    decreases n,
{
    if n < 10 {
        seq![digit_char(n)]
    } else {
        digits(n / 10).push(digit_char(n % 10))
    }
}

/// The last `w` decimal digits of `n`, with leading zeros.
pub open spec fn fixed_digits(n: nat, w: nat) -> Seq<char>
    decreases w,
{
    if w == 0 {
        seq![]
    } else {
        fixed_digits(n / 10, (w - 1) as nat).push(digit_char(n % 10))
    }
}

/// `s` without its trailing `0` characters.
pub open spec fn strip_zeros(s: Seq<char>) -> Seq<char>
    decreases s.len(),
{
    if s.len() > 0 && s.last() == '0' {
        strip_zeros(s.drop_last())
    } else {
        s
    }
}

/// `k` zero characters.
pub open spec fn zeros(k: nat) -> Seq<char> {
    Seq::new(k, |i: int| '0')
}

/// The text of `u` units of `10^-k`: the whole part, then, if anything is
/// left, a point and the fraction's digits without trailing zeros.
pub open spec fn fixed_text(u: nat, k: nat) -> Seq<char> {
    let whole = u / pow10(k);
    let frac = u % pow10(k);
    if frac == 0 {
        digits(whole)
    } else {
        digits(whole) + seq!['.'] + strip_zeros(fixed_digits(frac, k))
    }
}

/// The first `k` characters of `f`, filled up with zeros to `k`.
pub open spec fn pad(f: Seq<char>, k: nat) -> Seq<char> {
    if f.len() >= k {
        f.take(k as int)
    } else {
        f + zeros((k - f.len()) as nat)
    }
}

/// The number of `10^-k` units that the text `s` denotes, if `s` is a
/// decimal: digits with at most one point among them, at least one digit.
/// Fraction digits past the `k`-th are dropped. `None` if `s` is no such
/// decimal, or its value does not fit in a `u64`.
pub open spec fn parse_fixed_spec(s: Seq<char>, k: nat) -> Option<u64> {
    let dot = find_char(s, '.');
    let whole = s.take(dot);
    let frac = if dot < s.len() { s.skip(dot + 1) } else { seq![] };
    let v = digits_value(whole + pad(frac, k));
    if s.len() == 0 || s == seq!['.'] || !all_digits(whole) || !all_digits(frac) || v > u64::MAX {
        None
    } else {
        Some(v as u64)
    }
}

/// The index of the first `e` or `E` in `s`, or its length.
pub open spec fn exp_mark(s: Seq<char>) -> int {
    let a = find_char(s, 'e');
    let b = find_char(s, 'E');
    if a <= b { a } else { b }
}

/// A decimal exponent: an optional sign, then one to four digits.
pub open spec fn parse_exponent(x: Seq<char>) -> Option<int> {
    let signed = x.len() > 0 && (x[0] == '-' || x[0] == '+');
    let body = if signed { x.drop_first() } else { x };
    if 1 <= body.len() <= 4 && all_digits(body) {
        Some(if signed && x[0] == '-' { -(digits_value(body) as int) } else { digits_value(body) as int })
    } else {
        None
    }
}

/// The number of `10^-k` units that the text `s` denotes: an optional `+`,
/// a decimal (see `parse_fixed_spec`), and an optional exponent, `e` or `E`
/// then a power of ten (see `parse_exponent`). Digits below one unit are
/// dropped. `None` if `s` is no such number, or its value does not fit in a
/// `u64` (when the exponent takes the point left of the last unit, the
/// decimal without it must fit).
pub open spec fn parse_number_spec(s: Seq<char>, k: nat) -> Option<u64> {
    let body = if s.len() > 0 && s[0] == '+' { s.drop_first() } else { s };
    let e = exp_mark(body);
    if e >= body.len() {
        parse_fixed_spec(body, k)
    } else {
        match parse_exponent(body.skip(e + 1)) {
            None => None,
            Some(x) => if k + x >= 0 {
                parse_fixed_spec(body.take(e), (k + x) as nat)
            } else {
                match parse_fixed_spec(body.take(e), 0) {
                    Some(v) => Some((v as nat / pow10((-(k + x)) as nat)) as u64),
                    None => None,
                }
            },
        }
    }
}

/// The character of the digit `d`.
pub fn digit_to_char(d: u64) -> (c: char)
    requires
        d < 10,
    ensures
        c == digit_char(d as nat),
        is_digit(c),
        digit_value(c) == d,
{
    if d == 0 { '0' }
    else if d == 1 { '1' }
    else if d == 2 { '2' }
    else if d == 3 { '3' }
    else if d == 4 { '4' }
    else if d == 5 { '5' }
    else if d == 6 { '6' }
    else if d == 7 { '7' }
    else if d == 8 { '8' }
    else { '9' }
}

/// Appends the decimal text of `n`.
pub fn push_digits(out: &mut Vec<char>, n: u64)
    ensures
        final(out)@ == old(out)@ + digits(n as nat),
    decreases n,
{
    if n >= 10 {
        push_digits(out, n / 10);
        let c = digit_to_char(n % 10);
        out.push(c);
        assert(final(out)@ =~= old(out)@ + digits(n as nat));
    } else {
        let c = digit_to_char(n);
        out.push(c);
        assert(final(out)@ =~= old(out)@ + digits(n as nat));
    }
}

/// `10^k` for a `k` small enough to fit.
fn pow10_u64(k: u32) -> (r: u64)
    requires
        k <= 19,
    ensures
        r as nat == pow10(k as nat),
{
    let mut r: u64 = 1;
    let mut i: u32 = 0;
    while i < k
        invariant
            i <= k <= 19,
            r as nat == pow10(i as nat),
        decreases k - i,
    {
        proof {
            lemma_pow10_bound(i as nat);
        }
        r = r * 10;
        i = i + 1;
    }
    r
}

proof fn lemma_pow10_bound(k: nat)
    requires
        k < 19,
    ensures
        10 * pow10(k) <= u64::MAX,
        pow10(k) > 0,
    decreases k,
{
    if k > 0 {
        lemma_pow10_bound((k - 1) as nat);
    }
    reveal_with_fuel(pow10, 20);
    assert(pow10(18) == 1_000_000_000_000_000_000);
    lemma_pow10_mono(k, 18);
}

proof fn lemma_pow10_mono(a: nat, b: nat)
    requires
        a <= b,
    ensures
        0 < pow10(a) <= pow10(b),
    decreases b,
{
    if b > a {
        lemma_pow10_mono(a, (b - 1) as nat);
    } else if a > 0 {
        lemma_pow10_mono((a - 1) as nat, (a - 1) as nat);
    }
}

/// Appends the last `w` decimal digits of `n`, with leading zeros.
fn push_fixed_digits(out: &mut Vec<char>, n: u64, w: u32)
    ensures
        final(out)@ == old(out)@ + fixed_digits(n as nat, w as nat),
    decreases w,
{
    if w > 0 {
        push_fixed_digits(out, n / 10, w - 1);
        let c = digit_to_char(n % 10);
        out.push(c);
        assert(final(out)@ =~= old(out)@ + fixed_digits(n as nat, w as nat));
    } else {
        assert(final(out)@ =~= old(out)@ + fixed_digits(n as nat, w as nat));
    }
}

/// The text of `u` units of `10^-k` (see `fixed_text`).
pub fn fixed_to_text(u: u64, k: u32) -> (r: Vec<char>)
    requires
        k <= 19,
    ensures
        r@ == fixed_text(u as nat, k as nat),
{
    let p = pow10_u64(k);
    proof {
        lemma_pow10_mono(0, k as nat);
    }
    let whole = u / p;
    let frac = u % p;
    let mut out: Vec<char> = Vec::new();
    push_digits(&mut out, whole);
    if frac != 0 {
        out.push('.');
        let mut f: Vec<char> = Vec::new();
        push_fixed_digits(&mut f, frac, k);
        let ghost full = f@;
        while f.len() > 0 && f[f.len() - 1] == '0'
            invariant
                strip_zeros(f@) == strip_zeros(full),
            decreases f.len(),
        {
            f.pop();
        }
        let mut i: usize = 0;
        let ghost start = out@;
        while i < f.len()
            invariant
                i <= f.len(),
                out@ == start + f@.take(i as int),
            decreases f.len() - i,
        {
            out.push(f[i]);
            i = i + 1;
            assert(out@ =~= start + f@.take(i as int));
        }
        assert(f@.take(f.len() as int) =~= f@);
        assert(out@ =~= fixed_text(u as nat, k as nat));
    }
    out
}

/// Whether `v[from..to]` is all digits.
fn digits_between(v: &Vec<char>, from: usize, to: usize) -> (r: bool)
    requires
        from <= to <= v.len(),
    ensures
        r == all_digits(v@.subrange(from as int, to as int)),
{
    let mut i: usize = from;
    while i < to
        invariant
            from <= i <= to <= v.len(),
            forall|t: int| from <= t < i ==> is_digit(#[trigger] v@[t]),
        decreases to - i,
    {
        if !('0' <= v[i] && v[i] <= '9') {
            assert(v@.subrange(from as int, to as int)[i - from] == v@[i as int]);
            return false;
        }
        i = i + 1;
    }
    assert forall|t: int| 0 <= t < to - from implies is_digit(#[trigger] v@.subrange(from as int, to as int)[t]) by {
        assert(v@.subrange(from as int, to as int)[t] == v@[from + t]);
    }
    true
}

/// `v[..dot]` followed by the first `k` characters of `v[dot + 1..]`,
/// filled up with zeros to `k`.
fn whole_and_fraction(v: &Vec<char>, dot: usize, k: u32) -> (d: Vec<char>)
    requires
        dot <= v.len(),
    ensures
        d@ == v@.take(dot as int) + pad(if dot < v.len() { v@.skip(dot + 1) } else { seq![] }, k as nat),
{
    let ghost whole = v@.take(dot as int);
    let ghost frac = if dot < v.len() { v@.skip(dot + 1) } else { seq![] };
    let mut d: Vec<char> = Vec::new();
    let mut i: usize = 0;
    while i < dot
        invariant
            dot <= v.len(),
            i <= dot,
            whole == v@.take(dot as int),
            d@ == whole.take(i as int),
        decreases dot - i,
    {
        d.push(v[i]);
        i = i + 1;
        assert(d@ =~= whole.take(i as int));
    }
    assert(whole.take(dot as int) =~= whole);
    let flen: usize = if dot < v.len() { v.len() - dot - 1 } else { 0 };
    let mut t: u32 = 0;
    while t < k
        invariant
            dot <= v.len(),
            t <= k,
            frac.len() == flen,
            frac == if dot < v.len() { v@.skip(dot + 1) } else { seq![] },
            d@ == whole + pad(frac, k as nat).take(t as int),
        decreases k - t,
    {
        if (t as usize) < flen {
            assert(frac[t as int] == v@[dot + 1 + t]);
            d.push(v[dot + 1 + t as usize]);
        } else {
            d.push('0');
        }
        t = t + 1;
        assert(d@ =~= whole + pad(frac, k as nat).take(t as int));
    }
    assert(pad(frac, k as nat).take(k as int) =~= pad(frac, k as nat));
    d
}

/// The number of `10^-k` units that the text `s` denotes (see
/// `parse_fixed_spec`).
pub fn parse_fixed(s: &Vec<char>, k: u32) -> (r: Option<u64>)
    ensures
        r == parse_fixed_spec(s@, k as nat),
{
    let dot = find_from(s, 0, '.');
    assert(s@.skip(0) =~= s@);
    proof {
        lemma_find_char(s@, '.');
    }
    if s.len() == 0 || (s.len() == 1 && dot == 0) {
        assert(s.len() == 1 ==> s@ =~= seq!['.']);
        return None;
    }
    assert(s@ != seq!['.']);
    assert(s@.subrange(0, dot as int) =~= s@.take(dot as int));
    if !digits_between(s, 0, dot) {
        return None;
    }
    let fstart: usize = if dot < s.len() { dot + 1 } else { s.len() };
    assert(s@.subrange(fstart as int, s.len() as int) =~= if dot < s.len() { s@.skip(dot + 1) } else { seq![] });
    if !digits_between(s, fstart, s.len()) {
        return None;
    }
    let d = whole_and_fraction(s, dot, k);
    digits_to_u64(&d)
}

/// The value of an exponent (see `parse_exponent`).
fn parse_exp(x: &Vec<char>) -> (r: Option<i64>)
    ensures
        match r {
            Some(v) => parse_exponent(x@) == Some(v as int) && -9999 <= v <= 9999,
            None => parse_exponent(x@) is None,
        },
{
    let signed = x.len() > 0 && (x[0] == '-' || x[0] == '+');
    let start: usize = if signed { 1 } else { 0 };
    let n = x.len() - start;
    let ghost body = if signed { x@.drop_first() } else { x@ };
    assert(x@.subrange(start as int, x@.len() as int) =~= body);
    if n < 1 || n > 4 || !digits_between(x, start, x.len()) {
        return None;
    }
    let d = subvec(x, start, x.len());
    proof {
        lemma_value_below_pow10(body);
        lemma_pow10_mono(body.len(), 4);
        reveal_with_fuel(pow10, 5);
        assert(pow10(4) == 10000);
    }
    match digits_to_u64(&d) {
        Some(v) => {
            if signed && x[0] == '-' {
                Some(-(v as i64))
            } else {
                Some(v as i64)
            }
        },
        None => None,
    }
}

/// A digit string has a value below ten to its length.
proof fn lemma_value_below_pow10(s: Seq<char>)
    requires
        all_digits(s),
    ensures
        digits_value(s) < pow10(s.len()),
    decreases s.len(),
{
    if s.len() > 0 {
        let f = s.drop_last();
        assert(all_digits(f)) by {
            assert forall|i: int| 0 <= i < f.len() implies is_digit(#[trigger] f[i]) by {
                assert(f[i] == s[i]);
            }
        }
        lemma_value_below_pow10(f);
        assert(is_digit(s[s.len() - 1]));
    }
}

/// `v / 10^j`.
fn div_pow10(v: u64, j: u64) -> (r: u64)
    ensures
        r as nat == v as nat / pow10(j as nat),
{
    let mut r: u64 = v;
    let mut i: u64 = 0;
    assert(pow10(0) == 1);
    assert(v as nat / 1 == v as nat);
    while i < j
        invariant
            i <= j,
            r as nat == v as nat / pow10(i as nat),
        decreases j - i,
    {
        proof {
            lemma_pow10_pos(i as nat);
            lemma_div_denominator(v as int, pow10(i as nat) as int, 10);
            assert(pow10((i + 1) as nat) == pow10(i as nat) * 10);
        }
        r = r / 10;
        i = i + 1;
    }
    r
}

/// The number of `10^-k` units that the text `s` denotes (see
/// `parse_number_spec`).
pub fn parse_number(s: &Vec<char>, k: u32) -> (r: Option<u64>)
    requires
        k <= 100,
    ensures
        r == parse_number_spec(s@, k as nat),
{
    let start: usize = if s.len() > 0 && s[0] == '+' { 1 } else { 0 };
    let body = subvec(s, start, s.len());
    assert(body@ =~= if s@.len() > 0 && s@[0] == '+' { s@.drop_first() } else { s@ });
    let a = find_from(&body, 0, 'e');
    let b = find_from(&body, 0, 'E');
    assert(body@.skip(0) =~= body@);
    proof {
        lemma_find_char(body@, 'e');
        lemma_find_char(body@, 'E');
    }
    let e: usize = if a <= b { a } else { b };
    if e >= body.len() {
        return parse_fixed(&body, k);
    }
    let x = subvec(&body, e + 1, body.len());
    let mantissa = subvec(&body, 0, e);
    assert(x@ =~= body@.skip(e + 1));
    assert(mantissa@ =~= body@.take(e as int));
    match parse_exp(&x) {
        None => None,
        Some(ex) => {
            let shifted: i64 = k as i64 + ex;
            if shifted >= 0 {
                parse_fixed(&mantissa, shifted as u32)
            } else {
                match parse_fixed(&mantissa, 0) {
                    Some(v) => Some(div_pow10(v, (-shifted) as u64)),
                    None => None,
                }
            }
        },
    }
}

/// The value of the digit string `d`, if it fits in a `u64`.
fn digits_to_u64(d: &Vec<char>) -> (r: Option<u64>)
    requires
        forall|q: int| 0 <= q < d@.len() ==> is_digit(#[trigger] d@[q]),
    ensures
        digits_value(d@) <= u64::MAX ==> r == Some(digits_value(d@) as u64),
        digits_value(d@) > u64::MAX ==> r is None,
{
    let mut acc: u64 = 0;
    let mut i: usize = 0;
    while i < d.len()
        invariant
            i <= d.len(),
            forall|q: int| 0 <= q < d@.len() ==> is_digit(#[trigger] d@[q]),
            acc as nat == digits_value(d@.take(i as int)),
        decreases d.len() - i,
    {
        let c = d[i];
        assert(is_digit(d@[i as int]));
        let dv: u64 = (c as u32 - '0' as u32) as u64;
        assert(d@.take(i + 1).drop_last() =~= d@.take(i as int));
        if acc > (u64::MAX - dv) / 10 {
            proof {
                lemma_prefix_value_le(d@, i + 1);
            }
            return None;
        }
        acc = acc * 10 + dv;
        i = i + 1;
    }
    assert(d@.take(d.len() as int) =~= d@);
    Some(acc)
}

/// A prefix of a digit string has no larger value.
proof fn lemma_prefix_value_le(s: Seq<char>, j: int)
    requires
        0 <= j <= s.len(),
    ensures
        digits_value(s.take(j)) <= digits_value(s),
    decreases s.len(),
{
    if j < s.len() {
        lemma_prefix_value_le(s.drop_last(), j);
        assert(s.drop_last().take(j) =~= s.take(j));
    } else {
        assert(s.take(j) =~= s);
    }
}

proof fn lemma_digit_char(d: nat)
    requires
        d < 10,
    ensures
        is_digit(digit_char(d)),
        digit_value(digit_char(d)) == d,
{
}

/// The digits of `n` are digits, at least one, and denote `n`.
pub proof fn lemma_digits(n: nat)
    ensures
        all_digits(digits(n)),
        digits(n).len() >= 1,
        digits_value(digits(n)) == n,
    decreases n,
{
    if n < 10 {
        lemma_digit_char(n);
        assert(digits(n).drop_last() =~= Seq::<char>::empty());
        assert(digits(n).last() == digit_char(n));
        assert(digits_value(Seq::<char>::empty()) == 0);
    } else {
        lemma_digits(n / 10);
        lemma_digit_char(n % 10);
        assert(digits(n).drop_last() =~= digits(n / 10));
        assert(digits(n).last() == digit_char(n % 10));
        lemma_fundamental_div_mod(n as int, 10);
    }
}

proof fn lemma_fixed_digits(n: nat, w: nat)
    ensures
        all_digits(fixed_digits(n, w)),
        fixed_digits(n, w).len() == w,
        digits_value(fixed_digits(n, w)) == n % pow10(w),
    decreases w,
{
    if w > 0 {
        let m = (w - 1) as nat;
        lemma_fixed_digits(n / 10, m);
        lemma_digit_char(n % 10);
        assert(fixed_digits(n, w).drop_last() =~= fixed_digits(n / 10, m));
        lemma_pow10_pos(m);
        let p = pow10(m);
        let q = n / 10;
        let r = n % 10;
        lemma_fundamental_div_mod(n as int, 10);
        lemma_fundamental_div_mod(q as int, p as int);
        let a = q / p;
        let b = q % p;
        assert(n as int == (a as int) * ((10 * p) as int) + ((10 * b + r) as int)) by (nonlinear_arith)
            requires n == 10 * q + r, q == p * a + b;
        assert(10 * b + r < 10 * p) by (nonlinear_arith)
            requires b < p, r < 10;
        lemma_fundamental_div_mod_converse(n as int, (10 * p) as int, a as int, (10 * b + r) as int);
    } else {
        assert(n % 1 == 0);
    }
}

proof fn lemma_pow10_pos(k: nat)
    ensures
        pow10(k) > 0,
    decreases k,
{
    if k > 0 {
        lemma_pow10_pos((k - 1) as nat);
    }
}

proof fn lemma_value_concat(a: Seq<char>, b: Seq<char>)
    ensures
        digits_value(a + b) == digits_value(a) * pow10(b.len()) + digits_value(b),
    decreases b.len(),
{
    if b.len() == 0 {
        assert(a + b =~= a);
        assert(pow10(0) == 1);
        assert(digits_value(b) == 0);
        assert(digits_value(a) * 1 == digits_value(a));
    } else {
        let b0 = b.drop_last();
        lemma_value_concat(a, b0);
        assert((a + b).drop_last() =~= a + b0);
        assert((a + b).last() == b.last());
        assert(pow10(b.len()) == 10 * pow10(b0.len()));
        let va = digits_value(a);
        let p = pow10(b0.len());
        assert((va * p + digits_value(b0)) * 10 + digit_value(b.last())
            == va * (10 * p) + (digits_value(b0) * 10 + digit_value(b.last()))) by (nonlinear_arith);
    }
}

proof fn lemma_zeros_value(k: nat)
    ensures
        digits_value(zeros(k)) == 0,
        all_digits(zeros(k)),
    decreases k,
{
    if k > 0 {
        lemma_zeros_value((k - 1) as nat);
        assert(zeros(k).drop_last() =~= zeros((k - 1) as nat));
    }
}

proof fn lemma_strip_zeros(s: Seq<char>)
    ensures
        strip_zeros(s).len() <= s.len(),
        strip_zeros(s) + zeros((s.len() - strip_zeros(s).len()) as nat) == s,
    decreases s.len(),
{
    if s.len() > 0 && s.last() == '0' {
        lemma_strip_zeros(s.drop_last());
        let t = strip_zeros(s.drop_last());
        let n = (s.len() - 1 - t.len()) as nat;
        assert(zeros(n + 1) =~= zeros(n).push('0'));
        assert(s =~= s.drop_last().push('0'));
        assert(t + zeros(n + 1) =~= (t + zeros(n)).push('0'));
    } else {
        assert(s + zeros(0) =~= s);
    }
}

/// The text of a value starts with a digit and holds nothing but digits
/// and a point.
pub proof fn lemma_fixed_text_chars(u: nat, k: nat)
    ensures
        fixed_text(u, k).len() >= 1,
        is_digit(fixed_text(u, k)[0]),
        forall|i: int| 0 <= i < fixed_text(u, k).len() ==> is_digit(#[trigger] fixed_text(u, k)[i]) || fixed_text(u, k)[i] == '.',
{
    lemma_pow10_pos(k);
    let w = u / pow10(k);
    let f = u % pow10(k);
    lemma_digits(w);
    let s = fixed_text(u, k);
    if f != 0 {
        let fd = fixed_digits(f, k);
        lemma_fixed_digits(f, k);
        let sz = strip_zeros(fd);
        lemma_strip_zeros(fd);
        assert forall|i: int| 0 <= i < sz.len() implies is_digit(#[trigger] sz[i]) by {
            assert(sz[i] == (sz + zeros((fd.len() - sz.len()) as nat))[i]);
        }
        let dw = digits(w);
        assert forall|i: int| 0 <= i < s.len() implies is_digit(#[trigger] s[i]) || s[i] == '.' by {
            if i < dw.len() {
                assert(s[i] == dw[i]);
            } else if i > dw.len() {
                assert(s[i] == sz[i - dw.len() - 1]);
            }
        }
        assert(s[0] == dw[0]);
    }
}

/// Text that starts with a digit and holds only digits and points reads
/// as a plain decimal.
pub proof fn lemma_number_is_fixed(t: Seq<char>, k: nat)
    requires
        t.len() > 0,
        is_digit(t[0]),
        forall|i: int| 0 <= i < t.len() ==> is_digit(#[trigger] t[i]) || t[i] == '.',
    ensures
        parse_number_spec(t, k) == parse_fixed_spec(t, k),
{
    assert forall|i: int| 0 <= i < t.len() implies t[i] != 'e' && t[i] != 'E' by {
        assert(is_digit(t[i]) || t[i] == '.');
    }
    lemma_find_char_is(t, 'e', t.len() as int);
    lemma_find_char_is(t, 'E', t.len() as int);
}

/// Reading the text of a value gives the value back.
pub proof fn lemma_fixed_round_trip(u: u64, k: nat)
    ensures
        parse_fixed_spec(fixed_text(u as nat, k), k) == Some(u),
{
    let p = pow10(k);
    lemma_pow10_pos(k);
    let w = (u as nat) / p;
    let f = (u as nat) % p;
    lemma_fundamental_div_mod(u as int, p as int);
    lemma_digits(w);
    let dw = digits(w);
    let s = fixed_text(u as nat, k);
    assert forall|t: int| 0 <= t < dw.len() implies dw[t] != '.' by {
        assert(is_digit(dw[t]));
    }
    if f == 0 {
        lemma_find_char_is(s, '.', s.len() as int);
        assert(s.take(s.len() as int) =~= s);
        lemma_zeros_value(k);
        assert(pad(seq![], k) =~= zeros(k));
        lemma_value_concat(dw, zeros(k));
        assert(digits_value(s + pad(seq![], k)) == u);
        assert(s != seq!['.']) by {
            assert(is_digit(s[0]));
        }
    } else {
        let fd = fixed_digits(f, k);
        lemma_fixed_digits(f, k);
        assert(f % p == f) by {
            lemma_fundamental_div_mod_converse(f as int, p as int, 0, f as int);
        }
        let sz = strip_zeros(fd);
        lemma_strip_zeros(fd);
        assert(s == dw + seq!['.'] + sz);
        assert forall|t: int| 0 <= t < dw.len() implies s[t] != '.' by {
            assert(s[t] == dw[t]);
        }
        lemma_find_char_is(s, '.', dw.len() as int);
        assert(s.take(dw.len() as int) =~= dw);
        assert(s.skip(dw.len() as int + 1) =~= sz);
        assert(pad(sz, k) =~= fd) by {
            if sz.len() >= k {
                assert(sz.len() == k);
                assert(zeros(0) =~= Seq::<char>::empty());
                assert(sz =~= fd);
            }
        }
        assert forall|t: int| 0 <= t < sz.len() implies is_digit(#[trigger] sz[t]) by {
            assert(sz[t] == fd[t]);
        }
        lemma_value_concat(dw, fd);
        assert(s.len() > 1);
    }
}

} // verus!
