//! Odds arithmetic: folding evidence likelihoods into prior odds, and
//! normalising odds to percentages.

use vstd::prelude::*;

use crate::fixed::{mul_fixed, mul_spec, lemma_mul_one, HUNDRED, ONE};

verus! {

/// Every likelihood row holds one entry per hypothesis.
pub open spec fn shaped(prior: Seq<u64>, rows: Seq<Seq<u64>>) -> bool {
    forall|e: int| 0 <= e < rows.len() ==> (#[trigger] rows[e]).len() == prior.len()
}

/// The odds `p` of hypothesis `i` after multiplying in column `i` of each
/// row, first row first.
pub open spec fn fold_odds(p: u64, rows: Seq<Seq<u64>>, i: int) -> u64
    decreases rows.len(),
{
    if rows.len() == 0 {
        p
    } else {
        mul_spec(fold_odds(p, rows.drop_last(), i), rows.last()[i])
    }
}

/// The posterior odds of every hypothesis after all of `rows`.
pub open spec fn posterior(prior: Seq<u64>, rows: Seq<Seq<u64>>) -> Seq<u64> {
    Seq::new(prior.len(), |i: int| fold_odds(prior[i], rows, i))
}

/// The sum of a sequence of units.
pub open spec fn total(s: Seq<u64>) -> nat
    decreases s.len(),
{
    if s.len() == 0 {
        0
    } else {
        total(s.drop_last()) + s.last() as nat
    }
}

/// `k * s[i] / t` for each `i`, rounded down.
pub open spec fn shares(s: Seq<u64>, k: nat, t: nat) -> Seq<u64> {
    Seq::new(s.len(), |i: int| (k * (s[i] as nat) / t) as u64)
}

/// What rounding `k * x / t` down leaves over: `k * x % t`.
pub open spec fn leftover(x: u64, k: nat, t: nat) -> nat {
    (k * (x as nat)) % t
}

/// The number of `true` entries.
pub open spec fn count_true(b: Seq<bool>) -> nat
    decreases b.len(),
{
    if b.len() == 0 {
        0
    } else {
        count_true(b.drop_last()) + if b.last() { 1nat } else { 0nat }
    }
}

/// Among the first `n` entries not marked in `b`, the one whose share has
/// the largest leftover, the earliest on a tie; `-1` if every one is marked.
pub open spec fn best_unmarked(s: Seq<u64>, k: nat, t: nat, b: Seq<bool>, n: int) -> int
    decreases n,
{
    if n <= 0 {
        -1
    } else {
        let j = best_unmarked(s, k, t, b, n - 1);
        let i = n - 1;
        if b[i] {
            j
        } else if j < 0 || leftover(s[i], k, t) > leftover(s[j], k, t) {
            i
        } else {
            j
        }
    }
}

/// The entries that get one unit more than their rounded-down share: `m`
/// times, the unmarked entry with the largest leftover.
pub open spec fn extra_units(s: Seq<u64>, k: nat, t: nat, m: nat) -> Seq<bool>
    decreases m,
{
    if m == 0 {
        Seq::new(s.len(), |i: int| false)
    } else {
        let b = extra_units(s, k, t, (m - 1) as nat);
        let j = best_unmarked(s, k, t, b, s.len() as int);
        if j < 0 {
            b
        } else {
            b.update(j, true)
        }
    }
}

/// Units that rounding every share down leaves short of `k`.
pub open spec fn shortfall(s: Seq<u64>, k: nat, t: nat) -> nat {
    let f = total(shares(s, k, t));
    if f <= k {
        (k - f) as nat
    } else {
        0
    }
}

/// `k * s[i] / t` for each `i`, rounded so that the shares add up to `k`:
/// each is rounded down, and the units short of `k` go one each to the
/// shares with the largest leftover (the earliest on a tie).
pub open spec fn rounded_shares(s: Seq<u64>, k: nat, t: nat) -> Seq<u64> {
    let b = extra_units(s, k, t, shortfall(s, k, t));
    Seq::new(s.len(), |i: int| (k * (s[i] as nat) / t + if b[i] { 1nat } else { 0nat }) as u64)
}

/// Each of `odds` as a percentage of their sum, `100 * odds[i] / sum(odds)`,
/// in units rounded to add up to exactly one hundred (see
/// `rounded_shares`); `None` when there are odds and they sum to zero.
pub open spec fn percents(odds: Seq<u64>) -> Option<Seq<u64>> {
    if odds.len() > 0 && total(odds) == 0 {
        None
    } else {
        Some(rounded_shares(odds, HUNDRED as nat, total(odds)))
    }
}

/// Each of `odds` as a fraction of their sum, `odds[i] / sum(odds)`, in
/// units rounded to add up to exactly one; `None` when there are odds and
/// they sum to zero.
pub open spec fn fractions(odds: Seq<u64>) -> Option<Seq<u64>> {
    if odds.len() > 0 && total(odds) == 0 {
        None
    } else {
        Some(rounded_shares(odds, ONE as nat, total(odds)))
    }
}

/// Posterior odds after the first `min(to, likelihoods.len())` evidence rows.
pub fn recalculate_to(prior: &Vec<u64>, likelihoods: &Vec<Vec<u64>>, to: usize) -> (r: Vec<u64>)
    requires
        shaped(prior@, likelihoods.deep_view()),
    ensures
        r@ == posterior(
            prior@,
            likelihoods.deep_view().take(if to < likelihoods.len() { to as int } else { likelihoods.len() as int }),
        ),
{
    let n: usize = if to < likelihoods.len() { to } else { likelihoods.len() };
    let ghost rows = likelihoods.deep_view();
    let mut r: Vec<u64> = Vec::new();
    let mut i: usize = 0;
    while i < prior.len()
        invariant
            shaped(prior@, rows),
            rows == likelihoods.deep_view(),
            n <= likelihoods.len(),
            i <= prior.len(),
            r@.len() == i,
            forall|k: int| 0 <= k < i ==> r@[k] == fold_odds(prior@[k], rows.take(n as int), k),
        decreases prior.len() - i,
    {
        let mut acc: u64 = prior[i];
        let mut e: usize = 0;
        while e < n
            invariant
                shaped(prior@, rows),
                rows == likelihoods.deep_view(),
                n <= likelihoods.len(),
                i < prior.len(),
                e <= n,
                acc == fold_odds(prior@[i as int], rows.take(e as int), i as int),
            decreases n - e,
        {
            assert(rows[e as int].len() == prior@.len());
            assert(rows.take(e + 1).drop_last() =~= rows.take(e as int));
            acc = mul_fixed(acc, likelihoods[e][i]);
            e = e + 1;
        }
        r.push(acc);
        i = i + 1;
    }
    assert(r@ =~= posterior(prior@, rows.take(n as int)));
    r
}

/// Posterior odds after all evidence rows: each prior multiplied by its
/// column of every row, in row order.
pub fn recalculate(prior: &Vec<u64>, likelihoods: &Vec<Vec<u64>>) -> (r: Vec<u64>)
    requires
        shaped(prior@, likelihoods.deep_view()),
    ensures
        r@ == posterior(prior@, likelihoods.deep_view()),
{
    let r = recalculate_to(prior, likelihoods, likelihoods.len());
    assert(likelihoods.deep_view().take(likelihoods.len() as int) =~= likelihoods.deep_view());
    r
}

proof fn lemma_total_take(s: Seq<u64>, i: int)
    requires
        0 <= i < s.len(),
    ensures
        total(s.take(i + 1)) == total(s.take(i)) + s[i] as nat,
{
    assert(s.take(i + 1).drop_last() =~= s.take(i));
}

proof fn lemma_total_bound(s: Seq<u64>)
    ensures
        total(s) <= s.len() * (u64::MAX as nat),
    decreases s.len(),
{
    if s.len() > 0 {
        lemma_total_bound(s.drop_last());
        assert(total(s) <= s.len() * (u64::MAX as nat)) by (nonlinear_arith)
            requires
                total(s) == total(s.drop_last()) + s.last() as nat,
                total(s.drop_last()) <= (s.len() - 1) * (u64::MAX as nat),
                s.last() <= u64::MAX,
                s.len() >= 1;
    }
}

proof fn lemma_elem_le_total(s: Seq<u64>, i: int)
    requires
        0 <= i < s.len(),
    ensures
        s[i] as nat <= total(s),
    decreases s.len(),
{
    if i < s.len() - 1 {
        lemma_elem_le_total(s.drop_last(), i);
    }
}

/// Sum of a vector of units, which cannot overflow a `u128`.
fn sum_units(odds: &Vec<u64>) -> (r: u128)
    ensures
        r as nat == total(odds@),
{
    let mut sum: u128 = 0;
    let mut i: usize = 0;
    while i < odds.len()
        invariant
            i <= odds.len(),
            sum as nat == total(odds@.take(i as int)),
        decreases odds.len() - i,
    {
        proof {
            lemma_total_take(odds@, i as int);
            lemma_total_bound(odds@.take(i + 1));
            assert((i + 1) * (u64::MAX as nat) <= u128::MAX) by (nonlinear_arith)
                requires i < usize::MAX;
        }
        sum = sum + odds[i] as u128;
        i = i + 1;
    }
    assert(odds@.take(odds.len() as int) =~= odds@);
    sum
}

/// The index of the unmarked entry with the largest leftover (see
/// `best_unmarked`), if any.
fn best_of(s: &Vec<u64>, k: u64, t: u128, rest: &Vec<u128>, b: &Vec<bool>) -> (r: Option<usize>)
    requires
        t > 0,
        rest@.len() == s@.len(),
        b@.len() == s@.len(),
        forall|i: int| 0 <= i < s@.len() ==> #[trigger] rest@[i] as nat == leftover(s@[i], k as nat, t as nat),
    ensures
        match r {
            Some(j) => j == best_unmarked(s@, k as nat, t as nat, b@, s@.len() as int),
            None => best_unmarked(s@, k as nat, t as nat, b@, s@.len() as int) < 0,
        },
{
    let mut cur: Option<usize> = None;
    let mut i: usize = 0;
    while i < s.len()
        invariant
            i <= s@.len(),
            rest@.len() == s@.len(),
            b@.len() == s@.len(),
            forall|q: int| 0 <= q < s@.len() ==> #[trigger] rest@[q] as nat == leftover(s@[q], k as nat, t as nat),
            match cur {
                Some(j) => j < i && j == best_unmarked(s@, k as nat, t as nat, b@, i as int),
                None => best_unmarked(s@, k as nat, t as nat, b@, i as int) < 0,
            },
        decreases s.len() - i,
    {
        if !b[i] {
            match cur {
                Some(j) => {
                    if rest[i] > rest[j] {
                        cur = Some(i);
                    }
                },
                None => {
                    cur = Some(i);
                },
            }
        }
        i = i + 1;
    }
    cur
}

/// `k * odds[i] / sum(odds)` for each `i`, rounded to add up to `k` (see
/// `rounded_shares`); `None` when there are odds and all are zero.
fn shares_of(odds: &Vec<u64>, k: u64) -> (r: Option<Vec<u64>>)
    requires
        0 < k <= HUNDRED,
    ensures
        match r {
            Some(v) => !(odds@.len() > 0 && total(odds@) == 0)
                && v@ == rounded_shares(odds@, k as nat, total(odds@)),
            None => odds@.len() > 0 && total(odds@) == 0,
        },
{
    let sum = sum_units(odds);
    if odds.len() > 0 && sum == 0 {
        return None;
    }
    if odds.len() == 0 {
        let r: Vec<u64> = Vec::new();
        assert(r@ =~= rounded_shares(odds@, k as nat, total(odds@)));
        return Some(r);
    }
    let ghost t = total(odds@);
    let ghost fl = shares(odds@, k as nat, t);
    // the rounded-down shares, their leftovers and their total
    let mut down: Vec<u64> = Vec::new();
    let mut rest: Vec<u128> = Vec::new();
    let mut f: u128 = 0;
    let mut i: usize = 0;
    while i < odds.len()
        invariant
            i <= odds@.len(),
            sum as nat == t,
            t == total(odds@),
            sum > 0,
            fl == shares(odds@, k as nat, t),
            0 < k <= HUNDRED,
            down@.len() == i,
            rest@.len() == i,
            forall|q: int| 0 <= q < i ==> #[trigger] down@[q] == fl[q],
            forall|q: int| 0 <= q < i ==> #[trigger] rest@[q] as nat == leftover(odds@[q], k as nat, t),
            f as nat == total(fl.take(i as int)),
            f <= (i as nat) * (HUNDRED as nat),
        decreases odds.len() - i,
    {
        proof {
            lemma_elem_le_total(odds@, i as int);
        }
        let x: u64 = odds[i];
        assert((k as nat) * (x as nat) <= (u64::MAX as nat) * (u64::MAX as nat)) by (nonlinear_arith)
            requires x <= u64::MAX, k <= u64::MAX;
        let p: u128 = (k as u128) * (x as u128);
        let q: u128 = p / sum;
        assert(q <= k) by (nonlinear_arith)
            requires q == (k as nat) * (x as nat) / (sum as nat), x as nat <= sum as nat, sum > 0;
        assert(fl[i as int] as nat == (k as nat) * (x as nat) / t);
        assert(fl[i as int] == q as u64);
        down.push(q as u64);
        rest.push(p % sum);
        proof {
            lemma_total_take(fl, i as int);
            assert(fl[i as int] as nat == q);
            assert((i as nat) * (HUNDRED as nat) + (HUNDRED as nat) == ((i + 1) as nat) * (HUNDRED as nat)) by (nonlinear_arith);
            assert(((i + 1) as nat) * (HUNDRED as nat) <= u128::MAX) by (nonlinear_arith)
                requires i < usize::MAX;
        }
        f = f + q;
        i = i + 1;
    }
    assert(fl.take(odds.len() as int) =~= fl);
    let m: u128 = if f <= k as u128 { k as u128 - f } else { 0 };
    assert(m as nat == shortfall(odds@, k as nat, t));
    // which shares get one more unit
    let mut b: Vec<bool> = Vec::new();
    let mut i: usize = 0;
    while i < odds.len()
        invariant
            i <= odds@.len(),
            b@ == Seq::new(i as nat, |q: int| false),
        decreases odds.len() - i,
    {
        b.push(false);
        i = i + 1;
        assert(b@ =~= Seq::new(i as nat, |q: int| false));
    }
    let mut round: u128 = 0;
    while round < m
        invariant
            round <= m,
            m as nat == shortfall(odds@, k as nat, t),
            sum as nat == t,
            sum > 0,
            rest@.len() == odds@.len(),
            forall|q: int| 0 <= q < odds@.len() ==> #[trigger] rest@[q] as nat == leftover(odds@[q], k as nat, t),
            b@ == extra_units(odds@, k as nat, t, round as nat),
            b@.len() == odds@.len(),
        decreases m - round,
    {
        let ghost before = b@;
        let j = best_of(odds, k, sum, &rest, &b);
        proof {
            lemma_best_unmarked(odds@, k as nat, t, b@, odds@.len() as int);
        }
        match j {
            Some(j) => {
                b.set(j, true);
            },
            None => {},
        }
        assert(b@ == extra_units(odds@, k as nat, t, (round + 1) as nat));
        round = round + 1;
    }
    let mut r: Vec<u64> = Vec::new();
    let mut i: usize = 0;
    while i < odds.len()
        invariant
            i <= odds@.len(),
            down@.len() == odds@.len(),
            b@.len() == odds@.len(),
            fl.len() == odds@.len(),
            t == total(odds@),
            t > 0,
            forall|q: int| 0 <= q < odds@.len() ==> #[trigger] down@[q] == fl[q],
            fl == shares(odds@, k as nat, t),
            b@ == extra_units(odds@, k as nat, t, shortfall(odds@, k as nat, t)),
            0 < k <= HUNDRED,
            r@.len() == i,
            forall|q: int| 0 <= q < i ==> #[trigger] r@[q] == (down@[q] as nat + if b@[q] { 1nat } else { 0nat }) as u64,
        decreases odds.len() - i,
    {
        assert(down@[i as int] <= k) by {
            lemma_elem_le_total(odds@, i as int);
            assert((k as nat) * (odds@[i as int] as nat) / t <= k) by (nonlinear_arith)
                requires odds@[i as int] as nat <= t, t > 0;
        }
        let v: u64 = if b[i] { down[i] + 1 } else { down[i] };
        r.push(v);
        i = i + 1;
    }
    assert forall|q: int| 0 <= q < odds@.len() implies #[trigger] fl[q] as nat == (k as nat) * (odds@[q] as nat) / t by {
        lemma_elem_le_total(odds@, q);
        assert((k as nat) * (odds@[q] as nat) / t <= k) by (nonlinear_arith)
            requires odds@[q] as nat <= t, t > 0;
    }
    assert(r@ =~= rounded_shares(odds@, k as nat, t));
    Some(r)
}

/// The search finds an unmarked entry, if there is one.
proof fn lemma_best_unmarked(s: Seq<u64>, k: nat, t: nat, b: Seq<bool>, n: int)
    requires
        b.len() == s.len(),
        0 <= n <= s.len(),
    ensures
        -1 <= best_unmarked(s, k, t, b, n) < n,
        best_unmarked(s, k, t, b, n) >= 0 ==> !b[best_unmarked(s, k, t, b, n)],
        best_unmarked(s, k, t, b, n) < 0 ==> forall|i: int| 0 <= i < n ==> #[trigger] b[i],
    decreases n,
{
    if n > 0 {
        lemma_best_unmarked(s, k, t, b, n - 1);
    }
}

/// Each of `odds` as a percentage of their sum, `100 * odds[i] / sum(odds)`,
/// rounded to units that add up to exactly one hundred: each share is
/// rounded down, and the units still missing go one each to the shares that
/// rounding cut most. `None` when there are odds and all are zero, for then
/// no share is defined.
pub fn percentize(odds: &Vec<u64>) -> (r: Option<Vec<u64>>)
    ensures
        match r {
            Some(v) => percents(odds@) == Some(v@),
            None => percents(odds@) is None,
        },
{
    shares_of(odds, HUNDRED)
}

/// Each of `odds` as a fraction of their sum, `odds[i] / sum(odds)`, rounded
/// like `percentize` to units that add up to exactly one. `None` when there
/// are odds and all are zero.
pub fn normalize(odds: &Vec<u64>) -> (r: Option<Vec<u64>>)
    ensures
        match r {
            Some(v) => fractions(odds@) == Some(v@),
            None => fractions(odds@) is None,
        },
{
    shares_of(odds, ONE)
}

proof fn lemma_shares_total(s: Seq<u64>, k: nat, t: nat)
    requires
        t > 0,
        k <= u64::MAX,
        forall|i: int| 0 <= i < s.len() ==> #[trigger] s[i] as nat <= t,
    ensures
        t * total(shares(s, k, t)) <= k * total(s),
        k * total(s) + s.len() <= t * (total(shares(s, k, t)) + s.len()),
    decreases s.len(),
{
    let q = shares(s, k, t);
    if s.len() > 0 {
        let front = s.drop_last();
        assert forall|i: int| 0 <= i < front.len() implies #[trigger] front[i] as nat <= t by {
            assert(front[i] == s[i]);
        }
        lemma_shares_total(front, k, t);
        assert(q.drop_last() =~= shares(front, k, t));
        let x = s.last() as nat;
        let qx = k * x / t;
        assert(qx <= k) by (nonlinear_arith)
            requires qx == k * x / t, x <= t, t > 0;
        assert(q.last() as nat == qx);
        assert(t * qx <= k * x && k * x + 1 <= t * (qx + 1)) by (nonlinear_arith)
            requires qx == k * x / t, t > 0;
        let tq = total(shares(front, k, t));
        let ts = total(front);
        assert(total(q) == tq + qx);
        assert(total(s) == ts + x);
        assert(t * total(q) <= k * total(s)) by (nonlinear_arith)
            requires t * tq <= k * ts, t * qx <= k * x, total(q) == tq + qx, total(s) == ts + x;
        assert(k * total(s) + s.len() <= t * (total(q) + s.len())) by (nonlinear_arith)
            requires
                k * ts + front.len() <= t * (tq + front.len()),
                k * x + 1 <= t * (qx + 1),
                total(q) == tq + qx,
                total(s) == ts + x,
                s.len() == front.len() + 1;
    } else {
        assert(total(q) == 0 && total(s) == 0);
        assert(t * 0 == 0 && k * 0 == 0) by (nonlinear_arith);
    }
}

proof fn lemma_count_le(b: Seq<bool>)
    ensures
        count_true(b) <= b.len(),
    decreases b.len(),
{
    if b.len() > 0 {
        lemma_count_le(b.drop_last());
    }
}

proof fn lemma_count_all(b: Seq<bool>)
    requires
        forall|i: int| 0 <= i < b.len() ==> #[trigger] b[i],
    ensures
        count_true(b) == b.len(),
    decreases b.len(),
{
    if b.len() > 0 {
        assert(b.last() == b[b.len() - 1]);
        lemma_count_all(b.drop_last());
    }
}

proof fn lemma_count_update(b: Seq<bool>, j: int)
    requires
        0 <= j < b.len(),
        !b[j],
    ensures
        count_true(b.update(j, true)) == count_true(b) + 1,
    decreases b.len(),
{
    let u = b.update(j, true);
    if j < b.len() - 1 {
        lemma_count_update(b.drop_last(), j);
        assert(u.drop_last() =~= b.drop_last().update(j, true));
    } else {
        assert(u.drop_last() =~= b.drop_last());
    }
}

/// `m` rounds mark `min(m, n)` of the `n` entries.
proof fn lemma_extra_units(s: Seq<u64>, k: nat, t: nat, m: nat)
    ensures
        extra_units(s, k, t, m).len() == s.len(),
        count_true(extra_units(s, k, t, m)) == if m <= s.len() { m } else { s.len() },
    decreases m,
{
    if m == 0 {
        lemma_count_all_false(s.len());
    } else {
        let b = extra_units(s, k, t, (m - 1) as nat);
        lemma_extra_units(s, k, t, (m - 1) as nat);
        let j = best_unmarked(s, k, t, b, s.len() as int);
        lemma_best_unmarked(s, k, t, b, s.len() as int);
        lemma_count_le(b);
        if j >= 0 {
            lemma_count_update(b, j);
            lemma_count_le(b.update(j, true));
        } else {
            lemma_count_all(b);
        }
    }
}

proof fn lemma_count_all_false(n: nat)
    ensures
        count_true(Seq::new(n, |i: int| false)) == 0,
    decreases n,
{
    if n > 0 {
        lemma_count_all_false((n - 1) as nat);
        assert(Seq::new(n, |i: int| false).drop_last() =~= Seq::new((n - 1) as nat, |i: int| false));
    }
}

/// Adding one unit at each marked entry adds the number of marks.
proof fn lemma_total_plus(a: Seq<u64>, b: Seq<bool>, r: Seq<u64>)
    requires
        a.len() == b.len() == r.len(),
        forall|i: int| 0 <= i < r.len() ==> #[trigger] r[i] as nat == a[i] as nat + if b[i] { 1nat } else { 0nat },
    ensures
        total(r) == total(a) + count_true(b),
    decreases r.len(),
{
    if r.len() > 0 {
        lemma_total_plus(a.drop_last(), b.drop_last(), r.drop_last());
        assert(r.last() == r[r.len() - 1]);
        assert(a.last() == a[a.len() - 1]);
        assert(b.last() == b[b.len() - 1]);
    }
}

/// Rounded shares of a sum that is not zero add up to exactly `k`, each
/// within one unit above its rounded-down value.
proof fn lemma_rounded_total(s: Seq<u64>, k: nat)
    requires
        total(s) > 0,
        0 < k < u64::MAX,
    ensures
        total(rounded_shares(s, k, total(s))) == k,
        forall|i: int| 0 <= i < s.len() ==> {
            &&& #[trigger] shares(s, k, total(s))[i] <= rounded_shares(s, k, total(s))[i]
            &&& rounded_shares(s, k, total(s))[i] <= shares(s, k, total(s))[i] + 1
        },
{
    let t = total(s);
    assert forall|i: int| 0 <= i < s.len() implies #[trigger] s[i] as nat <= t by {
        lemma_elem_le_total(s, i);
    }
    lemma_shares_total(s, k, t);
    let fl = shares(s, k, t);
    let f = total(fl);
    let n = s.len();
    assert(n > 0) by {
        if n == 0 {
            assert(total(s) == 0);
        }
    }
    assert(f <= k) by (nonlinear_arith)
        requires t * f <= k * t, t > 0;
    assert(k - f < n) by (nonlinear_arith)
        requires k * t + n <= t * (f + n), t > 0, n > 0, f <= k;
    let m = shortfall(s, k, t);
    assert(m == k - f);
    let b = extra_units(s, k, t, m);
    lemma_extra_units(s, k, t, m);
    let r = rounded_shares(s, k, t);
    assert forall|i: int| 0 <= i < n implies (#[trigger] fl[i]) as nat == k * (s[i] as nat) / t by {
        assert(k * (s[i] as nat) / t <= k) by (nonlinear_arith)
            requires s[i] as nat <= t, t > 0;
    }
    assert forall|i: int| 0 <= i < n implies #[trigger] r[i] as nat == fl[i] as nat + if b[i] { 1nat } else { 0nat } by {
        assert(fl[i] as nat == k * (s[i] as nat) / t);
        assert(k * (s[i] as nat) / t <= k) by (nonlinear_arith)
            requires s[i] as nat <= t, t > 0;
    }
    lemma_total_plus(fl, b, r);
}

/// Percentages of odds that do not sum to zero add up to exactly one
/// hundred, each within one unit above its rounded-down value.
pub proof fn law_percents_sum(odds: Seq<u64>)
    requires
        total(odds) > 0,
    ensures
        percents(odds) is Some,
        total(percents(odds)->0) == HUNDRED,
        forall|i: int| 0 <= i < odds.len() ==> {
            &&& #[trigger] shares(odds, HUNDRED as nat, total(odds))[i] <= percents(odds)->0[i]
            &&& percents(odds)->0[i] <= shares(odds, HUNDRED as nat, total(odds))[i] + 1
        },
{
    lemma_rounded_total(odds, HUNDRED as nat);
}

/// Fractions of odds that do not sum to zero add up to exactly one, each
/// within one unit above its rounded-down value.
pub proof fn law_fractions_sum(odds: Seq<u64>)
    requires
        total(odds) > 0,
    ensures
        fractions(odds) is Some,
        total(fractions(odds)->0) == ONE,
        forall|i: int| 0 <= i < odds.len() ==> {
            &&& #[trigger] shares(odds, ONE as nat, total(odds))[i] <= fractions(odds)->0[i]
            &&& fractions(odds)->0[i] <= shares(odds, ONE as nat, total(odds))[i] + 1
        },
{
    lemma_rounded_total(odds, ONE as nat);
}

/// Percentages that already add up to one hundred are their own
/// percentages: percentizing twice changes nothing.
pub proof fn law_percents_settled(odds: Seq<u64>)
    requires
        total(odds) == HUNDRED,
    ensures
        percents(odds) == Some(odds),
{
    let k = HUNDRED as nat;
    let fl = shares(odds, k, k);
    assert forall|i: int| 0 <= i < odds.len() implies #[trigger] fl[i] == odds[i] by {
        assert(k * (odds[i] as nat) / k == odds[i] as nat) by (nonlinear_arith)
            requires k > 0;
    }
    assert(fl =~= odds);
    assert(shortfall(odds, k, k) == 0);
    let b = extra_units(odds, k, k, 0);
    assert(rounded_shares(odds, k, k) =~= odds);
}

/// Folding in every row by prefix gives the full posterior.
pub proof fn law_full_prefix(prior: Seq<u64>, rows: Seq<Seq<u64>>)
    ensures
        posterior(prior, rows.take(rows.len() as int)) == posterior(prior, rows),
{
    assert(rows.take(rows.len() as int) =~= rows);
}

/// Rows of likelihood one leave the odds as they were.
pub proof fn law_identity_evidence(prior: Seq<u64>, rows: Seq<Seq<u64>>)
    requires
        shaped(prior, rows),
        forall|e: int, i: int| 0 <= e < rows.len() && 0 <= i < prior.len() ==> #[trigger] rows[e][i] == ONE,
    ensures
        posterior(prior, rows) == prior,
    decreases rows.len(),
{
    if rows.len() > 0 {
        let front = rows.drop_last();
        assert forall|e: int, i: int| 0 <= e < front.len() && 0 <= i < prior.len() implies #[trigger] front[e][i] == ONE by {
            assert(front[e] == rows[e]);
        }
        law_identity_evidence(prior, front);
        assert forall|i: int| 0 <= i < prior.len() implies #[trigger] posterior(prior, rows)[i] == prior[i] by {
            assert(posterior(prior, front)[i] == prior[i]);
            assert(rows.last()[i] == ONE);
            lemma_mul_one(prior[i]);
        }
    }
    assert(posterior(prior, rows) =~= prior);
}

} // verus!
