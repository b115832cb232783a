//! Reading back the markdown text of a document gives the document.

use vstd::prelude::*;

use crate::chars::{
    find_char, is_space, lemma_find_char_is, lines, strip_cr, trim, trim_end, trim_end_char,
    trim_start, trim_start_char,
};
use crate::decimal::{fixed_text, is_digit, lemma_fixed_round_trip, lemma_fixed_text_chars, lemma_number_is_fixed};
use crate::markdown::{
    evidence_block, evidence_blocks, is_item_heading, is_section_heading, item_heading, item_line,
    join_lines, likelihood_line, markdown_lines, markdown_text, posterior_line, prior_line,
    reads_as, run, section_line, section_named, start, step, word_evidence, word_posterior,
    word_prior, Fault, Parsed, Section, ODDS_DIGITS, PERCENT_DIGITS,
};
use crate::model::BayesData;

verus! {

/// Text that a line carries unchanged: no line feed, no colon, no
/// whitespace at either end.
pub open spec fn plain_text(l: Seq<char>) -> bool {
    &&& forall|i: int| 0 <= i < l.len() ==> #[trigger] l[i] != '\n' && l[i] != ':'
    &&& (l.len() > 0 ==> !is_space(l[0]) && !is_space(l.last()))
}

/// A hypothesis label that reads back: plain text, not starting with `##`
/// (its lines would read as headings).
pub open spec fn plain_hypothesis(l: Seq<char>) -> bool {
    &&& plain_text(l)
    &&& !(l.len() >= 2 && l[0] == '#' && l[1] == '#')
}

/// An evidence label that reads back: plain text, not starting with `#`
/// (it would be taken for part of its heading's marker).
pub open spec fn plain_evidence(l: Seq<char>) -> bool {
    &&& plain_text(l)
    &&& (l.len() > 0 ==> l[0] != '#')
}

/// Every hypothesis and evidence label reads back.
pub open spec fn plain_labels(d: BayesData) -> bool {
    &&& forall|i: int| 0 <= i < d.hyps().len() ==> plain_hypothesis(#[trigger] d.hyps()[i])
    &&& forall|e: int| 0 <= e < d.labels().len() ==> plain_evidence(#[trigger] d.labels()[e])
}

proof fn lemma_trim_plain(s: Seq<char>)
    requires
        s.len() > 0 ==> !is_space(s[0]) && !is_space(s.last()),
    ensures
        trim(s) == s,
{
}

proof fn lemma_trim_lead_space(s: Seq<char>)
    ensures
        trim(seq![' '] + s) == trim(s),
{
    assert((seq![' '] + s).drop_first() =~= s);
}

/// A line that holds no line feed and does not end in a carriage return.
pub open spec fn clean(l: Seq<char>) -> bool {
    &&& forall|i: int| 0 <= i < l.len() ==> #[trigger] l[i] != '\n'
    &&& (l.len() > 0 ==> l.last() != '\r')
}

/// Every line is clean.
pub open spec fn all_clean(ls: Seq<Seq<char>>) -> bool {
    forall|j: int| 0 <= j < ls.len() ==> clean(#[trigger] ls[j])
}

proof fn lemma_all_clean_concat(a: Seq<Seq<char>>, b: Seq<Seq<char>>)
    requires
        all_clean(a),
        all_clean(b),
    ensures
        all_clean(a + b),
{
    assert forall|j: int| 0 <= j < (a + b).len() implies clean(#[trigger] (a + b)[j]) by {
        if j < a.len() {
            assert((a + b)[j] == a[j]);
        } else {
            assert((a + b)[j] == b[j - a.len()]);
        }
    }
}

/// Lines that hold no line feed and do not end in a carriage return come
/// back from their joined text.
proof fn lemma_lines_join(ls: Seq<Seq<char>>)
    requires
        all_clean(ls),
    ensures
        lines(join_lines(ls)) == ls,
    decreases ls.len(),
{
    if ls.len() > 0 {
        let rest = ls.drop_first();
        assert forall|j: int| 0 <= j < rest.len() implies clean(#[trigger] rest[j]) by {
            assert(rest[j] == ls[j + 1]);
        }
        lemma_lines_join(rest);
        assert(clean(ls[0]));
        let s = join_lines(ls);
        let l0 = ls[0];
        assert(s == l0 + seq!['\n'] + join_lines(rest));
        assert forall|t: int| 0 <= t < l0.len() implies s[t] != '\n' by {
            assert(s[t] == l0[t]);
        }
        lemma_find_char_is(s, '\n', l0.len() as int);
        assert(s.take(l0.len() as int) =~= l0);
        assert(s.skip(l0.len() as int + 1) =~= join_lines(rest));
        assert(strip_cr(l0) == l0);
        assert(lines(s) =~= seq![l0] + rest);
        assert(seq![l0] + rest =~= ls);
    }
}

/// Reading `a + b` is reading `a`, then `b`.
proof fn lemma_run_concat(r: Result<Parsed, Fault>, a: Seq<Seq<char>>, b: Seq<Seq<char>>)
    ensures
        run(r, a + b) == run(run(r, a), b),
    decreases a.len(),
{
    if a.len() == 0 {
        assert(a + b =~= b);
    } else {
        assert((a + b)[0] == a[0]);
        assert((a + b).drop_first() =~= a.drop_first() + b);
        match r {
            Ok(s) => {
                lemma_run_concat(step(s, a[0]), a.drop_first(), b);
            },
            Err(f) => {
                lemma_run_err(f, b);
            },
        }
    }
}

proof fn lemma_run_err(f: Fault, b: Seq<Seq<char>>)
    ensures
        run(Err(f), b) == Err::<Parsed, Fault>(f),
{
}

proof fn lemma_run_one(st: Parsed, x: Seq<char>)
    ensures
        run(Ok(st), seq![x]) == step(st, x),
{
    assert(seq![x].drop_first() =~= Seq::<Seq<char>>::empty());
    assert(seq![x][0] == x);
    assert(run(step(st, x), Seq::<Seq<char>>::empty()) == step(st, x));
}

proof fn lemma_run_push(st: Parsed, a: Seq<Seq<char>>, x: Seq<char>)
    ensures
        run(Ok(st), a.push(x)) == match run(Ok(st), a) {
            Ok(s) => step(s, x),
            Err(f) => Err(f),
        },
{
    assert(a.push(x) =~= a + seq![x]);
    lemma_run_concat(Ok(st), a, seq![x]);
    match run(Ok(st), a) {
        Ok(s) => lemma_run_one(s, x),
        Err(f) => lemma_run_err(f, seq![x]),
    }
}

proof fn lemma_step_blank(st: Parsed)
    ensures
        step(st, seq![]) == Ok::<Parsed, Fault>(st),
{
    assert(trim(seq![]) =~= Seq::<char>::empty());
}

proof fn lemma_step_section(st: Parsed, w: Seq<char>)
    requires
        w.len() > 0,
        w[0] != '#',
        !is_space(w[0]),
        !is_space(w.last()),
    ensures
        step(st, section_line(w)) == Ok::<Parsed, Fault>(Parsed { section: section_named(w), ..st }),
{
    let l = section_line(w);
    assert(l.drop_first().drop_first() =~= seq![' '] + w);
    assert(l.drop_first()[0] == '#');
    assert(trim_start_char(l, '#') == trim_start_char(l.drop_first(), '#'));
    assert(trim_start_char(l.drop_first(), '#') == trim_start_char(seq![' '] + w, '#'));
    assert(trim_start_char(l, '#') == seq![' '] + w);
    lemma_trim_lead_space(w);
    lemma_trim_plain(w);
}

/// A `label: value` line whose label is plain and whose value starts
/// with a digit and ends with neither whitespace nor a colon: the position
/// of the colon and the two trimmed parts.
proof fn lemma_item_line(h: Seq<char>, t: Seq<char>)
    requires
        plain_hypothesis(h),
        t.len() > 0,
        is_digit(t[0]),
        !is_space(t.last()),
    ensures
        ({
            let l = item_line(h, t);
            &&& !is_section_heading(l)
            &&& !is_item_heading(l)
            &&& trim(l).len() != 0
            &&& find_char(l, ':') == h.len()
            &&& trim(l.take(h.len() as int)) == h
            &&& trim(l.skip(h.len() as int + 1)) == t
        }),
{
    let l = item_line(h, t);
    if h.len() > 0 {
        assert(l[0] == h[0]);
    }
    if h.len() > 1 {
        assert(l[1] == h[1]);
    } else {
        assert(l[h.len() as int] == ':');
    }
    assert(l.last() == t.last());
    lemma_trim_plain(l);
    assert forall|i: int| 0 <= i < h.len() implies l[i] != ':' by {
        assert(l[i] == h[i]);
    }
    lemma_find_char_is(l, ':', h.len() as int);
    assert(l.take(h.len() as int) =~= h);
    lemma_trim_plain(h);
    assert(l.skip(h.len() as int + 1) =~= seq![' '] + t);
    lemma_trim_lead_space(t);
    lemma_trim_plain(t);
}

proof fn lemma_step_prior(st: Parsed, h: Seq<char>, v: u64)
    requires
        st.section == Section::Prior,
        plain_hypothesis(h),
    ensures
        step(st, item_line(h, fixed_text(v as nat, ODDS_DIGITS as nat))) == Ok::<Parsed, Fault>(
            Parsed { hyps: st.hyps.push(h), prior: st.prior.push(v), ..st },
        ),
{
    let t = fixed_text(v as nat, ODDS_DIGITS as nat);
    lemma_fixed_text_chars(v as nat, ODDS_DIGITS as nat);
    assert(is_digit(t.last()) || t.last() == '.');
    lemma_item_line(h, t);
    lemma_fixed_round_trip(v, ODDS_DIGITS as nat);
    lemma_number_is_fixed(t, ODDS_DIGITS as nat);
}

proof fn lemma_step_likelihood(st: Parsed, h: Seq<char>, v: u64)
    requires
        st.section == Section::Evidence,
        st.rows.len() > 0,
        plain_hypothesis(h),
    ensures
        step(st, item_line(h, fixed_text(v as nat, PERCENT_DIGITS as nat) + seq!['%'])) == Ok::<Parsed, Fault>(
            Parsed { rows: st.rows.update(st.rows.len() - 1, st.rows.last().push(v)), ..st },
        ),
{
    let t = fixed_text(v as nat, PERCENT_DIGITS as nat);
    let tp = t + seq!['%'];
    lemma_fixed_text_chars(v as nat, PERCENT_DIGITS as nat);
    assert(is_digit(t.last()) || t.last() == '.');
    assert(tp[0] == t[0]);
    lemma_item_line(h, tp);
    assert(tp.drop_last() =~= t);
    assert(trim_end_char(tp, '%') == trim_end_char(t, '%'));
    assert(trim_end_char(t, '%') == t);
    lemma_fixed_round_trip(v, PERCENT_DIGITS as nat);
    lemma_number_is_fixed(t, PERCENT_DIGITS as nat);
}

proof fn lemma_step_heading(st: Parsed, l: Seq<char>)
    requires
        st.section == Section::Evidence,
        plain_evidence(l),
    ensures
        step(st, item_heading(l)) == Ok::<Parsed, Fault>(
            Parsed { labels: st.labels.push(l), rows: st.rows.push(seq![]), ..st },
        ),
{
    let s = item_heading(l);
    let n = l.len();
    assert(s[0] == '#' && s[1] == '#' && s[2] == '#');
    lemma_trim_plain(s);
    assert forall|i: int| 0 <= i < n + 4 implies s[i] != ':' by {
        if i >= 4 {
            assert(s[i] == l[i - 4]);
        }
    }
    lemma_find_char_is(s, ':', n as int + 4);
    let head = s.take(n as int + 4);
    assert(head =~= seq!['#', '#', '#', ' '] + l);
    if n == 0 {
        assert(head.drop_last() =~= seq!['#', '#', '#']);
        assert(trim_end(head) == trim_end(seq!['#', '#', '#']));
        assert(trim_start(head) == head);
        assert(trim(head) == seq!['#', '#', '#']);
        let h3 = seq!['#', '#', '#'];
        assert(h3.drop_first().drop_first().drop_first() =~= Seq::<char>::empty());
        assert(trim_start_char(h3, '#') == trim_start_char(h3.drop_first(), '#'));
        assert(h3.drop_first()[0] == '#');
        assert(h3.drop_first().drop_first()[0] == '#');
        assert(trim_start_char(h3.drop_first(), '#') == trim_start_char(h3.drop_first().drop_first(), '#'));
        assert(trim_start_char(h3.drop_first().drop_first(), '#') == trim_start_char(
            h3.drop_first().drop_first().drop_first(),
            '#',
        ));
        assert(trim_start_char(h3, '#') =~= Seq::<char>::empty());
        assert(trim(Seq::<char>::empty()) =~= Seq::<char>::empty());
        assert(l =~= Seq::<char>::empty());
    } else {
        assert(head.last() == l.last());
        lemma_trim_plain(head);
        let t1 = head.drop_first();
        let t2 = t1.drop_first();
        let t3 = t2.drop_first();
        assert(t3 =~= seq![' '] + l);
        assert(trim_start_char(head, '#') == trim_start_char(t1, '#'));
        assert(trim_start_char(t1, '#') == trim_start_char(t2, '#'));
        assert(trim_start_char(t2, '#') == trim_start_char(t3, '#'));
        assert(trim_start_char(t3, '#') == t3);
        lemma_trim_lead_space(l);
        lemma_trim_plain(l);
    }
}

proof fn lemma_step_ignored(st: Parsed, h: Seq<char>, t: Seq<char>)
    requires
        st.section == Section::Posterior,
        plain_hypothesis(h),
        t.len() > 0,
        is_digit(t[0]) || t[0] == 'N',
        !is_space(t.last()),
    ensures
        step(st, item_line(h, t)) == Ok::<Parsed, Fault>(st),
{
    let l = item_line(h, t);
    if h.len() > 0 {
        assert(l[0] == h[0]);
    }
    if h.len() > 1 {
        assert(l[1] == h[1]);
    } else {
        assert(l[h.len() as int] == ':');
    }
    assert(l.last() == t.last());
    lemma_trim_plain(l);
    assert forall|i: int| 0 <= i < h.len() implies l[i] != ':' by {
        assert(l[i] == h[i]);
    }
    lemma_find_char_is(l, ':', h.len() as int);
}

proof fn lemma_item_line_clean(h: Seq<char>, t: Seq<char>)
    requires
        plain_text(h),
        t.len() > 0,
        t.last() != '\r',
        forall|i: int| 0 <= i < t.len() ==> #[trigger] t[i] != '\n',
    ensures
        clean(item_line(h, t)),
{
    let l = item_line(h, t);
    assert forall|i: int| 0 <= i < l.len() implies #[trigger] l[i] != '\n' by {
        if i < h.len() {
            assert(l[i] == h[i]);
        } else if i >= h.len() + 2 {
            assert(l[i] == t[i - h.len() - 2]);
        }
    }
    assert(l.last() == t.last());
}

proof fn lemma_number_clean(v: u64, k: nat)
    ensures
        fixed_text(v as nat, k).len() > 0,
        clean(fixed_text(v as nat, k)),
        clean(fixed_text(v as nat, k) + seq!['%']),
{
    let t = fixed_text(v as nat, k);
    lemma_fixed_text_chars(v as nat, k);
    assert(is_digit(t.last()) || t.last() == '.');
    let tp = t + seq!['%'];
    assert forall|i: int| 0 <= i < tp.len() implies #[trigger] tp[i] != '\n' by {
        if i < t.len() {
            assert(tp[i] == t[i]);
            assert(is_digit(t[i]) || t[i] == '.');
        }
    }
}

proof fn lemma_prior_lines(d: BayesData, st: Parsed, n: nat)
    requires
        d.shape_ok(),
        plain_labels(d),
        st.section == Section::Prior,
        n <= d.hyps().len(),
    ensures
        run(Ok(st), Seq::new(n, |i: int| prior_line(d, i))) == Ok::<Parsed, Fault>(
            Parsed { hyps: st.hyps + d.hyps().take(n as int), prior: st.prior + d.prior().take(n as int), ..st },
        ),
        all_clean(Seq::new(n, |i: int| prior_line(d, i))),
    decreases n,
{
    let ls = Seq::new(n, |i: int| prior_line(d, i));
    if n == 0 {
        assert(st.hyps + d.hyps().take(0) =~= st.hyps);
        assert(st.prior + d.prior().take(0) =~= st.prior);
        assert(ls =~= Seq::<Seq<char>>::empty());
    } else {
        let m = (n - 1) as nat;
        lemma_prior_lines(d, st, m);
        let front = Seq::new(m, |i: int| prior_line(d, i));
        assert(ls =~= front.push(prior_line(d, m as int)));
        lemma_run_push(st, front, prior_line(d, m as int));
        let st1 = Parsed { hyps: st.hyps + d.hyps().take(m as int), prior: st.prior + d.prior().take(m as int), ..st };
        assert(plain_hypothesis(d.hyps()[m as int]));
        lemma_step_prior(st1, d.hyps()[m as int], d.prior()[m as int]);
        assert(st1.hyps.push(d.hyps()[m as int]) =~= st.hyps + d.hyps().take(n as int));
        assert(st1.prior.push(d.prior()[m as int]) =~= st.prior + d.prior().take(n as int));
        lemma_number_clean(d.prior()[m as int], ODDS_DIGITS as nat);
        lemma_item_line_clean(d.hyps()[m as int], fixed_text(d.prior()[m as int] as nat, ODDS_DIGITS as nat));
        assert forall|j: int| 0 <= j < ls.len() implies clean(#[trigger] ls[j]) by {
            if j < m {
                assert(ls[j] == front[j]);
            }
        }
    }
}

proof fn lemma_likelihood_lines(d: BayesData, st: Parsed, e: int, n: nat)
    requires
        d.shape_ok(),
        plain_labels(d),
        0 <= e < d.rows().len(),
        st.section == Section::Evidence,
        st.rows.len() > 0,
        n <= d.hyps().len(),
    ensures
        run(Ok(st), Seq::new(n, |i: int| likelihood_line(d, e, i))) == Ok::<Parsed, Fault>(
            Parsed { rows: st.rows.update(st.rows.len() - 1, st.rows.last() + d.rows()[e].take(n as int)), ..st },
        ),
        all_clean(Seq::new(n, |i: int| likelihood_line(d, e, i))),
    decreases n,
{
    let ls = Seq::new(n, |i: int| likelihood_line(d, e, i));
    let last = st.rows.len() - 1;
    if n == 0 {
        assert(st.rows.last() + d.rows()[e].take(0) =~= st.rows.last());
        assert(st.rows.update(last, st.rows.last()) =~= st.rows);
        assert(ls =~= Seq::<Seq<char>>::empty());
    } else {
        let m = (n - 1) as nat;
        lemma_likelihood_lines(d, st, e, m);
        let front = Seq::new(m, |i: int| likelihood_line(d, e, i));
        assert(ls =~= front.push(likelihood_line(d, e, m as int)));
        lemma_run_push(st, front, likelihood_line(d, e, m as int));
        let st1 = Parsed { rows: st.rows.update(last, st.rows.last() + d.rows()[e].take(m as int)), ..st };
        assert(plain_hypothesis(d.hyps()[m as int]));
        assert(d.rows()[e].len() == d.hyps().len());
        let v = d.rows()[e][m as int];
        lemma_step_likelihood(st1, d.hyps()[m as int], v);
        assert(st1.rows.last() == st.rows.last() + d.rows()[e].take(m as int));
        assert(st1.rows.last().push(v) =~= st.rows.last() + d.rows()[e].take(n as int));
        assert(st1.rows.update(last, st1.rows.last().push(v)) =~= st.rows.update(
            last,
            st.rows.last() + d.rows()[e].take(n as int),
        ));
        lemma_number_clean(v, PERCENT_DIGITS as nat);
        lemma_item_line_clean(d.hyps()[m as int], fixed_text(v as nat, PERCENT_DIGITS as nat) + seq!['%']);
        assert forall|j: int| 0 <= j < ls.len() implies clean(#[trigger] ls[j]) by {
            if j < m {
                assert(ls[j] == front[j]);
            }
        }
    }
}

proof fn lemma_evidence_blocks(d: BayesData, st: Parsed, n: nat)
    requires
        d.shape_ok(),
        plain_labels(d),
        st.section == Section::Evidence,
        n <= d.labels().len(),
    ensures
        run(Ok(st), evidence_blocks(d, n)) == Ok::<Parsed, Fault>(
            Parsed { labels: st.labels + d.labels().take(n as int), rows: st.rows + d.rows().take(n as int), ..st },
        ),
        all_clean(evidence_blocks(d, n)),
    decreases n,
{
    if n == 0 {
        assert(st.labels + d.labels().take(0) =~= st.labels);
        assert(st.rows + d.rows().take(0) =~= st.rows);
    } else {
        let m = (n - 1) as nat;
        let e = m as int;
        lemma_evidence_blocks(d, st, m);
        let st1 = Parsed { labels: st.labels + d.labels().take(e), rows: st.rows + d.rows().take(e), ..st };
        lemma_run_concat(Ok(st), evidence_blocks(d, m), evidence_block(d, e));
        let opt: Seq<Seq<char>> = if e > 0 { seq![seq![]] } else { seq![] };
        let head = seq![item_heading(d.labels()[e])];
        let lk = Seq::new(d.hyps().len(), |i: int| likelihood_line(d, e, i));
        assert(evidence_block(d, e) == opt + head + lk);
        lemma_run_concat(Ok(st1), opt + head, lk);
        lemma_run_concat(Ok(st1), opt, head);
        if e > 0 {
            lemma_run_one(st1, seq![]);
            lemma_step_blank(st1);
        } else {
            assert(opt =~= Seq::<Seq<char>>::empty());
        }
        assert(run(Ok(st1), opt) == Ok::<Parsed, Fault>(st1));
        lemma_run_one(st1, item_heading(d.labels()[e]));
        assert(plain_evidence(d.labels()[e]));
        lemma_step_heading(st1, d.labels()[e]);
        let st2 = Parsed { labels: st1.labels.push(d.labels()[e]), rows: st1.rows.push(seq![]), ..st1 };
        lemma_likelihood_lines(d, st2, e, d.hyps().len());
        assert(d.rows()[e].len() == d.hyps().len());
        assert(d.rows()[e].take(d.hyps().len() as int) =~= d.rows()[e]);
        assert(st2.rows.last() == Seq::<u64>::empty());
        assert(Seq::<u64>::empty() + d.rows()[e] =~= d.rows()[e]);
        assert(st2.rows.update(st2.rows.len() - 1, st2.rows.last() + d.rows()[e].take(d.hyps().len() as int))
            =~= st.rows + d.rows().take(n as int));
        assert(st2.labels =~= st.labels + d.labels().take(n as int));
        // the lines are clean
        lemma_heading_clean(d.labels()[e]);
        assert(all_clean(opt));
        lemma_all_clean_concat(opt, head);
        lemma_all_clean_concat(opt + head, lk);
        lemma_all_clean_concat(evidence_blocks(d, m), evidence_block(d, e));
    }
}

proof fn lemma_heading_clean(l: Seq<char>)
    requires
        plain_text(l),
    ensures
        clean(item_heading(l)),
        all_clean(seq![item_heading(l)]),
{
    let s = item_heading(l);
    assert forall|i: int| 0 <= i < s.len() implies #[trigger] s[i] != '\n' by {
        if 4 <= i < s.len() - 1 {
            assert(s[i] == l[i - 4]);
        }
    }
    assert(seq![s][0] == s);
}

proof fn lemma_posterior_lines(d: BayesData, st: Parsed, n: nat)
    requires
        d.wf(),
        plain_labels(d),
        st.section == Section::Posterior,
        n <= d.hyps().len(),
    ensures
        run(Ok(st), Seq::new(n, |i: int| posterior_line(d, i))) == Ok::<Parsed, Fault>(st),
        all_clean(Seq::new(n, |i: int| posterior_line(d, i))),
    decreases n,
{
    let ls = Seq::new(n, |i: int| posterior_line(d, i));
    if n == 0 {
        assert(ls =~= Seq::<Seq<char>>::empty());
    } else {
        let m = (n - 1) as nat;
        lemma_posterior_lines(d, st, m);
        let front = Seq::new(m, |i: int| posterior_line(d, i));
        assert(ls =~= front.push(posterior_line(d, m as int)));
        lemma_run_push(st, front, posterior_line(d, m as int));
        let h = d.hyps()[m as int];
        assert(plain_hypothesis(h));
        match crate::model::opt_view(d.posterior_odds) {
            Some(p) => {
                let t = fixed_text(p[m as int] as nat, ODDS_DIGITS as nat);
                lemma_fixed_text_chars(p[m as int] as nat, ODDS_DIGITS as nat);
                assert(is_digit(t.last()) || t.last() == '.');
                lemma_step_ignored(st, h, t);
                lemma_number_clean(p[m as int], ODDS_DIGITS as nat);
                lemma_item_line_clean(h, t);
            },
            None => {
                let t = seq!['N', 'a', 'N'];
                lemma_step_ignored(st, h, t);
                lemma_item_line_clean(h, t);
            },
        }
        assert forall|j: int| 0 <= j < ls.len() implies clean(#[trigger] ls[j]) by {
            if j < m {
                assert(ls[j] == front[j]);
            }
        }
    }
}

/// The state after the prior section and the evidence heading.
pub open spec fn after_head(d: BayesData) -> Parsed {
    Parsed { section: Section::Evidence, hyps: d.hyps(), prior: d.prior(), labels: seq![], rows: seq![] }
}

/// The state after the whole text.
pub open spec fn after_all(d: BayesData) -> Parsed {
    Parsed { section: Section::Posterior, hyps: d.hyps(), prior: d.prior(), labels: d.labels(), rows: d.rows() }
}

/// The lines up to the evidence heading.
pub open spec fn head_lines(d: BayesData) -> Seq<Seq<char>> {
    seq![seq![], section_line(word_prior())] + Seq::new(d.hyps().len(), |i: int| prior_line(d, i)) + seq![
        seq![],
        section_line(word_evidence()),
    ]
}

/// The lines after the evidence heading.
pub open spec fn tail_lines(d: BayesData) -> Seq<Seq<char>> {
    let ne = d.labels().len();
    evidence_blocks(d, ne) + (if ne > 0 { seq![seq![]] } else { seq![] }) + seq![
        section_line(word_posterior()),
    ] + Seq::new(d.hyps().len(), |i: int| posterior_line(d, i))
}

proof fn lemma_split_lines(d: BayesData)
    ensures
        markdown_lines(d) == head_lines(d) + tail_lines(d),
{
    assert(markdown_lines(d) =~= head_lines(d) + tail_lines(d));
}

proof fn lemma_run_head(d: BayesData)
    requires
        d.wf(),
        plain_labels(d),
    ensures
        run(Ok(start()), head_lines(d)) == Ok::<Parsed, Fault>(after_head(d)),
        all_clean(head_lines(d)),
{
    let h = d.hyps().len();
    let prior_head = seq![seq![], section_line(word_prior())];
    let pl = Seq::new(h, |i: int| prior_line(d, i));
    let evidence_head = seq![seq![], section_line(word_evidence())];
    let s0 = start();
    lemma_run_concat(Ok(s0), seq![seq![]], seq![section_line(word_prior())]);
    assert(prior_head =~= seq![seq![]] + seq![section_line(word_prior())]);
    lemma_run_one(s0, seq![]);
    lemma_step_blank(s0);
    lemma_run_one(s0, section_line(word_prior()));
    lemma_step_section(s0, word_prior());
    let s1 = Parsed { section: Section::Prior, ..s0 };
    assert(run(Ok(s0), prior_head) == Ok::<Parsed, Fault>(s1));
    lemma_prior_lines(d, s1, h);
    assert(s1.hyps + d.hyps().take(h as int) =~= d.hyps());
    assert(s1.prior + d.prior().take(h as int) =~= d.prior());
    let s2 = Parsed { section: Section::Prior, hyps: d.hyps(), prior: d.prior(), labels: seq![], rows: seq![] };
    lemma_run_concat(Ok(s0), prior_head, pl);
    assert(run(Ok(s0), prior_head + pl) == Ok::<Parsed, Fault>(s2));
    assert(evidence_head =~= seq![seq![]] + seq![section_line(word_evidence())]);
    lemma_run_concat(Ok(s2), seq![seq![]], seq![section_line(word_evidence())]);
    lemma_run_one(s2, seq![]);
    lemma_step_blank(s2);
    lemma_run_one(s2, section_line(word_evidence()));
    lemma_step_section(s2, word_evidence());
    assert(word_evidence() != word_prior()) by {
        assert(word_evidence()[0] != word_prior()[0]);
    }
    lemma_run_concat(Ok(s0), prior_head + pl, evidence_head);
    assert(all_clean(prior_head)) by {
        assert(prior_head[1] == section_line(word_prior()));
    }
    assert(all_clean(evidence_head)) by {
        assert(evidence_head[1] == section_line(word_evidence()));
    }
    lemma_all_clean_concat(prior_head, pl);
    lemma_all_clean_concat(prior_head + pl, evidence_head);
}

proof fn lemma_run_tail(d: BayesData)
    requires
        d.wf(),
        plain_labels(d),
    ensures
        run(Ok(after_head(d)), tail_lines(d)) == Ok::<Parsed, Fault>(after_all(d)),
        all_clean(tail_lines(d)),
{
    let h = d.hyps().len();
    let ne = d.labels().len();
    let eb = evidence_blocks(d, ne);
    let gap: Seq<Seq<char>> = if ne > 0 { seq![seq![]] } else { seq![] };
    let posterior_head = seq![section_line(word_posterior())];
    let ql = Seq::new(h, |i: int| posterior_line(d, i));
    let s3 = after_head(d);
    lemma_evidence_blocks(d, s3, ne);
    assert(s3.labels + d.labels().take(ne as int) =~= d.labels());
    assert(s3.rows + d.rows().take(ne as int) =~= d.rows());
    let s4 = Parsed { section: Section::Evidence, ..after_all(d) };
    assert(run(Ok(s3), eb) == Ok::<Parsed, Fault>(s4));
    lemma_run_concat(Ok(s3), eb, gap);
    if ne > 0 {
        lemma_run_one(s4, seq![]);
        lemma_step_blank(s4);
    } else {
        assert(gap =~= Seq::<Seq<char>>::empty());
    }
    lemma_run_concat(Ok(s3), eb + gap, posterior_head);
    lemma_run_one(s4, section_line(word_posterior()));
    lemma_step_section(s4, word_posterior());
    assert(word_posterior() != word_prior()) by {
        assert(word_posterior()[1] != word_prior()[1]);
    }
    assert(word_posterior() != word_evidence()) by {
        assert(word_posterior()[0] != word_evidence()[0]);
    }
    let s5 = after_all(d);
    lemma_posterior_lines(d, s5, h);
    lemma_run_concat(Ok(s3), eb + gap + posterior_head, ql);
    assert(all_clean(gap));
    assert(all_clean(posterior_head)) by {
        assert(posterior_head[0] == section_line(word_posterior()));
    }
    lemma_all_clean_concat(eb, gap);
    lemma_all_clean_concat(eb + gap, posterior_head);
    lemma_all_clean_concat(eb + gap + posterior_head, ql);
}

/// Reading the markdown text of a well-formed document whose labels are
/// plain gives back its hypotheses, prior odds, evidence labels and
/// likelihood rows, exactly.
pub proof fn law_markdown_round_trip(d: BayesData)
    requires
        d.wf(),
        plain_labels(d),
    ensures
        reads_as(markdown_text(d), d),
{
    lemma_split_lines(d);
    lemma_run_head(d);
    lemma_run_tail(d);
    lemma_run_concat(Ok(start()), head_lines(d), tail_lines(d));
    lemma_all_clean_concat(head_lines(d), tail_lines(d));
    lemma_lines_join(markdown_lines(d));
}

} // verus!
