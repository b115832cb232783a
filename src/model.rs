//! The document: hypotheses, prior odds, evidence items with their
//! likelihood rows, and the posterior derived from them; and the edits that
//! keep its shape consistent.

use vstd::prelude::*;

use crate::chars::string_of;
use crate::decimal::{digits, push_digits};
use crate::fixed::{HUNDRED, ONE};
use crate::odds::{percentize, percents, posterior, recalculate, shaped};

verus! {

/// The most hypotheses that the editor lets a document have.
pub const MAX_HYPOTHESES: usize = 5;

/// The likelihood that a new entry starts with: `0.5`.
pub const HALF: u64 = 500_000_000;

/// A Bayesian reasoning document.
#[derive(Clone, Debug, PartialEq)]
pub struct BayesData {
    pub hypotheses: Vec<String>,
    pub prior_odds: Vec<u64>,
    /// Posterior odds as percentages; `None` when every hypothesis has
    /// odds zero after the evidence, so that no share is defined.
    pub posterior_odds: Option<Vec<u64>>,
    pub evidence: Vec<String>,
    pub likelihoods: Vec<Vec<u64>>,
}

/// The letter that names the `n`-th default hypothesis.
pub open spec fn letter(n: nat) -> char {
    if n == 0 { 'A' }
    else if n == 1 { 'B' }
    else if n == 2 { 'C' }
    else if n == 3 { 'D' }
    else { 'E' }
}

/// `Hypothesis A`, `Hypothesis B`, ... for `n` = 0, 1, ...
pub open spec fn hypothesis_label(n: nat) -> Seq<char> {
    seq!['H', 'y', 'p', 'o', 't', 'h', 'e', 's', 'i', 's', ' ', letter(n)]
}

/// `Evidence 1`, `Evidence 2`, ... for `n` = 1, 2, ...
pub open spec fn evidence_label(n: nat) -> Seq<char> {
    seq!['E', 'v', 'i', 'd', 'e', 'n', 'c', 'e', ' '] + digits(n)
}

/// The posterior that prior odds and likelihood rows give: the folded odds
/// as percentages.
pub open spec fn derived_posterior(prior: Seq<u64>, rows: Seq<Seq<u64>>) -> Option<Seq<u64>> {
    percents(posterior(prior, rows))
}

/// The view of an optional vector.
pub open spec fn opt_view(o: Option<Vec<u64>>) -> Option<Seq<u64>> {
    match o {
        Some(v) => Some(v@),
        None => None,
    }
}

/// `b` is `a` after adding a hypothesis: named after its position, prior
/// odds one, likelihood `0.5` in every row; `a` itself when it already has
/// `MAX_HYPOTHESES`.
pub open spec fn adds_hypothesis(a: BayesData, b: BayesData) -> bool {
    if a.hyps().len() >= MAX_HYPOTHESES {
        b == a
    } else {
        &&& b.hyps() == a.hyps().push(hypothesis_label(a.hyps().len()))
        &&& b.prior() == a.prior().push(ONE)
        &&& b.labels() == a.labels()
        &&& b.rows() == Seq::new(a.rows().len(), |e: int| a.rows()[e].push(HALF))
    }
}

/// `b` is `a` without hypothesis `index`: its label, its prior and its
/// entry of every row.
pub open spec fn deletes_hypothesis(a: BayesData, b: BayesData, index: int) -> bool {
    &&& b.hyps() == a.hyps().remove(index)
    &&& b.prior() == a.prior().remove(index)
    &&& b.labels() == a.labels()
    &&& b.rows() == Seq::new(a.rows().len(), |e: int| a.rows()[e].remove(index))
}

/// `b` is `a` with hypothesis `index` relabelled and given prior odds
/// `value`; `a` itself when `value` is negative.
pub open spec fn edits_prior(a: BayesData, b: BayesData, index: int, value: int, label: Seq<char>) -> bool {
    if value < 0 {
        b == a
    } else {
        &&& b.hyps() == a.hyps().update(index, label)
        &&& b.prior() == a.prior().update(index, value as u64)
        &&& b.labels() == a.labels()
        &&& b.rows() == a.rows()
    }
}

/// `b` is `a` with its prior odds replaced by their percentages; `a`'s
/// prior kept where those are undefined.
pub open spec fn percentizes_prior(a: BayesData, b: BayesData) -> bool {
    &&& b.hyps() == a.hyps()
    &&& b.labels() == a.labels()
    &&& b.rows() == a.rows()
    &&& b.prior() == match percents(a.prior()) {
        Some(p) => p,
        None => a.prior(),
    }
}

/// `b` is `a` with an evidence item appended: named after its position,
/// likelihood `0.5` for every hypothesis.
pub open spec fn adds_evidence(a: BayesData, b: BayesData) -> bool {
    &&& b.hyps() == a.hyps()
    &&& b.prior() == a.prior()
    &&& b.labels() == a.labels().push(evidence_label(a.labels().len() + 1))
    &&& b.rows() == a.rows().push(Seq::new(a.hyps().len(), |i: int| HALF))
}

/// `b` is `a` without evidence item `index` and its row.
pub open spec fn deletes_evidence(a: BayesData, b: BayesData, index: int) -> bool {
    &&& b.hyps() == a.hyps()
    &&& b.prior() == a.prior()
    &&& b.labels() == a.labels().remove(index)
    &&& b.rows() == a.rows().remove(index)
}

/// `b` is `a` with evidence item `index` relabelled.
pub open spec fn edits_evidence_label(a: BayesData, b: BayesData, index: int, label: Seq<char>) -> bool {
    &&& b.hyps() == a.hyps()
    &&& b.prior() == a.prior()
    &&& b.labels() == a.labels().update(index, label)
    &&& b.rows() == a.rows()
}

/// `b` is `a` with likelihood `value` for hypothesis `hyp` under evidence
/// item `ev`; `a` itself when `value` is negative.
pub open spec fn edits_likelihood(a: BayesData, b: BayesData, ev: int, hyp: int, value: int) -> bool {
    if value < 0 {
        b == a
    } else {
        &&& b.hyps() == a.hyps()
        &&& b.prior() == a.prior()
        &&& b.labels() == a.labels()
        &&& b.rows() == a.rows().update(ev, a.rows()[ev].update(hyp, value as u64))
    }
}

impl BayesData {
    /// The hypothesis labels.
    pub open spec fn hyps(&self) -> Seq<Seq<char>> {
        self.hypotheses.deep_view()
    }

    /// The prior odds, in units.
    pub open spec fn prior(&self) -> Seq<u64> {
        self.prior_odds@
    }

    /// The evidence labels.
    pub open spec fn labels(&self) -> Seq<Seq<char>> {
        self.evidence.deep_view()
    }

    /// The likelihood rows, one per evidence item, in units.
    pub open spec fn rows(&self) -> Seq<Seq<u64>> {
        self.likelihoods.deep_view()
    }

    /// One prior entry per hypothesis, one row per evidence item, one
    /// likelihood per hypothesis in each row.
    pub open spec fn shape_ok(&self) -> bool {
        &&& self.prior().len() == self.hyps().len()
        &&& self.rows().len() == self.labels().len()
        &&& shaped(self.prior(), self.rows())
    }

    /// Well-formed: consistent shape, and the posterior derived from the
    /// prior and the rows.
    pub open spec fn wf(&self) -> bool {
        &&& self.shape_ok()
        &&& opt_view(self.posterior_odds) == derived_posterior(self.prior(), self.rows())
    }

    /// The same hypotheses, prior, evidence and rows as `o`.
    pub open spec fn same_content(&self, o: &BayesData) -> bool {
        &&& self.hyps() == o.hyps()
        &&& self.prior() == o.prior()
        &&& self.labels() == o.labels()
        &&& self.rows() == o.rows()
    }

    /// The starting document: hypotheses A and B at even odds, one evidence
    /// item with likelihood `0.5` for each, a posterior of fifty-fifty.
    pub open spec fn is_starting(&self) -> bool {
        &&& self.hyps() == seq![hypothesis_label(0), hypothesis_label(1)]
        &&& self.prior() == seq![ONE, ONE]
        &&& self.labels() == seq![evidence_label(1)]
        &&& self.rows() == seq![seq![HALF, HALF]]
        &&& opt_view(self.posterior_odds) == Some(seq![HUNDRED / 2, HUNDRED / 2])
    }

    /// Recomputes the posterior from the prior and the rows.
    pub fn refresh(&mut self)
        requires
            old(self).shape_ok(),
        ensures
            final(self).wf(),
            final(self).same_content(old(self)),
    {
        let odds = recalculate(&self.prior_odds, &self.likelihoods);
        self.posterior_odds = percentize(&odds);
    }

    /// The starting document: hypotheses A and B at even odds, one evidence
    /// item with likelihood `0.5` for each.
    pub fn new() -> (r: BayesData)
        ensures
            r.wf(),
            r.is_starting(),
    {
        let a = new_hypothesis_label(0);
        let b = new_hypothesis_label(1);
        let e = new_evidence_label(1);
        let mut r = BayesData {
            hypotheses: vec![a, b],
            prior_odds: vec![ONE, ONE],
            posterior_odds: None,
            evidence: vec![e],
            likelihoods: vec![vec![HALF, HALF]],
        };
        assert(r.hyps() =~= seq![hypothesis_label(0), hypothesis_label(1)]);
        assert(r.labels() =~= seq![evidence_label(1)]);
        assert(r.likelihoods@[0].deep_view() =~= seq![HALF, HALF]);
        assert(r.rows() =~= seq![seq![HALF, HALF]]);
        r.refresh();
        proof {
            let rows = seq![seq![HALF, HALF]];
            let p = posterior(seq![ONE, ONE], rows);
            assert(rows.drop_last() =~= Seq::<Seq<u64>>::empty());
            crate::fixed::lemma_one_mul(HALF);
            assert(crate::odds::fold_odds(ONE, rows.drop_last(), 0) == ONE);
            assert(crate::odds::fold_odds(ONE, rows, 0) == HALF);
            assert(rows.last()[1] == HALF);
            assert(crate::odds::fold_odds(ONE, rows.drop_last(), 1) == ONE);
            assert(crate::odds::fold_odds(ONE, rows, 1) == HALF);
            assert(p =~= seq![HALF, HALF]);
            assert(p.drop_last() =~= seq![HALF]);
            assert(p.drop_last().drop_last() =~= Seq::<u64>::empty());
            assert(crate::odds::total(p.drop_last().drop_last()) == 0);
            assert(crate::odds::total(p.drop_last()) == HALF);
            assert(crate::odds::total(p) == 2 * HALF);
            let sh = crate::odds::shares(p, HUNDRED as nat, 2 * HALF as nat);
            assert(p[0] == HALF && p[1] == HALF);
            assert((HUNDRED as nat) * (HALF as nat) / (2 * HALF as nat) == (HUNDRED / 2) as nat) by (nonlinear_arith);
            assert(sh =~= seq![HUNDRED / 2, HUNDRED / 2]);
            assert(sh.drop_last() =~= seq![HUNDRED / 2]);
            assert(sh.drop_last().drop_last() =~= Seq::<u64>::empty());
            assert(crate::odds::total(sh.drop_last().drop_last()) == 0);
            assert(crate::odds::total(sh.drop_last()) == HUNDRED / 2);
            assert(sh.last() == HUNDRED / 2);
            assert(crate::odds::total(sh) == HUNDRED);
            assert(crate::odds::shortfall(p, HUNDRED as nat, 2 * HALF as nat) == 0);
            assert(percents(p)->0 =~= seq![HUNDRED / 2, HUNDRED / 2]);
        }
        r
    }

    /// A document of the given parts, with the posterior computed from them;
    /// `None` unless there is one prior per hypothesis, one row per evidence
    /// item and one likelihood per hypothesis in each row.
    pub fn from_parts(
        hypotheses: Vec<String>,
        prior_odds: Vec<u64>,
        evidence: Vec<String>,
        likelihoods: Vec<Vec<u64>>,
    ) -> (r: Option<BayesData>)
        ensures
            match r {
                Some(d) => {
                    &&& d.wf()
                    &&& d.hyps() == hypotheses.deep_view()
                    &&& d.prior() == prior_odds@
                    &&& d.labels() == evidence.deep_view()
                    &&& d.rows() == likelihoods.deep_view()
                },
                None => !{
                    &&& prior_odds@.len() == hypotheses.deep_view().len()
                    &&& likelihoods.deep_view().len() == evidence.deep_view().len()
                    &&& shaped(prior_odds@, likelihoods.deep_view())
                },
            },
    {
        proof {
            lemma_rows_view(&likelihoods);
        }
        if prior_odds.len() != hypotheses.len() || likelihoods.len() != evidence.len() {
            return None;
        }
        let mut e: usize = 0;
        while e < likelihoods.len()
            invariant
                e <= likelihoods.len(),
                forall|k: int| 0 <= k < e ==> (#[trigger] likelihoods@[k])@.len() == prior_odds@.len(),
            decreases likelihoods.len() - e,
        {
            if likelihoods[e].len() != prior_odds.len() {
                assert(likelihoods.deep_view()[e as int].len() != prior_odds@.len());
                return None;
            }
            e = e + 1;
        }
        let mut d = BayesData { hypotheses, prior_odds, posterior_odds: None, evidence, likelihoods };
        d.refresh();
        Some(d)
    }

    /// Adds a hypothesis named after its position (`Hypothesis C` as the
    /// third), with prior odds one and likelihood `0.5` in every row. Does
    /// nothing when there are already `MAX_HYPOTHESES`.
    pub fn add_hypothesis(&mut self)
        requires
            old(self).wf(),
        ensures
            final(self).wf(),
            adds_hypothesis(*old(self), *final(self)),
    {
        if self.hypotheses.len() >= MAX_HYPOTHESES {
            return;
        }
        let ghost old_rows = self.rows();
        proof {
            lemma_rows_view(&self.likelihoods);
        }
        let label = new_hypothesis_label(self.hypotheses.len());
        self.hypotheses.push(label);
        self.prior_odds.push(ONE);
        let ghost hyps = self.hypotheses;
        let ghost prior = self.prior_odds;
        let mut e: usize = 0;
        while e < self.likelihoods.len()
            invariant
                self.hypotheses == hyps,
                self.prior_odds == prior,
                self.evidence == old(self).evidence,
                e <= self.likelihoods.len(),
                self.likelihoods@.len() == old_rows.len(),
                forall|k: int| 0 <= k < e ==> (#[trigger] self.likelihoods@[k])@ == old_rows[k].push(HALF),
                forall|k: int| e <= k < old_rows.len() ==> (#[trigger] self.likelihoods@[k])@ == old_rows[k],
            decreases self.likelihoods.len() - e,
        {
            self.likelihoods[e].push(HALF);
            e = e + 1;
        }
        proof {
            lemma_rows_view(&self.likelihoods);
            assert(self.rows() =~= Seq::new(old_rows.len(), |k: int| old_rows[k].push(HALF)));
            assert(self.hyps() =~= old(self).hyps().push(hypothesis_label(old(self).hyps().len())));
        }
        self.refresh();
    }

    /// Removes hypothesis `index`, with its prior and its likelihood in every
    /// row.
    pub fn delete_hypothesis(&mut self, index: usize)
        requires
            old(self).wf(),
            index < old(self).hyps().len(),
        ensures
            final(self).wf(),
            deletes_hypothesis(*old(self), *final(self), index as int),
    {
        let ghost old_rows = self.rows();
        proof {
            lemma_rows_view(&self.likelihoods);
        }
        self.hypotheses.remove(index);
        self.prior_odds.remove(index);
        let ghost hyps = self.hypotheses;
        let ghost prior = self.prior_odds;
        let mut e: usize = 0;
        while e < self.likelihoods.len()
            invariant
                self.hypotheses == hyps,
                self.prior_odds == prior,
                self.evidence == old(self).evidence,
                e <= self.likelihoods.len(),
                index < old(self).hyps().len(),
                shaped(old(self).prior(), old_rows),
                old(self).prior().len() == old(self).hyps().len(),
                self.likelihoods@.len() == old_rows.len(),
                forall|k: int| 0 <= k < e ==> (#[trigger] self.likelihoods@[k])@ == old_rows[k].remove(index as int),
                forall|k: int| e <= k < old_rows.len() ==> (#[trigger] self.likelihoods@[k])@ == old_rows[k],
            decreases self.likelihoods.len() - e,
        {
            assert(old_rows[e as int].len() == old(self).prior().len());
            self.likelihoods[e].remove(index);
            e = e + 1;
        }
        proof {
            lemma_rows_view(&self.likelihoods);
            assert(self.rows() =~= Seq::new(old_rows.len(), |k: int| old_rows[k].remove(index as int)));
            assert(self.hyps() =~= old(self).hyps().remove(index as int));
        }
        self.refresh();
    }

    /// Sets the prior odds and the label of hypothesis `index`. Negative odds
    /// (in units) are refused: the document stays as it was.
    pub fn edit_prior(&mut self, index: usize, value: i64, label: String)
        requires
            old(self).wf(),
            index < old(self).hyps().len(),
        ensures
            final(self).wf(),
            edits_prior(*old(self), *final(self), index as int, value as int, label@),
    {
        if value < 0 {
            return;
        }
        let ghost l = label@;
        self.hypotheses.set(index, label);
        self.prior_odds.set(index, value as u64);
        assert(self.hyps() =~= old(self).hyps().update(index as int, l));
        self.refresh();
    }

    /// Appends an evidence item named after its position (`Evidence 2` as the
    /// second), with likelihood `0.5` for every hypothesis.
    pub fn add_evidence(&mut self)
        requires
            old(self).wf(),
            old(self).labels().len() < usize::MAX,
        ensures
            final(self).wf(),
            adds_evidence(*old(self), *final(self)),
    {
        let n: u64 = self.evidence.len() as u64 + 1;
        let label = new_evidence_label(n);
        self.evidence.push(label);
        let row = filled(self.hypotheses.len(), HALF);
        self.likelihoods.push(row);
        proof {
            lemma_rows_view(&self.likelihoods);
            assert(self.labels() =~= old(self).labels().push(evidence_label(old(self).labels().len() + 1)));
            assert(self.rows() =~= old(self).rows().push(Seq::new(old(self).hyps().len(), |i: int| HALF)));
        }
        self.refresh();
    }

    /// Removes evidence item `index` and its row.
    pub fn delete_evidence(&mut self, index: usize)
        requires
            old(self).wf(),
            index < old(self).labels().len(),
        ensures
            final(self).wf(),
            deletes_evidence(*old(self), *final(self), index as int),
    {
        self.evidence.remove(index);
        self.likelihoods.remove(index);
        proof {
            assert(self.labels() =~= old(self).labels().remove(index as int));
            assert(self.rows() =~= old(self).rows().remove(index as int));
        }
        self.refresh();
    }

    /// Renames evidence item `index`.
    pub fn edit_evidence_label(&mut self, index: usize, label: String)
        requires
            old(self).wf(),
            index < old(self).labels().len(),
        ensures
            final(self).wf(),
            edits_evidence_label(*old(self), *final(self), index as int, label@),
    {
        let ghost l = label@;
        self.evidence.set(index, label);
        assert(self.labels() =~= old(self).labels().update(index as int, l));
        self.refresh();
    }

    /// Sets the likelihood of hypothesis `hyp` under evidence item `ev`.
    /// Negative values (in units) are refused: the document stays as it was.
    pub fn edit_likelihood(&mut self, ev: usize, hyp: usize, value: i64)
        requires
            old(self).wf(),
            ev < old(self).labels().len(),
            hyp < old(self).hyps().len(),
        ensures
            final(self).wf(),
            edits_likelihood(*old(self), *final(self), ev as int, hyp as int, value as int),
    {
        if value < 0 {
            return;
        }
        proof {
            lemma_rows_view(&self.likelihoods);
            assert(old(self).rows()[ev as int].len() == old(self).prior().len());
        }
        self.likelihoods[ev].set(hyp, value as u64);
        proof {
            lemma_rows_view(&self.likelihoods);
            assert(self.rows() =~= old(self).rows().update(
                ev as int,
                old(self).rows()[ev as int].update(hyp as int, value as u64),
            ));
        }
        self.refresh();
    }

    /// Replaces the prior odds by their percentages, which keeps their
    /// ratios and makes them sum to one hundred. Prior odds that are all zero
    /// have no percentages and stay as they are.
    pub fn percentize_prior(&mut self)
        requires
            old(self).wf(),
        ensures
            final(self).wf(),
            percentizes_prior(*old(self), *final(self)),
    {
        match percentize(&self.prior_odds) {
            Some(p) => {
                self.prior_odds = p;
            },
            None => {},
        }
        self.refresh();
    }

    /// Resets the document to the starting one of `new`.
    pub fn clear(&mut self)
        ensures
            final(self).wf(),
            final(self).is_starting(),
    {
        *self = BayesData::new();
    }
}

/// The rows of a vector of vectors are the views of its vectors.
pub proof fn lemma_rows_view(v: &Vec<Vec<u64>>)
    ensures
        v.deep_view().len() == v@.len(),
        forall|k: int| 0 <= k < v@.len() ==> #[trigger] v.deep_view()[k] == v@[k]@,
{
    assert forall|k: int| 0 <= k < v@.len() implies #[trigger] v.deep_view()[k] == v@[k]@ by {
        assert(v.deep_view()[k] =~= v@[k]@);
    }
}

/// A vector of `n` copies of `v`.
fn filled(n: usize, v: u64) -> (r: Vec<u64>)
    ensures
        r@ == Seq::new(n as nat, |i: int| v),
{
    let mut r: Vec<u64> = Vec::new();
    let mut i: usize = 0;
    while i < n
        invariant
            i <= n,
            r@ == Seq::new(i as nat, |k: int| v),
        decreases n - i,
    {
        r.push(v);
        i = i + 1;
        assert(r@ =~= Seq::new(i as nat, |k: int| v));
    }
    r
}

/// The label of the `n`-th default hypothesis.
fn new_hypothesis_label(n: usize) -> (r: String)
    requires
        n < MAX_HYPOTHESES,
    ensures
        r@ == hypothesis_label(n as nat),
{
    let c = if n == 0 { 'A' } else if n == 1 { 'B' } else if n == 2 { 'C' } else if n == 3 { 'D' } else { 'E' };
    let v = vec!['H', 'y', 'p', 'o', 't', 'h', 'e', 's', 'i', 's', ' ', c];
    let r = string_of(&v);
    assert(r@ =~= hypothesis_label(n as nat));
    r
}

/// The label of the `n`-th default evidence item.
fn new_evidence_label(n: u64) -> (r: String)
    ensures
        r@ == evidence_label(n as nat),
{
    let mut v = vec!['E', 'v', 'i', 'd', 'e', 'n', 'c', 'e', ' '];
    push_digits(&mut v, n);
    let r = string_of(&v);
    assert(r@ =~= evidence_label(n as nat));
    r
}

} // verus!
