//! Edits as events. Each event is applied to the document in one step that
//! ends with the posterior recomputed, and tells the caller what to do
//! next: save and show the document, forget a shared link that no longer
//! shows it, or report a document that could not be read.

use vstd::prelude::*;

use crate::markdown::{fault_of, holds, parse_spec, MarkdownParseError};
use crate::model::{
    adds_evidence, adds_hypothesis, deletes_evidence, deletes_hypothesis, edits_evidence_label,
    edits_likelihood, edits_prior, percentizes_prior, BayesData, MAX_HYPOTHESES,
};

verus! {

/// Something the user did to the document.
pub enum Msg {
    AddHypothesis,
    DeleteHypothesis(usize),
    /// Hypothesis index, prior odds in units, label.
    Prior(usize, i64, String),
    PercentizePrior,
    AddEvidence,
    DeleteEvidence(usize),
    /// Evidence index, label.
    EditEvidence(usize, String),
    /// Evidence index, hypothesis index, likelihood in units.
    Evidence(usize, usize, i64),
    Clear,
    /// The text of a markdown document to load.
    FileContent(String),
    /// A document decoded from elsewhere, to load as it is.
    UpdateData(BayesData),
}

/// What the caller does after an event.
pub struct Outcome {
    /// The document may have changed: show it again and save it.
    pub persist: bool,
    /// A shared link made earlier no longer shows the document: drop it.
    pub clear_link: bool,
    /// Why the text of a `FileContent` could not be read.
    pub error: Option<MarkdownParseError>,
}

/// The indexes of `msg` are in range for `d`, and a document to load is
/// well-formed.
pub open spec fn allowed(d: BayesData, msg: Msg) -> bool {
    match msg {
        Msg::DeleteHypothesis(i) => i < d.hyps().len(),
        Msg::Prior(i, _, _) => i < d.hyps().len(),
        Msg::AddEvidence => d.labels().len() < usize::MAX,
        Msg::DeleteEvidence(e) => e < d.labels().len(),
        Msg::EditEvidence(e, _) => e < d.labels().len(),
        Msg::Evidence(e, i, _) => e < d.labels().len() && i < d.hyps().len(),
        Msg::UpdateData(n) => n.wf(),
        _ => true,
    }
}

/// An outcome with no error.
pub open spec fn plain(r: Outcome, persist: bool, clear_link: bool) -> bool {
    r.persist == persist && r.clear_link == clear_link && r.error is None
}

fn outcome(persist: bool, clear_link: bool) -> (r: Outcome)
    ensures
        plain(r, persist, clear_link),
{
    Outcome { persist, clear_link, error: None }
}

impl BayesData {
    /// Applies `msg`. Every change asks to be saved; every change but a
    /// deleted hypothesis or a loaded document also drops a shared link.
    /// Refused edits (a hypothesis past the bound, a negative value) and an
    /// unreadable document change nothing and ask for nothing.
    pub fn update(&mut self, msg: Msg) -> (r: Outcome)
        requires
            old(self).wf(),
            allowed(*old(self), msg),
        ensures
            final(self).wf(),
            !(msg is FileContent) && !(msg is UpdateData) && old(self).hyps().len() <= MAX_HYPOTHESES
                ==> final(self).hyps().len() <= MAX_HYPOTHESES,
            match msg {
                Msg::AddHypothesis => {
                    &&& adds_hypothesis(*old(self), *final(self))
                    &&& plain(r, old(self).hyps().len() < MAX_HYPOTHESES, old(self).hyps().len() < MAX_HYPOTHESES)
                },
                Msg::DeleteHypothesis(i) => deletes_hypothesis(*old(self), *final(self), i as int) && plain(r, true, false),
                Msg::Prior(i, v, l) => edits_prior(*old(self), *final(self), i as int, v as int, l@) && plain(r, v >= 0, v >= 0),
                Msg::PercentizePrior => percentizes_prior(*old(self), *final(self)) && plain(r, true, true),
                Msg::AddEvidence => adds_evidence(*old(self), *final(self)) && plain(r, true, true),
                Msg::DeleteEvidence(e) => deletes_evidence(*old(self), *final(self), e as int) && plain(r, true, true),
                Msg::EditEvidence(e, l) => edits_evidence_label(*old(self), *final(self), e as int, l@) && plain(r, true, true),
                Msg::Evidence(e, i, v) => edits_likelihood(*old(self), *final(self), e as int, i as int, v as int) && plain(r, v >= 0, v >= 0),
                Msg::Clear => final(self).is_starting() && plain(r, true, true),
                Msg::FileContent(text) => match parse_spec(text@) {
                    Ok(st) => holds(*final(self), st) && plain(r, true, true),
                    Err(f) => {
                        &&& *final(self) == *old(self)
                        &&& !r.persist
                        &&& !r.clear_link
                        &&& match r.error {
                            Some(e) => fault_of(e) == f,
                            None => false,
                        }
                    },
                },
                Msg::UpdateData(n) => *final(self) == n && plain(r, true, false),
            },
    {
        match msg {
            Msg::AddHypothesis => {
                let room = self.hypotheses.len() < MAX_HYPOTHESES;
                self.add_hypothesis();
                outcome(room, room)
            },
            Msg::DeleteHypothesis(i) => {
                self.delete_hypothesis(i);
                outcome(true, false)
            },
            Msg::Prior(i, v, l) => {
                self.edit_prior(i, v, l);
                outcome(v >= 0, v >= 0)
            },
            Msg::PercentizePrior => {
                self.percentize_prior();
                outcome(true, true)
            },
            Msg::AddEvidence => {
                self.add_evidence();
                outcome(true, true)
            },
            Msg::DeleteEvidence(e) => {
                self.delete_evidence(e);
                outcome(true, true)
            },
            Msg::EditEvidence(e, l) => {
                self.edit_evidence_label(e, l);
                outcome(true, true)
            },
            Msg::Evidence(e, i, v) => {
                self.edit_likelihood(e, i, v);
                outcome(v >= 0, v >= 0)
            },
            Msg::Clear => {
                self.clear();
                outcome(true, true)
            },
            Msg::FileContent(text) => match self.import_markdown(text.as_str()) {
                Ok(_) => outcome(true, true),
                Err(e) => Outcome { persist: false, clear_link: false, error: Some(e) },
            },
            Msg::UpdateData(n) => {
                *self = n;
                outcome(true, false)
            },
        }
    }
}

} // verus!
