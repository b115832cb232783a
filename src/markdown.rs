//! The document as markdown text: a `Prior` section with one
//! `label: odds` line per hypothesis, an `Evidence` section with a
//! `### label:` heading per evidence item followed by one
//! `hypothesis: percent%` line per hypothesis, and a `Posterior` section
//! that is written out but never read back.

use vstd::prelude::*;

use crate::chars::{
    find_char, find_from, lemma_find_char, lines, split_lines, string_of, subvec, trim,
    trim_end_char, trim_start_char, trimmed, trimmed_end_char, trimmed_start_char, chars_of,
};
use crate::decimal::{fixed_text, fixed_to_text, parse_number, parse_number_spec};
use crate::model::{BayesData, opt_view, lemma_rows_view};
use crate::odds::shaped;

verus! {

/// Fraction digits of odds in a document: one digit per decimal place of a
/// unit.
pub const ODDS_DIGITS: u32 = 9;

/// Fraction digits of a likelihood written as a percentage.
pub const PERCENT_DIGITS: u32 = 7;

/// Why a document could not be read.
#[derive(Debug, PartialEq)]
pub enum MarkdownParseError {
    /// A line that is neither blank, nor a heading, nor `label: value`; a
    /// likelihood before any evidence heading; or rows whose length differs
    /// from the number of hypotheses.
    InvalidFormat(String),
    /// A value that is no non-negative finite number, or too large; holds
    /// the text.
    ParseFloat(String),
}

/// The kind of a reading failure.
pub enum Fault {
    Format,
    Number,
}

/// The kind of `e`.
pub open spec fn fault_of(e: MarkdownParseError) -> Fault {
    match e {
        MarkdownParseError::InvalidFormat(_) => Fault::Format,
        MarkdownParseError::ParseFloat(_) => Fault::Number,
    }
}

/// The section that the lines being read belong to.
#[derive(PartialEq, Eq, Structural, Clone, Copy, Debug)]
pub enum Section {
    Prior,
    Evidence,
    Posterior,
    Other,
}

/// What has been read so far.
pub struct Parsed {
    pub section: Section,
    pub hyps: Seq<Seq<char>>,
    pub prior: Seq<u64>,
    pub labels: Seq<Seq<char>>,
    pub rows: Seq<Seq<u64>>,
}

/// `Prior`.
pub open spec fn word_prior() -> Seq<char> {
    seq!['P', 'r', 'i', 'o', 'r']
}

/// `Evidence`.
pub open spec fn word_evidence() -> Seq<char> {
    seq!['E', 'v', 'i', 'd', 'e', 'n', 'c', 'e']
}

/// `Posterior`.
pub open spec fn word_posterior() -> Seq<char> {
    seq!['P', 'o', 's', 't', 'e', 'r', 'i', 'o', 'r']
}

/// The section that a heading's name selects.
pub open spec fn section_named(name: Seq<char>) -> Section {
    if name == word_prior() {
        Section::Prior
    } else if name == word_evidence() {
        Section::Evidence
    } else if name == word_posterior() {
        Section::Posterior
    } else {
        Section::Other
    }
}

/// A line that starts with `##` but not with `###`.
pub open spec fn is_section_heading(l: Seq<char>) -> bool {
    l.len() >= 2 && l[0] == '#' && l[1] == '#' && !(l.len() >= 3 && l[2] == '#')
}

/// A line that starts with `###`.
pub open spec fn is_item_heading(l: Seq<char>) -> bool {
    l.len() >= 3 && l[0] == '#' && l[1] == '#' && l[2] == '#'
}

/// Nothing read yet, outside any section.
pub open spec fn start() -> Parsed {
    Parsed { section: Section::Other, hyps: seq![], prior: seq![], labels: seq![], rows: seq![] }
}

/// Reading one line.
pub open spec fn step(st: Parsed, line: Seq<char>) -> Result<Parsed, Fault> {
    if is_section_heading(line) {
        Ok(Parsed { section: section_named(trim(trim_start_char(line, '#'))), ..st })
    } else if trim(line).len() == 0 {
        Ok(st)
    } else {
        let k = find_char(line, ':');
        if k >= line.len() {
            Err(Fault::Format)
        } else {
            let label = trim(line.take(k));
            let value = trim(line.skip(k + 1));
            match st.section {
                Section::Prior => match parse_number_spec(value, ODDS_DIGITS as nat) {
                    Some(v) => Ok(Parsed { hyps: st.hyps.push(label), prior: st.prior.push(v), ..st }),
                    None => Err(Fault::Number),
                },
                Section::Evidence => if is_item_heading(line) {
                    Ok(Parsed {
                        labels: st.labels.push(trim(trim_start_char(label, '#'))),
                        rows: st.rows.push(seq![]),
                        ..st
                    })
                } else if st.rows.len() == 0 {
                    Err(Fault::Format)
                } else {
                    match parse_number_spec(trim_end_char(value, '%'), PERCENT_DIGITS as nat) {
                        Some(v) => Ok(Parsed {
                            rows: st.rows.update(st.rows.len() - 1, st.rows.last().push(v)),
                            ..st
                        }),
                        None => Err(Fault::Number),
                    }
                },
                _ => Ok(st),
            }
        }
    }
}

/// Reading the lines `ls` after `st`.
pub open spec fn run(st: Result<Parsed, Fault>, ls: Seq<Seq<char>>) -> Result<Parsed, Fault>
    decreases ls.len(),
{
    if ls.len() == 0 {
        st
    } else {
        match st {
            Ok(s) => run(step(s, ls[0]), ls.drop_first()),
            Err(f) => Err(f),
        }
    }
}

/// Reading a whole document: every line, then a check that each row has
/// one likelihood per hypothesis.
pub open spec fn parse_spec(text: Seq<char>) -> Result<Parsed, Fault> {
    match run(Ok(start()), lines(text)) {
        Ok(st) => if shaped(st.prior, st.rows) {
            Ok(st)
        } else {
            Err(Fault::Format)
        },
        Err(f) => Err(f),
    }
}

/// The document holds what was read.
pub open spec fn holds(d: BayesData, st: Parsed) -> bool {
    &&& d.hyps() == st.hyps
    &&& d.prior() == st.prior
    &&& d.labels() == st.labels
    &&& d.rows() == st.rows
}

/// `text` reads without failure, as a document that holds what `d` holds.
pub open spec fn reads_as(text: Seq<char>, d: BayesData) -> bool {
    match parse_spec(text) {
        Ok(st) => holds(d, st),
        Err(_) => false,
    }
}

/// `label: value`.
pub open spec fn item_line(label: Seq<char>, value: Seq<char>) -> Seq<char> {
    label + seq![':', ' '] + value
}

/// `## name`.
pub open spec fn section_line(name: Seq<char>) -> Seq<char> {
    seq!['#', '#', ' '] + name
}

/// `### label:`.
pub open spec fn item_heading(label: Seq<char>) -> Seq<char> {
    seq!['#', '#', '#', ' '] + label + seq![':']
}

/// `label: odds` for hypothesis `i`.
pub open spec fn prior_line(d: BayesData, i: int) -> Seq<char> {
    item_line(d.hyps()[i], fixed_text(d.prior()[i] as nat, ODDS_DIGITS as nat))
}

/// `label: percent%` for hypothesis `i` under evidence item `e`.
pub open spec fn likelihood_line(d: BayesData, e: int, i: int) -> Seq<char> {
    item_line(d.hyps()[i], fixed_text(d.rows()[e][i] as nat, PERCENT_DIGITS as nat) + seq!['%'])
}

/// A posterior percentage, or `NaN` where the posterior is undefined.
pub open spec fn posterior_line(d: BayesData, i: int) -> Seq<char> {
    item_line(
        d.hyps()[i],
        match opt_view(d.posterior_odds) {
            Some(p) => fixed_text(p[i] as nat, ODDS_DIGITS as nat),
            None => seq!['N', 'a', 'N'],
        },
    )
}

/// The heading of evidence item `e`, a blank line before it but for the
/// first, then its likelihood lines.
pub open spec fn evidence_block(d: BayesData, e: int) -> Seq<Seq<char>> {
    (if e > 0 { seq![seq![]] } else { seq![] }) + seq![item_heading(d.labels()[e])] + Seq::new(
        d.hyps().len(),
        |i: int| likelihood_line(d, e, i),
    )
}

/// The blocks of the first `n` evidence items.
pub open spec fn evidence_blocks(d: BayesData, n: nat) -> Seq<Seq<char>>
    decreases n,
{
    if n == 0 {
        seq![]
    } else {
        evidence_blocks(d, (n - 1) as nat) + evidence_block(d, n - 1)
    }
}

/// The lines of the markdown text of `d`.
pub open spec fn markdown_lines(d: BayesData) -> Seq<Seq<char>> {
    let h = d.hyps().len();
    let e = d.labels().len();
    seq![seq![], section_line(word_prior())] + Seq::new(h, |i: int| prior_line(d, i)) + seq![
        seq![],
        section_line(word_evidence()),
    ] + evidence_blocks(d, e) + (if e > 0 { seq![seq![]] } else { seq![] }) + seq![
        section_line(word_posterior()),
    ] + Seq::new(h, |i: int| posterior_line(d, i))
}

/// Each line followed by a line feed.
pub open spec fn join_lines(ls: Seq<Seq<char>>) -> Seq<char>
    decreases ls.len(),
{
    if ls.len() == 0 {
        seq![]
    } else {
        ls[0] + seq!['\n'] + join_lines(ls.drop_first())
    }
}

/// The markdown text of `d`.
pub open spec fn markdown_text(d: BayesData) -> Seq<char> {
    join_lines(markdown_lines(d))
}

proof fn lemma_join_push(ls: Seq<Seq<char>>, x: Seq<char>)
    ensures
        join_lines(ls.push(x)) == join_lines(ls) + x + seq!['\n'],
    decreases ls.len(),
{
    if ls.len() == 0 {
        assert(ls.push(x).drop_first() =~= Seq::<Seq<char>>::empty());
        assert(ls.push(x)[0] == x);
        assert(join_lines(ls.push(x).drop_first()) == Seq::<char>::empty());
        assert(join_lines(ls) == Seq::<char>::empty());
        assert(join_lines(ls.push(x)) =~= join_lines(ls) + x + seq!['\n']);
    } else {
        lemma_join_push(ls.drop_first(), x);
        assert(ls.push(x).drop_first() =~= ls.drop_first().push(x));
        assert(join_lines(ls.push(x)) =~= join_lines(ls) + x + seq!['\n']);
    }
}

/// Appends `line` and a line feed.
fn emit(out: &mut Vec<char>, line: &Vec<char>)
    ensures
        final(out)@ == old(out)@ + line@ + seq!['\n'],
{
    let mut i: usize = 0;
    let ghost start = out@;
    while i < line.len()
        invariant
            i <= line.len(),
            out@ == start + line@.take(i as int),
        decreases line.len() - i,
    {
        out.push(line[i]);
        i = i + 1;
        assert(out@ =~= start + line@.take(i as int));
    }
    out.push('\n');
    assert(line@.take(line.len() as int) =~= line@);
    assert(out@ =~= start + line@ + seq!['\n']);
}

/// `label: value`.
fn item_line_of(label: &String, value: &Vec<char>) -> (r: Vec<char>)
    ensures
        r@ == item_line(label@, value@),
{
    let mut r = chars_of(label.as_str());
    r.push(':');
    r.push(' ');
    let mut i: usize = 0;
    let ghost start = r@;
    while i < value.len()
        invariant
            i <= value.len(),
            r@ == start + value@.take(i as int),
        decreases value.len() - i,
    {
        r.push(value[i]);
        i = i + 1;
        assert(r@ =~= start + value@.take(i as int));
    }
    assert(value@.take(value.len() as int) =~= value@);
    assert(r@ =~= item_line(label@, value@));
    r
}

/// The labels joined by commas.
pub open spec fn joined(ls: Seq<Seq<char>>) -> Seq<char>
    decreases ls.len(),
{
    if ls.len() == 0 {
        seq![]
    } else if ls.len() == 1 {
        ls[0]
    } else {
        joined(ls.drop_last()) + seq![','] + ls.last()
    }
}

/// The name of the file that a document is saved to: its hypotheses joined
/// by commas, then `.bayes.md`.
pub open spec fn file_name(d: BayesData) -> Seq<char> {
    joined(d.hyps()) + seq!['.', 'b', 'a', 'y', 'e', 's', '.', 'm', 'd']
}

/// The name of the file that `state` is saved to (see `file_name`).
pub fn export_file_name(state: &BayesData) -> (r: String)
    ensures
        r@ == file_name(*state),
{
    let mut out: Vec<char> = Vec::new();
    let mut i: usize = 0;
    assert(state.hyps().take(0) =~= Seq::<Seq<char>>::empty());
    while i < state.hypotheses.len()
        invariant
            i <= state.hyps().len(),
            out@ == joined(state.hyps().take(i as int)),
        decreases state.hypotheses.len() - i,
    {
        let ghost before = out@;
        if i > 0 {
            out.push(',');
        }
        let label = chars_of(state.hypotheses[i].as_str());
        let mut t: usize = 0;
        let ghost mid = out@;
        while t < label.len()
            invariant
                t <= label.len(),
                out@ == mid + label@.take(t as int),
            decreases label.len() - t,
        {
            out.push(label[t]);
            t = t + 1;
            assert(out@ =~= mid + label@.take(t as int));
        }
        assert(label@.take(label.len() as int) =~= label@);
        assert(state.hyps().take(i + 1).drop_last() =~= state.hyps().take(i as int));
        assert(state.hyps()[i as int] == label@);
        if i == 0 {
            assert(state.hyps().take(0) =~= Seq::<Seq<char>>::empty());
            assert(out@ =~= joined(state.hyps().take(1)));
        } else {
            assert(out@ =~= joined(state.hyps().take(i + 1)));
        }
        i = i + 1;
    }
    assert(state.hyps().take(i as int) =~= state.hyps());
    let suffix = vec!['.', 'b', 'a', 'y', 'e', 's', '.', 'm', 'd'];
    let mut t: usize = 0;
    let ghost mid = out@;
    while t < suffix.len()
        invariant
            t <= suffix.len(),
            out@ == mid + suffix@.take(t as int),
        decreases suffix.len() - t,
    {
        out.push(suffix[t]);
        t = t + 1;
        assert(out@ =~= mid + suffix@.take(t as int));
    }
    assert(suffix@.take(suffix.len() as int) =~= suffix@);
    string_of(&out)
}

/// The markdown text of `state` (see `markdown_lines`).
pub fn export_to_markdown(state: &BayesData) -> (r: String)
    requires
        state.wf(),
    ensures
        r@ == markdown_text(*state),
{
    state.markdown()
}

impl BayesData {
    /// Replaces the document by the one that `content` holds; on failure
    /// returns the error and leaves the document as it was.
    pub fn import_markdown(&mut self, content: &str) -> (r: Result<(), MarkdownParseError>)
        ensures
            match r {
                Ok(_) => final(self).wf() && reads_as(content@, *final(self)),
                Err(e) => *final(self) == *old(self) && parse_spec(content@) == Err::<Parsed, Fault>(fault_of(e)),
            },
    {
        match parse_markdown(content) {
            Ok(d) => {
                *self = d;
                Ok(())
            },
            Err(e) => Err(e),
        }
    }

    fn markdown(&self) -> (r: String)
        requires
            self.wf(),
        ensures
            r@ == markdown_text(*self),
    {
        let h = self.hypotheses.len();
        let ne = self.evidence.len();
        let mut out: Vec<char> = Vec::new();
        let ghost mut done: Seq<Seq<char>> = seq![];
        let blank: Vec<char> = Vec::new();
        let prior_head = vec!['#', '#', ' ', 'P', 'r', 'i', 'o', 'r'];
        let evidence_head = vec!['#', '#', ' ', 'E', 'v', 'i', 'd', 'e', 'n', 'c', 'e'];
        let posterior_head = vec!['#', '#', ' ', 'P', 'o', 's', 't', 'e', 'r', 'i', 'o', 'r'];
        assert(prior_head@ =~= section_line(word_prior()));
        assert(evidence_head@ =~= section_line(word_evidence()));
        assert(posterior_head@ =~= section_line(word_posterior()));
        proof {
            lemma_rows_view(&self.likelihoods);
        }
        emit(&mut out, &blank);
        proof { lemma_join_push(done, blank@); done = done.push(blank@); }
        emit(&mut out, &prior_head);
        proof { lemma_join_push(done, prior_head@); done = done.push(prior_head@); }
        let ghost pre = done;
        let mut i: usize = 0;
        while i < h
            invariant
                self.wf(),
                h == self.hyps().len(),
                i <= h,
                out@ == join_lines(done),
                done == pre + Seq::new(i as nat, |k: int| prior_line(*self, k)),
            decreases h - i,
        {
            let v = fixed_to_text(self.prior_odds[i], ODDS_DIGITS);
            let line = item_line_of(&self.hypotheses[i], &v);
            proof {
                assert(self.hypotheses@[i as int]@ == self.hyps()[i as int]);
                lemma_join_push(done, line@);
                done = done.push(line@);
            }
            i = i + 1;
            assert(done =~= pre + Seq::new(i as nat, |k: int| prior_line(*self, k)));
            emit(&mut out, &line);
        }
        emit(&mut out, &blank);
        proof { lemma_join_push(done, blank@); done = done.push(blank@); }
        emit(&mut out, &evidence_head);
        proof { lemma_join_push(done, evidence_head@); done = done.push(evidence_head@); }
        let ghost pre2 = done;
        let mut e: usize = 0;
        assert(done =~= pre2 + evidence_blocks(*self, 0));
        while e < ne
            invariant
                self.wf(),
                h == self.hyps().len(),
                ne == self.labels().len(),
                e <= ne,
                out@ == join_lines(done),
                done == pre2 + evidence_blocks(*self, e as nat),
                blank@ == Seq::<char>::empty(),
                forall|k: int| 0 <= k < self.likelihoods@.len() ==> #[trigger] self.rows()[k] == self.likelihoods@[k]@,
            decreases ne - e,
        {
            let ghost pre3 = done;
            if e > 0 {
                emit(&mut out, &blank);
                proof { lemma_join_push(done, blank@); done = done.push(blank@); }
            }
            let mut head = vec!['#', '#', '#', ' '];
            let label = chars_of(self.evidence[e].as_str());
            let mut t: usize = 0;
            let ghost h0 = head@;
            while t < label.len()
                invariant
                    t <= label.len(),
                    head@ == h0 + label@.take(t as int),
                decreases label.len() - t,
            {
                head.push(label[t]);
                t = t + 1;
                assert(head@ =~= h0 + label@.take(t as int));
            }
            head.push(':');
            assert(label@.take(label.len() as int) =~= label@);
            assert(head@ =~= item_heading(self.labels()[e as int]));
            emit(&mut out, &head);
            proof { lemma_join_push(done, head@); done = done.push(head@); }
            let ghost pre4 = done;
            assert(pre4 =~= pre3 + (if e > 0 { seq![seq![]] } else { seq![] }) + seq![item_heading(self.labels()[e as int])]);
            assert(self.rows()[e as int].len() == h);
            let mut i: usize = 0;
            while i < h
                invariant
                    self.wf(),
                    h == self.hyps().len(),
                    e < ne,
                    ne == self.labels().len(),
                    i <= h,
                    out@ == join_lines(done),
                    done == pre4 + Seq::new(i as nat, |k: int| likelihood_line(*self, e as int, k)),
                    pre4 == pre3 + (if e > 0 { seq![seq![]] } else { seq![] }) + seq![item_heading(self.labels()[e as int])],
                    pre3 == pre2 + evidence_blocks(*self, e as nat),
                    forall|k: int| 0 <= k < self.likelihoods@.len() ==> #[trigger] self.rows()[k] == self.likelihoods@[k]@,
                decreases h - i,
            {
                assert(self.rows()[e as int].len() == h);
                assert(self.rows()[e as int][i as int] == self.likelihoods@[e as int]@[i as int]);
                let mut v = fixed_to_text(self.likelihoods[e][i], PERCENT_DIGITS);
                v.push('%');
                let line = item_line_of(&self.hypotheses[i], &v);
                proof {
                    assert(self.hypotheses@[i as int]@ == self.hyps()[i as int]);
                    assert(v@ == fixed_text(self.rows()[e as int][i as int] as nat, PERCENT_DIGITS as nat) + seq!['%']);
                    assert(line@ == likelihood_line(*self, e as int, i as int));
                    lemma_join_push(done, line@);
                    done = done.push(line@);
                }
                i = i + 1;
                assert(done =~= pre4 + Seq::new(i as nat, |k: int| likelihood_line(*self, e as int, k)));
                emit(&mut out, &line);
            }
            assert(evidence_blocks(*self, (e + 1) as nat) == evidence_blocks(*self, e as nat) + evidence_block(*self, e as int));
            e = e + 1;
            assert(done =~= pre2 + evidence_blocks(*self, e as nat));
        }
        if ne > 0 {
            emit(&mut out, &blank);
            proof { lemma_join_push(done, blank@); done = done.push(blank@); }
        }
        emit(&mut out, &posterior_head);
        proof { lemma_join_push(done, posterior_head@); done = done.push(posterior_head@); }
        let ghost pre5 = done;
        let mut i: usize = 0;
        while i < h
            invariant
                self.wf(),
                h == self.hyps().len(),
                i <= h,
                out@ == join_lines(done),
                done == pre5 + Seq::new(i as nat, |k: int| posterior_line(*self, k)),
            decreases h - i,
        {
            let v = match &self.posterior_odds {
                Some(p) => fixed_to_text(p[i], ODDS_DIGITS),
                None => vec!['N', 'a', 'N'],
            };
            let line = item_line_of(&self.hypotheses[i], &v);
            proof {
                assert(self.hypotheses@[i as int]@ == self.hyps()[i as int]);
                lemma_join_push(done, line@);
                done = done.push(line@);
            }
            i = i + 1;
            assert(done =~= pre5 + Seq::new(i as nat, |k: int| posterior_line(*self, k)));
            emit(&mut out, &line);
        }
        assert(done =~= markdown_lines(*self));
        string_of(&out)
    }
}

struct Reader {
    section: Section,
    hyps: Vec<Vec<char>>,
    prior: Vec<u64>,
    labels: Vec<Vec<char>>,
    rows: Vec<Vec<u64>>,
}

impl Reader {
    spec fn view(&self) -> Parsed {
        Parsed {
            section: self.section,
            hyps: self.hyps.deep_view(),
            prior: self.prior@,
            labels: self.labels.deep_view(),
            rows: self.rows.deep_view(),
        }
    }

    fn read_line(&mut self, line: &Vec<char>) -> (r: Result<(), MarkdownParseError>)
        ensures
            match r {
                Ok(_) => step(old(self).view(), line@) == Ok::<Parsed, Fault>(final(self).view()),
                Err(e) => step(old(self).view(), line@) == Err::<Parsed, Fault>(fault_of(e)),
            },
    {
        let n = line.len();
        if n >= 2 && line[0] == '#' && line[1] == '#' && !(n >= 3 && line[2] == '#') {
            let name = trimmed(&trimmed_start_char(line, '#'));
            self.section = section_from(&name);
            return Ok(());
        }
        let t = trimmed(line);
        if t.len() == 0 {
            return Ok(());
        }
        let k = find_from(line, 0, ':');
        assert(line@.skip(0) =~= line@);
        proof {
            lemma_find_char(line@, ':');
        }
        if k >= n {
            return Err(MarkdownParseError::InvalidFormat("Invalid format".to_owned()));
        }
        let label = trimmed(&subvec(line, 0, k));
        let value = trimmed(&subvec(line, k + 1, n));
        assert(line@.subrange(0, k as int) =~= line@.take(k as int));
        assert(line@.subrange(k + 1, n as int) =~= line@.skip(k + 1));
        match self.section {
            Section::Prior => match parse_number(&value, ODDS_DIGITS) {
                Some(v) => {
                    let ghost before = self.hyps.deep_view();
                    assert(label.deep_view() =~= label@);
                    self.hyps.push(label);
                    assert(self.hyps.deep_view() =~= before.push(trim(line@.take(k as int))));
                    self.prior.push(v);
                    Ok(())
                },
                None => Err(MarkdownParseError::ParseFloat(string_of(&value))),
            },
            Section::Evidence => {
                if n >= 3 && line[0] == '#' && line[1] == '#' && line[2] == '#' {
                    let name = trimmed(&trimmed_start_char(&label, '#'));
                    let ghost before = self.labels.deep_view();
                    let ghost rows_before = self.rows.deep_view();
                    assert(name.deep_view() =~= name@);
                    self.labels.push(name);
                    assert(self.labels.deep_view() =~= before.push(trim(trim_start_char(label@, '#'))));
                    let empty: Vec<u64> = Vec::new();
                    assert(empty.deep_view() =~= Seq::<u64>::empty());
                    self.rows.push(empty);
                    assert(self.rows.deep_view() =~= rows_before.push(seq![]));
                    Ok(())
                } else if self.rows.len() == 0 {
                    Err(MarkdownParseError::InvalidFormat("Invalid format".to_owned()))
                } else {
                    let num = trimmed_end_char(&value, '%');
                    match parse_number(&num, PERCENT_DIGITS) {
                        Some(v) => {
                            let last = self.rows.len() - 1;
                            let ghost rows_before = self.rows.deep_view();
                            proof {
                                lemma_rows_view(&self.rows);
                            }
                            self.rows[last].push(v);
                            proof {
                                lemma_rows_view(&self.rows);
                            }
                            assert(self.rows.deep_view() =~= rows_before.update(
                                last as int,
                                rows_before.last().push(v),
                            ));
                            Ok(())
                        },
                        None => Err(MarkdownParseError::ParseFloat(string_of(&num))),
                    }
                }
            },
            _ => Ok(()),
        }
    }
}

/// Reads a document from its markdown text (see `parse_spec` for the
/// format). The posterior is computed afresh; whatever the `Posterior`
/// section says is not read. On failure nothing is returned but the error.
pub fn parse_markdown(content: &str) -> (r: Result<BayesData, MarkdownParseError>)
    ensures
        match r {
            Ok(d) => d.wf() && reads_as(content@, d),
            Err(e) => parse_spec(content@) == Err::<Parsed, Fault>(fault_of(e)),
        },
{
    let text = chars_of(content);
    let ls = split_lines(&text);
    let ghost all = ls.deep_view();
    let mut rd = Reader {
        section: Section::Other,
        hyps: Vec::new(),
        prior: Vec::new(),
        labels: Vec::new(),
        rows: Vec::new(),
    };
    assert(rd.view() =~= start()) by {
        assert(rd.hyps.deep_view() =~= Seq::<Seq<char>>::empty());
        assert(rd.labels.deep_view() =~= Seq::<Seq<char>>::empty());
        assert(rd.rows.deep_view() =~= Seq::<Seq<u64>>::empty());
    }
    assert(all.skip(0) =~= all);
    let mut i: usize = 0;
    while i < ls.len()
        invariant
            i <= ls.len(),
            all == ls.deep_view(),
            all == lines(content@),
            rd.view().hyps.len() == rd.view().prior.len(),
            rd.view().labels.len() == rd.view().rows.len(),
            run(Ok(rd.view()), all.skip(i as int)) == run(Ok(start()), all),
        decreases ls.len() - i,
    {
        assert(all.skip(i as int).drop_first() =~= all.skip(i + 1));
        assert(all.skip(i as int)[0] =~= ls@[i as int]@);
        let ghost v = rd.view();
        match rd.read_line(&ls[i]) {
            Ok(_) => {},
            Err(e) => {
                assert(run(Ok(v), all.skip(i as int)) == run(Err::<Parsed, Fault>(fault_of(e)), all.skip(i + 1)));
                assert(run(Err::<Parsed, Fault>(fault_of(e)), all.skip(i + 1)) == Err::<Parsed, Fault>(fault_of(e)));
                return Err(e);
            },
        }
        i = i + 1;
    }
    assert(all.skip(i as int) =~= Seq::<Seq<char>>::empty());
    assert(run(Ok(start()), all) == Ok::<Parsed, Fault>(rd.view()));
    proof {
        lemma_rows_view(&rd.rows);
    }
    let mut e: usize = 0;
    while e < rd.rows.len()
        invariant
            e <= rd.rows.len(),
            forall|q: int| 0 <= q < e ==> (#[trigger] rd.rows@[q])@.len() == rd.prior@.len(),
            run(Ok(start()), all) == Ok::<Parsed, Fault>(rd.view()),
            all == lines(content@),
            rd.view().hyps.len() == rd.view().prior.len(),
            rd.view().labels.len() == rd.view().rows.len(),
        decreases rd.rows.len() - e,
    {
        if rd.rows[e].len() != rd.prior.len() {
            proof {
                lemma_rows_view(&rd.rows);
            }
            assert(rd.view().rows[e as int].len() != rd.view().prior.len());
            assert(!shaped(rd.view().prior, rd.view().rows));
            return Err(MarkdownParseError::InvalidFormat("Invalid format".to_owned()));
        }
        e = e + 1;
    }
    let hypotheses = strings_of(&rd.hyps);
    let evidence = strings_of(&rd.labels);
    let mut d = BayesData {
        hypotheses,
        prior_odds: rd.prior,
        posterior_odds: None,
        evidence,
        likelihoods: rd.rows,
    };
    d.refresh();
    Ok(d)
}

/// Each character vector as a string.
fn strings_of(v: &Vec<Vec<char>>) -> (r: Vec<String>)
    ensures
        r.deep_view() == v.deep_view(),
{
    let mut r: Vec<String> = Vec::new();
    let mut i: usize = 0;
    while i < v.len()
        invariant
            i <= v.len(),
            r.deep_view() == v.deep_view().take(i as int),
        decreases v.len() - i,
    {
        let s = string_of(&v[i]);
        let ghost before = r.deep_view();
        r.push(s);
        assert(r.deep_view() =~= v.deep_view().take(i + 1)) by {
            assert(v.deep_view()[i as int] =~= v@[i as int]@);
            assert(r.deep_view() =~= before.push(v@[i as int]@));
        }
        i = i + 1;
    }
    assert(v.deep_view().take(v.len() as int) =~= v.deep_view());
    r
}

fn same_chars(a: &Vec<char>, b: &Vec<char>) -> (r: bool)
    ensures
        r == (a@ == b@),
{
    if a.len() != b.len() {
        return false;
    }
    let mut i: usize = 0;
    while i < a.len()
        invariant
            a.len() == b.len(),
            i <= a.len(),
            forall|t: int| 0 <= t < i ==> a@[t] == b@[t],
        decreases a.len() - i,
    {
        if a[i] != b[i] {
            return false;
        }
        i = i + 1;
    }
    assert(a@ =~= b@);
    true
}

fn section_from(name: &Vec<char>) -> (r: Section)
    ensures
        r == section_named(name@),
{
    let prior = vec!['P', 'r', 'i', 'o', 'r'];
    let evidence = vec!['E', 'v', 'i', 'd', 'e', 'n', 'c', 'e'];
    let posterior = vec!['P', 'o', 's', 't', 'e', 'r', 'i', 'o', 'r'];
    assert(prior@ =~= word_prior());
    assert(evidence@ =~= word_evidence());
    assert(posterior@ =~= word_posterior());
    if same_chars(name, &prior) {
        Section::Prior
    } else if same_chars(name, &evidence) {
        Section::Evidence
    } else if same_chars(name, &posterior) {
        Section::Posterior
    } else {
        Section::Other
    }
}

} // verus!
