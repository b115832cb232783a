use bayescalc::decimal::{fixed_to_text, parse_fixed, parse_number};
use bayescalc::fixed::ONE;
use bayescalc::markdown::{export_file_name, export_to_markdown, parse_markdown, MarkdownParseError};
use bayescalc::model::{BayesData, HALF};

const START_TEXT: &str = "\n## Prior\nHypothesis A: 1\nHypothesis B: 1\n\n## Evidence\n### Evidence 1:\nHypothesis A: 50%\nHypothesis B: 50%\n\n## Posterior\nHypothesis A: 50\nHypothesis B: 50\n";

fn text(v: Vec<char>) -> String {
    v.into_iter().collect()
}

fn chars(s: &str) -> Vec<char> {
    s.chars().collect()
}

#[test]
fn export_of_the_starting_document() {
    assert_eq!(export_to_markdown(&BayesData::new()), START_TEXT);
}

#[test]
fn export_without_evidence() {
    let mut d = BayesData::new();
    d.delete_evidence(0);
    assert_eq!(
        export_to_markdown(&d),
        "\n## Prior\nHypothesis A: 1\nHypothesis B: 1\n\n## Evidence\n## Posterior\nHypothesis A: 50\nHypothesis B: 50\n"
    );
}

#[test]
fn export_of_an_undefined_posterior() {
    let d = BayesData::from_parts(vec!["H".to_string()], vec![0], vec![], vec![]).unwrap();
    assert_eq!(export_to_markdown(&d), "\n## Prior\nH: 0\n\n## Evidence\n## Posterior\nH: NaN\n");
}

#[test]
fn text_round_trip() {
    let mut d = BayesData::new();
    d.add_hypothesis();
    d.add_evidence();
    d.add_evidence();
    d.edit_prior(0, 2_500_000_001, "Rain".to_string());
    d.edit_prior(2, 0, "".to_string());
    d.edit_prior(1, ONE as i64, "#1 choice".to_string());
    d.edit_likelihood(0, 0, 123_456_789);
    d.edit_likelihood(1, 1, 1);
    d.edit_likelihood(2, 2, 7 * ONE as i64);
    d.edit_evidence_label(1, "Wet grass seen twice".to_string());
    d.edit_evidence_label(2, "".to_string());
    let back = parse_markdown(&export_to_markdown(&d)).unwrap();
    assert_eq!(back, d);
}

#[test]
fn reading_the_starting_text() {
    let d = parse_markdown(START_TEXT).unwrap();
    assert_eq!(d, BayesData::new());
}

#[test]
fn prior_line_without_colon_fails_and_keeps_the_document() {
    let mut d = BayesData::new();
    d.add_hypothesis();
    let before = d.clone();
    let r = d.import_markdown("## Prior\nHypothesis A 1\n");
    assert!(matches!(r, Err(MarkdownParseError::InvalidFormat(_))));
    assert_eq!(d, before);
    assert!(matches!(parse_markdown("## Prior\nHypothesis A 1\n"), Err(MarkdownParseError::InvalidFormat(_))));
}

#[test]
fn import_replaces_on_success() {
    let mut d = BayesData::new();
    let r = d.import_markdown("## Prior\nX: 3\nY: 1\n## Evidence\n### E:\nX: 10%\nY: 90%\n");
    assert!(r.is_ok());
    assert_eq!(d.hypotheses, vec!["X".to_string(), "Y".to_string()]);
    assert_eq!(d.prior_odds, vec![3 * ONE, ONE]);
    assert_eq!(d.evidence, vec!["E".to_string()]);
    assert_eq!(d.likelihoods, vec![vec![100_000_000, 900_000_000]]);
    assert_eq!(d.posterior_odds, Some(vec![25 * ONE, 75 * ONE]));
}

#[test]
fn non_numeric_values_fail() {
    assert_eq!(
        parse_markdown("## Prior\nA: one\n"),
        Err(MarkdownParseError::ParseFloat("one".to_string()))
    );
    assert_eq!(
        parse_markdown("## Prior\nA: 1\n## Evidence\n### E:\nA: lots%\n"),
        Err(MarkdownParseError::ParseFloat("lots".to_string()))
    );
    assert!(matches!(parse_markdown("## Prior\nA: -1\n"), Err(MarkdownParseError::ParseFloat(_))));
    assert!(matches!(parse_markdown("## Prior\nA: 1.2.3\n"), Err(MarkdownParseError::ParseFloat(_))));
    assert!(matches!(parse_markdown("## Prior\nA: .\n"), Err(MarkdownParseError::ParseFloat(_))));
    assert!(matches!(parse_markdown("## Prior\nA: 99999999999\n"), Err(MarkdownParseError::ParseFloat(_))));
}

#[test]
fn structure_errors() {
    // a likelihood before any evidence heading
    assert!(matches!(
        parse_markdown("## Prior\nA: 1\n## Evidence\nA: 50%\n"),
        Err(MarkdownParseError::InvalidFormat(_))
    ));
    // a row with fewer likelihoods than hypotheses
    assert!(matches!(
        parse_markdown("## Prior\nA: 1\nB: 1\n## Evidence\n### E:\nA: 50%\n"),
        Err(MarkdownParseError::InvalidFormat(_))
    ));
    // a heading without a colon
    assert!(matches!(
        parse_markdown("## Prior\nA: 1\n## Evidence\n### E\n"),
        Err(MarkdownParseError::InvalidFormat(_))
    ));
}

#[test]
fn unknown_sections_posterior_and_blank_lines_are_skipped() {
    let d = parse_markdown(
        "Title: notes\n\n## Notes\nanything: at all\n## Prior\n  A :  2.5 \r\n\tB: .5\n## Posterior\nA: 12\nB: NaN\n",
    )
    .unwrap();
    assert_eq!(d.hypotheses, vec!["A".to_string(), "B".to_string()]);
    assert_eq!(d.prior_odds, vec![2_500_000_000, HALF]);
    assert_eq!(d.posterior_odds, Some(vec![83_333_333_333, 16_666_666_667]));
}

#[test]
fn percentages_and_extra_digits() {
    let d = parse_markdown("## Prior\nA: 1.0000000019\n## Evidence\n### # E #:\nA: 33.33333333%%\n").unwrap();
    assert_eq!(d.prior_odds, vec![1_000_000_001]);
    assert_eq!(d.evidence, vec!["# E #".to_string()]);
    assert_eq!(d.likelihoods, vec![vec![333_333_333]]);
}

#[test]
fn empty_text_is_an_empty_document() {
    let d = parse_markdown("").unwrap();
    assert!(d.hypotheses.is_empty() && d.evidence.is_empty());
    assert_eq!(d.posterior_odds, Some(Vec::new()));
}

#[test]
fn file_name_joins_hypotheses() {
    assert_eq!(export_file_name(&BayesData::new()), "Hypothesis A,Hypothesis B.bayes.md");
    let d = BayesData::from_parts(vec![], vec![], vec![], vec![]).unwrap();
    assert_eq!(export_file_name(&d), ".bayes.md");
}

#[test]
fn decimal_text() {
    assert_eq!(text(fixed_to_text(1_500_000_000, 9)), "1.5");
    assert_eq!(text(fixed_to_text(ONE, 9)), "1");
    assert_eq!(text(fixed_to_text(0, 9)), "0");
    assert_eq!(text(fixed_to_text(1, 9)), "0.000000001");
    assert_eq!(text(fixed_to_text(HALF, 7)), "50");
    assert_eq!(text(fixed_to_text(123_456_789, 7)), "12.3456789");
    assert_eq!(parse_fixed(&chars("1.5"), 9), Some(1_500_000_000));
    assert_eq!(parse_fixed(&chars("007"), 0), Some(7));
    assert_eq!(parse_fixed(&chars("5."), 1), Some(50));
    assert_eq!(parse_fixed(&chars(""), 9), None);
    assert_eq!(parse_fixed(&chars("1e5"), 9), None);
    assert_eq!(parse_fixed(&chars("18446744073709551615"), 0), Some(u64::MAX));
    assert_eq!(parse_fixed(&chars("18446744073709551616"), 0), None);
}

#[test]
fn unicode_whitespace_is_trimmed_and_skipped() {
    let d = parse_markdown("## Prior\n\u{3000}\n\u{A0}A\u{2003}: \u{3000}1\n").unwrap();
    assert_eq!(d.hypotheses, vec!["A".to_string()]);
    assert_eq!(d.prior_odds, vec![ONE]);
}

#[test]
fn numbers_with_sign_and_exponent() {
    assert_eq!(parse_number(&chars("1e3"), 9), Some(1000 * ONE));
    assert_eq!(parse_number(&chars("+1"), 9), Some(ONE));
    assert_eq!(parse_number(&chars("1.5E-2"), 9), Some(15_000_000));
    assert_eq!(parse_number(&chars("25e-10"), 9), Some(2));
    assert_eq!(parse_number(&chars("5e+1"), 7), Some(500_000_000));
    assert_eq!(parse_number(&chars("0e9999"), 9), Some(0));
    assert_eq!(parse_number(&chars("1e9999"), 9), None);
    assert_eq!(parse_number(&chars("1e"), 9), None);
    assert_eq!(parse_number(&chars("e5"), 9), None);
    assert_eq!(parse_number(&chars("1e99999"), 9), None);
    assert_eq!(parse_number(&chars("inf"), 9), None);
    assert_eq!(parse_number(&chars("NaN"), 9), None);
    assert_eq!(parse_number(&chars("++1"), 9), None);
    let d = parse_markdown("## Prior\nA: 2e0\nB: +5E-1\n## Evidence\n### E:\nA: 5e1%\nB: 1e2%\n").unwrap();
    assert_eq!(d.prior_odds, vec![2 * ONE, HALF]);
    assert_eq!(d.likelihoods, vec![vec![HALF, ONE]]);
}
