use bayescalc::fixed::{HUNDRED, ONE};
use bayescalc::editor::Msg;
use bayescalc::markdown::MarkdownParseError;
use bayescalc::model::{BayesData, HALF, MAX_HYPOTHESES};

fn shapes_hold(d: &BayesData) -> bool {
    d.prior_odds.len() == d.hypotheses.len()
        && d.likelihoods.len() == d.evidence.len()
        && d.likelihoods.iter().all(|r| r.len() == d.hypotheses.len())
        && d.posterior_odds.as_ref().map_or(true, |p| p.len() == d.hypotheses.len())
}

#[test]
fn starting_document() {
    let d = BayesData::new();
    assert_eq!(d.hypotheses, vec!["Hypothesis A".to_string(), "Hypothesis B".to_string()]);
    assert_eq!(d.prior_odds, vec![ONE, ONE]);
    assert_eq!(d.evidence, vec!["Evidence 1".to_string()]);
    assert_eq!(d.likelihoods, vec![vec![HALF, HALF]]);
    assert_eq!(d.posterior_odds, Some(vec![HUNDRED / 2, HUNDRED / 2]));
}

#[test]
fn add_hypothesis_up_to_the_bound() {
    let mut d = BayesData::new();
    d.add_hypothesis();
    assert_eq!(d.hypotheses[2], "Hypothesis C");
    assert_eq!(d.prior_odds, vec![ONE, ONE, ONE]);
    assert_eq!(d.likelihoods, vec![vec![HALF, HALF, HALF]]);
    d.add_hypothesis();
    d.add_hypothesis();
    assert_eq!(d.hypotheses.len(), MAX_HYPOTHESES);
    assert_eq!(d.hypotheses[4], "Hypothesis E");
    let before = d.clone();
    d.add_hypothesis();
    assert_eq!(d, before);
    assert_eq!(d.posterior_odds, Some(vec![HUNDRED / 5; 5]));
}

#[test]
fn delete_first_of_two_hypotheses() {
    let mut d = BayesData::new();
    d.edit_likelihood(0, 0, 900_000_000);
    d.edit_likelihood(0, 1, 100_000_000);
    d.delete_hypothesis(0);
    assert_eq!(d.hypotheses.len(), 1);
    assert_eq!(d.prior_odds.len(), 1);
    assert_eq!(d.likelihoods, vec![vec![100_000_000]]);
    assert_eq!(d.hypotheses, vec!["Hypothesis B".to_string()]);
    assert_eq!(d.posterior_odds, Some(vec![HUNDRED]));
}

#[test]
fn add_and_delete_evidence() {
    let mut d = BayesData::new();
    d.add_evidence();
    assert_eq!(d.evidence, vec!["Evidence 1".to_string(), "Evidence 2".to_string()]);
    assert_eq!(d.likelihoods, vec![vec![HALF, HALF], vec![HALF, HALF]]);
    d.edit_evidence_label(1, "Rain".to_string());
    d.edit_likelihood(1, 0, ONE as i64);
    d.delete_evidence(0);
    assert_eq!(d.evidence, vec!["Rain".to_string()]);
    assert_eq!(d.likelihoods, vec![vec![ONE, HALF]]);
    // 1.0 : 0.5 gives two thirds and one third
    assert_eq!(d.posterior_odds, Some(vec![66_666_666_667, 33_333_333_333]));
}

#[test]
fn evidence_labels_count_past_nine() {
    let mut d = BayesData::new();
    for _ in 0..11 {
        d.add_evidence();
    }
    assert_eq!(d.evidence[11], "Evidence 12");
}

#[test]
fn negative_edits_are_refused() {
    let mut d = BayesData::new();
    let before = d.clone();
    d.edit_prior(0, -1, "X".to_string());
    assert_eq!(d, before);
    d.edit_likelihood(0, 1, -5);
    assert_eq!(d, before);
    d.edit_prior(1, 3 * ONE as i64, "Three".to_string());
    assert_eq!(d.hypotheses[1], "Three");
    assert_eq!(d.prior_odds, vec![ONE, 3 * ONE]);
    assert_eq!(d.posterior_odds, Some(vec![25 * ONE, 75 * ONE]));
}

#[test]
fn percentize_prior_keeps_ratios() {
    let mut d = BayesData::new();
    d.edit_prior(0, 3 * ONE as i64, "A".to_string());
    d.percentize_prior();
    assert_eq!(d.prior_odds, vec![75 * ONE, 25 * ONE]);
    d.edit_prior(0, 0, "A".to_string());
    d.edit_prior(1, 0, "B".to_string());
    assert_eq!(d.posterior_odds, None);
    d.percentize_prior();
    assert_eq!(d.prior_odds, vec![0, 0]);
}

#[test]
fn clear_restores_the_start() {
    let mut d = BayesData::new();
    d.add_hypothesis();
    d.add_evidence();
    d.delete_evidence(0);
    d.clear();
    assert_eq!(d, BayesData::new());
}

#[test]
fn shapes_hold_through_edits() {
    let mut d = BayesData::new();
    assert!(shapes_hold(&d));
    d.add_hypothesis();
    assert!(shapes_hold(&d));
    d.add_evidence();
    assert!(shapes_hold(&d));
    d.delete_hypothesis(1);
    assert!(shapes_hold(&d));
    d.add_hypothesis();
    d.add_hypothesis();
    d.add_hypothesis();
    d.add_hypothesis();
    assert!(shapes_hold(&d));
    assert_eq!(d.hypotheses.len(), MAX_HYPOTHESES);
    d.delete_evidence(1);
    assert!(shapes_hold(&d));
    d.delete_hypothesis(0);
    d.delete_hypothesis(0);
    assert!(shapes_hold(&d));
    d.delete_evidence(0);
    assert!(shapes_hold(&d));
    assert_eq!(d.likelihoods.len(), 0);
    d.add_evidence();
    assert!(shapes_hold(&d));
    assert_eq!(d.likelihoods, vec![vec![HALF; 3]]);
}

#[test]
fn from_parts_checks_shapes() {
    let ok = BayesData::from_parts(
        vec!["H".to_string(), "K".to_string()],
        vec![ONE, ONE],
        vec!["E".to_string()],
        vec![vec![ONE, 0]],
    )
    .unwrap();
    assert_eq!(ok.posterior_odds, Some(vec![HUNDRED, 0]));
    assert!(BayesData::from_parts(vec!["H".to_string()], vec![ONE, ONE], vec![], vec![]).is_none());
    assert!(BayesData::from_parts(
        vec!["H".to_string()],
        vec![ONE],
        vec!["E".to_string()],
        vec![vec![ONE, ONE]],
    )
    .is_none());
    assert!(BayesData::from_parts(vec!["H".to_string()], vec![ONE], vec!["E".to_string()], vec![]).is_none());
}

#[test]
fn events_report_what_to_do() {
    let mut d = BayesData::new();
    let r = d.update(Msg::AddHypothesis);
    assert!(r.persist && r.clear_link && r.error.is_none());
    assert_eq!(d.hypotheses.len(), 3);
    let r = d.update(Msg::DeleteHypothesis(2));
    assert!(r.persist && !r.clear_link);
    let r = d.update(Msg::Prior(0, -1, "X".to_string()));
    assert!(!r.persist && !r.clear_link);
    assert_eq!(d, BayesData::new());
    let r = d.update(Msg::Evidence(0, 1, 2 * ONE as i64));
    assert!(r.persist && r.clear_link);
    assert_eq!(d.likelihoods, vec![vec![HALF, 2 * ONE]]);
    assert_eq!(d.posterior_odds, Some(vec![20 * ONE, 80 * ONE]));
    let r = d.update(Msg::EditEvidence(0, "Clouds".to_string()));
    assert!(r.persist && r.clear_link);
    assert_eq!(d.evidence, vec!["Clouds".to_string()]);
    let r = d.update(Msg::AddEvidence);
    assert!(r.persist && r.clear_link);
    let r = d.update(Msg::DeleteEvidence(1));
    assert!(r.persist && r.clear_link);
    let r = d.update(Msg::PercentizePrior);
    assert!(r.persist && r.clear_link);
    assert_eq!(d.prior_odds, vec![50 * ONE, 50 * ONE]);
    let other = BayesData::from_parts(vec!["Z".to_string()], vec![ONE], vec![], vec![]).unwrap();
    let r = d.update(Msg::UpdateData(other.clone()));
    assert!(r.persist && !r.clear_link);
    assert_eq!(d, other);
    let r = d.update(Msg::Clear);
    assert!(r.persist && r.clear_link);
    assert_eq!(d, BayesData::new());
}

#[test]
fn adding_past_the_bound_asks_for_nothing() {
    let mut d = BayesData::new();
    for _ in 0..3 {
        d.update(Msg::AddHypothesis);
    }
    let before = d.clone();
    let r = d.update(Msg::AddHypothesis);
    assert!(!r.persist && !r.clear_link);
    assert_eq!(d, before);
}

#[test]
fn unreadable_file_content_keeps_the_document() {
    let mut d = BayesData::new();
    d.add_evidence();
    let before = d.clone();
    let r = d.update(Msg::FileContent("## Prior\nno colon here\n".to_string()));
    assert!(!r.persist && !r.clear_link);
    assert!(matches!(r.error, Some(MarkdownParseError::InvalidFormat(_))));
    assert_eq!(d, before);
    let r = d.update(Msg::FileContent("## Prior\nA: 2\n".to_string()));
    assert!(r.persist && r.clear_link && r.error.is_none());
    assert_eq!(d.prior_odds, vec![2 * ONE]);
    assert_eq!(d.posterior_odds, Some(vec![HUNDRED]));
}
