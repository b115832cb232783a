use bayescalc::fixed::{mul_fixed, HUNDRED, ONE};
use bayescalc::model::HALF;
use bayescalc::odds::{normalize, percentize, recalculate, recalculate_to};

fn sum(v: &[u64]) -> u64 {
    v.iter().sum()
}

#[test]
fn even_prior_half_evidence() {
    let prior = vec![ONE, ONE];
    let rows = vec![vec![HALF, HALF]];
    let raw = recalculate(&prior, &rows);
    assert_eq!(raw, vec![HALF, HALF]);
    assert_eq!(percentize(&raw), Some(vec![50 * ONE, 50 * ONE]));
}

#[test]
fn skewed_prior_strong_evidence() {
    let prior = vec![2 * ONE, ONE];
    let rows = vec![vec![900_000_000, 100_000_000]];
    let raw = recalculate(&prior, &rows);
    assert_eq!(raw, vec![1_800_000_000, 100_000_000]);
    let p = percentize(&raw).unwrap();
    assert_eq!(p, vec![94_736_842_105, 5_263_157_895]);
    assert_eq!((p[0] + ONE / 20) / (ONE / 10), 947);
    assert_eq!((p[1] + ONE / 20) / (ONE / 10), 53);
}

#[test]
fn prefix_over_all_rows_is_full_posterior() {
    let prior = vec![3 * ONE, ONE, 250_000_000];
    let rows = vec![
        vec![HALF, 900_000_000, 10_000_000],
        vec![330_000_000, ONE, 2 * ONE],
        vec![700_000_000, 100_000_000, HALF],
    ];
    assert_eq!(recalculate_to(&prior, &rows, rows.len()), recalculate(&prior, &rows));
    assert_eq!(recalculate_to(&prior, &rows, 10), recalculate(&prior, &rows));
    assert_eq!(recalculate_to(&prior, &rows, 0), prior);
    assert_eq!(recalculate_to(&prior, &rows, 1), vec![1_500_000_000, 900_000_000, 2_500_000]);
}

#[test]
fn folding_follows_row_order() {
    let prior = vec![1];
    let a = vec![vec![3 * ONE / 2], vec![2 * ONE]];
    let b = vec![vec![2 * ONE], vec![3 * ONE / 2]];
    // one unit times 1.5 rounds down to one unit, then doubles
    assert_eq!(recalculate(&prior, &a), vec![2]);
    // one unit doubled is two, times 1.5 is three
    assert_eq!(recalculate(&prior, &b), vec![3]);
}

#[test]
fn rows_of_one_keep_the_prior() {
    let prior = vec![1_234_567_891, 0, 42, u64::MAX];
    let rows = vec![vec![ONE; 4], vec![ONE; 4], vec![ONE; 4]];
    assert_eq!(recalculate(&prior, &rows), prior);
}

#[test]
fn no_evidence_keeps_the_prior() {
    let prior = vec![7 * ONE, ONE];
    let rows: Vec<Vec<u64>> = Vec::new();
    assert_eq!(recalculate(&prior, &rows), prior);
}

#[test]
fn percentages_sum_to_one_hundred() {
    let cases = vec![
        vec![ONE, ONE, ONE],
        vec![1, 2, 3, 4, 5],
        vec![u64::MAX, u64::MAX, 1],
        vec![0, 0, 17],
        vec![333_333_333, 666_666_667],
    ];
    for odds in cases {
        let p = percentize(&odds).unwrap();
        assert_eq!(sum(&p), HUNDRED);
    }
}

#[test]
fn percentize_of_zero_odds_is_undefined() {
    assert_eq!(percentize(&vec![0, 0]), None);
    assert_eq!(percentize(&Vec::new()), Some(Vec::new()));
}

#[test]
fn normalize_gives_fractions() {
    assert_eq!(normalize(&vec![ONE, 3 * ONE]), Some(vec![ONE / 4, 3 * ONE / 4]));
    assert_eq!(normalize(&vec![0]), None);
}

#[test]
fn multiplication_rounds_down_and_saturates() {
    assert_eq!(mul_fixed(3 * ONE / 2, HALF), 750_000_000);
    assert_eq!(mul_fixed(1, HALF), 0);
    assert_eq!(mul_fixed(u64::MAX, 2 * ONE), u64::MAX);
    assert_eq!(mul_fixed(u64::MAX, ONE), u64::MAX);
}

#[test]
fn percentages_of_one_one_four_are_exact() {
    let p = percentize(&vec![1, 1, 4]).unwrap();
    assert_eq!(sum(&p), HUNDRED);
    // 16.666666666(6), 16.666666666(6), 66.666666666(6): the two largest
    // leftovers, the earliest first, get the two missing units
    assert_eq!(p, vec![16_666_666_667, 16_666_666_667, 66_666_666_666]);
}

#[test]
fn percentizing_twice_changes_nothing() {
    for odds in vec![vec![5, 47, 3, 6], vec![1, 1, 4], vec![ONE, 2 * ONE, 7 * ONE]] {
        let once = percentize(&odds).unwrap();
        assert_eq!(percentize(&once).unwrap(), once);
    }
}

#[test]
fn fractions_sum_to_one() {
    let f = normalize(&vec![1, 1, 1]).unwrap();
    assert_eq!(sum(&f), ONE);
    assert_eq!(f, vec![333_333_334, 333_333_333, 333_333_333]);
}

#[test]
fn zero_odds_keep_a_zero_share() {
    let p = percentize(&vec![0, 1, 1, 1]).unwrap();
    assert_eq!(p[0], 0);
    assert_eq!(sum(&p), HUNDRED);
}
