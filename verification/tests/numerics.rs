use dominant_speaker::numerics::{
    activity_counts, binomial_coefficient, checked_binomial_coefficient, compute_bigs,
};

#[test]
fn binomial_coefficient_r_greater_than_n_returns_wrong_value() {
    // Mathematically C(5, 10) = 0.
    let got = binomial_coefficient(5, 10);
    assert_eq!(got, 0, "C(5, 10) must be 0 mathematically — got {got}.");
}

#[test]
fn compute_bigs_empty_bigs_is_internal_only() {
    let littles = [0u8, 0, 0];
    let mut bigs = [0u8; 1];
    // This must not panic on normal inputs.
    let _ = compute_bigs(&littles, &mut bigs, 7);
}

#[test]
fn binomial_r_greater_than_n_is_zero() {
    assert_eq!(binomial_coefficient(5, 10), 0);
    assert_eq!(binomial_coefficient(0, 1), 0);
    assert_eq!(binomial_coefficient(13, 14), 0);
}

#[test]
fn binomial_negative_r_is_zero() {
    assert_eq!(binomial_coefficient(5, -1), 0);
}

#[test]
fn compute_bigs_counts_above_threshold() {
    let littles = [0u8, 8, 9, 10, 0, 0, 0, 0, 0, 0];
    let mut bigs = [0u8; 2];
    // bucket 0: {0,8,9,10,0} — three samples > 7 (8, 9, 10) → 3.
    // bucket 1: all zeros → 0.
    assert!(compute_bigs(&littles, &mut bigs, 7));
    assert_eq!(bigs, [3, 0]);
    // Running again with the same data must NOT report change.
    assert!(!compute_bigs(&littles, &mut bigs, 7));
}

#[test]
fn binomial_known_values() {
    assert_eq!(binomial_coefficient(20, 10), 184_756);
    assert_eq!(binomial_coefficient(13, 0), 1);
    assert_eq!(binomial_coefficient(13, 13), 1);
    assert_eq!(binomial_coefficient(13, 1), 13);
    assert_eq!(binomial_coefficient(13, 3), 286);
    assert_eq!(binomial_coefficient(0, 0), 1);
}

#[test]
fn binomial_is_symmetric() {
    for n in 0..30i32 {
        for r in 0..=n {
            assert_eq!(binomial_coefficient(n, r), binomial_coefficient(n, n - r));
        }
    }
}

#[test]
fn binomial_pascal_rule() {
    for n in 1..40i32 {
        for r in 1..n {
            assert_eq!(
                binomial_coefficient(n, r),
                binomial_coefficient(n - 1, r - 1) + binomial_coefficient(n - 1, r)
            );
        }
    }
}

#[test]
fn binomial_negative_n_is_zero() {
    assert_eq!(binomial_coefficient(-3, 0), 0);
    assert_eq!(binomial_coefficient(-3, -5), 0);
}

#[test]
fn checked_binomial_reports_overflow() {
    // C(66, 33) ≈ 7.2e18 fits, but the last product C(66,33) * 33 does not.
    assert_eq!(checked_binomial_coefficient(66, 33), None);
    assert_eq!(checked_binomial_coefficient(255, 127), None);
    assert_eq!(checked_binomial_coefficient(255, 2), Some(32_385));
    assert_eq!(checked_binomial_coefficient(60, 30), Some(118_264_581_564_861_424));
    assert_eq!(checked_binomial_coefficient(300, 301), Some(0));
}

#[test]
fn activity_counts_clamps_to_window() {
    // More active subbands than the window holds count as a full window.
    let c = activity_counts(5, 1).expect("small window fits");
    assert_eq!(c.active, 1);
    assert_eq!(c.inactive, 0);
    assert_eq!(c.coefficient, 1);
    let c = activity_counts(10, 5).expect("small window fits");
    assert_eq!((c.active, c.inactive, c.coefficient), (5, 0, 1));
}

#[test]
fn activity_counts_in_range() {
    let c = activity_counts(3, 13).expect("fits");
    assert_eq!((c.active, c.inactive, c.coefficient), (3, 10, 286));
    let c = activity_counts(0, 0).expect("fits");
    assert_eq!((c.active, c.inactive, c.coefficient), (0, 0, 1));
    assert!(activity_counts(127, 255).is_none());
}

#[test]
fn compute_bigs_ignores_remainder_and_reports_changes() {
    // 7 littles into 3 buckets: 2 per bucket, the last little is ignored.
    let littles = [9u8, 9, 0, 9, 9, 0, 9];
    let mut bigs = [0u8, 1, 1];
    assert!(compute_bigs(&littles, &mut bigs, 7));
    assert_eq!(bigs, [2, 1, 1]);
    // Equal values are not "above".
    let mut bigs = [2u8, 1, 1];
    assert!(!compute_bigs(&littles, &mut bigs, 7));
    let mut bigs = [2u8, 1, 1];
    assert!(compute_bigs(&littles, &mut bigs, 9));
    assert_eq!(bigs, [0, 0, 0]);
}
