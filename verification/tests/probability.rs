use battle_royale::prob::win_prob_ppm;

fn model_ppm(ra: f64, rb: f64) -> f64 {
    let ta = 10f64.powf(ra / 400.0);
    let tb = 10f64.powf(rb / 400.0);
    1.0e6 * ta / (ta + tb)
}

#[test]
fn equal_ratings_are_an_even_split() {
    assert_eq!(win_prob_ppm(1200, 1200), 500000);
    assert_eq!(win_prob_ppm(0, 0), 500000);
    assert_eq!(win_prob_ppm(-750, -750), 500000);
}

#[test]
fn four_hundred_point_gap_matches_the_elo_formula() {
    let p = win_prob_ppm(1600, 1200) as f64;
    let expected = model_ppm(1600.0, 1200.0);
    assert!((p - expected).abs() < 200.0, "p={} expected={}", p, expected);
    let q = win_prob_ppm(1200, 1600) as f64;
    assert!((q - (1.0e6 - expected)).abs() < 200.0, "q={}", q);
}

#[test]
fn tracks_the_elo_formula_across_gaps() {
    for gap in [1i64, 10, 50, 100, 250, 400, 800, 1200, 1600] {
        let p = win_prob_ppm(1200 + gap, 1200) as f64;
        let expected = model_ppm((1200 + gap) as f64, 1200.0);
        let tol = expected * 0.002 + 60.0;
        assert!((p - expected).abs() < tol, "gap={} p={} expected={}", gap, p, expected);
    }
}

#[test]
fn probability_rises_with_rating() {
    let mut last = 0u64;
    for ra in [-3000i64, -400, 0, 377, 1200, 1601, 2800, 9000] {
        let p = win_prob_ppm(ra, 1200);
        assert!(p >= last, "ra={} p={} last={}", ra, p, last);
        last = p;
    }
    assert!(win_prob_ppm(1300, 1200) > win_prob_ppm(1250, 1200));
}

#[test]
fn probability_stays_strictly_between_zero_and_one() {
    for (ra, rb) in [
        (i64::MIN, i64::MAX),
        (i64::MAX, i64::MIN),
        (-1000000, 1000000),
        (1000000, -1000000),
        (0, 0),
    ] {
        let p = win_prob_ppm(ra, rb);
        assert!(1 <= p && p <= 999999, "ra={} rb={} p={}", ra, rb, p);
    }
    assert_eq!(win_prob_ppm(0, 100000), 1);
    assert_eq!(win_prob_ppm(100000, 0), 999999);
}

#[test]
fn complementary_probabilities_sum_to_one() {
    for (ra, rb) in [(1600i64, 1200i64), (0, 0), (-300, 2000), (977, 978)] {
        assert_eq!(win_prob_ppm(ra, rb) + win_prob_ppm(rb, ra), 1000000);
    }
}
