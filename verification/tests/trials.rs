use battle_royale::model::Player;
use battle_royale::tournament::{check_distinct_ids, run_trials, trial_points, SimError};

fn player(id: u32, elo: i64) -> Player {
    Player { id, player_elo: elo, current_elo: 0 }
}

#[test]
fn duplicate_ids_are_rejected() {
    let players = vec![player(1, 1200), player(2, 1300), player(1, 1400)];
    assert!(!check_distinct_ids(&players));
    assert_eq!(run_trials(&players, 1, 100), Err(SimError::InvalidRoster));
}

#[test]
fn zero_trials_are_rejected() {
    let players = vec![player(1, 1200), player(2, 1300)];
    assert!(check_distinct_ids(&players));
    assert_eq!(run_trials(&players, 1, 0), Err(SimError::InvalidTrialCount));
}

#[test]
fn solo_roster_always_scores_the_championship() {
    let players = vec![player(42, 1500)];
    assert_eq!(trial_points(&players, 42), 5);
    assert_eq!(trial_points(&players, 7), 0);
    assert_eq!(run_trials(&players, 42, 20), Ok(100));
}

#[test]
fn absent_target_scores_zero() {
    let players = vec![player(1, 1200), player(2, 1300)];
    assert_eq!(run_trials(&players, 99, 50), Ok(0));
}

#[test]
fn a_dominant_favourite_averages_the_championship_points() {
    // the favourite wins with probability 1 - 1e-6 per fight
    let players = vec![player(1, 6000), player(2, 0)];
    let trials = 4000u32;
    let sum = run_trials(&players, 1, trials).unwrap();
    let avg = sum as f64 / trials as f64;
    assert!(avg > 4.9, "avg={}", avg);
    assert!(avg <= 5.0 + 1e-9, "avg={}", avg);
}

#[test]
fn two_player_average_matches_the_elo_expectation() {
    // P(1 beats 2) = 10^4 / (10^4 + 10^3), about 0.909
    let players = vec![player(1, 1600), player(2, 1200)];
    let trials = 40000u32;
    let sum = run_trials(&players, 1, trials).unwrap();
    let avg = sum as f64 / trials as f64;
    let p = 1.0e4 / (1.0e4 + 1.0e3);
    let expected = 5.0 * p + 2.0 * (1.0 - p);
    assert!((avg - expected).abs() < 0.08, "avg={} expected={}", avg, expected);

    let sum2 = run_trials(&players, 2, trials).unwrap();
    let avg2 = sum2 as f64 / trials as f64;
    let expected2 = 5.0 * (1.0 - p) + 2.0 * p;
    assert!((avg2 - expected2).abs() < 0.08, "avg2={} expected2={}", avg2, expected2);
}
