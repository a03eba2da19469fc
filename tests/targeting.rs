use crabcheck::targeting::maximizing_targeting_loop;

use crabcheck::quickcheck::{ResultStatus, RunResult};
use crabcheck::targeting::{prop_targeting_loop, PROP_TARGETING_FUEL};

#[test]
fn maximizing_loop_returns_best_score_seen() {
    let result = maximizing_targeting_loop(|x: usize| x, |_x: usize, y: usize| y);
    assert_eq!(result.feedback, result.input);
    assert!(result.feedback >= 1);
}

#[test]
fn prop_targeting_loop_finds_large_input() {
    let result = prop_targeting_loop(|x: usize| x < 40, |x: usize| x);
    assert!(matches!(result.status, ResultStatus::Failed { .. }));
    assert_eq!(result.discarded, 0);
    assert!(result.passed >= 1);
}

#[test]
fn prop_targeting_loop_finishes_on_valid_property() {
    let result = prop_targeting_loop(|x: (i32, i32)| x.0 + x.1 == x.1 + x.0, |x: (i32, i32)| x.0);
    assert_eq!(
        result,
        RunResult { status: ResultStatus::Finished, passed: PROP_TARGETING_FUEL, discarded: 0 }
    );
}

#[test]
fn prop_targeting_loop_counts_only_passing_trials() {
    let result = prop_targeting_loop(|_x: i32| false, |x: i32| x);
    assert_eq!(
        result,
        RunResult {
            status: ResultStatus::Failed { arguments: vec!["0".to_string()] },
            passed: 0,
            discarded: 0
        }
    );
}

#[test]
fn maximizing_targeting_loop_returns_fresh_energy() {
    let result = maximizing_targeting_loop(|x: usize| x, |_x: usize, y: usize| y);
    assert_eq!(result.energy, 1000);
}
