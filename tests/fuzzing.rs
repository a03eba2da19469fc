use crabcheck::fuzzing::{maximizing_fuzz_loop, prop_fuzz_loop, Trial, FUZZ_FUEL};
use crabcheck::quickcheck::{ResultStatus, RunResult};

fn double(x: usize) -> usize {
    x * 2
}

fn small(x: usize) -> bool {
    x < 30
}

fn always(_x: i32) -> bool {
    true
}

#[test]
fn trial_runs_target_on_input() {
    let trial = Trial { target: double as fn(usize) -> usize, input: 21 };
    assert_eq!(trial.run(), 42);
}

#[test]
fn maximizing_fuzz_loop_climbs_harness_score() {
    let best = maximizing_fuzz_loop(double as fn(usize) -> usize, |t: Trial<usize, fn(usize) -> usize>| {
        let r = t.run();
        (r, r)
    });
    assert_eq!(best.feedback, best.input * 2);
    assert!(best.feedback >= 2);
}

#[test]
fn prop_fuzz_loop_reports_harness_failure() {
    let result = prop_fuzz_loop(small as fn(usize) -> bool, |t: Trial<usize, fn(usize) -> bool>| {
        let x = t.input;
        (t.run(), x)
    });
    assert!(matches!(result.status, ResultStatus::Failed { .. }));
    assert!(result.passed >= 1 && result.passed <= FUZZ_FUEL);
}

#[test]
fn prop_fuzz_loop_finishes_when_harness_always_passes() {
    let result = prop_fuzz_loop(always as fn(i32) -> bool, |t: Trial<i32, fn(i32) -> bool>| {
        let x = t.input;
        (t.run(), x)
    });
    assert_eq!(result, RunResult { status: ResultStatus::Finished, passed: FUZZ_FUEL, discarded: 0 });
}

fn never(_x: i32) -> bool {
    false
}

#[test]
fn prop_fuzz_loop_counts_only_passing_trials() {
    let result = prop_fuzz_loop(never as fn(i32) -> bool, |t: Trial<i32, fn(i32) -> bool>| {
        let x = t.input;
        (t.run(), x)
    });
    assert_eq!(result.passed, 0);
    assert_eq!(result.status, ResultStatus::Failed { arguments: vec!["0".to_string()] });
}

#[test]
fn maximizing_fuzz_loop_returns_fresh_energy() {
    let best = maximizing_fuzz_loop(double as fn(usize) -> usize, |t: Trial<usize, fn(usize) -> usize>| {
        let r = t.run();
        (r, r)
    });
    assert_eq!(best.energy, 1000);
}
