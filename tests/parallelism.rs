use crabcheck::parallelism::{race_worker, settle_race, RaceOutcome, RACE_CAP};
use crabcheck::quickcheck::{ResultStatus, RunResult};
use crabcheck::random::RandomSource;

#[test]
fn worker_exhausts_cap_on_valid_property() {
    let mut rng = RandomSource::new();
    let outcome = race_worker(
        &|x: &mut Vec<i32>| {
            let mut copy = x.clone();
            copy.reverse();
            copy.reverse();
            copy == *x
        },
        RACE_CAP,
        &mut rng,
        &|| false,
    );
    assert!(matches!(outcome, RaceOutcome::Exhausted));
}

#[test]
fn worker_reports_falsified_property() {
    let mut rng = RandomSource::new();
    let outcome = race_worker(&|_x: &mut i32| false, RACE_CAP, &mut rng, &|| false);
    match outcome {
        RaceOutcome::Falsified(res) => {
            assert_eq!(res.passed, 0);
            assert_eq!(res.status, ResultStatus::Failed { arguments: vec!["0".to_string()] });
        },
        _ => panic!("expected a failure"),
    }
}

#[test]
fn worker_stops_when_cancelled() {
    let mut rng = RandomSource::new();
    let outcome = race_worker(&|_x: &mut i32| false, RACE_CAP, &mut rng, &|| true);
    assert!(matches!(outcome, RaceOutcome::Cancelled));
}

#[test]
fn race_without_failure_is_finished_at_cap() {
    let outcomes = vec![RaceOutcome::Exhausted, RaceOutcome::Cancelled, RaceOutcome::Exhausted];
    assert_eq!(
        settle_race(outcomes, RACE_CAP),
        RunResult { status: ResultStatus::Finished, passed: 100, discarded: 0 }
    );
    assert_eq!(
        settle_race(vec![], RACE_CAP),
        RunResult { status: ResultStatus::Finished, passed: 100, discarded: 0 }
    );
}

#[test]
fn race_reports_first_failure() {
    let failure = RunResult {
        status: ResultStatus::Failed { arguments: vec!["[1, 2]".to_string()] },
        passed: 3,
        discarded: 0,
    };
    let other = RunResult {
        status: ResultStatus::Failed { arguments: vec!["[5, 0]".to_string()] },
        passed: 1,
        discarded: 0,
    };
    let outcomes = vec![
        RaceOutcome::Cancelled,
        RaceOutcome::Falsified(failure.clone()),
        RaceOutcome::Falsified(other),
    ];
    assert_eq!(settle_race(outcomes, RACE_CAP), failure);
}

#[test]
fn racing_workers_on_always_false_property_fail() {
    let mut outcomes = vec![];
    for _ in 0..4 {
        let mut rng = RandomSource::new();
        outcomes.push(race_worker(&|_x: &mut Vec<i32>| false, RACE_CAP, &mut rng, &|| false));
    }
    let result = settle_race(outcomes, RACE_CAP);
    assert!(matches!(result.status, ResultStatus::Failed { .. }));
}

#[test]
fn worker_shows_the_input_as_drawn() {
    let mut rng = RandomSource::new();
    let outcome = race_worker(
        &|x: &mut i32| {
            *x = 999;
            false
        },
        RACE_CAP,
        &mut rng,
        &|| false,
    );
    match outcome {
        RaceOutcome::Falsified(res) => {
            assert_eq!(res.status, ResultStatus::Failed { arguments: vec!["0".to_string()] });
        },
        _ => panic!("expected a failure"),
    }
}
