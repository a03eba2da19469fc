use crabcheck::quickcheck::{quickcheck, ResultStatus};

#[test]
fn test_quickcheck() {
    let result = quickcheck(|x: Vec<i32>| {
        let mut copy = x.clone();
        copy.reverse();
        copy.reverse();
        Some(copy == *x)
    });
    assert_eq!(result.passed, 100);
    assert_eq!(result.discarded, 0);
    assert!(result.status == ResultStatus::Finished);
}

#[test]
fn quickcheck_test_quickcheck_fail() {
    let result = quickcheck(|x: Vec<i32>| {
        let mut copy = x.clone();
        copy.reverse();
        Some(copy == *x)
    });
    assert!(result.passed < 100);
    match &result.status {
        ResultStatus::Failed { arguments } => {
            assert_eq!(arguments.len(), 1);
            assert!(arguments[0].starts_with('[') && arguments[0].contains(','));
        },
        other => panic!("expected a failure, got {:?}", other),
    }
}

#[test]
fn quickcheck_test_quickcheck_tuple() {
    let result = quickcheck(|(mut x, y): (Vec<i32>, i32)| {
        let len = x.len();
        x.push(y);
        Some(len + 1 == x.len())
    });
    assert_eq!(result.passed, 100);
    assert_eq!(result.discarded, 0);
    assert!(result.status == ResultStatus::Finished);
}

use crabcheck::quickcheck::{
    evaluate, find_failure, log2_floor, Arbitrary, Implies, Mutate, RunResult, DEFAULT_TRIALS,
};
use crabcheck::random::RandomSource;

#[test]
fn every_trial_discarded_still_finishes() {
    let result = quickcheck(|_x: Vec<i32>| None);
    assert_eq!(result, RunResult { status: ResultStatus::Finished, passed: 0, discarded: 100 });
}

#[test]
fn first_trial_failure_stops_at_once() {
    let result = quickcheck(|_x: i32| Some(false));
    assert_eq!(result.passed, 0);
    assert_eq!(result.discarded, 0);
    assert_eq!(result.status, ResultStatus::Failed { arguments: vec!["0".to_string()] });
}

#[test]
fn implication_discards_unmet_preconditions() {
    let result = quickcheck(|x: i32| (x > 0).implies(x >= 1));
    assert_eq!(result.status, ResultStatus::Finished);
    assert_eq!(result.passed + result.discarded, DEFAULT_TRIALS);
    assert!(result.discarded > 0);
}

#[test]
fn evaluate_runs_the_requested_trials() {
    let mut rng = RandomSource::new();
    let result = evaluate(&|x: usize| Some(x <= 2), 7, &mut rng);
    assert_eq!(result, RunResult { status: ResultStatus::Finished, passed: 7, discarded: 0 });
    let none = evaluate(&|_x: usize| Some(false), 0, &mut rng);
    assert_eq!(none, RunResult { status: ResultStatus::Finished, passed: 0, discarded: 0 });
}

#[test]
fn reversal_witness_reproduces_the_failure() {
    let property = |x: Vec<i32>| {
        let mut copy = x.clone();
        copy.reverse();
        Some(copy == x)
    };
    let mut rng = RandomSource::new();
    let (result, witness) = find_failure(&property, 100, &mut rng);
    let witness = witness.expect("a long enough list is not a palindrome");
    assert!(witness.len() >= 2);
    assert_eq!(result.status, ResultStatus::Failed { arguments: vec![format!("{:?}", witness)] });
    assert_eq!(property(witness.clone()), Some(false));
    assert_eq!(property(witness), Some(false));
}

#[test]
fn log2_floor_values() {
    assert_eq!(log2_floor(0), 0);
    assert_eq!(log2_floor(1), 0);
    assert_eq!(log2_floor(2), 1);
    assert_eq!(log2_floor(3), 1);
    assert_eq!(log2_floor(8), 3);
    assert_eq!(log2_floor(1000), 9);
    assert_eq!(log2_floor(u64::MAX), 63);
}

#[test]
fn integers_generate_within_size() {
    let mut rng = RandomSource::new();
    for _ in 0..200 {
        let x = <i32 as Arbitrary>::generate(&mut rng, 5);
        assert!((-5..=5).contains(&x));
        let u = <usize as Arbitrary>::generate(&mut rng, 5);
        assert!(u <= 5);
    }
    assert_eq!(<i32 as Arbitrary>::generate(&mut rng, 0), 0);
    let big = <i32 as Arbitrary>::generate(&mut rng, usize::MAX);
    assert!(big >= -i32::MAX);
}

#[test]
fn integers_mutate_nearby() {
    let mut rng = RandomSource::new();
    for _ in 0..200 {
        let x = 100i32.mutate(&mut rng, 3);
        assert!((90..=109).contains(&x));
        let low = i32::MIN.mutate(&mut rng, 3);
        assert!(low <= i32::MIN + 9);
        let u = 3usize.mutate(&mut rng, 3);
        assert!(u <= 13);
        let top = usize::MAX.mutate(&mut rng, 3);
        assert!(top >= usize::MAX - 10);
    }
}

#[test]
fn sequences_generate_with_size_length() {
    let mut rng = RandomSource::new();
    let v = <Vec<i32> as Arbitrary>::generate(&mut rng, 6);
    assert_eq!(v.len(), 6);
    assert!(v.iter().all(|x| (-6..=6).contains(x)));
    assert!(<Vec<i32> as Arbitrary>::generate(&mut rng, 0).is_empty());
}

#[test]
fn sequence_mutation_regenerates_one_segment() {
    let mut rng = RandomSource::new();
    let original: Vec<i32> = vec![1000; 20];
    for _ in 0..100 {
        let m = original.mutate(&mut rng, 4);
        assert_eq!(m.len(), original.len());
        let changed: Vec<usize> = (0..m.len()).filter(|&i| m[i] != 1000).collect();
        if let (Some(first), Some(last)) = (changed.first(), changed.last()) {
            for i in *first..=*last {
                assert!((-4..=4).contains(&m[i]));
            }
        }
    }
    assert!(Vec::<i32>::new().mutate(&mut rng, 4).is_empty());
}

#[test]
fn tuples_generate_and_mutate_componentwise() {
    let mut rng = RandomSource::new();
    let (a, b, c) = <(usize, i32, Vec<i32>) as Arbitrary>::generate(&mut rng, 3);
    assert!(a <= 3 && (-3..=3).contains(&b) && c.len() == 3);
    let (p, q) = (50usize, vec![7i32; 4]).mutate(&mut rng, 2);
    assert!((40..=60).contains(&p));
    assert_eq!(q.len(), 4);
    let five = <(i32, i32, i32, i32, i32) as Arbitrary>::generate(&mut rng, 1);
    assert!((-1..=1).contains(&five.4));
}

#[test]
fn random_source_spreads_its_draws() {
    let mut rng = RandomSource::new();
    let draws: Vec<usize> = (0..200).map(|_| rng.usize_between(10, 1000)).collect();
    assert!(draws.iter().all(|d| (10..=1000).contains(d)));
    assert!(draws.iter().any(|d| *d != draws[0]));
    assert!(draws.iter().any(|d| *d != 10));
    assert_eq!(rng.usize_between(7, 7), 7);
}
