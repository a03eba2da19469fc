use crabcheck::random::RandomSource;
use crabcheck::search::{next_candidate, offer, SEED_ENERGY};
use crabcheck::seedpool::{Seed, SeedPool};

#[test]
fn offer_keeps_only_strict_improvements() {
    let mut pool: SeedPool<i32, i32> = SeedPool::new();
    assert!(offer(&mut pool, 1, 5));
    assert_eq!(pool.seeds[0].energy, SEED_ENERGY);
    assert!(!offer(&mut pool, 2, 5));
    assert!(!offer(&mut pool, 3, 4));
    assert_eq!(pool.size(), 1);
    assert!(offer(&mut pool, 4, 6));
    assert_eq!(pool.size(), 2);
    assert_eq!(pool.best_of_all_time.as_ref().unwrap().input, 4);
}

#[test]
fn candidate_from_empty_pool_is_fresh_at_log_size() {
    let mut rng = RandomSource::new();
    let mut pool: SeedPool<Vec<i32>, i32> = SeedPool::new();
    assert!(next_candidate(&mut pool, &mut rng, 1).is_empty());
    assert_eq!(next_candidate(&mut pool, &mut rng, 8).len(), 3);
    assert!(pool.is_empty());
}

#[test]
fn candidate_mutates_a_drawn_top_seed() {
    let mut rng = RandomSource::new();
    let mut pool: SeedPool<Vec<i32>, i32> = SeedPool::new();
    pool.add_seed(Seed { input: vec![1, 2, 3, 4], feedback: 9, energy: 1 });
    pool.add_seed(Seed { input: vec![5], feedback: 2, energy: 1 });
    let c = next_candidate(&mut pool, &mut rng, 4);
    assert_eq!(c.len(), 4);
    assert_eq!(pool.seeds[0].energy, 0);
    assert_eq!(pool.seeds[1].energy, 1);
    let d = next_candidate(&mut pool, &mut rng, 4);
    assert_eq!(d.len(), 4);
    assert_eq!(pool.size(), 1);
    assert_eq!(pool.seeds[0].input, vec![5]);
}
