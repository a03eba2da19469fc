use crabcheck::seedpool::{Seed, SeedPool};

fn seed(input: i32, feedback: i32, energy: usize) -> Seed<i32, i32> {
    Seed { input, feedback, energy }
}

#[test]
fn pop_on_empty_pool_gives_nothing() {
    let mut pool: SeedPool<i32, i32> = SeedPool::new();
    assert!(pool.is_empty());
    assert_eq!(pool.size(), 0);
    assert!(pool.pop().is_none());
    assert!(pool.best_of_all_time.is_none());
}

#[test]
fn default_pool_is_empty() {
    let pool: SeedPool<i32, i32> = SeedPool::default();
    assert!(pool.is_empty());
    assert!(pool.best_of_all_time.is_none());
}

#[test]
fn champion_tracks_running_maximum() {
    let mut pool: SeedPool<i32, i32> = SeedPool::new();
    let feedbacks = [3, 1, 5, 5, 2, 9, -4];
    let expected = [3, 3, 5, 5, 5, 9, 9];
    for (k, (f, e)) in feedbacks.iter().zip(expected.iter()).enumerate() {
        pool.add_seed(seed(k as i32, *f, 1));
        assert_eq!(pool.best_of_all_time.as_ref().unwrap().feedback, *e);
    }
    assert_eq!(pool.size(), feedbacks.len());
}

#[test]
fn champion_keeps_first_of_equal_feedbacks() {
    let mut pool: SeedPool<i32, i32> = SeedPool::new();
    pool.add_seed(seed(10, 5, 1));
    pool.add_seed(seed(20, 5, 1));
    assert_eq!(pool.best_of_all_time.as_ref().unwrap().input, 10);
}

#[test]
fn seed_with_energy_is_drawn_energy_plus_one_times() {
    let mut pool: SeedPool<i32, i32> = SeedPool::new();
    pool.add_seed(seed(7, 1, 3));
    let mut draws = 0;
    while let Some(s) = pool.pop() {
        assert_eq!(s.input, 7);
        assert_eq!(s.energy, 3 - draws);
        draws += 1;
    }
    assert_eq!(draws, 4);
    assert!(pool.is_empty());
}

#[test]
fn champion_survives_eviction() {
    let mut pool: SeedPool<i32, i32> = SeedPool::new();
    pool.add_seed(seed(1, 100, 0));
    let drawn = pool.pop().unwrap();
    assert_eq!(drawn.feedback, 100);
    assert!(pool.is_empty());
    assert_eq!(pool.best_of_all_time.as_ref().unwrap().feedback, 100);
}

#[test]
fn pop_draws_highest_feedback_first() {
    let mut pool: SeedPool<i32, i32> = SeedPool::new();
    pool.add_seed(seed(1, 4, 0));
    pool.add_seed(seed(2, 9, 1));
    pool.add_seed(seed(3, 6, 0));
    assert_eq!(pool.pop().unwrap().input, 2);
    assert_eq!(pool.size(), 3);
    assert_eq!(pool.pop().unwrap().input, 2);
    assert_eq!(pool.size(), 2);
    assert_eq!(pool.pop().unwrap().input, 3);
    assert_eq!(pool.pop().unwrap().input, 1);
    assert!(pool.pop().is_none());
}

#[test]
fn best_and_worst_live_seeds() {
    let mut pool: SeedPool<i32, i32> = SeedPool::new();
    pool.add_seed(seed(1, 2, 0));
    pool.add_seed(seed(2, 7, 0));
    pool.add_seed(seed(3, 4, 0));
    assert_eq!(pool.best().feedback, 7);
    assert_eq!(pool.worst().feedback, 2);
    pool.pop();
    assert_eq!(pool.best().feedback, 4);
    assert_eq!(pool.best_of_all_time.as_ref().unwrap().feedback, 7);
}
