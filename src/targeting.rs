use crate::quickcheck::{describe, Arbitrary, Mutate, ResultStatus, RunResult};
use crate::random::RandomSource;
use crate::search::{
    best_of_search, candidate_at, champion_first, lawful_feedback, lemma_candidate_keeps_champion,
    lemma_candidate_origin, lemma_candidates_push, lemma_offer_champion, lemma_offer_keeps_champion, lemma_offer_origin,
    next_candidate, offer, seeded_from, tops, verdict_log,
};
use crate::seedpool::{Seed, SeedPool};
use core::fmt::Debug;
use vstd::prelude::*;

verus! {

/// Iterations of `maximizing_targeting_loop`.
pub const MAXIMIZING_TARGETING_FUEL: u64 = 1000;

/// Iterations of `prop_targeting_loop`.
pub const PROP_TARGETING_FUEL: u64 = 100000;

/// `s` is the score `fb` gave candidate `x`: `f` and `fb` were each applied
/// to a copy of `x`, and `fb` saw the result of `f`.
pub open spec fn scored_at<D: Clone, C, F, Fun: Fn(D) -> C, Fb: Fn(D, C) -> F>(
    f: Fun,
    fb: Fb,
    x: D,
    s: F,
) -> bool {
    exists|c1: D, c2: D, res: C|
        #![trigger f.ensures((c1,), res), fb.ensures((c2, res), s)]
        cloned(x, c1) && cloned(x, c2) && f.ensures((c1,), res) && fb.ensures((c2, res), s)
}

/// Greedy search for an input of `f` whose score `fb(input, f(input))` is
/// as high as possible; returns a copy of the first candidate of the best
/// score.
pub fn maximizing_targeting_loop<
    D: Clone + Arbitrary + Mutate,
    C,
    F: Copy + Ord,
    Fun: Fn(D) -> C,
    Fb: Fn(D, C) -> F,
>(f: Fun, fb: Fb) -> (r: Seed<D, F>)
    requires
        lawful_feedback::<F>(),
        forall|x: D| f.requires((x,)),
        forall|x: D, c: C| fb.requires((x, c)),
    ensures
        exists|xs: Seq<D>, scores: Seq<F>, k: int|
            {
                &&& #[trigger] best_of_search(MAXIMIZING_TARGETING_FUEL, xs, scores, k, r)
                &&& forall|j: int| 0 <= j < xs.len() ==> #[trigger] scored_at(f, fb, xs[j], scores[j])
            },
{
    let mut pool: SeedPool<D, F> = SeedPool::new();
    let mut rng = RandomSource::new();
    let ghost mut xs: Seq<D> = Seq::empty();
    let ghost mut scores: Seq<F> = Seq::empty();
    let ghost mut k: int = 0;
    let mut i: u64 = 1;
    while i <= MAXIMIZING_TARGETING_FUEL
        invariant
            lawful_feedback::<F>(),
            forall|x: D| f.requires((x,)),
            forall|x: D, c: C| fb.requires((x, c)),
            1 <= i <= MAXIMIZING_TARGETING_FUEL + 1,
            scores.len() == i - 1,
            xs.len() == i - 1,
            tops(pool, scores),
            seeded_from(pool.seeds@, xs, scores),
            scores.len() > 0 ==> champion_first(pool, xs, scores, k),
            forall|j: int| 0 <= j < xs.len() ==> #[trigger] candidate_at(xs, j),
            forall|j: int| 0 <= j < xs.len() ==> #[trigger] scored_at(f, fb, xs[j], scores[j]),
        decreases MAXIMIZING_TARGETING_FUEL + 1 - i,
    {
        let ghost start = pool;
        let input = next_candidate(&mut pool, &mut rng, i);
        let ghost x = input;
        proof {
            lemma_candidate_keeps_champion(start, pool, scores);
            lemma_candidate_origin(start, pool, xs, scores, x, i);
        }
        let a1 = input.clone();
        let ghost g1 = a1;
        let result = f(a1);
        let a2 = input.clone();
        let ghost g2 = a2;
        let feedback = fb(a2, result);
        let ghost offered = pool;
        let kept = offer(&mut pool, input, feedback);
        proof {
            assert(f.ensures((g1,), result) && fb.ensures((g2, result), feedback));
            assert(scored_at(f, fb, x, feedback));
            lemma_offer_keeps_champion(offered, pool, scores, x, feedback, kept);
            lemma_offer_origin(offered, pool, xs, scores, x, feedback, kept);
            k = lemma_offer_champion(offered, pool, xs, scores, k, x, feedback, kept);
            lemma_candidates_push(xs, x);
            let xs2 = xs.push(x);
            let ss2 = scores.push(feedback);
            assert forall|j: int| 0 <= j < xs2.len() implies #[trigger] scored_at(f, fb, xs2[j], ss2[j]) by {
                if j < xs.len() {
                    assert(xs2[j] == xs[j] && ss2[j] == scores[j]);
                }
            }
            xs = xs2;
            scores = ss2;
        }
        i = i + 1;
    }
    let r = pool.best_of_all_time.unwrap();
    proof {
        assert(best_of_search(MAXIMIZING_TARGETING_FUEL, xs, scores, k, r));
    }
    r
}

/// Candidate `x` got the verdict `b` from `f` and some score from `fb`, each
/// applied to a copy of `x`.
pub open spec fn judged_at<D: Clone, F, P: Fn(D) -> bool, Fb: Fn(D) -> F>(
    f: P,
    fb: Fb,
    x: D,
    b: bool,
) -> bool {
    exists|c1: D, c2: D, s: F|
        #![trigger f.ensures((c1,), b), fb.ensures((c2,), s)]
        cloned(x, c1) && cloned(x, c2) && f.ensures((c1,), b) && fb.ensures((c2,), s)
}

/// `r` is what a property search reports whose candidates were `xs` and
/// whose verdicts on them were `outs`.
pub open spec fn property_search<D: Clone + Arbitrary + Mutate, F, P: Fn(D) -> bool, Fb: Fn(D) -> F>(
    f: P,
    fb: Fb,
    xs: Seq<D>,
    outs: Seq<bool>,
    r: RunResult,
) -> bool {
    &&& verdict_log(PROP_TARGETING_FUEL, outs, r)
    &&& xs.len() == outs.len()
    &&& forall|j: int| 0 <= j < xs.len() ==> #[trigger] candidate_at(xs, j)
    &&& forall|j: int| 0 <= j < xs.len() ==> #[trigger] judged_at(f, fb, xs[j], outs[j])
}

/// Searches for an input falsifying `f`, steering mutation towards inputs
/// with high `fb(input)`; stops at the first falsifying input.
pub fn prop_targeting_loop<
    D: Clone + Debug + Arbitrary + Mutate,
    F: Copy + Ord,
    P: Fn(D) -> bool,
    Fb: Fn(D) -> F,
>(f: P, fb: Fb) -> (r: RunResult)
    requires
        lawful_feedback::<F>(),
        forall|x: D| f.requires((x,)),
        forall|x: D| fb.requires((x,)),
    ensures
        exists|xs: Seq<D>, outs: Seq<bool>| #[trigger] property_search(f, fb, xs, outs, r),
        (forall|x: D, b: bool| f.ensures((x,), b) ==> b) ==> r == (RunResult {
            status: ResultStatus::Finished,
            passed: PROP_TARGETING_FUEL,
            discarded: 0,
        }),
{
    let mut pool: SeedPool<D, F> = SeedPool::new();
    let mut rng = RandomSource::new();
    let ghost mut xs: Seq<D> = Seq::empty();
    let ghost mut scores: Seq<F> = Seq::empty();
    let ghost mut outs: Seq<bool> = Seq::empty();
    let mut i: u64 = 1;
    while i <= PROP_TARGETING_FUEL
        invariant
            lawful_feedback::<F>(),
            forall|x: D| f.requires((x,)),
            forall|x: D| fb.requires((x,)),
            1 <= i <= PROP_TARGETING_FUEL + 1,
            scores.len() == i - 1,
            outs.len() == i - 1,
            xs.len() == i - 1,
            tops(pool, scores),
            seeded_from(pool.seeds@, xs, scores),
            forall|j: int| 0 <= j < outs.len() ==> #[trigger] outs[j],
            forall|j: int| 0 <= j < xs.len() ==> #[trigger] candidate_at(xs, j),
            forall|j: int| 0 <= j < xs.len() ==> #[trigger] judged_at(f, fb, xs[j], outs[j]),
        decreases PROP_TARGETING_FUEL + 1 - i,
    {
        let ghost start = pool;
        let input = next_candidate(&mut pool, &mut rng, i);
        let ghost x = input;
        proof {
            lemma_candidate_keeps_champion(start, pool, scores);
            lemma_candidate_origin(start, pool, xs, scores, x, i);
            lemma_candidates_push(xs, x);
        }
        let a1 = input.clone();
        let ghost g1 = a1;
        let result = f(a1);
        let a2 = input.clone();
        let ghost g2 = a2;
        let feedback = fb(a2);
        let ghost xs2 = xs.push(x);
        let ghost outs2 = outs.push(result);
        proof {
            assert(f.ensures((g1,), result) && fb.ensures((g2,), feedback));
            assert(judged_at(f, fb, x, result));
            assert forall|j: int| 0 <= j < xs2.len() implies #[trigger] judged_at(f, fb, xs2[j], outs2[j]) by {
                if j < xs.len() {
                    assert(xs2[j] == xs[j] && outs2[j] == outs[j]);
                }
            }
        }
        if !result {
            let r = RunResult {
                status: ResultStatus::Failed { arguments: vec![describe(&input)] },
                passed: i - 1,
                discarded: 0,
            };
            proof {
                assert(verdict_log(PROP_TARGETING_FUEL, outs2, r));
                assert(property_search(f, fb, xs2, outs2, r));
            }
            return r;
        }
        let ghost offered = pool;
        let kept = offer(&mut pool, input, feedback);
        proof {
            lemma_offer_keeps_champion(offered, pool, scores, x, feedback, kept);
            lemma_offer_origin(offered, pool, xs, scores, x, feedback, kept);
            assert forall|j: int| 0 <= j < outs2.len() implies #[trigger] outs2[j] by {
                if j < outs.len() {
                    assert(outs2[j] == outs[j]);
                }
            }
            xs = xs2;
            outs = outs2;
            scores = scores.push(feedback);
        }
        i = i + 1;
    }
    let r = RunResult { status: ResultStatus::Finished, passed: PROP_TARGETING_FUEL, discarded: 0 };
    proof {
        assert(verdict_log(PROP_TARGETING_FUEL, outs, r));
        assert(property_search(f, fb, xs, outs, r));
    }
    r
}

} // verus!
