use crate::quickcheck::{describe, Arbitrary, Mutate, ResultStatus, RunResult};
use crate::random::RandomSource;
use crate::search::{
    best_of_search, candidate_at, champion_first, lawful_feedback, lemma_candidate_keeps_champion,
    lemma_candidate_origin, lemma_candidates_push, lemma_offer_champion, lemma_offer_keeps_champion,
    lemma_offer_origin, next_candidate, offer, seeded_from, tops, verdict_log,
};
use crate::seedpool::{Seed, SeedPool};
use core::fmt::Debug;
use vstd::prelude::*;

verus! {

/// Iterations of the fuzzing loops.
pub const FUZZ_FUEL: u64 = 1000;

/// One pending application of a target to a candidate input. A feedback
/// harness receives it, runs it once, and reports the result with a score.
pub struct Trial<D, Fun> {
    pub target: Fun,
    pub input: D,
}

impl<D, Fun> Trial<D, Fun> {
    /// Applies the target to the input.
    pub fn run<C>(self) -> (r: C)
        where
            Fun: Fn(D) -> C,
        requires
            self.target.requires((self.input,)),
        ensures
            self.target.ensures((self.input,), r),
    {
        (self.target)(self.input)
    }
}

/// `s` is the score the harness `h` reported for a trial of `f` on a copy
/// of candidate `x`.
pub open spec fn measured_at<D: Clone, C, F, Fun, H: Fn(Trial<D, Fun>) -> (C, F)>(
    f: Fun,
    h: H,
    x: D,
    s: F,
) -> bool {
    exists|t: Trial<D, Fun>, c: C|
        #![trigger h.ensures((t,), (c, s))]
        t.target == f && cloned(x, t.input) && h.ensures((t,), (c, s))
}

/// `b` is the verdict the harness `h` reported for a trial of `p` on a copy
/// of candidate `x`.
pub open spec fn judged_at<D: Clone, F, P, H: Fn(Trial<D, P>) -> (bool, F)>(
    p: P,
    h: H,
    x: D,
    b: bool,
) -> bool {
    exists|t: Trial<D, P>, s: F|
        #![trigger h.ensures((t,), (b, s))]
        t.target == p && cloned(x, t.input) && h.ensures((t,), (b, s))
}

/// Greedy search for an input of `f` to which the harness `fb` gives the
/// highest score; returns a copy of the first candidate of the best score.
/// The harness is called once per iteration, on a trial of that
/// iteration's candidate.
pub fn maximizing_fuzz_loop<
    D: Clone + Arbitrary + Mutate,
    C,
    F: Copy + Ord,
    Fun: Fn(D) -> C + Copy,
    H: Fn(Trial<D, Fun>) -> (C, F),
>(f: Fun, fb: H) -> (r: Seed<D, F>)
    requires
        lawful_feedback::<F>(),
        forall|t: Trial<D, Fun>| fb.requires((t,)),
    ensures
        exists|xs: Seq<D>, scores: Seq<F>, k: int|
            {
                &&& #[trigger] best_of_search(FUZZ_FUEL, xs, scores, k, r)
                &&& forall|j: int| 0 <= j < xs.len() ==> #[trigger] measured_at(f, fb, xs[j], scores[j])
            },
{
    let mut pool: SeedPool<D, F> = SeedPool::new();
    let mut rng = RandomSource::new();
    let ghost mut xs: Seq<D> = Seq::empty();
    let ghost mut scores: Seq<F> = Seq::empty();
    let ghost mut k: int = 0;
    let mut i: u64 = 1;
    while i <= FUZZ_FUEL
        invariant
            lawful_feedback::<F>(),
            forall|t: Trial<D, Fun>| fb.requires((t,)),
            1 <= i <= FUZZ_FUEL + 1,
            scores.len() == i - 1,
            xs.len() == i - 1,
            tops(pool, scores),
            seeded_from(pool.seeds@, xs, scores),
            scores.len() > 0 ==> champion_first(pool, xs, scores, k),
            forall|j: int| 0 <= j < xs.len() ==> #[trigger] candidate_at(xs, j),
            forall|j: int| 0 <= j < xs.len() ==> #[trigger] measured_at(f, fb, xs[j], scores[j]),
        decreases FUZZ_FUEL + 1 - i,
    {
        let ghost start = pool;
        let input = next_candidate(&mut pool, &mut rng, i);
        let ghost x = input;
        proof {
            lemma_candidate_keeps_champion(start, pool, scores);
            lemma_candidate_origin(start, pool, xs, scores, x, i);
        }
        let trial = Trial { target: f, input: input.clone() };
        let ghost handed = trial;
        let measured = fb(trial);
        let feedback = measured.1;
        let ghost offered = pool;
        let kept = offer(&mut pool, input, feedback);
        proof {
            assert(fb.ensures((handed,), (measured.0, feedback)));
            assert(measured_at(f, fb, x, feedback));
            lemma_offer_keeps_champion(offered, pool, scores, x, feedback, kept);
            lemma_offer_origin(offered, pool, xs, scores, x, feedback, kept);
            k = lemma_offer_champion(offered, pool, xs, scores, k, x, feedback, kept);
            lemma_candidates_push(xs, x);
            let xs2 = xs.push(x);
            let ss2 = scores.push(feedback);
            assert forall|j: int| 0 <= j < xs2.len() implies #[trigger] measured_at(f, fb, xs2[j], ss2[j]) by {
                if j < xs.len() {
                    assert(xs2[j] == xs[j] && ss2[j] == scores[j]);
                }
            }
            xs = xs2;
            scores = ss2;
        }
        i = i + 1;
    }
    let r = pool.best_of_all_time.unwrap();
    proof {
        assert(best_of_search(FUZZ_FUEL, xs, scores, k, r));
    }
    r
}

/// `r` is what a fuzzing property search reports whose candidates were `xs`
/// and whose verdicts, from the harness, were `outs`.
pub open spec fn fuzz_search<D: Clone + Arbitrary + Mutate, F, P, H: Fn(Trial<D, P>) -> (bool, F)>(
    p: P,
    h: H,
    xs: Seq<D>,
    outs: Seq<bool>,
    r: RunResult,
) -> bool {
    &&& verdict_log(FUZZ_FUEL, outs, r)
    &&& xs.len() == outs.len()
    &&& forall|j: int| 0 <= j < xs.len() ==> #[trigger] candidate_at(xs, j)
    &&& forall|j: int| 0 <= j < xs.len() ==> #[trigger] judged_at(p, h, xs[j], outs[j])
}

/// Searches for an input falsifying `p`, steering mutation towards inputs to
/// which the harness `fb` gives high scores; stops at the first candidate
/// whose trial the harness reports as false.
pub fn prop_fuzz_loop<
    D: Clone + Debug + Arbitrary + Mutate,
    F: Copy + Ord,
    P: Fn(D) -> bool + Copy,
    H: Fn(Trial<D, P>) -> (bool, F),
>(p: P, fb: H) -> (r: RunResult)
    requires
        lawful_feedback::<F>(),
        forall|t: Trial<D, P>| fb.requires((t,)),
    ensures
        exists|xs: Seq<D>, outs: Seq<bool>| #[trigger] fuzz_search(p, fb, xs, outs, r),
        (forall|t: Trial<D, P>, b: bool, s: F| fb.ensures((t,), (b, s)) ==> b) ==> r == (RunResult {
            status: ResultStatus::Finished,
            passed: FUZZ_FUEL,
            discarded: 0,
        }),
{
    let mut pool: SeedPool<D, F> = SeedPool::new();
    let mut rng = RandomSource::new();
    let ghost mut xs: Seq<D> = Seq::empty();
    let ghost mut scores: Seq<F> = Seq::empty();
    let ghost mut outs: Seq<bool> = Seq::empty();
    let mut i: u64 = 1;
    while i <= FUZZ_FUEL
        invariant
            lawful_feedback::<F>(),
            forall|t: Trial<D, P>| fb.requires((t,)),
            1 <= i <= FUZZ_FUEL + 1,
            scores.len() == i - 1,
            outs.len() == i - 1,
            xs.len() == i - 1,
            tops(pool, scores),
            seeded_from(pool.seeds@, xs, scores),
            forall|j: int| 0 <= j < outs.len() ==> #[trigger] outs[j],
            forall|j: int| 0 <= j < xs.len() ==> #[trigger] candidate_at(xs, j),
            forall|j: int| 0 <= j < xs.len() ==> #[trigger] judged_at(p, fb, xs[j], outs[j]),
        decreases FUZZ_FUEL + 1 - i,
    {
        let ghost start = pool;
        let input = next_candidate(&mut pool, &mut rng, i);
        let ghost x = input;
        proof {
            lemma_candidate_keeps_champion(start, pool, scores);
            lemma_candidate_origin(start, pool, xs, scores, x, i);
            lemma_candidates_push(xs, x);
        }
        let trial = Trial { target: p, input: input.clone() };
        let ghost handed = trial;
        let (result, feedback) = fb(trial);
        let ghost xs2 = xs.push(x);
        let ghost outs2 = outs.push(result);
        proof {
            assert(fb.ensures((handed,), (result, feedback)));
            assert(judged_at(p, fb, x, result));
            assert forall|j: int| 0 <= j < xs2.len() implies #[trigger] judged_at(p, fb, xs2[j], outs2[j]) by {
                if j < xs.len() {
                    assert(xs2[j] == xs[j] && outs2[j] == outs[j]);
                }
            }
        }
        if !result {
            let r = RunResult {
                status: ResultStatus::Failed { arguments: vec![describe(&input)] },
                passed: i - 1,
                discarded: 0,
            };
            proof {
                assert(verdict_log(FUZZ_FUEL, outs2, r));
                assert(fuzz_search(p, fb, xs2, outs2, r));
            }
            return r;
        }
        let ghost offered = pool;
        let kept = offer(&mut pool, input, feedback);
        proof {
            lemma_offer_keeps_champion(offered, pool, scores, x, feedback, kept);
            lemma_offer_origin(offered, pool, xs, scores, x, feedback, kept);
            assert forall|j: int| 0 <= j < outs2.len() implies #[trigger] outs2[j] by {
                if j < outs.len() {
                    assert(outs2[j] == outs[j]);
                }
            }
            xs = xs2;
            outs = outs2;
            scores = scores.push(feedback);
        }
        i = i + 1;
    }
    let r = RunResult { status: ResultStatus::Finished, passed: FUZZ_FUEL, discarded: 0 };
    proof {
        assert(verdict_log(FUZZ_FUEL, outs, r));
        assert(fuzz_search(p, fb, xs, outs, r));
    }
    r
}

} // verus!
