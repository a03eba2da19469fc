use crate::quickcheck::{log2, log2_floor, Arbitrary, Mutate, ResultStatus, RunResult};
use crate::random::RandomSource;
use crate::seedpool::{
    champion_step, drawn, greater, is_top, lemma_drawn_feedbacks, lemma_not_above_transitive,
    lemma_strict_order, Seed, SeedPool,
};
use vstd::laws_cmp::obeys_cmp;
use vstd::laws_eq::obeys_concrete_eq;
use vstd::prelude::*;

verus! {

/// The energy a new seed starts with.
pub const SEED_ENERGY: usize = 1000;

/// The feedback type's order is total and lawful, and its equality is spec
/// equality.
pub open spec fn lawful_feedback<F: Ord>() -> bool {
    obeys_cmp::<F>() && obeys_concrete_eq::<F>()
}

/// The pool's champion tops every score in `scores`, the scores observed so
/// far, and every live seed; before any score there is no seed at all.
pub open spec fn tops<T: Clone, F: Copy + Ord>(pool: SeedPool<T, F>, scores: Seq<F>) -> bool {
    if scores.len() == 0 {
        pool.seeds@.len() == 0 && pool.best_of_all_time is None
    } else {
        &&& pool.best_of_all_time matches Some(c) && {
            &&& scores.contains(c.feedback)
            &&& forall|j: int| 0 <= j < scores.len() ==> !greater(#[trigger] scores[j], c.feedback)
            &&& forall|k: int|
                0 <= k < pool.seeds@.len() ==> !greater(#[trigger] pool.seeds@[k].feedback, c.feedback)
        }
    }
}

/// `r` is what a property search with `fuel` iterations reports when the
/// verdicts of its iterations, in order, were `outs`: it stops at the first
/// false verdict, with the number of passing iterations before it as `passed`.
pub open spec fn verdict_log(fuel: u64, outs: Seq<bool>, r: RunResult) -> bool {
    &&& forall|i: int| 0 <= i < outs.len() - 1 ==> #[trigger] outs[i]
    &&& r.discarded == 0
    &&& match r.status {
        ResultStatus::Finished => outs.len() == fuel && r.passed == fuel && forall|i: int|
            0 <= i < outs.len() ==> #[trigger] outs[i],
        ResultStatus::Failed { arguments } => 1 <= outs.len() <= fuel && !outs.last() && r.passed
            == outs.len() - 1 && arguments@.len() == 1,
        _ => false,
    }
}

/// The live seeds after one candidate selection: unchanged when there were
/// none, otherwise a top seed was drawn once.
pub open spec fn drawn_for_candidate<D: Clone, F: Copy + Ord>(
    before: Seq<Seed<D, F>>,
    after: Seq<Seed<D, F>>,
) -> bool {
    if before.len() == 0 {
        after == before
    } else {
        exists|i: int| #[trigger] is_top(before, i) && after == drawn(before, i)
    }
}

/// The next candidate of a search: a mutation of a drawn seed's input when
/// the pool has one, otherwise a fresh value; the size is `log2(iteration)`.
pub fn next_candidate<D: Clone + Arbitrary + Mutate, F: Copy + Ord>(
    pool: &mut SeedPool<D, F>,
    rng: &mut RandomSource,
    iteration: u64,
) -> (r: D)
    requires
        lawful_feedback::<F>(),
    ensures
        final(pool).best_of_all_time == old(pool).best_of_all_time,
        drawn_for_candidate(old(pool).seeds@, final(pool).seeds@),
        old(pool).seeds@.len() == 0 ==> r.within_size(log2(iteration as nat)),
        old(pool).seeds@.len() > 0 ==> exists|i: int, parent: D|
            {
                &&& #[trigger] is_top(old(pool).seeds@, i)
                &&& cloned(old(pool).seeds@[i].input, parent)
                &&& #[trigger] r.mutation_of(&parent, log2(iteration as nat))
                &&& final(pool).seeds@ == drawn(old(pool).seeds@, i)
            },
{
    let size = log2_floor(iteration);
    let ghost before = *pool;
    match pool.pop() {
        Some(seed) => {
            let ghost i = choose|i: int|
                {
                    &&& #[trigger] is_top(before.seeds@, i)
                    &&& before.seeds@[i].same_as(seed)
                    &&& pool.seeds@ == drawn(before.seeds@, i)
                };
            let r = D::mutate(&seed.input, rng, size);
            proof {
                assert(is_top(before.seeds@, i) && cloned(before.seeds@[i].input, seed.input)
                    && r.mutation_of(&seed.input, log2(iteration as nat)));
            }
            r
        },
        None => D::generate(rng, size),
    }
}

/// Selecting a candidate keeps the champion on top of the scores seen and of
/// the live seeds.
pub proof fn lemma_candidate_keeps_champion<D: Clone, F: Copy + Ord>(
    before: SeedPool<D, F>,
    after: SeedPool<D, F>,
    scores: Seq<F>,
)
    requires
        tops(before, scores),
        after.best_of_all_time == before.best_of_all_time,
        drawn_for_candidate(before.seeds@, after.seeds@),
    ensures
        tops(after, scores),
{
    if before.seeds@.len() > 0 {
        let i = choose|i: int| #[trigger] is_top(before.seeds@, i) && after.seeds@ == drawn(before.seeds@, i);
        lemma_drawn_feedbacks(before.seeds@, i);
        let c = after.best_of_all_time->0.feedback;
        assert forall|k: int| 0 <= k < after.seeds@.len() implies !greater(
            #[trigger] after.seeds@[k].feedback,
            c,
        ) by {
            let m = choose|m: int|
                0 <= m < before.seeds@.len() && drawn(before.seeds@, i)[k].feedback
                    == before.seeds@[m].feedback;
            assert(!greater(before.seeds@[m].feedback, c));
        }
    }
}

/// Keeps `input` as a new seed, with `SEED_ENERGY`, when the pool is empty
/// or `feedback` is strictly greater than that of the best live seed;
/// otherwise drops it. Equal feedback is not enough.
pub fn offer<D: Clone, F: Copy + Ord>(pool: &mut SeedPool<D, F>, input: D, feedback: F) -> (kept: bool)
    requires
        lawful_feedback::<F>(),
    ensures
        kept == (old(pool).seeds@.len() == 0 || exists|i: int|
            #[trigger] is_top(old(pool).seeds@, i) && greater(feedback, old(pool).seeds@[i].feedback)),
        kept ==> final(pool).seeds@ == old(pool).seeds@.push(
            Seed { input, feedback, energy: SEED_ENERGY },
        ) && final(pool).champion_feedback() == champion_step(old(pool).champion_feedback(), feedback),
        kept ==> match old(pool).best_of_all_time {
            Some(b) if !greater(feedback, b.feedback) => final(pool).best_of_all_time
                == old(pool).best_of_all_time,
            _ => final(pool).best_of_all_time matches Some(c) && c.feedback == feedback && c.energy
                == SEED_ENERGY && cloned(input, c.input),
        },
        !kept ==> final(pool).seeds@ == old(pool).seeds@ && final(pool).best_of_all_time
            == old(pool).best_of_all_time && exists|i: int|
            #[trigger] is_top(old(pool).seeds@, i) && !greater(feedback, old(pool).seeds@[i].feedback),
{
    proof {
        lemma_strict_order::<F>();
        lemma_not_above_transitive::<F>();
    }
    let ghost before = *pool;
    let keep = if pool.is_empty() {
        true
    } else {
        let best = pool.best();
        proof {
            let i = choose|i: int| is_top(before.seeds@, i) && *best == before.seeds@[i];
            assert forall|i2: int| #[trigger] is_top(before.seeds@, i2) implies (greater(
                feedback,
                before.seeds@[i2].feedback,
            ) <==> greater(feedback, best.feedback)) by {
                assert(!greater(before.seeds@[i2].feedback, best.feedback));
                assert(!greater(best.feedback, before.seeds@[i2].feedback));
            }
        }
        feedback > best.feedback
    };
    if keep {
        pool.add_seed(Seed { input, feedback, energy: SEED_ENERGY });
    }
    keep
}

/// Offering a candidate keeps the champion on top of the scores seen, now
/// including the candidate's, and of the live seeds.
pub proof fn lemma_offer_keeps_champion<D: Clone, F: Copy + Ord>(
    before: SeedPool<D, F>,
    after: SeedPool<D, F>,
    scores: Seq<F>,
    input: D,
    feedback: F,
    kept: bool,
)
    requires
        lawful_feedback::<F>(),
        tops(before, scores),
        kept ==> after.seeds@ == before.seeds@.push(Seed { input, feedback, energy: SEED_ENERGY })
            && after.champion_feedback() == champion_step(before.champion_feedback(), feedback),
        !kept ==> after.seeds@ == before.seeds@ && after.best_of_all_time == before.best_of_all_time
            && exists|i: int| #[trigger] is_top(before.seeds@, i) && !greater(feedback, before.seeds@[i].feedback),
    ensures
        tops(after, scores.push(feedback)),
{
    lemma_strict_order::<F>();
    lemma_not_above_transitive::<F>();
    let seen = scores.push(feedback);
    assert(seen[seen.len() - 1] == feedback);
    if kept {
        let c = after.best_of_all_time->0.feedback;
        if scores.len() > 0 {
            let c0 = before.best_of_all_time->0.feedback;
            let j0 = choose|j0: int| 0 <= j0 < scores.len() && scores[j0] == c0;
            assert(seen[j0] == c0);
            assert forall|j: int| 0 <= j < seen.len() implies !greater(#[trigger] seen[j], c) by {
                if j < scores.len() {
                    assert(seen[j] == scores[j]);
                    assert(!greater(scores[j], c0));
                }
            }
            assert forall|k: int| 0 <= k < after.seeds@.len() implies !greater(
                #[trigger] after.seeds@[k].feedback,
                c,
            ) by {
                if k < before.seeds@.len() {
                    assert(after.seeds@[k] == before.seeds@[k]);
                    assert(!greater(before.seeds@[k].feedback, c0));
                }
            }
        } else {
            assert(seen.len() == 1);
            assert forall|k: int| 0 <= k < after.seeds@.len() implies !greater(
                #[trigger] after.seeds@[k].feedback,
                c,
            ) by {
                assert(after.seeds@[k].feedback == feedback);
            }
        }
        assert(seen.contains(c));
    } else {
        let c = before.best_of_all_time->0.feedback;
        let i = choose|i: int| #[trigger] is_top(before.seeds@, i) && !greater(feedback, before.seeds@[i].feedback);
        assert(!greater(before.seeds@[i].feedback, c));
        assert(!greater(feedback, c));
        let j0 = choose|j0: int| 0 <= j0 < scores.len() && scores[j0] == c;
        assert(seen[j0] == c);
        assert forall|j: int| 0 <= j < seen.len() implies !greater(#[trigger] seen[j], c) by {
            if j < scores.len() {
                assert(seen[j] == scores[j]);
            }
        }
    }
}

/// Candidate `j` of a search (its iteration `j + 1`) is a fresh value of
/// size `log2(j + 1)`, or a mutation at that size of a copy of an earlier
/// candidate.
pub open spec fn candidate_at<D: Clone + Arbitrary + Mutate>(xs: Seq<D>, j: int) -> bool {
    ||| xs[j].within_size(log2((j + 1) as nat))
    ||| exists|k: int, parent: D|
        #![trigger cloned(xs[k], parent)]
        0 <= k < j && cloned(xs[k], parent) && xs[j].mutation_of(&parent, log2((j + 1) as nat))
}

/// Seed `s` holds candidate `k` with its score.
pub open spec fn came_from<D: Clone, F: Copy + Ord>(s: Seed<D, F>, xs: Seq<D>, scores: Seq<F>, k: int) -> bool {
    0 <= k < xs.len() && k < scores.len() && s.input == xs[k] && s.feedback == scores[k]
}

/// Seed `s` holds one of the candidates, with its score.
pub open spec fn from_candidates<D: Clone, F: Copy + Ord>(s: Seed<D, F>, xs: Seq<D>, scores: Seq<F>) -> bool {
    exists|k: int| #[trigger] came_from(s, xs, scores, k)
}

/// Every live seed holds one of the candidates, with its score.
pub open spec fn seeded_from<D: Clone, F: Copy + Ord>(
    seeds: Seq<Seed<D, F>>,
    xs: Seq<D>,
    scores: Seq<F>,
) -> bool {
    forall|m: int| 0 <= m < seeds.len() ==> #[trigger] from_candidates(seeds[m], xs, scores)
}

/// The champion is a copy of candidate `k`, with its score and a fresh
/// energy, and every earlier candidate scored strictly less.
pub open spec fn champion_first<D: Clone, F: Copy + Ord>(
    pool: SeedPool<D, F>,
    xs: Seq<D>,
    scores: Seq<F>,
    k: int,
) -> bool {
    &&& 0 <= k < xs.len()
    &&& k < scores.len()
    &&& pool.best_of_all_time matches Some(c) && cloned(xs[k], c.input) && c.feedback == scores[k]
        && c.energy == SEED_ENERGY
    &&& forall|j: int| 0 <= j < k ==> greater(scores[k], #[trigger] scores[j])
}

/// Appending a candidate keeps the earlier candidates' descriptions.
pub proof fn lemma_candidates_push<D: Clone + Arbitrary + Mutate>(xs: Seq<D>, x: D)
    requires
        forall|j: int| 0 <= j < xs.len() ==> #[trigger] candidate_at(xs, j),
        candidate_at(xs.push(x), xs.len() as int),
    ensures
        forall|j: int| 0 <= j < xs.len() + 1 ==> #[trigger] candidate_at(xs.push(x), j),
{
    let ys = xs.push(x);
    assert forall|j: int| 0 <= j < xs.len() + 1 implies #[trigger] candidate_at(ys, j) by {
        if j < xs.len() {
            assert(candidate_at(xs, j));
            assert(ys[j] == xs[j]);
            if !xs[j].within_size(log2((j + 1) as nat)) {
                let (k, parent) = choose|k: int, parent: D|
                    #![trigger cloned(xs[k], parent)]
                    0 <= k < j && cloned(xs[k], parent) && xs[j].mutation_of(&parent, log2((j + 1) as nat));
                assert(ys[k] == xs[k]);
                assert(cloned(ys[k], parent));
            }
        }
    }
}

/// The candidate that `next_candidate` returns is described by
/// `candidate_at`, and the live seeds still hold candidates.
pub proof fn lemma_candidate_origin<D: Clone + Arbitrary + Mutate, F: Copy + Ord>(
    before: SeedPool<D, F>,
    after: SeedPool<D, F>,
    xs: Seq<D>,
    scores: Seq<F>,
    x: D,
    iteration: u64,
)
    requires
        iteration == xs.len() + 1,
        seeded_from(before.seeds@, xs, scores),
        before.seeds@.len() == 0 ==> x.within_size(log2(iteration as nat)) && after.seeds@
            == before.seeds@,
        before.seeds@.len() > 0 ==> exists|i: int, parent: D|
            {
                &&& #[trigger] is_top(before.seeds@, i)
                &&& cloned(before.seeds@[i].input, parent)
                &&& #[trigger] x.mutation_of(&parent, log2(iteration as nat))
                &&& after.seeds@ == drawn(before.seeds@, i)
            },
    ensures
        candidate_at(xs.push(x), xs.len() as int),
        seeded_from(after.seeds@, xs, scores),
{
    let ys = xs.push(x);
    assert(ys[xs.len() as int] == x);
    if before.seeds@.len() > 0 {
        let (i, parent) = choose|i: int, parent: D|
            {
                &&& #[trigger] is_top(before.seeds@, i)
                &&& cloned(before.seeds@[i].input, parent)
                &&& #[trigger] x.mutation_of(&parent, log2(iteration as nat))
                &&& after.seeds@ == drawn(before.seeds@, i)
            };
        assert(from_candidates(before.seeds@[i], xs, scores));
        let k = choose|k: int| #[trigger] came_from(before.seeds@[i], xs, scores, k);
        assert(ys[k] == xs[k]);
        assert(cloned(ys[k], parent));
        lemma_drawn_feedbacks(before.seeds@, i);
        assert forall|m: int| 0 <= m < after.seeds@.len() implies #[trigger] from_candidates(
            after.seeds@[m],
            xs,
            scores,
        ) by {
            let m2 = choose|m2: int|
                0 <= m2 < before.seeds@.len() && drawn(before.seeds@, i)[m].feedback
                    == before.seeds@[m2].feedback && drawn(before.seeds@, i)[m].input
                    == before.seeds@[m2].input;
            assert(from_candidates(before.seeds@[m2], xs, scores));
            let k2 = choose|k2: int| #[trigger] came_from(before.seeds@[m2], xs, scores, k2);
            assert(came_from(after.seeds@[m], xs, scores, k2));
        }
        assert(seeded_from(after.seeds@, xs, scores));
    } else {
        assert(after.seeds@ == before.seeds@);
    }
}

/// Offering candidate `x` with score `feedback` keeps every live seed a
/// candidate.
pub proof fn lemma_offer_origin<D: Clone, F: Copy + Ord>(
    before: SeedPool<D, F>,
    after: SeedPool<D, F>,
    xs: Seq<D>,
    scores: Seq<F>,
    x: D,
    feedback: F,
    kept: bool,
)
    requires
        xs.len() == scores.len(),
        seeded_from(before.seeds@, xs, scores),
        kept ==> after.seeds@ == before.seeds@.push(Seed { input: x, feedback, energy: SEED_ENERGY }),
        !kept ==> after.seeds@ == before.seeds@,
    ensures
        seeded_from(after.seeds@, xs.push(x), scores.push(feedback)),
{
    let ys = xs.push(x);
    let ss = scores.push(feedback);
    let n = xs.len() as int;
    assert(ys[n] == x && ss[n] == feedback);
    assert forall|m: int| 0 <= m < after.seeds@.len() implies #[trigger] from_candidates(
        after.seeds@[m],
        ys,
        ss,
    ) by {
        if m < before.seeds@.len() {
            assert(after.seeds@[m] == before.seeds@[m]);
            assert(from_candidates(before.seeds@[m], xs, scores));
            let k3 = choose|k3: int| #[trigger] came_from(before.seeds@[m], xs, scores, k3);
            assert(ys[k3] == xs[k3] && ss[k3] == scores[k3]);
            assert(came_from(after.seeds@[m], ys, ss, k3));
        } else {
            assert(came_from(after.seeds@[m], ys, ss, n));
        }
    }
    assert(seeded_from(after.seeds@, ys, ss));
}

/// Offering candidate `x` with score `feedback` keeps the champion the
/// first candidate of the best score.
pub proof fn lemma_offer_champion<D: Clone, F: Copy + Ord>(
    before: SeedPool<D, F>,
    after: SeedPool<D, F>,
    xs: Seq<D>,
    scores: Seq<F>,
    k: int,
    x: D,
    feedback: F,
    kept: bool,
) -> (k2: int)
    requires
        lawful_feedback::<F>(),
        xs.len() == scores.len(),
        tops(before, scores),
        scores.len() > 0 ==> champion_first(before, xs, scores, k),
        kept ==> after.seeds@ == before.seeds@.push(Seed { input: x, feedback, energy: SEED_ENERGY }),
        kept ==> match before.best_of_all_time {
            Some(b) if !greater(feedback, b.feedback) => after.best_of_all_time
                == before.best_of_all_time,
            _ => after.best_of_all_time matches Some(c) && c.feedback == feedback && c.energy
                == SEED_ENERGY && cloned(x, c.input),
        },
        !kept ==> after.seeds@ == before.seeds@ && after.best_of_all_time == before.best_of_all_time,
        !kept ==> scores.len() > 0,
    ensures
        champion_first(after, xs.push(x), scores.push(feedback), k2),
{
    lemma_strict_order::<F>();
    lemma_not_above_transitive::<F>();
    let ys = xs.push(x);
    let ss = scores.push(feedback);
    let n = xs.len() as int;
    assert(ys[n] == x && ss[n] == feedback);
    let replaced = kept && match before.best_of_all_time {
        Some(b) => greater(feedback, b.feedback),
        None => true,
    };
    if replaced {
        if scores.len() > 0 {
            let c0 = before.best_of_all_time->0.feedback;
            assert forall|j: int| 0 <= j < n implies greater(ss[n], #[trigger] ss[j]) by {
                assert(ss[j] == scores[j]);
                assert(!greater(scores[j], c0));
            }
        }
        n
    } else {
        assert(ys[k] == xs[k] && ss[k] == scores[k]);
        assert forall|j: int| 0 <= j < k implies greater(ss[k], #[trigger] ss[j]) by {
            assert(ss[j] == scores[j]);
        }
        k
    }
}

/// What a maximizing search of `fuel` iterations returns: candidate `j` is
/// `xs[j]` with score `scores[j]`, and `r` is a copy of candidate `k`, the
/// first candidate of the best score, with its score and a fresh energy.
pub open spec fn best_of_search<D: Clone + Arbitrary + Mutate, F: Copy + Ord>(
    fuel: u64,
    xs: Seq<D>,
    scores: Seq<F>,
    k: int,
    r: Seed<D, F>,
) -> bool {
    &&& xs.len() == fuel && scores.len() == fuel
    &&& forall|j: int| 0 <= j < xs.len() ==> #[trigger] candidate_at(xs, j)
    &&& 0 <= k < fuel
    &&& r.feedback == scores[k] && cloned(xs[k], r.input) && r.energy == SEED_ENERGY
    &&& forall|j: int| 0 <= j < k ==> greater(scores[k], #[trigger] scores[j])
    &&& forall|j: int| 0 <= j < fuel ==> !greater(#[trigger] scores[j], scores[k])
}

} // verus!
