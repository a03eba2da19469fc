use crate::quickcheck::{describe, log2, log2_floor, Mutate};
use crate::random::RandomSource;
use core::fmt::Debug;
use vstd::prelude::*;

verus! {

/// Mutations of a failing input that `explore_failure` tries.
pub const EXPLORE_ROUNDS: usize = 500;

/// Which rounds of an exploration held and which failed, with the inputs
/// shown; round 0 is the failing input itself.
pub struct Indices {
    pub positives: Vec<usize>,
    pub negatives: Vec<usize>,
    pub positive_examples: Vec<String>,
    pub negative_examples: Vec<String>,
}

/// The rounds `1..=outs.len()` whose outcome was `Some(v)`, in order.
pub open spec fn rounds_with(outs: Seq<Option<bool>>, v: bool) -> Seq<usize>
    decreases outs.len(),
{
    if outs.len() == 0 {
        Seq::empty()
    } else if outs.last() == Some(v) {
        rounds_with(outs.drop_last(), v).push(outs.len() as usize)
    } else {
        rounds_with(outs.drop_last(), v)
    }
}

/// `r` is what an exploration of `rounds` mutations of `failing` reports
/// when round `j + 1` probed `xs[j]` and the probe gave `outs[j]`.
pub open spec fn exploration_log<T: Mutate, P: Fn(usize, &T) -> Option<bool>>(
    probe: P,
    failing: T,
    rounds: usize,
    xs: Seq<T>,
    outs: Seq<Option<bool>>,
    r: Result<Indices, usize>,
) -> bool {
    &&& xs.len() == outs.len() <= rounds
    &&& forall|j: int| 0 <= j < xs.len() ==> #[trigger] xs[j].mutation_of(
        &failing,
        log2((j + 2) as nat),
    )
    &&& forall|j: int| 0 <= j < xs.len() ==> probe.ensures(((j + 1) as usize, &xs[j]), #[trigger] outs[j])
    &&& forall|j: int| 0 <= j < outs.len() - 1 ==> #[trigger] outs[j] is Some
    &&& match r {
        Ok(ix) => {
            &&& outs.len() == rounds
            &&& rounds == 0 || outs.last() is Some
            &&& ix.positives@ == rounds_with(outs, true)
            &&& ix.negatives@ == seq![0usize] + rounds_with(outs, false)
            &&& ix.positive_examples@.len() == ix.positives@.len()
            &&& ix.negative_examples@.len() == ix.negatives@.len()
        },
        Err(round) => outs.len() >= 1 && outs.last() is None && round == outs.len(),
    }
}

/// Probes a failing input and `rounds` mutations of it. `probe(0, failing)`
/// runs first and counts as a failure; round `i` then probes a mutation of
/// `failing` at size `log2(i + 1)` and files it by outcome. A discarded
/// mutation stops the exploration with its round as the error: the mutator
/// broke the property's precondition.
pub fn explore_failure<T: Mutate + Debug, P: Fn(usize, &T) -> Option<bool>>(
    probe: &P,
    failing: &T,
    rounds: usize,
    rng: &mut RandomSource,
) -> (r: Result<Indices, usize>)
    requires
        forall|i: usize, x: &T| probe.requires((i, x)),
        rounds < usize::MAX,
    ensures
        exists|xs: Seq<T>, outs: Seq<Option<bool>>|
            exploration_log(*probe, *failing, rounds, xs, outs, r),
{
    let _ = probe(0, failing);
    let mut ix = Indices {
        positives: Vec::new(),
        negatives: vec![0],
        positive_examples: Vec::new(),
        negative_examples: vec![describe(failing)],
    };
    let ghost mut xs: Seq<T> = Seq::empty();
    let ghost mut outs: Seq<Option<bool>> = Seq::empty();
    let mut i: usize = 1;
    proof {
        assert(seq![0usize] + rounds_with(outs, false) =~= seq![0usize]);
    }
    while i <= rounds
        invariant
            1 <= i <= rounds + 1,
            forall|k: usize, x: &T| probe.requires((k, x)),
            xs.len() == i - 1,
            outs.len() == i - 1,
            forall|j: int| 0 <= j < xs.len() ==> #[trigger] xs[j].mutation_of(failing, log2((j + 2) as nat)),
            forall|j: int| 0 <= j < xs.len() ==> probe.ensures(((j + 1) as usize, &xs[j]), #[trigger] outs[j]),
            forall|j: int| 0 <= j < outs.len() ==> #[trigger] outs[j] is Some,
            ix.positives@ == rounds_with(outs, true),
            ix.negatives@ == seq![0usize] + rounds_with(outs, false),
            ix.positive_examples@.len() == ix.positives@.len(),
            ix.negative_examples@.len() == ix.negatives@.len(),
            rounds < usize::MAX,
        decreases rounds + 1 - i,
    {
        let input = failing.mutate(rng, log2_floor((i + 1) as u64));
        let outcome = probe(i, &input);
        proof {
            assert(outs.push(outcome).drop_last() =~= outs);
            xs = xs.push(input);
            outs = outs.push(outcome);
        }
        match outcome {
            None => {
                proof {
                    assert(exploration_log(*probe, *failing, rounds, xs, outs, Err::<Indices, usize>(i)));
                }
                return Err(i);
            },
            Some(true) => {
                ix.positives.push(i);
                ix.positive_examples.push(describe(&input));
            },
            Some(false) => {
                ix.negatives.push(i);
                ix.negative_examples.push(describe(&input));
                proof {
                    assert(seq![0usize] + rounds_with(outs, false) =~= (seq![0usize] + rounds_with(
                        outs.drop_last(),
                        false,
                    )).push(i));
                }
            },
        }
        i = i + 1;
    }
    proof {
        assert(exploration_log(*probe, *failing, rounds, xs, outs, Ok::<Indices, usize>(ix)));
    }
    Ok(ix)
}

} // verus!
