use crate::quickcheck::{describe, log2_floor, size_at, Arbitrary, ResultStatus, RunResult};
use crate::random::RandomSource;
use core::fmt::Debug;
use vstd::prelude::*;

verus! {

/// Workers that race on one property.
pub const RACE_WORKERS: usize = 4;

/// Trials that each racing worker runs at most.
pub const RACE_CAP: u64 = 100;

/// How one racing worker ended.
#[derive(Debug)]
pub enum RaceOutcome {
    /// A trial failed; the failure to report.
    Falsified(RunResult),
    /// All trials up to the cap passed.
    Exhausted,
    /// Another worker's failure was signalled before the cap was reached.
    Cancelled,
}

/// `p` can give the verdict `b` when handed `x`.
pub open spec fn verdict_on<T, P: Fn(&mut T) -> bool>(p: P, x: T, b: bool) -> bool {
    exists|m: &mut T| *m == x && #[trigger] p.ensures((m,), b)
}

/// The trials of one worker: trial `j` drew `xs[j]` at size `size_at(j)` and
/// the property gave `outs[j]` on it; every trial but the last passed.
pub open spec fn race_log<T: Arbitrary, P: Fn(&mut T) -> bool>(p: P, xs: Seq<T>, outs: Seq<bool>) -> bool {
    &&& xs.len() == outs.len()
    &&& forall|j: int| 0 <= j < xs.len() ==> #[trigger] xs[j].within_size(size_at(j))
    &&& forall|j: int| 0 <= j < xs.len() ==> verdict_on(p, xs[j], #[trigger] outs[j])
    &&& forall|j: int| 0 <= j < outs.len() - 1 ==> #[trigger] outs[j]
}

/// One racing worker: up to `cap` fresh inputs, drawn at the sizes
/// `log2(i + 1)`, checked against `property`; before each trial it asks
/// `cancelled` whether to give up. A failing input is shown as drawn, before
/// the property sees it.
pub fn race_worker<T: Arbitrary + Debug, P: Fn(&mut T) -> bool, S: Fn() -> bool>(
    property: &P,
    cap: u64,
    rng: &mut RandomSource,
    cancelled: &S,
) -> (r: RaceOutcome)
    requires
        forall|x: &mut T| property.requires((x,)),
        cancelled.requires(()),
    ensures
        exists|xs: Seq<T>, outs: Seq<bool>|
            {
                &&& #[trigger] race_log(*property, xs, outs)
                &&& outs.len() <= cap
                &&& match r {
                    RaceOutcome::Falsified(res) => {
                        &&& outs.len() == res.passed + 1
                        &&& !outs.last()
                        &&& res.discarded == 0
                        &&& res.status matches ResultStatus::Failed { arguments } && arguments@.len() == 1
                    },
                    RaceOutcome::Exhausted => outs.len() == cap && (cap == 0 || outs.last()),
                    RaceOutcome::Cancelled => (outs.len() == 0 || outs.last()) && cancelled.ensures(
                        (),
                        true,
                    ),
                }
            },
        (forall|x: &mut T, b: bool| property.ensures((x,), b) ==> b) ==> !(r is Falsified),
        (forall|x: &mut T, b: bool| property.ensures((x,), b) ==> !b) && cap > 0 ==> !(r is Exhausted),
{
    let mut i: u64 = 0;
    let ghost mut xs: Seq<T> = Seq::empty();
    let ghost mut outs: Seq<bool> = Seq::empty();
    while i < cap
        invariant
            forall|x: &mut T| property.requires((x,)),
            cancelled.requires(()),
            i <= cap,
            xs.len() == i,
            race_log(*property, xs, outs),
            forall|j: int| 0 <= j < outs.len() ==> #[trigger] outs[j],
            (forall|x: &mut T, b: bool| property.ensures((x,), b) ==> !b) ==> i == 0,
        decreases cap - i,
    {
        if cancelled() {
            return RaceOutcome::Cancelled;
        }
        let mut input = T::generate(rng, log2_floor(i + 1));
        let shown = describe(&input);
        let ghost drawn = input;
        let verdict = property(&mut input);
        proof {
            assert(verdict_on(*property, drawn, verdict));
            let xs2 = xs.push(drawn);
            let outs2 = outs.push(verdict);
            assert forall|j: int| 0 <= j < xs2.len() implies verdict_on(*property, xs2[j], #[trigger] outs2[j]) by {
                if j < xs.len() {
                    assert(xs2[j] == xs[j] && outs2[j] == outs[j]);
                }
            }
            assert forall|j: int| 0 <= j < xs2.len() implies #[trigger] xs2[j].within_size(size_at(j)) by {
                if j < xs.len() {
                    assert(xs2[j] == xs[j]);
                }
            }
            assert forall|j: int| 0 <= j < outs2.len() - 1 implies #[trigger] outs2[j] by {
                assert(outs2[j] == outs[j]);
            }
            xs = xs2;
            outs = outs2;
            assert(race_log(*property, xs, outs));
        }
        if !verdict {
            return RaceOutcome::Falsified(
                RunResult {
                    status: ResultStatus::Failed { arguments: vec![shown] },
                    passed: i,
                    discarded: 0,
                },
            );
        }
        i = i + 1;
    }
    RaceOutcome::Exhausted
}

/// The verdict of a race whose workers ended with `outcomes`: the failure
/// of the first worker that falsified the property, or else `Finished` with
/// `cap` passes.
pub open spec fn settle(outcomes: Seq<RaceOutcome>, cap: u64) -> RunResult
    decreases outcomes.len(),
{
    if outcomes.len() == 0 {
        RunResult { status: ResultStatus::Finished, passed: cap, discarded: 0 }
    } else {
        match outcomes[0] {
            RaceOutcome::Falsified(res) => res,
            _ => settle(outcomes.drop_first(), cap),
        }
    }
}

/// A race reports `Failed` when every worker either falsified the property
/// or was cancelled and at least one falsified it; it reports `Finished`
/// with `passed == cap` when no worker falsified it.
pub proof fn lemma_race_settles(outcomes: Seq<RaceOutcome>, cap: u64)
    requires
        forall|i: int|
            0 <= i < outcomes.len() ==> (#[trigger] outcomes[i] matches RaceOutcome::Falsified(res)
                ==> res.status is Failed),
    ensures
        (exists|i: int| 0 <= i < outcomes.len() && #[trigger] outcomes[i] is Falsified) ==> settle(
            outcomes,
            cap,
        ).status is Failed,
        (forall|i: int| 0 <= i < outcomes.len() ==> !(#[trigger] outcomes[i] is Falsified)) ==> settle(
            outcomes,
            cap,
        ) == (RunResult { status: ResultStatus::Finished, passed: cap, discarded: 0 }),
    decreases outcomes.len(),
{
    if outcomes.len() > 0 {
        let rest = outcomes.drop_first();
        assert forall|i: int| 0 <= i < rest.len() implies (#[trigger] rest[i] matches RaceOutcome::Falsified(res)
            ==> res.status is Failed) by {
            assert(rest[i] == outcomes[i + 1]);
        }
        lemma_race_settles(rest, cap);
        if !(outcomes[0] is Falsified) {
            if exists|i: int| 0 <= i < outcomes.len() && #[trigger] outcomes[i] is Falsified {
                let i = choose|i: int| 0 <= i < outcomes.len() && #[trigger] outcomes[i] is Falsified;
                assert(rest[i - 1] == outcomes[i]);
            }
            if forall|i: int| 0 <= i < outcomes.len() ==> !(#[trigger] outcomes[i] is Falsified) {
                assert forall|i: int| 0 <= i < rest.len() implies !(#[trigger] rest[i] is Falsified) by {
                    assert(rest[i] == outcomes[i + 1]);
                }
            }
        }
    }
}

/// The verdict of a race whose workers ended with `outcomes`.
pub fn settle_race(outcomes: Vec<RaceOutcome>, cap: u64) -> (r: RunResult)
    ensures
        r == settle(outcomes@, cap),
{
    let ghost all = outcomes@;
    let mut rest = outcomes;
    while rest.len() > 0
        invariant
            all == outcomes@,
            settle(all, cap) == settle(rest@, cap),
        decreases rest@.len(),
    {
        let ghost before = rest@;
        let first = rest.remove(0);
        proof {
            assert(before[0] == first);
            assert(rest@ =~= before.drop_first());
        }
        match first {
            RaceOutcome::Falsified(res) => {
                proof {
                    assert(settle(before, cap) == res);
                }
                return res;
            },
            _ => {},
        }
    }
    RunResult { status: ResultStatus::Finished, passed: cap, discarded: 0 }
}

} // verus!
