use crate::random::RandomSource;
use core::fmt::Debug;
use vstd::arithmetic::power2::{lemma2_to64, lemma_pow2_unfold, pow2};
use vstd::prelude::*;

verus! {

/// Values that can be drawn at random; `n` bounds their magnitude.
pub trait Arbitrary: Sized {
    /// `self` is a value that generation at size `n` may produce.
    spec fn within_size(&self, n: nat) -> bool;

    fn generate(rng: &mut RandomSource, n: usize) -> (r: Self)
        ensures
            r.within_size(n as nat),
    ;
}

/// Values that can be perturbed locally, keeping their overall shape.
pub trait Mutate: Sized {
    /// `self` is a value that mutating `parent` at size `n` may produce.
    spec fn mutation_of(&self, parent: &Self, n: nat) -> bool;

    fn mutate(&self, rng: &mut RandomSource, n: usize) -> (r: Self)
        ensures
            r.mutation_of(self, n as nat),
    ;
}

/// The largest `i32` magnitude that size `n` allows.
pub open spec fn i32_bound(n: nat) -> int {
    if n > i32::MAX {
        i32::MAX as int
    } else {
        n as int
    }
}

impl Arbitrary for i32 {
    open spec fn within_size(&self, n: nat) -> bool {
        -i32_bound(n) <= *self <= i32_bound(n)
    }

    fn generate(rng: &mut RandomSource, n: usize) -> (r: i32) {
        let b: usize = if n > 2147483647 {
            2147483647
        } else {
            n
        };
        let k = rng.usize_between(0, b + b);
        (k as i64 - b as i64) as i32
    }
}

impl Mutate for i32 {
    open spec fn mutation_of(&self, parent: &Self, n: nat) -> bool {
        *parent - 10 <= *self <= *parent + 9
    }

    fn mutate(&self, rng: &mut RandomSource, n: usize) -> (r: i32) {
        let lo: i64 = if *self < -2147483638 {
            -2147483648
        } else {
            *self as i64 - 10
        };
        let hi: i64 = if *self > 2147483638 {
            2147483647
        } else {
            *self as i64 + 9
        };
        let k = rng.usize_between(0, (hi - lo) as usize);
        (lo + k as i64) as i32
    }
}

impl Arbitrary for usize {
    open spec fn within_size(&self, n: nat) -> bool {
        *self <= n
    }

    fn generate(rng: &mut RandomSource, n: usize) -> (r: usize) {
        rng.usize_between(0, n)
    }
}

impl Mutate for usize {
    open spec fn mutation_of(&self, parent: &Self, n: nat) -> bool {
        *parent - 10 <= *self <= *parent + 10
    }

    fn mutate(&self, rng: &mut RandomSource, n: usize) -> (r: usize) {
        let lo: usize = if *self < 10 {
            0
        } else {
            *self - 10
        };
        let hi: usize = if *self > usize::MAX - 10 {
            usize::MAX
        } else {
            *self + 10
        };
        rng.usize_between(lo, hi)
    }
}

impl<T: Arbitrary> Arbitrary for Vec<T> {
    open spec fn within_size(&self, n: nat) -> bool {
        &&& self@.len() == n
        &&& forall|i: int| 0 <= i < self@.len() ==> #[trigger] self@[i].within_size(n)
    }

    fn generate(rng: &mut RandomSource, n: usize) -> (r: Vec<T>) {
        let mut list: Vec<T> = Vec::with_capacity(n);
        let mut i: usize = 0;
        while i < n
            invariant
                i <= n,
                list@.len() == i,
                forall|j: int| 0 <= j < i ==> #[trigger] list@[j].within_size(n as nat),
            decreases n - i,
        {
            list.push(T::generate(rng, n));
            i = i + 1;
        }
        list
    }
}

/// `mutated` agrees with `parent` (up to cloning) outside positions
/// `a..b`, and holds freshly generated values of size `n` inside them.
pub open spec fn regenerated_between<T: Arbitrary + Clone>(
    parent: Seq<T>,
    mutated: Seq<T>,
    a: int,
    b: int,
    n: nat,
) -> bool {
    &&& 0 <= a <= b <= parent.len()
    &&& mutated.len() == parent.len()
    &&& forall|i: int|
        0 <= i < parent.len() && !(a <= i < b) ==> cloned(parent[i], #[trigger] mutated[i])
    &&& forall|i: int| a <= i < b ==> #[trigger] mutated[i].within_size(n)
}

impl<T: Arbitrary + Clone> Mutate for Vec<T> {
    open spec fn mutation_of(&self, parent: &Self, n: nat) -> bool {
        exists|a: int, b: int| regenerated_between(parent@, self@, a, b, n)
    }

    fn mutate(&self, rng: &mut RandomSource, n: usize) -> (r: Vec<T>) {
        let mut copy = self.clone();
        let a = rng.usize_between(0, self.len());
        let b = rng.usize_between(a, self.len());
        let mut i: usize = a;
        while i < b
            invariant
                a <= i <= b <= self@.len(),
                copy@.len() == self@.len(),
                forall|j: int|
                    0 <= j < self@.len() && !(a <= j < i) ==> cloned(self@[j], #[trigger] copy@[j]),
                forall|j: int| a <= j < i ==> #[trigger] copy@[j].within_size(n as nat),
            decreases b - i,
        {
            let fresh = T::generate(rng, n);
            copy.set(i, fresh);
            i = i + 1;
        }
        proof {
            assert(regenerated_between(self@, copy@, a as int, b as int, n as nat));
        }
        copy
    }
}

impl<T1: Arbitrary, T2: Arbitrary> Arbitrary for (T1, T2) {
    open spec fn within_size(&self, n: nat) -> bool {
        self.0.within_size(n) && self.1.within_size(n)
    }

    fn generate(rng: &mut RandomSource, n: usize) -> (r: (T1, T2)) {
        let r1 = T1::generate(rng, n);
        let r2 = T2::generate(rng, n);
        (r1, r2)
    }
}

impl<T1: Arbitrary, T2: Arbitrary, T3: Arbitrary> Arbitrary for (T1, T2, T3) {
    open spec fn within_size(&self, n: nat) -> bool {
        self.0.within_size(n) && self.1.within_size(n) && self.2.within_size(n)
    }

    fn generate(rng: &mut RandomSource, n: usize) -> (r: (T1, T2, T3)) {
        let r1 = T1::generate(rng, n);
        let r2 = T2::generate(rng, n);
        let r3 = T3::generate(rng, n);
        (r1, r2, r3)
    }
}

impl<T1: Arbitrary, T2: Arbitrary, T3: Arbitrary, T4: Arbitrary> Arbitrary for (T1, T2, T3, T4) {
    open spec fn within_size(&self, n: nat) -> bool {
        self.0.within_size(n) && self.1.within_size(n) && self.2.within_size(n) && self.3.within_size(n)
    }

    fn generate(rng: &mut RandomSource, n: usize) -> (r: (T1, T2, T3, T4)) {
        let r1 = T1::generate(rng, n);
        let r2 = T2::generate(rng, n);
        let r3 = T3::generate(rng, n);
        let r4 = T4::generate(rng, n);
        (r1, r2, r3, r4)
    }
}

impl<T1: Arbitrary, T2: Arbitrary, T3: Arbitrary, T4: Arbitrary, T5: Arbitrary> Arbitrary for (T1, T2, T3, T4, T5) {
    open spec fn within_size(&self, n: nat) -> bool {
        self.0.within_size(n) && self.1.within_size(n) && self.2.within_size(n) && self.3.within_size(n) && self.4.within_size(n)
    }

    fn generate(rng: &mut RandomSource, n: usize) -> (r: (T1, T2, T3, T4, T5)) {
        let r1 = T1::generate(rng, n);
        let r2 = T2::generate(rng, n);
        let r3 = T3::generate(rng, n);
        let r4 = T4::generate(rng, n);
        let r5 = T5::generate(rng, n);
        (r1, r2, r3, r4, r5)
    }
}

impl<T1: Mutate, T2: Mutate> Mutate for (T1, T2) {
    open spec fn mutation_of(&self, parent: &Self, n: nat) -> bool {
        self.0.mutation_of(&parent.0, n) && self.1.mutation_of(&parent.1, n)
    }

    fn mutate(&self, rng: &mut RandomSource, n: usize) -> (r: (T1, T2)) {
        let r1 = T1::mutate(&self.0, rng, n);
        let r2 = T2::mutate(&self.1, rng, n);
        (r1, r2)
    }
}

impl<T1: Mutate, T2: Mutate, T3: Mutate> Mutate for (T1, T2, T3) {
    open spec fn mutation_of(&self, parent: &Self, n: nat) -> bool {
        self.0.mutation_of(&parent.0, n) && self.1.mutation_of(&parent.1, n) && self.2.mutation_of(&parent.2, n)
    }

    fn mutate(&self, rng: &mut RandomSource, n: usize) -> (r: (T1, T2, T3)) {
        let r1 = T1::mutate(&self.0, rng, n);
        let r2 = T2::mutate(&self.1, rng, n);
        let r3 = T3::mutate(&self.2, rng, n);
        (r1, r2, r3)
    }
}

impl<T1: Mutate, T2: Mutate, T3: Mutate, T4: Mutate> Mutate for (T1, T2, T3, T4) {
    open spec fn mutation_of(&self, parent: &Self, n: nat) -> bool {
        self.0.mutation_of(&parent.0, n) && self.1.mutation_of(&parent.1, n) && self.2.mutation_of(&parent.2, n) && self.3.mutation_of(&parent.3, n)
    }

    fn mutate(&self, rng: &mut RandomSource, n: usize) -> (r: (T1, T2, T3, T4)) {
        let r1 = T1::mutate(&self.0, rng, n);
        let r2 = T2::mutate(&self.1, rng, n);
        let r3 = T3::mutate(&self.2, rng, n);
        let r4 = T4::mutate(&self.3, rng, n);
        (r1, r2, r3, r4)
    }
}

impl<T1: Mutate, T2: Mutate, T3: Mutate, T4: Mutate, T5: Mutate> Mutate for (T1, T2, T3, T4, T5) {
    open spec fn mutation_of(&self, parent: &Self, n: nat) -> bool {
        self.0.mutation_of(&parent.0, n) && self.1.mutation_of(&parent.1, n) && self.2.mutation_of(&parent.2, n) && self.3.mutation_of(&parent.3, n) && self.4.mutation_of(&parent.4, n)
    }

    fn mutate(&self, rng: &mut RandomSource, n: usize) -> (r: (T1, T2, T3, T4, T5)) {
        let r1 = T1::mutate(&self.0, rng, n);
        let r2 = T2::mutate(&self.1, rng, n);
        let r3 = T3::mutate(&self.2, rng, n);
        let r4 = T4::mutate(&self.3, rng, n);
        let r5 = T5::mutate(&self.4, rng, n);
        (r1, r2, r3, r4, r5)
    }
}

/// How a run of trials ended.
#[derive(Clone, Debug, PartialEq)]
pub enum ResultStatus {
    /// Every trial ran without a failure.
    Finished,
    /// Too many trials were discarded.
    GaveUp,
    /// The time limit ran out.
    TimedOut,
    /// A trial failed; the offending input is shown.
    Failed { arguments: Vec<String> },
    /// The run stopped on an internal error.
    Aborted { error: String },
}

/// The record of one run: how it ended and how many trials passed or were
/// discarded.
#[derive(Clone, Debug, PartialEq)]
pub struct RunResult {
    pub status: ResultStatus,
    /// The number of trials that passed.
    pub passed: u64,
    /// The number of trials that were discarded.
    pub discarded: u64,
}

/// Three-valued implication: a false or discarded antecedent discards the
/// trial; a true one yields the consequent.
pub open spec fn implication(a: Option<bool>, b: Option<bool>) -> Option<bool> {
    if a == Some(true) {
        b
    } else {
        None
    }
}

/// The truth table of implication: a false antecedent discards whatever the
/// consequent, a true one passes the consequent on, and a discarded one acts
/// as a false one.
pub proof fn lemma_implication_table(x: Option<bool>)
    ensures
        implication(Some(false), x) == None::<bool>,
        implication(Some(true), x) == x,
        implication(None, x) == implication(Some(false), x),
{
}

pub trait Implies<T> {
    fn implies(self, other: T) -> Option<bool>;
}

impl Implies<bool> for bool {
    fn implies(self, other: bool) -> (r: Option<bool>)
        ensures
            r == implication(Some(self), Some(other)),
    {
        if self {
            Some(other)
        } else {
            None
        }
    }
}

impl Implies<bool> for Option<bool> {
    fn implies(self, other: bool) -> (r: Option<bool>)
        ensures
            r == implication(self, Some(other)),
    {
        match self {
            Some(true) => Some(other),
            _ => None,
        }
    }
}

impl Implies<Option<bool>> for bool {
    fn implies(self, other: Option<bool>) -> (r: Option<bool>)
        ensures
            r == implication(Some(self), other),
    {
        if self {
            other
        } else {
            None
        }
    }
}

impl Implies<Option<bool>> for Option<bool> {
    fn implies(self, other: Option<bool>) -> (r: Option<bool>)
        ensures
            r == implication(self, other),
    {
        match self {
            Some(true) => other,
            _ => None,
        }
    }
}

/// Floor of the base-2 logarithm, with 0 and 1 both mapped to 0.
pub open spec fn log2(n: nat) -> nat
    decreases n,
{
    if n <= 1 {
        0
    } else {
        1 + log2(n / 2)
    }
}

proof fn lemma_log2_below(n: nat, k: nat)
    requires
        1 <= n < pow2(k),
    ensures
        log2(n) < k,
    decreases n,
{
    lemma2_to64();
    if k == 0 {
        assert(false);
    }
    lemma_pow2_unfold(k);
    if n >= 2 {
        lemma_log2_below(n / 2, (k - 1) as nat);
    }
}

/// The size of the generation schedule at position `n` (counting from 1).
pub fn log2_floor(n: u64) -> (r: usize)
    ensures
        r == log2(n as nat),
{
    let mut m: u64 = n;
    let mut r: usize = 0;
    proof {
        lemma2_to64();
        if n >= 1 {
            lemma_log2_below(n as nat, 64);
        }
    }
    while m > 1
        invariant
            r + log2(m as nat) == log2(n as nat),
            log2(n as nat) < 64,
        decreases m,
    {
        m = m / 2;
        r = r + 1;
    }
    r
}

/// The generation size of trial `i` (counting from 0): `log2(i + 1)`.
pub open spec fn size_at(i: int) -> nat {
    log2((i + 1) as nat)
}

pub open spec fn count_passed(outs: Seq<Option<bool>>) -> nat
    decreases outs.len(),
{
    if outs.len() == 0 {
        0
    } else {
        count_passed(outs.drop_last()) + if outs.last() == Some(true) {
            1nat
        } else {
            0nat
        }
    }
}

pub open spec fn count_discarded(outs: Seq<Option<bool>>) -> nat
    decreases outs.len(),
{
    if outs.len() == 0 {
        0
    } else {
        count_discarded(outs.drop_last()) + if outs.last() is None {
            1nat
        } else {
            0nat
        }
    }
}

/// `r` is what a run of at most `trials` trials of `property` reports when
/// its `i`-th trial drew `xs[i]` at size `size_at(i)` and the property gave
/// `outs[i]` on it.
pub open spec fn trial_log<T: Arbitrary, P: Fn(T) -> Option<bool>>(
    property: P,
    trials: u64,
    xs: Seq<T>,
    outs: Seq<Option<bool>>,
    r: RunResult,
) -> bool {
    &&& xs.len() == outs.len() <= trials
    &&& forall|i: int| 0 <= i < xs.len() ==> #[trigger] xs[i].within_size(size_at(i))
    &&& forall|i: int| 0 <= i < xs.len() ==> property.ensures((xs[i],), #[trigger] outs[i])
    &&& forall|i: int| 0 <= i < outs.len() - 1 ==> #[trigger] outs[i] != Some(false)
    &&& r.passed == count_passed(outs)
    &&& r.discarded == count_discarded(outs)
    &&& match r.status {
        ResultStatus::Finished => outs.len() == trials && (outs.len() == 0 || outs.last() != Some(
            false,
        )),
        ResultStatus::Failed { arguments } => outs.len() > 0 && outs.last() == Some(false)
            && arguments@.len() == 1,
        _ => false,
    }
}

/// A reported failure reproduces: when the property computes a function `p`
/// of its input, `p` is false on the last input of a failed run.
pub proof fn lemma_failure_reproduces<T: Arbitrary, P: Fn(T) -> Option<bool>>(
    property: P,
    p: spec_fn(T) -> Option<bool>,
    trials: u64,
    xs: Seq<T>,
    outs: Seq<Option<bool>>,
    r: RunResult,
)
    requires
        forall|x: T, o: Option<bool>| property.ensures((x,), o) ==> o == p(x),
        trial_log(property, trials, xs, outs, r),
        r.status is Failed,
    ensures
        p(xs.last()) == Some(false),
{
    assert(property.ensures((xs[xs.len() - 1],), outs[outs.len() - 1]));
}

/// Relies on `Debug` formatting (`format!("{:?}", ..)`): the text shown for a
/// failing input.
#[verifier::external_body]
pub(crate) fn describe<T: Debug>(x: &T) -> (r: String) {
    format!("{:?}", x)
}

/// Runs up to `trials` trials of `property` on inputs drawn at the sizes
/// `log2(i + 1)`, stopping at the first failure; also hands back a copy of
/// the failing input.
pub fn find_failure<T: Arbitrary + Clone + Debug, P: Fn(T) -> Option<bool>>(
    property: &P,
    trials: u64,
    rng: &mut RandomSource,
) -> (r: (RunResult, Option<T>))
    requires
        forall|x: T| property.requires((x,)),
    ensures
        exists|xs: Seq<T>, outs: Seq<Option<bool>>|
            {
                &&& trial_log(*property, trials, xs, outs, r.0)
                &&& r.1 matches Some(w) ==> cloned(xs.last(), w)
            },
        r.1 is Some <==> r.0.status is Failed,
        (forall|x: T, o: Option<bool>| property.ensures((x,), o) ==> o == Some(true)) ==> r.0
            == (RunResult { status: ResultStatus::Finished, passed: trials, discarded: 0 }),
{
    let mut passed: u64 = 0;
    let mut discarded: u64 = 0;
    let ghost mut xs: Seq<T> = Seq::empty();
    let ghost mut outs: Seq<Option<bool>> = Seq::empty();
    let mut i: u64 = 0;
    while i < trials
        invariant
            i <= trials,
            forall|x: T| property.requires((x,)),
            xs.len() == i,
            outs.len() == i,
            forall|j: int| 0 <= j < xs.len() ==> #[trigger] xs[j].within_size(size_at(j)),
            forall|j: int| 0 <= j < xs.len() ==> property.ensures((xs[j],), #[trigger] outs[j]),
            forall|j: int| 0 <= j < outs.len() ==> #[trigger] outs[j] != Some(false),
            passed == count_passed(outs),
            discarded == count_discarded(outs),
            passed + discarded == i,
            (forall|x: T, o: Option<bool>| property.ensures((x,), o) ==> o == Some(true)) ==> (
            passed == i && discarded == 0),
        decreases trials - i,
    {
        let size = log2_floor(i + 1);
        let input = T::generate(rng, size);
        let kept = input.clone();
        proof {
            xs = xs.push(input);
        }
        let outcome = property(input);
        proof {
            assert(outs.push(outcome).drop_last() =~= outs);
            outs = outs.push(outcome);
        }
        match outcome {
            None => {
                discarded = discarded + 1;
            },
            Some(true) => {
                passed = passed + 1;
            },
            Some(false) => {
                let r = RunResult {
                    status: ResultStatus::Failed { arguments: vec![describe(&kept)] },
                    passed,
                    discarded,
                };
                proof {
                    assert(trial_log(*property, trials, xs, outs, r));
                    assert(cloned(xs.last(), kept));
                }
                return (r, Some(kept));
            },
        }
        i = i + 1;
    }
    let r = RunResult { status: ResultStatus::Finished, passed, discarded };
    proof {
        assert(trial_log(*property, trials, xs, outs, r));
    }
    (r, None)
}

/// Runs up to `trials` trials of `property` on inputs drawn at the sizes
/// `log2(i + 1)`, stopping at the first failure.
pub fn evaluate<T: Arbitrary + Clone + Debug, P: Fn(T) -> Option<bool>>(
    property: &P,
    trials: u64,
    rng: &mut RandomSource,
) -> (r: RunResult)
    requires
        forall|x: T| property.requires((x,)),
    ensures
        exists|xs: Seq<T>, outs: Seq<Option<bool>>| trial_log(*property, trials, xs, outs, r),
        (forall|x: T, o: Option<bool>| property.ensures((x,), o) ==> o == Some(true)) ==> r
            == (RunResult { status: ResultStatus::Finished, passed: trials, discarded: 0 }),
{
    find_failure(property, trials, rng).0
}

/// The number of trials that `quickcheck` runs.
pub const DEFAULT_TRIALS: u64 = 100;

/// Evaluates `property` over `DEFAULT_TRIALS` trials with a fresh random source.
pub fn quickcheck<T: Arbitrary + Clone + Debug, P: Fn(T) -> Option<bool>>(property: P) -> (r: RunResult)
    requires
        forall|x: T| property.requires((x,)),
    ensures
        exists|xs: Seq<T>, outs: Seq<Option<bool>>|
            trial_log(property, DEFAULT_TRIALS, xs, outs, r),
        (forall|x: T, o: Option<bool>| property.ensures((x,), o) ==> o == Some(true)) ==> r
            == (RunResult { status: ResultStatus::Finished, passed: DEFAULT_TRIALS, discarded: 0 }),
{
    let mut rng = RandomSource::new();
    evaluate(&property, DEFAULT_TRIALS, &mut rng)
}

} // verus!
