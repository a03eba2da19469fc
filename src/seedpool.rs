use core::cmp::Ordering;
use vstd::laws_cmp::{
    obeys_cmp, obeys_cmp_ord, obeys_cmp_partial_ord, obeys_partial_cmp_spec_properties,
};
use vstd::laws_eq::obeys_concrete_eq;
use vstd::prelude::*;
use vstd::std_specs::cmp::{OrdSpec, PartialEqSpec, PartialOrdSpec};

verus! {

/// An input together with the feedback it earned and the number of further
/// draws it may still serve.
#[derive(Clone, Debug)]
pub struct Seed<T: Clone, F: Copy + Ord> {
    pub input: T,
    pub feedback: F,
    pub energy: usize,
}

/// `a` ranks strictly above `b` in the feedback order.
pub open spec fn greater<F: PartialOrd>(a: F, b: F) -> bool {
    a.partial_cmp_spec(&b) == Some(Ordering::Greater)
}

/// The facts of a lawful `Ord` that the pool relies on: comparisons follow
/// the spec order, which is irreflexive and transitive.
pub proof fn lemma_strict_order<F: Ord>()
    requires
        obeys_cmp::<F>(),
    ensures
        F::obeys_partial_cmp_spec(),
        forall|a: F| !#[trigger] greater(a, a),
        forall|a: F, b: F, c: F| #[trigger] greater(a, b) && #[trigger] greater(b, c) ==> greater(a, c),
{
    reveal(obeys_cmp_partial_ord);
    reveal(obeys_partial_cmp_spec_properties);
    assert forall|a: F| !#[trigger] greater(a, a) by {
        if greater(a, a) {
            assert(a.partial_cmp_spec(&a) == Some(Ordering::Less));
        }
    }
}

/// With an order that is total and whose equality is spec equality, "not
/// above" is transitive.
pub proof fn lemma_not_above_transitive<F: Ord>()
    requires
        obeys_cmp::<F>(),
        obeys_concrete_eq::<F>(),
    ensures
        forall|a: F, b: F, c: F| !#[trigger] greater(a, b) && !#[trigger] greater(b, c) ==> !greater(a, c),
{
    lemma_strict_order::<F>();
    reveal(obeys_cmp_partial_ord);
    reveal(obeys_partial_cmp_spec_properties);
    reveal(obeys_cmp_ord);
    reveal(obeys_concrete_eq);
    assert forall|a: F, b: F, c: F| !#[trigger] greater(a, b) && !#[trigger] greater(b, c) implies !greater(a, c) by {
        if greater(a, c) {
            assert(b.partial_cmp_spec(&c) == Some(b.cmp_spec(&c)));
            if b.partial_cmp_spec(&c) == Some(Ordering::Less) {
                assert(greater(c, b));
            } else {
                assert(b.eq_spec(&c));
                assert(b == c);
            }
        }
    }
}

impl<T: Clone, F: Copy + Ord> Seed<T, F> {
    /// `other` carries this seed's feedback and energy and a clone of its input.
    pub open spec fn same_as(self, other: Self) -> bool {
        &&& other.feedback == self.feedback
        &&& other.energy == self.energy
        &&& cloned(self.input, other.input)
    }

    /// An independent copy of the seed.
    pub fn duplicate(&self) -> (r: Self)
        ensures
            self.same_as(r),
    {
        Seed { input: self.input.clone(), feedback: self.feedback, energy: self.energy }
    }
}

/// Position `i` holds a seed whose feedback no other seed exceeds.
pub open spec fn is_top<T: Clone, F: Copy + Ord>(seeds: Seq<Seed<T, F>>, i: int) -> bool {
    &&& 0 <= i < seeds.len()
    &&& forall|j: int| 0 <= j < seeds.len() ==> !greater(#[trigger] seeds[j].feedback, seeds[i].feedback)
}

/// Position `i` holds a seed whose feedback exceeds no other seed's.
pub open spec fn is_bottom<T: Clone, F: Copy + Ord>(seeds: Seq<Seed<T, F>>, i: int) -> bool {
    &&& 0 <= i < seeds.len()
    &&& forall|j: int| 0 <= j < seeds.len() ==> !greater(seeds[i].feedback, #[trigger] seeds[j].feedback)
}

/// The live seeds after the seed at `i` has been drawn once: one unit of
/// energy is spent, or the seed leaves when none was left.
pub open spec fn drawn<T: Clone, F: Copy + Ord>(seeds: Seq<Seed<T, F>>, i: int) -> Seq<Seed<T, F>> {
    let s = seeds[i];
    if s.energy > 0 {
        seeds.update(i, Seed { input: s.input, feedback: s.feedback, energy: (s.energy - 1) as usize })
    } else {
        seeds.remove(i)
    }
}

/// The champion's feedback once a seed with feedback `f` has been added.
pub open spec fn champion_step<F: PartialOrd>(prev: Option<F>, f: F) -> Option<F> {
    match prev {
        None => Some(f),
        Some(b) => if greater(f, b) {
            Some(f)
        } else {
            Some(b)
        },
    }
}

/// Drawing keeps every remaining seed's input and feedback among those of
/// the seeds before the draw.
pub proof fn lemma_drawn_feedbacks<T: Clone, F: Copy + Ord>(seeds: Seq<Seed<T, F>>, i: int)
    requires
        0 <= i < seeds.len(),
    ensures
        forall|k: int| 0 <= k < drawn(seeds, i).len() ==> exists|m: int|
            0 <= m < seeds.len() && #[trigger] drawn(seeds, i)[k].feedback == seeds[m].feedback
                && drawn(seeds, i)[k].input == seeds[m].input,
{
    let d = drawn(seeds, i);
    assert forall|k: int| 0 <= k < d.len() implies exists|m: int|
        0 <= m < seeds.len() && #[trigger] d[k].feedback == seeds[m].feedback && d[k].input
            == seeds[m].input by {
        if seeds[i].energy > 0 {
            assert(d[k].feedback == seeds[k].feedback && d[k].input == seeds[k].input);
        } else if k < i {
            assert(d[k].feedback == seeds[k].feedback && d[k].input == seeds[k].input);
        } else {
            assert(d[k].feedback == seeds[k + 1].feedback && d[k].input == seeds[k + 1].input);
        }
    }
}

/// The champion's feedback after seeds with feedbacks `fs` were added, in
/// order, to a fresh pool.
pub open spec fn champion_after<F: PartialOrd>(fs: Seq<F>) -> Option<F>
    decreases fs.len(),
{
    if fs.len() == 0 {
        None
    } else {
        champion_step(champion_after(fs.drop_last()), fs.last())
    }
}

/// After any non-empty run of additions the champion's feedback is the
/// maximum of the feedbacks added so far: it is one of them, and none of them
/// exceeds it.
pub proof fn lemma_champion_is_maximum<F: Ord>(fs: Seq<F>)
    requires
        obeys_cmp::<F>(),
        fs.len() > 0,
    ensures
        champion_after(fs) matches Some(c) && fs.contains(c) && forall|j: int|
            0 <= j < fs.len() ==> !greater(#[trigger] fs[j], c),
    decreases fs.len(),
{
    lemma_strict_order::<F>();
    let init = fs.drop_last();
    let f = fs.last();
    if init.len() == 0 {
        assert(fs[0] == f);
        assert(fs.contains(f));
    } else {
        lemma_champion_is_maximum(init);
        let b = champion_after(init)->0;
        let j0 = choose|j0: int| 0 <= j0 < init.len() && init[j0] == b;
        assert(fs[j0] == b);
        if greater(f, b) {
            assert(fs[fs.len() - 1] == f);
            assert forall|j: int| 0 <= j < fs.len() implies !greater(#[trigger] fs[j], f) by {
                if j < fs.len() - 1 {
                    assert(fs[j] == init[j]);
                    if greater(fs[j], f) {
                        assert(greater(fs[j], b));
                    }
                }
            }
        } else {
            assert forall|j: int| 0 <= j < fs.len() implies !greater(#[trigger] fs[j], b) by {
                if j < fs.len() - 1 {
                    assert(fs[j] == init[j]);
                }
            }
        }
    }
}

/// The champion's feedback after a run of operations on a fresh pool, where
/// `Some(f)` adds a seed with feedback `f` and `None` draws a seed (which
/// leaves the champion as it is).
pub open spec fn champion_after_ops<F: PartialOrd>(ops: Seq<Option<F>>) -> Option<F>
    decreases ops.len(),
{
    if ops.len() == 0 {
        None
    } else {
        match ops.last() {
            Some(f) => champion_step(champion_after_ops(ops.drop_last()), f),
            None => champion_after_ops(ops.drop_last()),
        }
    }
}

/// The feedbacks added by a run of operations, in order.
pub open spec fn added_feedbacks<F>(ops: Seq<Option<F>>) -> Seq<F>
    decreases ops.len(),
{
    if ops.len() == 0 {
        Seq::empty()
    } else {
        match ops.last() {
            Some(f) => added_feedbacks(ops.drop_last()).push(f),
            None => added_feedbacks(ops.drop_last()),
        }
    }
}

/// Draws interleaved with additions do not change the champion: after any
/// run of operations with at least one addition, the champion's feedback is
/// the maximum of the feedbacks added so far.
pub proof fn lemma_champion_with_draws<F: Ord>(ops: Seq<Option<F>>)
    requires
        obeys_cmp::<F>(),
    ensures
        champion_after_ops(ops) == champion_after(added_feedbacks(ops)),
        added_feedbacks(ops).len() > 0 ==> (champion_after_ops(ops) matches Some(c)
            && added_feedbacks(ops).contains(c) && forall|j: int|
            0 <= j < added_feedbacks(ops).len() ==> !greater(#[trigger] added_feedbacks(ops)[j], c)),
    decreases ops.len(),
{
    if ops.len() > 0 {
        lemma_champion_with_draws(ops.drop_last());
        if let Some(f) = ops.last() {
            assert(added_feedbacks(ops).drop_last() =~= added_feedbacks(ops.drop_last()));
        }
    }
    if added_feedbacks(ops).len() > 0 {
        lemma_champion_is_maximum(added_feedbacks(ops));
    }
}

/// The live seeds after `k` draws from a pool whose only seed is `s`.
pub open spec fn drawn_alone<T: Clone, F: Copy + Ord>(s: Seed<T, F>, k: nat) -> Seq<Seed<T, F>>
    decreases k,
{
    if k == 0 {
        seq![s]
    } else {
        let prev = drawn_alone(s, (k - 1) as nat);
        if prev.len() == 0 {
            prev
        } else {
            drawn(prev, 0)
        }
    }
}

/// A seed inserted with energy `E` serves exactly `E + 1` draws: after each
/// of the first `E + 1` draws taken from it, and only after the last, it has
/// left the pool.
pub proof fn lemma_energy_serves_draws<T: Clone, F: Copy + Ord>(s: Seed<T, F>, k: nat)
    requires
        k <= s.energy + 1,
    ensures
        k <= s.energy ==> drawn_alone(s, k) == seq![
            Seed { input: s.input, feedback: s.feedback, energy: (s.energy - k) as usize },
        ],
        k == s.energy + 1 ==> drawn_alone(s, k).len() == 0,
    decreases k,
{
    if k > 0 {
        lemma_energy_serves_draws(s, (k - 1) as nat);
        let prev = drawn_alone(s, (k - 1) as nat);
        if k <= s.energy {
            assert(drawn(prev, 0) =~= seq![
                Seed { input: s.input, feedback: s.feedback, energy: (s.energy - k) as usize },
            ]);
        } else {
            assert(drawn(prev, 0) =~= Seq::<Seed<T, F>>::empty());
        }
    } else {
        assert(drawn_alone(s, 0) == seq![
            Seed { input: s.input, feedback: s.feedback, energy: s.energy },
        ]);
    }
}

/// The live seeds, and the best seed ever added, which outlives its live entry.
pub struct SeedPool<T: Clone, F: Copy + Ord> {
    pub seeds: Vec<Seed<T, F>>,
    pub best_of_all_time: Option<Seed<T, F>>,
}

impl<T: Clone, F: Copy + Ord> SeedPool<T, F> {
    /// The feedback of the best seed ever added, if any was.
    pub open spec fn champion_feedback(self) -> Option<F> {
        match self.best_of_all_time {
            None => None,
            Some(s) => Some(s.feedback),
        }
    }

    pub fn new() -> (r: SeedPool<T, F>)
        ensures
            r.seeds@.len() == 0,
            r.best_of_all_time is None,
    {
        SeedPool { seeds: Vec::new(), best_of_all_time: None }
    }

    /// Adds a live seed; a copy of it becomes the champion when there is none
    /// yet or its feedback is strictly greater.
    pub fn add_seed(&mut self, seed: Seed<T, F>)
        requires
            obeys_cmp::<F>(),
        ensures
            final(self).seeds@ == old(self).seeds@.push(seed),
            final(self).champion_feedback() == champion_step(
                old(self).champion_feedback(),
                seed.feedback,
            ),
            match old(self).best_of_all_time {
                Some(b) if !greater(seed.feedback, b.feedback) => final(self).best_of_all_time
                    == old(self).best_of_all_time,
                _ => final(self).best_of_all_time matches Some(c) && seed.same_as(c),
            },
    {
        proof {
            lemma_strict_order::<F>();
        }
        let replace = match &self.best_of_all_time {
            Some(best) => seed.feedback > best.feedback,
            None => true,
        };
        if replace {
            self.best_of_all_time = Some(seed.duplicate());
        }
        self.seeds.push(seed);
    }

    /// Position of a live seed of maximal feedback.
    fn top_index(&self) -> (i: usize)
        requires
            obeys_cmp::<F>(),
            self.seeds@.len() > 0,
        ensures
            is_top(self.seeds@, i as int),
    {
        proof {
            lemma_strict_order::<F>();
        }
        let mut i: usize = 0;
        let mut k: usize = 1;
        while k < self.seeds.len()
            invariant
                F::obeys_partial_cmp_spec(),
                forall|a: F| !#[trigger] greater(a, a),
                forall|a: F, b: F, c: F| #[trigger] greater(a, b) && #[trigger] greater(b, c) ==> greater(a, c),
                0 <= i < k <= self.seeds@.len(),
                forall|j: int| 0 <= j < k ==> !greater(#[trigger] self.seeds@[j].feedback, self.seeds@[i as int].feedback),
            decreases self.seeds@.len() - k,
        {
            if self.seeds[k].feedback > self.seeds[i].feedback {
                proof {
                    let top = self.seeds@[k as int].feedback;
                    assert forall|j: int| 0 <= j < k implies !greater(#[trigger] self.seeds@[j].feedback, top) by {
                        if greater(self.seeds@[j].feedback, top) {
                            assert(greater(top, self.seeds@[i as int].feedback));
                        }
                    }
                }
                i = k;
            }
            k = k + 1;
        }
        i
    }

    /// Position of a live seed of minimal feedback.
    fn bottom_index(&self) -> (i: usize)
        requires
            obeys_cmp::<F>(),
            self.seeds@.len() > 0,
        ensures
            is_bottom(self.seeds@, i as int),
    {
        proof {
            lemma_strict_order::<F>();
        }
        let mut i: usize = 0;
        let mut k: usize = 1;
        while k < self.seeds.len()
            invariant
                F::obeys_partial_cmp_spec(),
                forall|a: F| !#[trigger] greater(a, a),
                forall|a: F, b: F, c: F| #[trigger] greater(a, b) && #[trigger] greater(b, c) ==> greater(a, c),
                0 <= i < k <= self.seeds@.len(),
                forall|j: int| 0 <= j < k ==> !greater(self.seeds@[i as int].feedback, #[trigger] self.seeds@[j].feedback),
            decreases self.seeds@.len() - k,
        {
            if self.seeds[i].feedback > self.seeds[k].feedback {
                proof {
                    let low = self.seeds@[k as int].feedback;
                    assert forall|j: int| 0 <= j < k implies !greater(low, #[trigger] self.seeds@[j].feedback) by {
                        if greater(low, self.seeds@[j].feedback) {
                            assert(greater(self.seeds@[i as int].feedback, low));
                        }
                    }
                }
                i = k;
            }
            k = k + 1;
        }
        i
    }

    /// A live seed of maximal feedback; the pool must not be empty.
    pub fn best(&self) -> (r: &Seed<T, F>)
        requires
            obeys_cmp::<F>(),
            self.seeds@.len() > 0,
        ensures
            exists|i: int| is_top(self.seeds@, i) && *r == self.seeds@[i],
    {
        let i = self.top_index();
        &self.seeds[i]
    }

    /// A live seed of minimal feedback; the pool must not be empty.
    pub fn worst(&self) -> (r: &Seed<T, F>)
        requires
            obeys_cmp::<F>(),
            self.seeds@.len() > 0,
        ensures
            exists|i: int| is_bottom(self.seeds@, i) && *r == self.seeds@[i],
    {
        let i = self.bottom_index();
        &self.seeds[i]
    }

    /// Draws a copy of a live seed of maximal feedback, spending one unit of
    /// its energy, or removing it when it had none left.
    pub fn pop(&mut self) -> (r: Option<Seed<T, F>>)
        requires
            obeys_cmp::<F>(),
        ensures
            final(self).best_of_all_time == old(self).best_of_all_time,
            old(self).seeds@.len() == 0 ==> r is None && final(self).seeds@ == old(self).seeds@,
            old(self).seeds@.len() > 0 ==> exists|i: int|
                {
                    &&& #[trigger] is_top(old(self).seeds@, i)
                    &&& r matches Some(s) && old(self).seeds@[i].same_as(s)
                    &&& final(self).seeds@ == drawn(old(self).seeds@, i)
                },
    {
        if self.seeds.len() == 0 {
            return None;
        }
        let i = self.top_index();
        let seed = self.seeds[i].duplicate();
        if seed.energy > 0 {
            let mut live = self.seeds.remove(i);
            live.energy = live.energy - 1;
            self.seeds.insert(i, live);
        } else {
            self.seeds.remove(i);
        }
        proof {
            assert(is_top(old(self).seeds@, i as int));
            assert(final(self).seeds@ =~= drawn(old(self).seeds@, i as int));
        }
        Some(seed)
    }

    pub fn size(&self) -> (r: usize)
        ensures
            r == self.seeds@.len(),
    {
        self.seeds.len()
    }

    pub fn is_empty(&self) -> (r: bool)
        ensures
            r == (self.seeds@.len() == 0),
    {
        self.seeds.len() == 0
    }
}

impl<T: Clone, F: Copy + Ord> Default for SeedPool<T, F> {
    fn default() -> (r: SeedPool<T, F>)
        ensures
            r.seeds@.len() == 0,
            r.best_of_all_time is None,
    {
        SeedPool::new()
    }
}

} // verus!
