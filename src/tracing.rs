use crate::quickcheck::Arbitrary;
use crate::random::RandomSource;
use vstd::prelude::*;

verus! {

/// The identity of one random choice point.
#[derive(Clone, Copy, Debug, PartialEq, Eq)]
pub struct Id(pub u64);

/// A bound of a choice: the identity of the traced value it came from, or a
/// plain number.
#[derive(Clone, Copy, Debug, PartialEq, Eq)]
pub enum Val {
    Id(Id),
    Val(usize),
}

/// One record of a trace.
#[derive(Clone, Copy, Debug, PartialEq, Eq)]
pub enum Trace {
    /// A traced composite value was formed.
    Ret(Id),
    /// A number was chosen between two bounds: identity, bounds, choice.
    Choose(Id, Val, Val, usize),
}

impl Trace {
    pub fn id(&self) -> (r: Id)
        ensures
            r == (match *self {
                Trace::Ret(i) => i,
                Trace::Choose(i, _, _, _) => i,
            }),
    {
        match self {
            Trace::Ret(i) => *i,
            Trace::Choose(i, _, _, _) => *i,
        }
    }
}

/// Why traced generation stopped.
#[derive(Clone, Copy, Debug, PartialEq, Eq)]
pub enum TraceError {
    /// A replayed choice was missing or outside its bounds.
    ReplayMismatch,
    /// The identity counter has no fresh identity left.
    IdsExhausted,
}

/// Where choices come from: fresh draws, or a recorded sequence of choices.
pub enum ChoiceSource {
    Draw(RandomSource),
    Replay(Vec<usize>),
}

/// The context that traced generators thread through: an identity counter,
/// the trace, every choice taken so far, and the source of choices.
pub struct TraceContext {
    pub last_id: u64,
    pub traces: Vec<Trace>,
    pub choices: Vec<usize>,
    pub source: ChoiceSource,
}

/// The choices that the records of `traces` hold, in order.
pub open spec fn recorded_choices(traces: Seq<Trace>) -> Seq<usize>
    decreases traces.len(),
{
    if traces.len() == 0 {
        Seq::empty()
    } else {
        let earlier = recorded_choices(traces.drop_last());
        match traces.last() {
            Trace::Choose(_, _, _, v) => earlier.push(v),
            Trace::Ret(_) => earlier,
        }
    }
}

proof fn lemma_recorded_push(traces: Seq<Trace>, t: Trace)
    ensures
        recorded_choices(traces.push(t)) == match t {
            Trace::Choose(_, _, _, v) => recorded_choices(traces).push(v),
            Trace::Ret(_) => recorded_choices(traces),
        },
{
    assert(traces.push(t).drop_last() =~= traces);
}

/// The identity of a trace record.
pub open spec fn trace_id(t: Trace) -> u64 {
    match t {
        Trace::Ret(i) => i.0,
        Trace::Choose(i, _, _, _) => i.0,
    }
}

/// Pushing a record whose identity exceeds every earlier one keeps the
/// identities increasing.
proof fn lemma_ids_push(ctx: TraceContext, t: Trace, after: Seq<Trace>)
    requires
        forall|i: int|
            0 <= i < ctx.traces@.len() - 1 ==> trace_id(#[trigger] ctx.traces@[i]) < trace_id(
                ctx.traces@[i + 1],
            ),
        ctx.traces@.len() > 0 ==> trace_id(ctx.traces@.last()) < trace_id(t),
        after == ctx.traces@.push(t),
    ensures
        forall|i: int| 0 <= i < after.len() - 1 ==> trace_id(#[trigger] after[i]) < trace_id(after[i + 1]),
{
    assert forall|i: int| 0 <= i < after.len() - 1 implies trace_id(#[trigger] after[i]) < trace_id(
        after[i + 1],
    ) by {
        if i < ctx.traces@.len() - 1 {
            assert(after[i] == ctx.traces@[i] && after[i + 1] == ctx.traces@[i + 1]);
        } else {
            assert(after[i] == ctx.traces@.last());
        }
    }
}

/// `longer` starts with `shorter`.
pub open spec fn extends(longer: Seq<usize>, shorter: Seq<usize>) -> bool {
    shorter.len() <= longer.len() && longer.take(shorter.len() as int) == shorter
}

proof fn lemma_continues_chain(a: TraceContext, b: TraceContext, c: TraceContext)
    requires
        a.continues(&b),
        b.continues(&c),
    ensures
        a.continues(&c),
{
    assert(c.stream().take(a.stream().len() as int) =~= c.stream().take(b.stream().len() as int).take(
        a.stream().len() as int,
    ));
}

/// The choice at `pos` of `s`, if there is one within `lo..=hi`.
pub open spec fn pick_at(s: Seq<usize>, pos: nat, lo: nat, hi: nat) -> Option<nat> {
    if pos < s.len() && lo <= s[pos as int] <= hi {
        Some(s[pos as int] as nat)
    } else {
        None
    }
}

impl TraceContext {
    /// The stream of choices that generation reads: the recording being
    /// replayed, or the choices drawn so far.
    pub open spec fn stream(&self) -> Seq<usize> {
        match self.source {
            ChoiceSource::Replay(rec) => rec@,
            ChoiceSource::Draw(_) => self.choices@,
        }
    }

    /// The trace records every choice taken, in the order taken; the
    /// identities of its records increase and none exceeds the last one
    /// handed out.
    #[verifier::opaque]
    pub open spec fn faithful(&self) -> bool {
        &&& recorded_choices(self.traces@) == self.choices@
        &&& forall|i: int|
            0 <= i < self.traces@.len() - 1 ==> trace_id(#[trigger] self.traces@[i]) < trace_id(
                self.traces@[i + 1],
            )
        &&& self.traces@.len() > 0 ==> trace_id(self.traces@.last()) <= self.last_id
    }

    pub open spec fn replaying(&self) -> bool {
        self.source is Replay
    }

    /// The choices taken are the start of the stream.
    pub open spec fn wf(&self) -> bool {
        &&& self.choices@.len() <= self.stream().len()
        &&& self.choices@ == self.stream().take(self.choices@.len() as int)
    }

    /// `after` continues `self`: same mode, more choices taken, and a stream
    /// that starts with the earlier one (the same stream when replaying).
    pub open spec fn continues(&self, after: &Self) -> bool {
        &&& after.wf()
        &&& after.replaying() == self.replaying()
        &&& self.choices@.len() <= after.choices@.len()
        &&& self.last_id <= after.last_id
        &&& extends(after.stream(), self.stream())
        &&& self.replaying() ==> after.stream() == self.stream()
    }

    /// A context that draws fresh choices.
    pub fn recording(rng: RandomSource) -> (r: TraceContext)
        ensures
            r.wf(),
            r.faithful(),
            !r.replaying(),
            r.choices@.len() == 0,
            r.traces@.len() == 0,
    {
        let r = TraceContext {
            last_id: 0,
            traces: Vec::new(),
            choices: Vec::new(),
            source: ChoiceSource::Draw(rng),
        };
        proof {
            reveal(TraceContext::faithful);
            assert(r.stream().take(0) =~= r.choices@);
        }
        r
    }

    /// A context that takes its choices from `recorded`, in order, and never
    /// consults a random source.
    pub fn replay(recorded: Vec<usize>) -> (r: TraceContext)
        ensures
            r.wf(),
            r.faithful(),
            r.replaying(),
            r.stream() == recorded@,
            r.choices@.len() == 0,
            r.traces@.len() == 0,
    {
        let r = TraceContext {
            last_id: 0,
            traces: Vec::new(),
            choices: Vec::new(),
            source: ChoiceSource::Replay(recorded),
        };
        proof {
            reveal(TraceContext::faithful);
            assert(r.stream().take(0) =~= r.choices@);
        }
        r
    }

    /// A fresh identity, greater than every identity handed out before.
    fn fresh_id(&mut self) -> (r: Result<Id, TraceError>)
        ensures
            final(self).traces == old(self).traces,
            final(self).choices == old(self).choices,
            final(self).source == old(self).source,
            r matches Ok(id) ==> id.0 == old(self).last_id + 1 && final(self).last_id == id.0,
            r is Err ==> r == Err::<Id, TraceError>(TraceError::IdsExhausted) && old(self).last_id
                == u64::MAX && final(self).last_id == old(self).last_id,
    {
        if self.last_id == u64::MAX {
            return Err(TraceError::IdsExhausted);
        }
        self.last_id = self.last_id + 1;
        Ok(Id(self.last_id))
    }

    /// Takes the next choice within `lo..=hi`: a fresh draw, or the next
    /// recorded choice.
    fn take_choice(&mut self, lo: usize, hi: usize) -> (r: Result<usize, TraceError>)
        requires
            old(self).wf(),
            lo <= hi,
        ensures
            old(self).continues(&*final(self)),
            final(self).traces == old(self).traces,
            final(self).last_id == old(self).last_id,
            r matches Ok(v) ==> final(self).choices@ == old(self).choices@.push(v)
                && pick_at(final(self).stream(), old(self).choices@.len() as nat, lo as nat, hi as nat)
                == Some(v as nat),
            r is Err ==> final(self).choices == old(self).choices,
            r is Err ==> old(self).replaying() && r == Err::<usize, TraceError>(TraceError::ReplayMismatch)
                && pick_at(old(self).stream(), old(self).choices@.len() as nat, lo as nat, hi as nat) is None,
    {
        let pos = self.choices.len();
        proof {
            assert(self.stream().take(self.stream().len() as int) =~= self.stream());
        }
        let v = match &mut self.source {
            ChoiceSource::Draw(rng) => rng.usize_between(lo, hi),
            ChoiceSource::Replay(rec) => {
                if pos < rec.len() && lo <= rec[pos] && rec[pos] <= hi {
                    rec[pos]
                } else {
                    return Err(TraceError::ReplayMismatch);
                }
            },
        };
        self.choices.push(v);
        proof {
            assert(self.choices@.take(self.choices@.len() as int) =~= self.choices@);
            if self.replaying() {
                assert(self.choices@ =~= self.stream().take(self.choices@.len() as int));
                assert(self.stream() == old(self).stream());
            } else {
                assert(self.stream().take(old(self).stream().len() as int) =~= old(self).stream());
            }
            assert(extends(self.stream(), old(self).stream()));
        }
        Ok(v)
    }
}

/// The deepest tree that traced generation grows, whatever size it is asked for.
pub const MAX_TRACED_DEPTH: usize = 16;

/// A plain number (its value, and where the next choice starts) read from
/// the stream `s` at `pos` as traced generation draws one: first a size
/// within `0..=100`, then the number within `0..=size`.
pub open spec fn number_from(s: Seq<usize>, pos: nat) -> Option<(nat, nat)> {
    match pick_at(s, pos, 0, 100) {
        None => None,
        Some(m) => match pick_at(s, pos + 1, 0, m) {
            None => None,
            Some(v) => Some((v, pos + 2)),
        },
    }
}

/// A plain tree of integers.
#[derive(Debug, PartialEq, Eq)]
pub enum Tree<T> {
    Leaf(T),
    Node(T, Box<Tree<T>>, Box<Tree<T>>),
}

pub open spec fn leaf_from(s: Seq<usize>, pos: nat) -> Option<(Tree<usize>, nat)> {
    match number_from(s, pos) {
        None => None,
        Some((v, p)) => Some((Tree::Leaf(v as usize), p)),
    }
}

/// The plain tree (and where the next choice starts) that traced generation
/// of depth at most `d` builds from the stream `s` read at `pos`: a leaf at
/// depth 0; otherwise a choice `k` within `0..=d` (weights 1 and `d`) gives a
/// leaf for `k == 0`, and else a number and two subtrees of depth `d - 1`.
pub open spec fn tree_from(d: nat, s: Seq<usize>, pos: nat) -> Option<(Tree<usize>, nat)>
    decreases d, 1nat,
{
    if d == 0 {
        leaf_from(s, pos)
    } else {
        match pick_at(s, pos, 0, d) {
            None => None,
            Some(k) => if k == 0 {
                leaf_from(s, pos + 1)
            } else {
                node_from(d, s, pos + 1)
            },
        }
    }
}

/// A node of depth at most `d >= 1` read from `s` at `pos`: a number, then
/// two subtrees of depth at most `d - 1`.
pub open spec fn node_from(d: nat, s: Seq<usize>, pos: nat) -> Option<(Tree<usize>, nat)>
    decreases d, 0nat,
{
    if d == 0 {
        None
    } else {
        match number_from(s, pos) {
            None => None,
            Some((v, p1)) => match tree_from((d - 1) as nat, s, p1) {
                None => None,
                Some((l, p2)) => match tree_from((d - 1) as nat, s, p2) {
                    None => None,
                    Some((r, p3)) => Some((Tree::Node(v as usize, Box::new(l), Box::new(r)), p3)),
                },
            },
        }
    }
}

proof fn lemma_pick_extends(s: Seq<usize>, s2: Seq<usize>, pos: nat, lo: nat, hi: nat)
    requires
        pick_at(s, pos, lo, hi) is Some,
        extends(s2, s),
    ensures
        pick_at(s2, pos, lo, hi) == pick_at(s, pos, lo, hi),
{
    assert(s2.take(s.len() as int)[pos as int] == s2[pos as int]);
}

proof fn lemma_number_extends(s: Seq<usize>, s2: Seq<usize>, pos: nat)
    requires
        number_from(s, pos) is Some,
        extends(s2, s),
    ensures
        number_from(s2, pos) == number_from(s, pos),
        number_from(s, pos) matches Some((_, p)) && p <= s.len(),
{
    lemma_pick_extends(s, s2, pos, 0, 100);
    let m = pick_at(s, pos, 0, 100)->0;
    lemma_pick_extends(s, s2, pos + 1, 0, m);
}

/// A tree read from a stream is read the same from any longer stream that
/// starts with it, and it ends within the stream.
pub proof fn lemma_tree_extends(d: nat, s: Seq<usize>, s2: Seq<usize>, pos: nat)
    requires
        tree_from(d, s, pos) is Some,
        extends(s2, s),
    ensures
        tree_from(d, s2, pos) == tree_from(d, s, pos),
        tree_from(d, s, pos) matches Some((_, p)) && p <= s.len(),
    decreases d,
{
    if d == 0 {
        lemma_number_extends(s, s2, pos);
    } else {
        lemma_pick_extends(s, s2, pos, 0, d);
        let k = pick_at(s, pos, 0, d)->0;
        if k == 0 {
            lemma_number_extends(s, s2, pos + 1);
        } else {
            lemma_number_extends(s, s2, pos + 1);
            let (_, p1) = number_from(s, pos + 1)->0;
            lemma_tree_extends((d - 1) as nat, s, s2, p1);
            let (_, p2) = tree_from((d - 1) as nat, s, p1)->0;
            lemma_tree_extends((d - 1) as nat, s, s2, p2);
        }
    }
}

/// Replaying a recording rebuilds what was recorded: when a tree of depth
/// `d` was read from the whole recording `rec`, reading any stream that
/// starts the same way gives that tree again, and a replay of `rec` itself
/// cannot fail.
pub proof fn lemma_replay_rebuilds(d: nat, rec: Seq<usize>, replayed: Seq<usize>)
    requires
        tree_from(d, rec, 0) matches Some((_, end)) && end == rec.len(),
        extends(replayed, rec),
    ensures
        tree_from(d, replayed, 0) == tree_from(d, rec, 0),
{
    lemma_tree_extends(d, rec, replayed, 0);
}

/// A number that may carry the identity of the choice that produced it.
#[derive(Clone, Copy, Debug)]
pub struct TrUsize {
    pub id: Option<Id>,
    pub n: usize,
}

impl TrUsize {
    /// The same number, one smaller, keeping its identity.
    pub fn decr(&self) -> (r: TrUsize)
        requires
            self.n > 0,
        ensures
            r.id == self.id,
            r.n == self.n - 1,
    {
        TrUsize { id: self.id, n: self.n - 1 }
    }

    pub fn id(&self) -> (r: Option<Id>)
        ensures
            r == self.id,
    {
        self.id
    }

    /// The plain number, without its identity.
    pub fn lift_back(self) -> (r: usize)
        ensures
            r == self.n,
    {
        self.n
    }

    /// The bound that a choice records for this number.
    fn as_val(&self) -> (r: Val) {
        match self.id {
            Some(i) => Val::Id(i),
            None => Val::Val(self.n),
        }
    }

    /// A traced choice of a number within `lo..=hi`.
    pub fn choose_between(lo: TrUsize, hi: TrUsize, ctx: &mut TraceContext) -> (r: Result<TrUsize, TraceError>)
        requires
            old(ctx).wf(),
            old(ctx).faithful(),
            lo.n <= hi.n,
        ensures
            old(ctx).continues(&*final(ctx)),
            final(ctx).faithful(),
            r matches Ok(t) ==> t.id == Some(Id(final(ctx).last_id)) && final(ctx).last_id == old(
                ctx,
            ).last_id + 1 && final(ctx).choices@ == old(ctx).choices@.push(t.n) && pick_at(
                final(ctx).stream(),
                old(ctx).choices@.len() as nat,
                lo.n as nat,
                hi.n as nat,
            ) == Some(t.n as nat),
            r == Err::<TrUsize, TraceError>(TraceError::ReplayMismatch) ==> old(ctx).replaying()
                && pick_at(old(ctx).stream(), old(ctx).choices@.len() as nat, lo.n as nat, hi.n as nat) is None,
            r == Err::<TrUsize, TraceError>(TraceError::IdsExhausted) ==> old(ctx).last_id == u64::MAX,
            old(ctx).last_id < u64::MAX && (!old(ctx).replaying() || pick_at(
                old(ctx).stream(),
                old(ctx).choices@.len() as nat,
                lo.n as nat,
                hi.n as nat,
            ) is Some) ==> r is Ok,
    {
        proof {
            reveal(TraceContext::faithful);
            assert(ctx.stream().take(ctx.stream().len() as int) =~= ctx.stream());
        }
        let id = match ctx.fresh_id() {
            Ok(id) => id,
            Err(e) => {
                return Err(e);
            },
        };
        let v = match ctx.take_choice(lo.n, hi.n) {
            Ok(v) => v,
            Err(e) => {
                return Err(e);
            },
        };
        let record = Trace::Choose(id, lo.as_val(), hi.as_val(), v);
        proof {
            lemma_recorded_push(ctx.traces@, record);
            lemma_ids_push(*ctx, record, ctx.traces@.push(record));
        }
        ctx.traces.push(record);
        Ok(TrUsize { id: Some(id), n: v })
    }

    /// A traced number within `0..=n`.
    pub fn arbitrary_sized(n: TrUsize, ctx: &mut TraceContext) -> (r: Result<TrUsize, TraceError>)
        requires
            old(ctx).wf(),
            old(ctx).faithful(),
        ensures
            old(ctx).continues(&*final(ctx)),
            final(ctx).faithful(),
            r matches Ok(t) ==> t.id == Some(Id(final(ctx).last_id)) && final(ctx).last_id == old(
                ctx,
            ).last_id + 1 && final(ctx).choices@ == old(ctx).choices@.push(t.n) && pick_at(
                final(ctx).stream(),
                old(ctx).choices@.len() as nat,
                0,
                n.n as nat,
            ) == Some(t.n as nat),
            r == Err::<TrUsize, TraceError>(TraceError::ReplayMismatch) ==> old(ctx).replaying()
                && pick_at(old(ctx).stream(), old(ctx).choices@.len() as nat, 0, n.n as nat) is None,
            r == Err::<TrUsize, TraceError>(TraceError::IdsExhausted) ==> old(ctx).last_id == u64::MAX,
            old(ctx).last_id < u64::MAX && (!old(ctx).replaying() || pick_at(
                old(ctx).stream(),
                old(ctx).choices@.len() as nat,
                0,
                n.n as nat,
            ) is Some) ==> r is Ok,
    {
        TrUsize::choose_between(TrUsize { id: None, n: 0 }, n, ctx)
    }

    /// A traced number: a size within `0..=100`, then a number up to it.
    pub fn arbitrary(ctx: &mut TraceContext) -> (r: Result<TrUsize, TraceError>)
        requires
            old(ctx).wf(),
            old(ctx).faithful(),
        ensures
            old(ctx).continues(&*final(ctx)),
            final(ctx).faithful(),
            r matches Ok(t) ==> t.id == Some(Id(final(ctx).last_id)) && final(ctx).last_id == old(
                ctx,
            ).last_id + 2 && final(ctx).choices@.len() == old(ctx).choices@.len() + 2 && number_from(
                final(ctx).stream(),
                old(ctx).choices@.len() as nat,
            ) == Some((t.n as nat, final(ctx).choices@.len() as nat)),
            r == Err::<TrUsize, TraceError>(TraceError::ReplayMismatch) ==> old(ctx).replaying()
                && number_from(old(ctx).stream(), old(ctx).choices@.len() as nat) is None,
            r == Err::<TrUsize, TraceError>(TraceError::IdsExhausted) ==> old(ctx).last_id + 2 > u64::MAX,
            old(ctx).last_id + 2 <= u64::MAX && (!old(ctx).replaying() || number_from(
                old(ctx).stream(),
                old(ctx).choices@.len() as nat,
            ) is Some) ==> r is Ok,
    {
        let ghost start = old(ctx).choices@.len() as nat;
        let size = match TrUsize::choose_between(TrUsize { id: None, n: 0 }, TrUsize { id: None, n: 100 }, ctx) {
            Ok(t) => t,
            Err(e) => {
                return Err(e);
            },
        };
        let ghost mid = *ctx;
        let r = TrUsize::arbitrary_sized(size, ctx);
        proof {
            lemma_continues_chain(*old(ctx), mid, *ctx);
            if r is Ok {
                lemma_pick_extends(mid.stream(), ctx.stream(), start, 0, 100);
            }
            if old(ctx).replaying() {
                assert(mid.stream() == old(ctx).stream());
            }
        }
        r
    }
}

impl vstd::std_specs::convert::FromSpecImpl<usize> for TrUsize {
    open spec fn obeys_from_spec() -> bool {
        true
    }

    open spec fn from_spec(n: usize) -> TrUsize {
        TrUsize { id: None, n }
    }
}

impl From<usize> for TrUsize {
    fn from(n: usize) -> (r: TrUsize)
        ensures
            r.id is None,
            r.n == n,
    {
        TrUsize { id: None, n }
    }
}

/// The sum of the weights.
pub open spec fn total(w: Seq<usize>) -> nat
    decreases w.len(),
{
    if w.len() == 0 {
        0
    } else {
        total(w.drop_last()) + w.last() as nat
    }
}

proof fn lemma_total_grows(w: Seq<usize>, i: int, j: int)
    requires
        0 <= i <= j <= w.len(),
    ensures
        total(w.take(i)) <= total(w.take(j)),
    decreases j - i,
{
    if i < j {
        lemma_total_grows(w, i, j - 1);
        assert(w.take(j).drop_last() =~= w.take(j - 1));
    }
}

/// Picks one of several alternatives, alternative `i` with weight
/// `weights[i]`: a traced choice `k` within `0..total - 1` selects the
/// alternative whose share of the running total holds `k`.
pub fn freq(weights: &Vec<usize>, ctx: &mut TraceContext) -> (r: Result<usize, TraceError>)
    requires
        old(ctx).wf(),
        old(ctx).faithful(),
        1 <= total(weights@) <= usize::MAX,
    ensures
        old(ctx).continues(&*final(ctx)),
        final(ctx).faithful(),
        r matches Ok(i) ==> {
            &&& i < weights@.len()
            &&& final(ctx).choices@.len() == old(ctx).choices@.len() + 1
            &&& pick_at(final(ctx).stream(), old(ctx).choices@.len() as nat, 0, (total(weights@) - 1) as nat)
                matches Some(k) && total(weights@.take(i as int)) <= k < total(weights@.take(i + 1))
        },
        r == Err::<usize, TraceError>(TraceError::ReplayMismatch) ==> old(ctx).replaying() && pick_at(
            old(ctx).stream(),
            old(ctx).choices@.len() as nat,
            0,
            (total(weights@) - 1) as nat,
        ) is None,
        r is Ok ==> final(ctx).last_id == old(ctx).last_id + 1,
        r == Err::<usize, TraceError>(TraceError::IdsExhausted) ==> old(ctx).last_id == u64::MAX,
        old(ctx).last_id < u64::MAX && (!old(ctx).replaying() || pick_at(
            old(ctx).stream(),
            old(ctx).choices@.len() as nat,
            0,
            (total(weights@) - 1) as nat,
        ) is Some) ==> r is Ok,
{
    let mut sum: usize = 0;
    let mut j: usize = 0;
    proof {
        assert(weights@.take(weights@.len() as int) =~= weights@);
    }
    while j < weights.len()
        invariant
            j <= weights@.len(),
            sum == total(weights@.take(j as int)),
            total(weights@) <= usize::MAX,
        decreases weights@.len() - j,
    {
        proof {
            assert(weights@.take(j + 1).drop_last() =~= weights@.take(j as int));
            lemma_total_grows(weights@, j + 1, weights@.len() as int);
            assert(weights@.take(weights@.len() as int) =~= weights@);
        }
        sum = sum + weights[j];
        j = j + 1;
    }
    proof {
        assert(weights@.take(weights@.len() as int) =~= weights@);
    }
    let k = match TrUsize::choose_between(TrUsize { id: None, n: 0 }, TrUsize { id: None, n: sum - 1 }, ctx) {
        Ok(t) => {
            assert(pick_at(ctx.stream(), old(ctx).choices@.len() as nat, 0, (total(weights@) - 1) as nat) == Some(t.n as nat));
            t.n
        },
        Err(e) => {
            return Err(e);
        },
    };
    let mut i: usize = 0;
    let mut upto: usize = weights[0];
    proof {
        assert(weights@.take(0) =~= Seq::<usize>::empty());
        assert(weights@.take(1).drop_last() =~= weights@.take(0));
        assert(weights@.take(1).last() == weights@[0]);
        assert(total(weights@.take(1)) == total(weights@.take(1).drop_last()) + weights@.take(1).last() as nat);
        assert(total(weights@.take(1)) == weights@[0]);
        lemma_total_grows(weights@, 1, weights@.len() as int);
    }
    while upto <= k
        invariant
            0 <= i < weights@.len(),
            k < sum,
            sum == total(weights@),
            upto == total(weights@.take(i + 1)),
            total(weights@.take(i as int)) <= k,
        ensures
            0 <= i < weights@.len(),
            total(weights@.take(i as int)) <= k < total(weights@.take(i + 1)),
        decreases weights@.len() - i,
    {
        if i >= weights.len() - 1 {
            proof {
                assert(weights@.take(i + 1) =~= weights@);
            }
            break;
        }
        proof {
            assert(weights@.take(i + 2).drop_last() =~= weights@.take(i + 1));
            lemma_total_grows(weights@, i + 2, weights@.len() as int);
            assert(weights@.take(weights@.len() as int) =~= weights@);
        }
        upto = upto + weights[i + 1];
        i = i + 1;
    }
    Ok(i)
}

/// A tree whose nodes and choices carry identities.
#[derive(Debug)]
pub enum TrTree {
    TrLeaf(Option<Id>, TrUsize),
    TrNode(Option<Id>, TrUsize, Box<TrTree>, Box<TrTree>),
}

/// The plain tree: every identity dropped.
pub open spec fn lift(t: TrTree) -> Tree<usize>
    decreases t,
{
    match t {
        TrTree::TrLeaf(_, v) => Tree::Leaf(v.n),
        TrTree::TrNode(_, v, l, r) => Tree::Node(v.n, Box::new(lift(*l)), Box::new(lift(*r))),
    }
}

/// The identity a tree's root was stamped with (0 for none).
pub open spec fn root_id(t: TrTree) -> u64 {
    match t {
        TrTree::TrLeaf(i, _) => match i {
            Some(x) => x.0,
            None => 0,
        },
        TrTree::TrNode(i, _, _, _) => match i {
            Some(x) => x.0,
            None => 0,
        },
    }
}

/// Every node of `t` carries an identity above `lo`, and the identities
/// strictly increase in post-order (left subtree, right subtree, node), so
/// no two are equal and the root's is the greatest.
pub open spec fn stamped(t: TrTree, lo: u64) -> bool
    decreases t,
{
    match t {
        TrTree::TrLeaf(i, _) => i is Some && lo < root_id(t),
        TrTree::TrNode(i, _, l, r) => i is Some && stamped(*l, lo) && stamped(*r, root_id(*l))
            && root_id(*r) < root_id(t),
    }
}

proof fn lemma_stamped_lower(t: TrTree, lo: u64, lower: u64)
    requires
        stamped(t, lo),
        lower <= lo,
    ensures
        stamped(t, lower),
    decreases t,
{
    if let TrTree::TrNode(_, _, l, _) = t {
        lemma_stamped_lower(*l, lo, lower);
    }
}

/// The identities that a tree of depth at most `d` may take: its numbers'
/// choices, its weighted picks and its stamps.
pub open spec fn ids_for(d: nat) -> nat
    decreases d,
{
    if d == 0 {
        3
    } else {
        4 + 2 * ids_for((d - 1) as nat)
    }
}

proof fn lemma_ids_for_grows(a: nat, b: nat)
    requires
        a <= b,
    ensures
        3 <= ids_for(a) <= ids_for(b),
    decreases b,
{
    if a < b {
        lemma_ids_for_grows(a, (b - 1) as nat);
    } else if a > 0 {
        lemma_ids_for_grows((a - 1) as nat, (a - 1) as nat);
    }
}

/// The plain tree that a traced tree generation reads from `s` at `pos`: a
/// depth within `0..=100`, capped at `MAX_TRACED_DEPTH`, then the tree.
pub open spec fn traced_tree_from(s: Seq<usize>, pos: nat) -> Option<(Tree<usize>, nat)> {
    match pick_at(s, pos, 0, 100) {
        None => None,
        Some(n) => tree_from(
            if n > MAX_TRACED_DEPTH {
                MAX_TRACED_DEPTH as nat
            } else {
                n
            },
            s,
            pos + 1,
        ),
    }
}

impl TrTree {
    pub fn id(&self) -> (r: Option<Id>)
        ensures
            r == (match *self {
                TrTree::TrLeaf(i, _) => i,
                TrTree::TrNode(i, _, _, _) => i,
            }),
    {
        match self {
            TrTree::TrLeaf(i, _) => *i,
            TrTree::TrNode(i, _, _, _) => *i,
        }
    }

    /// The plain tree, without identities.
    pub fn lift_back(self) -> (r: Tree<usize>)
        ensures
            r == lift(self),
        decreases self,
    {
        match self {
            TrTree::TrLeaf(_, v) => Tree::Leaf(v.lift_back()),
            TrTree::TrNode(_, v, l, r) => Tree::Node(
                v.lift_back(),
                Box::new((*l).lift_back()),
                Box::new((*r).lift_back()),
            ),
        }
    }

    /// Marks a composite value with a fresh identity in the trace.
    fn stamp(ctx: &mut TraceContext) -> (r: Result<Id, TraceError>)
        requires
            old(ctx).wf(),
            old(ctx).faithful(),
        ensures
            old(ctx).continues(&*final(ctx)),
            final(ctx).faithful(),
            final(ctx).choices == old(ctx).choices,
            r matches Ok(id) ==> id.0 == final(ctx).last_id && final(ctx).last_id == old(ctx).last_id + 1,
            r is Err ==> r == Err::<Id, TraceError>(TraceError::IdsExhausted) && old(ctx).last_id
                == u64::MAX,
    {
        proof {
            reveal(TraceContext::faithful);
            assert(ctx.stream().take(ctx.stream().len() as int) =~= ctx.stream());
        }
        let id = match ctx.fresh_id() {
            Ok(id) => id,
            Err(e) => {
                return Err(e);
            },
        };
        proof {
            lemma_recorded_push(ctx.traces@, Trace::Ret(id));
            lemma_ids_push(*ctx, Trace::Ret(id), ctx.traces@.push(Trace::Ret(id)));
        }
        ctx.traces.push(Trace::Ret(id));
        Ok(id)
    }

    fn leaf(ctx: &mut TraceContext) -> (r: Result<TrTree, TraceError>)
        requires
            old(ctx).wf(),
            old(ctx).faithful(),
        ensures
            old(ctx).continues(&*final(ctx)),
            final(ctx).faithful(),
            r matches Ok(t) ==> leaf_from(final(ctx).stream(), old(ctx).choices@.len() as nat) == Some(
                (lift(t), final(ctx).choices@.len() as nat),
            ),
            r == Err::<TrTree, TraceError>(TraceError::ReplayMismatch) ==> old(ctx).replaying()
                && leaf_from(old(ctx).stream(), old(ctx).choices@.len() as nat) is None,
            r matches Ok(t) ==> stamped(t, old(ctx).last_id) && root_id(t) == final(ctx).last_id
                && final(ctx).last_id == old(ctx).last_id + 3,
            r == Err::<TrTree, TraceError>(TraceError::IdsExhausted) ==> old(ctx).last_id + 3 > u64::MAX,
    {
        let v = match TrUsize::arbitrary(ctx) {
            Ok(v) => v,
            Err(e) => {
                return Err(e);
            },
        };
        let ghost mid = *ctx;
        let id = match TrTree::stamp(ctx) {
            Ok(id) => id,
            Err(e) => {
                return Err(e);
            },
        };
        proof {
            lemma_continues_chain(*old(ctx), mid, *ctx);
            lemma_number_extends(mid.stream(), ctx.stream(), old(ctx).choices@.len() as nat);
        }
        let t = TrTree::TrLeaf(Some(id), v);
        proof {
            assert(stamped(t, old(ctx).last_id));
        }
        Ok(t)
    }

    /// A traced tree of depth at most `d`: at each level a leaf with weight 1
    /// or a node with weight `d`.
    #[verifier::rlimit(50)]
    fn grow(d: usize, ctx: &mut TraceContext) -> (r: Result<TrTree, TraceError>)
        requires
            old(ctx).wf(),
            old(ctx).faithful(),
            d <= MAX_TRACED_DEPTH,
        ensures
            old(ctx).continues(&*final(ctx)),
            final(ctx).faithful(),
            r matches Ok(t) ==> {
                &&& tree_from(d as nat, final(ctx).stream(), old(ctx).choices@.len() as nat) == Some(
                    (lift(t), final(ctx).choices@.len() as nat),
                )
                &&& stamped(t, old(ctx).last_id)
                &&& root_id(t) == final(ctx).last_id
                &&& final(ctx).last_id <= old(ctx).last_id + ids_for(d as nat)
            },
            r == Err::<TrTree, TraceError>(TraceError::ReplayMismatch) ==> old(ctx).replaying()
                && tree_from(d as nat, old(ctx).stream(), old(ctx).choices@.len() as nat) is None,
            r == Err::<TrTree, TraceError>(TraceError::IdsExhausted) ==> old(ctx).last_id + ids_for(
                d as nat,
            ) > u64::MAX,
        decreases d, 1nat,
    {
        let ghost p0 = old(ctx).choices@.len() as nat;
        if d == 0 {
            return TrTree::leaf(ctx);
        }
        proof {
            lemma_ids_for_grows((d - 1) as nat, (d - 1) as nat);
        }
        let weights: Vec<usize> = vec![1, d];
        proof {
            assert(weights@.len() == 2 && weights@[0] == 1 && weights@[1] == d);
            assert(weights@.take(0) =~= Seq::<usize>::empty());
            assert(total(weights@.take(0)) == 0);
            assert(weights@.take(1).drop_last() =~= weights@.take(0));
            assert(weights@.take(1).last() == 1);
            assert(weights@.take(2) =~= weights@);
            assert(weights@.take(2).drop_last() =~= weights@.take(1));
            assert(total(weights@.take(1)) == 1);
            assert(total(weights@) == d + 1);
        }
        let k = match freq(&weights, ctx) {
            Ok(k) => k,
            Err(e) => {
                return Err(e);
            },
        };
        let ghost s1 = *ctx;
        let r = if k == 0 {
            TrTree::leaf(ctx)
        } else {
            TrTree::node(d, ctx)
        };
        proof {
            lemma_continues_chain(*old(ctx), s1, *ctx);
            if old(ctx).replaying() {
                assert(s1.stream() == old(ctx).stream());
            }
            if r is Ok {
                lemma_pick_extends(s1.stream(), ctx.stream(), p0, 0, d as nat);
                let t = r->Ok_0;
                lemma_stamped_lower(t, s1.last_id, old(ctx).last_id);
            }
        }
        r
    }

    /// A traced node at depth at most `d`: a number, then two subtrees of
    /// depth at most `d - 1`, then the node's own identity.
    #[verifier::rlimit(50)]
    fn node(d: usize, ctx: &mut TraceContext) -> (r: Result<TrTree, TraceError>)
        requires
            old(ctx).wf(),
            old(ctx).faithful(),
            1 <= d <= MAX_TRACED_DEPTH,
        ensures
            old(ctx).continues(&*final(ctx)),
            final(ctx).faithful(),
            r matches Ok(t) ==> {
                &&& node_from(d as nat, final(ctx).stream(), old(ctx).choices@.len() as nat) == Some(
                    (lift(t), final(ctx).choices@.len() as nat),
                )
                &&& stamped(t, old(ctx).last_id)
                &&& root_id(t) == final(ctx).last_id
                &&& final(ctx).last_id <= old(ctx).last_id + 3 + 2 * ids_for((d - 1) as nat)
            },
            r == Err::<TrTree, TraceError>(TraceError::ReplayMismatch) ==> old(ctx).replaying()
                && node_from(d as nat, old(ctx).stream(), old(ctx).choices@.len() as nat) is None,
            r == Err::<TrTree, TraceError>(TraceError::IdsExhausted) ==> old(ctx).last_id + 3 + 2
                * ids_for((d - 1) as nat) > u64::MAX,
        decreases d, 0nat,
    {
        let ghost p0 = old(ctx).choices@.len() as nat;
        let v = match TrUsize::arbitrary(ctx) {
            Ok(v) => v,
            Err(e) => {
                return Err(e);
            },
        };
        let ghost s2 = *ctx;
        let left = match TrTree::grow(d - 1, ctx) {
            Ok(t) => t,
            Err(e) => {
                proof {
                    lemma_continues_chain(*old(ctx), s2, *ctx);
                    if old(ctx).replaying() {
                        assert(s2.stream() == old(ctx).stream());
                    }
                }
                return Err(e);
            },
        };
        let ghost s3 = *ctx;
        proof {
            lemma_continues_chain(*old(ctx), s2, s3);
        }
        let right = match TrTree::grow(d - 1, ctx) {
            Ok(t) => t,
            Err(e) => {
                proof {
                    lemma_continues_chain(*old(ctx), s3, *ctx);
                    if old(ctx).replaying() {
                        assert(s2.stream() == old(ctx).stream());
                        assert(s3.stream() == old(ctx).stream());
                    }
                }
                return Err(e);
            },
        };
        let ghost s4 = *ctx;
        proof {
            lemma_continues_chain(*old(ctx), s3, s4);
        }
        let id = match TrTree::stamp(ctx) {
            Ok(id) => id,
            Err(e) => {
                proof {
                    lemma_continues_chain(*old(ctx), s4, *ctx);
                }
                return Err(e);
            },
        };
        proof {
            lemma_continues_chain(*old(ctx), s4, *ctx);
            lemma_continues_chain(s2, s3, *ctx);
            lemma_continues_chain(s3, s4, *ctx);
            let fin = ctx.stream();
            lemma_number_extends(s2.stream(), fin, p0);
            lemma_tree_extends((d - 1) as nat, s3.stream(), fin, s2.choices@.len() as nat);
            lemma_tree_extends((d - 1) as nat, s4.stream(), fin, s3.choices@.len() as nat);
            lemma_stamped_lower(left, s2.last_id, old(ctx).last_id);
        }
        let t = TrTree::TrNode(Some(id), v, Box::new(left), Box::new(right));
        proof {
            assert(stamped(t, old(ctx).last_id));
        }
        Ok(t)
    }

    /// A traced tree of depth at most `n` (and at most `MAX_TRACED_DEPTH`).
    /// Recording always succeeds, and so does replaying a stream that holds
    /// such a tree, as long as enough identities are left; every node then
    /// carries its own identity.
    pub fn arbitrary_sized(n: TrUsize, ctx: &mut TraceContext) -> (r: Result<TrTree, TraceError>)
        requires
            old(ctx).wf(),
            old(ctx).faithful(),
        ensures
            old(ctx).continues(&*final(ctx)),
            final(ctx).faithful(),
            r matches Ok(t) ==> {
                &&& tree_from(plain_depth(n.n as nat), final(ctx).stream(), old(ctx).choices@.len() as nat)
                    == Some((lift(t), final(ctx).choices@.len() as nat))
                &&& stamped(t, old(ctx).last_id)
                &&& root_id(t) == final(ctx).last_id
                &&& final(ctx).last_id <= old(ctx).last_id + ids_for(plain_depth(n.n as nat))
            },
            r == Err::<TrTree, TraceError>(TraceError::ReplayMismatch) ==> old(ctx).replaying() && tree_from(
                plain_depth(n.n as nat),
                old(ctx).stream(),
                old(ctx).choices@.len() as nat,
            ) is None,
            r == Err::<TrTree, TraceError>(TraceError::IdsExhausted) ==> old(ctx).last_id + ids_for(
                plain_depth(n.n as nat),
            ) > u64::MAX,
            old(ctx).last_id + ids_for(plain_depth(n.n as nat)) <= u64::MAX && (!old(ctx).replaying()
                || tree_from(plain_depth(n.n as nat), old(ctx).stream(), old(ctx).choices@.len() as nat)
                is Some) ==> r is Ok,
    {
        let d = if n.n > MAX_TRACED_DEPTH {
            MAX_TRACED_DEPTH
        } else {
            n.n
        };
        let r = TrTree::grow(d, ctx);
        proof {
            if let Err(e) = r {
                assert(r == Err::<TrTree, TraceError>(TraceError::ReplayMismatch) || r == Err::<
                    TrTree,
                    TraceError,
                >(TraceError::IdsExhausted));
            }
        }
        r
    }

    /// A traced tree of random depth: a depth within `0..=100`, then the tree.
    pub fn arbitrary(ctx: &mut TraceContext) -> (r: Result<TrTree, TraceError>)
        requires
            old(ctx).wf(),
            old(ctx).faithful(),
        ensures
            old(ctx).continues(&*final(ctx)),
            final(ctx).faithful(),
            r matches Ok(t) ==> {
                &&& traced_tree_from(final(ctx).stream(), old(ctx).choices@.len() as nat) == Some(
                    (lift(t), final(ctx).choices@.len() as nat),
                )
                &&& stamped(t, old(ctx).last_id)
                &&& root_id(t) == final(ctx).last_id
            },
            r == Err::<TrTree, TraceError>(TraceError::ReplayMismatch) ==> old(ctx).replaying()
                && traced_tree_from(old(ctx).stream(), old(ctx).choices@.len() as nat) is None,
            r == Err::<TrTree, TraceError>(TraceError::IdsExhausted) ==> old(ctx).last_id + 1 + ids_for(
                MAX_TRACED_DEPTH as nat,
            ) > u64::MAX,
            old(ctx).last_id + 1 + ids_for(MAX_TRACED_DEPTH as nat) <= u64::MAX && (!old(ctx).replaying()
                || traced_tree_from(old(ctx).stream(), old(ctx).choices@.len() as nat) is Some) ==> r is Ok,
    {
        let n = match TrUsize::choose_between(TrUsize { id: None, n: 0 }, TrUsize { id: None, n: 100 }, ctx) {
            Ok(n) => n,
            Err(e) => {
                proof {
                    lemma_ids_for_grows(0, MAX_TRACED_DEPTH as nat);
                }
                return Err(e);
            },
        };
        let ghost s1 = *ctx;
        let r = TrTree::arbitrary_sized(n, ctx);
        proof {
            lemma_continues_chain(*old(ctx), s1, *ctx);
            lemma_ids_for_grows(plain_depth(n.n as nat), MAX_TRACED_DEPTH as nat);
            if old(ctx).replaying() {
                assert(s1.stream() == old(ctx).stream());
            }
            if r is Ok {
                lemma_pick_extends(s1.stream(), ctx.stream(), old(ctx).choices@.len() as nat, 0, 100);
                lemma_stamped_lower(r->Ok_0, s1.last_id, old(ctx).last_id);
            }
        }
        r
    }
}

impl<T> Tree<T> {
    /// Every leaf lies at depth `d`, and every value is one that generation
    /// at size `n` may produce.
    pub open spec fn grown(&self, d: nat, n: nat) -> bool
        where
            T: Arbitrary,
        decreases self,
    {
        match self {
            Tree::Leaf(v) => d == 0 && v.within_size(n),
            Tree::Node(v, l, r) => d > 0 && v.within_size(n) && l.grown((d - 1) as nat, n) && r.grown(
                (d - 1) as nat,
                n,
            ),
        }
    }
}

/// The depth of a generated plain tree for size `n`.
pub open spec fn plain_depth(n: nat) -> nat {
    if n > MAX_TRACED_DEPTH {
        MAX_TRACED_DEPTH as nat
    } else {
        n
    }
}

impl<T: Arbitrary> Tree<T> {
    /// A full tree of depth `d` with values drawn at size `n`.
    pub fn arbitrary_sized(d: usize, n: usize, rng: &mut RandomSource) -> (r: Tree<T>)
        ensures
            r.grown(d as nat, n as nat),
        decreases d,
    {
        let v = T::generate(rng, n);
        if d == 0 {
            Tree::Leaf(v)
        } else {
            let l = Tree::<T>::arbitrary_sized(d - 1, n, rng);
            let r = Tree::<T>::arbitrary_sized(d - 1, n, rng);
            Tree::Node(v, Box::new(l), Box::new(r))
        }
    }
}

impl<T: Arbitrary> Arbitrary for Tree<T> {
    open spec fn within_size(&self, n: nat) -> bool {
        self.grown(plain_depth(n), n)
    }

    fn generate(rng: &mut RandomSource, n: usize) -> (r: Tree<T>) {
        let d = if n > MAX_TRACED_DEPTH {
            MAX_TRACED_DEPTH
        } else {
            n
        };
        Tree::<T>::arbitrary_sized(d, n, rng)
    }
}

} // verus!
