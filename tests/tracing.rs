use crabcheck::quickcheck::Arbitrary;
use crabcheck::random::RandomSource;
use crabcheck::tracing::{
    freq, Trace, TraceContext, TraceError, TrTree, TrUsize, Tree, Val, MAX_TRACED_DEPTH,
};

fn depth(t: &Tree<usize>) -> usize {
    match t {
        Tree::Leaf(_) => 0,
        Tree::Node(_, l, r) => 1 + depth(l).max(depth(r)),
    }
}

#[test]
fn test_tree_arbitrary() {
    let mut ctx = TraceContext::recording(RandomSource::new());
    let tree = TrTree::arbitrary_sized(3.into(), &mut ctx).unwrap();
    let traces = ctx.traces.clone();

    println!("Generated Tree: {:?}", tree.lift_back());
    println!(
        "Traces: {:#?}",
        traces
            .iter()
            .map(|t| match t {
                Trace::Ret(id) => format!("{:?} <- ret", id),
                Trace::Choose(id, lo, hi, v) => format!("{:?} <- choose({:?}, {:?}) = {}", id, lo, hi, v),
            })
            .collect::<Vec<_>>()
    );
}

#[test]
fn recorded_tree_replays_to_the_same_tree() {
    for _ in 0..20 {
        let mut ctx = TraceContext::recording(RandomSource::new());
        let tree = TrTree::arbitrary_sized(4.into(), &mut ctx).unwrap().lift_back();
        assert!(depth(&tree) <= 4);
        let recorded = ctx.choices.clone();
        let in_trace: Vec<usize> = ctx
            .traces
            .iter()
            .filter_map(|t| match t {
                Trace::Choose(_, _, _, v) => Some(*v),
                Trace::Ret(_) => None,
            })
            .collect();
        assert_eq!(in_trace, recorded);

        let mut again = TraceContext::replay(recorded.clone());
        let replayed = TrTree::arbitrary_sized(4.into(), &mut again).unwrap().lift_back();
        assert_eq!(replayed, tree);
        assert_eq!(again.choices, recorded);
    }
}

#[test]
fn replay_of_known_choices() {
    // depth 1: pick the node (1 of 0..=1), then a number (size 5, value 3),
    // then two leaves (size 10 value 7; size 0 value 0).
    let mut ctx = TraceContext::replay(vec![1, 5, 3, 10, 7, 0, 0]);
    let tree = TrTree::arbitrary_sized(1.into(), &mut ctx).unwrap().lift_back();
    assert_eq!(
        tree,
        Tree::Node(3, Box::new(Tree::Leaf(7)), Box::new(Tree::Leaf(0)))
    );
    let mut leaf = TraceContext::replay(vec![0, 9, 9]);
    let tree = TrTree::arbitrary_sized(2.into(), &mut leaf).unwrap().lift_back();
    assert_eq!(tree, Tree::Leaf(9));
}

#[test]
fn replay_rejects_short_or_out_of_bounds_records() {
    let mut short = TraceContext::replay(vec![1, 5]);
    assert_eq!(TrTree::arbitrary_sized(1.into(), &mut short).err(), Some(TraceError::ReplayMismatch));
    let mut wide = TraceContext::replay(vec![0, 5, 6]);
    assert_eq!(TrTree::arbitrary_sized(1.into(), &mut wide).err(), Some(TraceError::ReplayMismatch));
}

#[test]
fn traced_choices_carry_fresh_identities() {
    let mut ctx = TraceContext::replay(vec![4, 2, 9]);
    let a = TrUsize::choose_between(0.into(), 10.into(), &mut ctx).unwrap();
    let b = TrUsize::choose_between(0.into(), a, &mut ctx).unwrap();
    assert_eq!(a.n, 4);
    assert_eq!(b.n, 2);
    let ia = a.id().unwrap();
    let ib = b.id().unwrap();
    assert!(ib.0 > ia.0);
    assert_eq!(ctx.traces.len(), 2);
    assert_eq!(ctx.traces[1], Trace::Choose(ib, Val::Val(0), Val::Id(ia), 2));
    assert_eq!(ctx.traces[1].id(), ib);
    assert!(TrUsize::choose_between(0.into(), 5.into(), &mut ctx).is_err());
    assert_eq!(b.decr().n, 1);
    assert_eq!(b.decr().id, b.id);
    assert_eq!(b.lift_back(), 2);
}

#[test]
fn weighted_pick_follows_running_totals() {
    let weights = vec![2, 0, 3];
    for (k, expected) in [(0, 0), (1, 0), (2, 2), (4, 2)] {
        let mut ctx = TraceContext::replay(vec![k]);
        assert_eq!(freq(&weights, &mut ctx), Ok(expected));
    }
    let mut ctx = TraceContext::replay(vec![5]);
    assert_eq!(freq(&weights, &mut ctx), Err(TraceError::ReplayMismatch));
}

#[test]
fn random_depth_tree_is_capped() {
    for _ in 0..5 {
        let mut ctx = TraceContext::recording(RandomSource::new());
        let tree = TrTree::arbitrary(&mut ctx).unwrap().lift_back();
        assert!(depth(&tree) <= MAX_TRACED_DEPTH);
    }
}

#[test]
fn plain_trees_are_full_to_their_size() {
    let mut rng = RandomSource::new();
    let t = <Tree<usize> as Arbitrary>::generate(&mut rng, 3);
    fn full(t: &Tree<usize>, d: usize) -> bool {
        match t {
            Tree::Leaf(v) => d == 0 && *v <= 3,
            Tree::Node(v, l, r) => d > 0 && *v <= 3 && full(l, d - 1) && full(r, d - 1),
        }
    }
    assert!(full(&t, 3));
}

fn stamps(t: &TrTree, out: &mut Vec<u64>) {
    match t {
        TrTree::TrLeaf(id, _) => out.push(id.expect("every leaf is stamped").0),
        TrTree::TrNode(id, _, l, r) => {
            stamps(l, out);
            stamps(r, out);
            out.push(id.expect("every node is stamped").0);
        },
    }
}

#[test]
fn tree_nodes_carry_increasing_identities() {
    for _ in 0..10 {
        let mut ctx = TraceContext::recording(RandomSource::new());
        let tree = TrTree::arbitrary_sized(4.into(), &mut ctx).unwrap();
        let mut ids = vec![];
        stamps(&tree, &mut ids);
        assert!(ids.windows(2).all(|w| w[0] < w[1]));
        assert_eq!(*ids.last().unwrap(), ctx.last_id);
        let trace_ids: Vec<u64> = ctx.traces.iter().map(|t| t.id().0).collect();
        assert!(trace_ids.windows(2).all(|w| w[0] < w[1]));
    }
}

#[test]
fn generation_fails_only_when_identities_run_out() {
    let mut ctx = TraceContext::recording(RandomSource::new());
    ctx.last_id = u64::MAX - 2;
    assert_eq!(TrTree::arbitrary_sized(0.into(), &mut ctx).err(), Some(TraceError::IdsExhausted));
    let mut roomy = TraceContext::recording(RandomSource::new());
    roomy.last_id = u64::MAX - 3;
    assert!(TrTree::arbitrary_sized(0.into(), &mut roomy).is_ok());
}
