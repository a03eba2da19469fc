use crabcheck::quickcheck::{quickcheck, ResultStatus};

#[derive(Debug, Clone)]
enum Bst {
    E,
    T(Box<Bst>, i32, i32, Box<Bst>),
}

fn insert(k: i32, v: i32, t: Bst) -> Bst {
    match t {
        Bst::E => Bst::T(Box::new(Bst::E), k, v, Box::new(Bst::E)),
        Bst::T(l, k2, v2, r) => {
            if k < k2 {
                Bst::T(Box::new(insert(k, v, *l)), k2, v2, r)
            } else if k2 < k {
                Bst::T(l, k2, v2, Box::new(insert(k, v, *r)))
            } else {
                Bst::T(l, k2, v, r)
            }
        },
    }
}

fn insert_forgetful(k: i32, v: i32, t: Bst) -> Bst {
    match t {
        Bst::E => Bst::T(Box::new(Bst::E), k, v, Box::new(Bst::E)),
        Bst::T(..) => Bst::T(Box::new(Bst::E), k, v, Box::new(Bst::E)),
    }
}

fn join(l: Bst, r: Bst) -> Bst {
    match (l, r) {
        (Bst::E, r) => r,
        (l, Bst::E) => l,
        (Bst::T(l1, k1, v1, r1), Bst::T(l2, k2, v2, r2)) => {
            Bst::T(l1, k1, v1, Box::new(Bst::T(Box::new(join(*r1, *l2)), k2, v2, r2)))
        },
    }
}

fn delete(k: i32, t: Bst) -> Bst {
    match t {
        Bst::E => Bst::E,
        Bst::T(l, k2, v2, r) => {
            if k < k2 {
                Bst::T(Box::new(delete(k, *l)), k2, v2, r)
            } else if k2 < k {
                Bst::T(l, k2, v2, Box::new(delete(k, *r)))
            } else {
                join(*l, *r)
            }
        },
    }
}

fn delete_swapped(k: i32, t: Bst) -> Bst {
    match t {
        Bst::E => Bst::E,
        Bst::T(l, k2, v2, r) => {
            if k2 < k {
                Bst::T(Box::new(delete_swapped(k, *l)), k2, v2, r)
            } else if k < k2 {
                Bst::T(l, k2, v2, Box::new(delete_swapped(k, *r)))
            } else {
                join(*l, *r)
            }
        },
    }
}

fn union_spliced(l: Bst, r: Bst) -> Bst {
    match (l, r) {
        (Bst::E, r) => r,
        (l, Bst::E) => l,
        (Bst::T(l1, k1, v1, r1), Bst::T(l2, k2, v2, r2)) => {
            Bst::T(l1, k1, v1, Box::new(Bst::T(Box::new(union_spliced(*r1, *l2)), k2, v2, r2)))
        },
    }
}

fn find(k: i32, t: &Bst) -> Option<i32> {
    match t {
        Bst::E => None,
        Bst::T(l, k2, v2, r) => {
            if k < *k2 {
                find(k, l)
            } else if *k2 < k {
                find(k, r)
            } else {
                Some(*v2)
            }
        },
    }
}

fn keys(t: &Bst, out: &mut Vec<i32>) {
    if let Bst::T(l, k, _, r) = t {
        keys(l, out);
        out.push(*k);
        keys(r, out);
    }
}

fn is_bst(t: &Bst) -> bool {
    let mut ks = vec![];
    keys(t, &mut ks);
    ks.windows(2).all(|w| w[0] < w[1])
}

fn build(pairs: &[(i32, i32)]) -> Bst {
    pairs.iter().fold(Bst::E, |t, (k, v)| insert(*k, *v, t))
}

fn insert_post(ins: fn(i32, i32, Bst) -> Bst, pairs: Vec<(i32, i32)>, k: i32, v: i32) -> Option<bool> {
    let t = build(&pairs);
    let t2 = ins(k, v, t.clone());
    let mut probe: Vec<i32> = pairs.iter().map(|p| p.0).collect();
    probe.push(k);
    Some(
        is_bst(&t)
            && probe
                .iter()
                .all(|&k2| find(k2, &t2) == if k2 == k { Some(v) } else { find(k2, &t) }),
    )
}

fn delete_post(del: fn(i32, Bst) -> Bst, pairs: Vec<(i32, i32)>, pick: usize) -> Option<bool> {
    if pairs.is_empty() {
        return None;
    }
    let k = pairs[pick % pairs.len()].0;
    let t = build(&pairs);
    let t2 = del(k, t.clone());
    Some(pairs.iter().all(|&(k2, _)| find(k2, &t2) == if k2 == k { None } else { find(k2, &t) }))
}

fn union_valid(un: fn(Bst, Bst) -> Bst, a: Vec<(i32, i32)>, b: Vec<(i32, i32)>) -> Option<bool> {
    let (t1, t2) = (build(&a), build(&b));
    Some(is_bst(&un(t1, t2)))
}

fn union_correct(l: Bst, r: Bst) -> Bst {
    let mut ks = vec![];
    keys(&r, &mut ks);
    ks.iter().fold(l, |t, k| match find(*k, &t) {
        Some(_) => t,
        None => {
            let v = find(*k, &r).unwrap();
            insert(*k, v, t)
        },
    })
}

#[test]
fn inserted_key_is_found_with_its_value() {
    let result = quickcheck(|(pairs, k, v): (Vec<(i32, i32)>, i32, i32)| {
        Some(find(k, &insert(k, v, build(&pairs))) == Some(v))
    });
    assert_eq!(result.status, ResultStatus::Finished);
    assert_eq!(result.passed, 100);
}

#[test]
fn deleted_key_is_absent() {
    let result = quickcheck(|(pairs, k): (Vec<(i32, i32)>, i32)| {
        Some(find(k, &delete(k, build(&pairs))).is_none())
    });
    assert_eq!(result.status, ResultStatus::Finished);
}

#[test]
fn correct_operations_pass() {
    let ins = quickcheck(|(p, k, v): (Vec<(i32, i32)>, i32, i32)| insert_post(insert, p, k, v));
    assert_eq!(ins.status, ResultStatus::Finished);
    let del = quickcheck(|(p, i): (Vec<(i32, i32)>, usize)| delete_post(delete, p, i));
    assert_eq!(del.status, ResultStatus::Finished);
    let un = quickcheck(|(a, b): (Vec<(i32, i32)>, Vec<(i32, i32)>)| union_valid(union_correct, a, b));
    assert_eq!(un.status, ResultStatus::Finished);
}

#[test]
fn forgetful_insert_is_falsified() {
    let result =
        quickcheck(|(p, k, v): (Vec<(i32, i32)>, i32, i32)| insert_post(insert_forgetful, p, k, v));
    assert!(matches!(result.status, ResultStatus::Failed { .. }));
}

#[test]
fn swapped_delete_is_falsified() {
    let result = quickcheck(|(p, i): (Vec<(i32, i32)>, usize)| delete_post(delete_swapped, p, i));
    assert!(matches!(result.status, ResultStatus::Failed { .. }));
}

#[test]
fn spliced_union_is_falsified() {
    let result =
        quickcheck(|(a, b): (Vec<(i32, i32)>, Vec<(i32, i32)>)| union_valid(union_spliced, a, b));
    assert!(matches!(result.status, ResultStatus::Failed { .. }));
}
