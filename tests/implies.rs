use crabcheck::quickcheck::Implies;

#[test]
fn false_antecedent_discards() {
    assert_eq!(false.implies(true), None);
    assert_eq!(false.implies(false), None);
    assert_eq!(false.implies(Some(true)), None);
    assert_eq!(false.implies(None::<bool>), None);
    assert_eq!(Some(false).implies(true), None);
    assert_eq!(Some(false).implies(Some(false)), None);
}

#[test]
fn true_antecedent_passes_consequent_on() {
    assert_eq!(true.implies(true), Some(true));
    assert_eq!(true.implies(false), Some(false));
    assert_eq!(true.implies(None::<bool>), None);
    assert_eq!(Some(true).implies(false), Some(false));
    assert_eq!(Some(true).implies(Some(true)), Some(true));
    assert_eq!(Some(true).implies(None::<bool>), None);
}

#[test]
fn discarded_antecedent_acts_as_false() {
    for b in [Some(true), Some(false), None] {
        assert_eq!(None::<bool>.implies(b), Some(false).implies(b));
    }
    assert_eq!(None::<bool>.implies(true), None);
}
