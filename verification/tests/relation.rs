use pigs_fly::labels::LabelSet;
use pigs_fly::relation::Relation;

fn relation(from: &[&str], to: &[&str]) -> Relation {
    Relation::new(LabelSet::from_strs(from), LabelSet::from_strs(to))
}

#[test]
fn new_keeps_both_sets() {
    let r = relation(&["PIGS", "PINK"], &["WINGS"]);
    assert!(r.premises().same_labels(&LabelSet::from_strs(&["PINK", "PIGS"])));
    assert!(r.conclusions().same_labels(&LabelSet::from_strs(&["WINGS"])));
}

#[test]
fn matches_compares_premises() {
    let a = relation(&["A"], &["X"]);
    let b = relation(&["A", "B"], &["Y"]);
    assert!(a.matches(&b));
    assert!(!b.matches(&a));
    let none = relation(&[], &["Z"]);
    assert!(none.matches(&a));
    assert!(!a.matches(&none));
}

#[test]
fn cascades_compares_conclusions_with_a_premise() {
    let a = relation(&["PIGS"], &["WINGS", "TAIL"]);
    let b = relation(&["WINGS"], &["FLY"]);
    let c = relation(&["WINGS", "BEAK"], &["SING"]);
    assert!(a.cascades(&b));
    assert!(!b.cascades(&a));
    assert!(!a.cascades(&c));
    let none = relation(&[], &["Z"]);
    assert!(a.cascades(&none));
}

#[test]
fn extend_unions_conclusions_and_keeps_the_premise() {
    let mut target = relation(&["PIGS"], &["WINGS"]);
    let source = relation(&["WINGS"], &["FLY", "WINGS"]);
    assert!(target.extend(&source));
    assert!(target.premises().same_labels(&LabelSet::from_strs(&["PIGS"])));
    assert!(target.conclusions().same_labels(&LabelSet::from_strs(&["WINGS", "FLY"])));
    assert!(source.conclusions().same_labels(&LabelSet::from_strs(&["WINGS", "FLY"])));
}

#[test]
fn extend_twice_changes_only_once() {
    let mut target = relation(&["PIGS"], &["WINGS"]);
    let source = relation(&["WINGS"], &["FLY"]);
    assert!(target.extend(&source));
    let after_first = target.conclusions().duplicate();
    assert!(!target.extend(&source));
    assert!(target.conclusions().same_labels(&after_first));
}

#[test]
fn extend_with_nothing_new_reports_no_change() {
    let mut target = relation(&["A"], &["X", "Y"]);
    assert!(!target.extend(&relation(&["B"], &["Y"])));
    assert!(!target.extend(&relation(&["B"], &[])));
    assert_eq!(target.conclusions().len(), 2);
}

#[test]
fn can_fly_direct_rule_holds_in_both_readings() {
    let r = relation(&["PIGS"], &["FLY"]);
    assert!(r.can_fly(true));
    assert!(r.can_fly(false));
}

#[test]
fn can_fly_by_conclusions_alone_holds_for_some_only() {
    let r = relation(&["BIRDS"], &["PIGS", "FLY"]);
    assert!(!r.can_fly(true));
    assert!(r.can_fly(false));
}

#[test]
fn can_fly_needs_flight_among_the_conclusions() {
    assert!(!relation(&["PIGS"], &["WINGS"]).can_fly(true));
    assert!(!relation(&["PIGS"], &["WINGS"]).can_fly(false));
    assert!(!relation(&["FLY"], &["PIGS"]).can_fly(false));
    assert!(!relation(&["PIGS", "FLY"], &[]).can_fly(false));
    assert!(!relation(&["pigs"], &["FLY"]).can_fly(false));
    assert!(relation(&["PIGS", "PINK"], &["FLY", "WINGS"]).can_fly(true));
}

#[test]
fn duplicate_states_the_same() {
    let r = relation(&["A"], &["X"]);
    let mut copy = r.duplicate();
    copy.extend(&relation(&["B"], &["Y"]));
    assert_eq!(r.conclusions().len(), 1);
    assert_eq!(copy.conclusions().len(), 2);
    assert!(copy.premises().same_labels(r.premises()));
}
