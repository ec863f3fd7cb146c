use pigs_fly::labels::LabelSet;
use pigs_fly::parse::{read_relation, states_relation};
use pigs_fly::relation::Relation;
use pigs_fly::verdict::{solve, verdict, Verdict};

fn lines(text: &[&str]) -> Vec<String> {
    text.iter().map(|line| format!("{}\n", line)).collect()
}

fn fact(from: &[&str], to: &[&str]) -> Relation {
    Relation::new(LabelSet::from_strs(from), LabelSet::from_strs(to))
}

#[test]
fn pigs_with_wings_all_fly() {
    let input = lines(&["PIGS have WINGS", "things with WINGS can FLY"]);
    let verdict = solve("2\n", &input).unwrap();
    assert_eq!(verdict, Verdict::AllPigs);
    assert_eq!(verdict.message(), "All pigs can fly");
}

#[test]
fn pigs_with_wings_learn_to_fly_by_cascade() {
    assert!(states_relation("PIGS have WINGS"));
    assert!(states_relation("things with WINGS can FLY"));
    let first = read_relation("PIGS have WINGS");
    let second = read_relation("things with WINGS can FLY");
    assert!(!first.matches(&second));
    assert!(!second.matches(&first));
    assert!(first.cascades(&second));
    let mut first = first;
    assert!(first.extend(&second));
    assert!(first.premises().same_labels(&LabelSet::from_strs(&["PIGS"])));
    assert!(first.conclusions().same_labels(&LabelSet::from_strs(&["WINGS", "FLY"])));
    assert!(first.can_fly(true));
}

#[test]
fn cats_with_claws_say_nothing_of_pigs() {
    let input = lines(&["CATS have CLAWS"]);
    let verdict = solve("1\n", &input).unwrap();
    assert_eq!(verdict, Verdict::NoPigs);
    assert_eq!(verdict.message(), "No pigs can fly");
}

#[test]
fn hooved_things_make_some_pigs_fly() {
    let input = lines(&["things with HOOVES are PIGS with FLY"]);
    assert!(states_relation(&input[0]));
    let relation = read_relation(&input[0]);
    assert!(relation.premises().same_labels(&LabelSet::from_strs(&["HOOVES"])));
    assert!(relation.conclusions().same_labels(&LabelSet::from_strs(&["PIGS", "FLY"])));
    assert!(!relation.can_fly(true));
    assert!(relation.can_fly(false));
    let verdict = solve("1\n", &input).unwrap();
    assert_eq!(verdict, Verdict::SomePigs);
    assert_eq!(verdict.message(), "Some pigs can fly");
}

#[test]
fn verdict_prefers_the_stronger_claim() {
    assert_eq!(
        verdict(vec![fact(&["PIGS"], &["FLY"]), fact(&["BIRDS"], &["PIGS", "FLY"])]),
        Verdict::AllPigs
    );
    assert_eq!(verdict(vec![fact(&["BIRDS"], &["PIGS", "FLY"])]), Verdict::SomePigs);
    assert_eq!(verdict(vec![fact(&["BIRDS"], &["FLY"])]), Verdict::NoPigs);
    assert_eq!(verdict(Vec::new()), Verdict::NoPigs);
}

#[test]
fn verdict_messages_are_the_three_sentences() {
    assert_eq!(Verdict::AllPigs.message(), "All pigs can fly");
    assert_eq!(Verdict::SomePigs.message(), "Some pigs can fly");
    assert_eq!(Verdict::NoPigs.message(), "No pigs can fly");
}

#[test]
fn solve_follows_a_longer_chain() {
    let input = lines(&[
        "things with WINGS and FEATHERS can FLY",
        "PIGS are PINK with SNOUTS",
        "things that can OINK have FEATHERS",
        "PINK things have WINGS",
        "things with SNOUTS can OINK",
    ]);
    assert_eq!(solve("5", &input), None);
    let input = lines(&[
        "things with WINGS and FEATHERS can FLY",
        "PIGS are PINK with SNOUTS",
        "things that can OINK have FEATHERS",
        "things with PINK have WINGS",
        "things with SNOUTS can OINK",
    ]);
    assert_eq!(solve("5", &input), Some(Verdict::AllPigs));
    assert_eq!(solve("4", &input), Some(Verdict::NoPigs));
}

#[test]
fn solve_rejects_malformed_input() {
    let input = lines(&["PIGS have WINGS", "PIGS fly"]);
    assert_eq!(solve("two", &input), None);
    assert_eq!(solve("", &input), None);
    assert_eq!(solve("2", &input), None);
    assert_eq!(solve("1", &input), Some(Verdict::NoPigs));
}

#[test]
fn solve_wants_as_many_statements_as_the_count_says() {
    assert_eq!(solve("3", &lines(&["PIGS can FLY"])), None);
    assert_eq!(solve("1", &lines(&["PIGS can FLY"])), Some(Verdict::AllPigs));
    assert_eq!(solve("2", &lines(&["PIGS can FLY", ""])), None);
    assert_eq!(solve("1", &Vec::new()), None);
    assert_eq!(solve("0", &Vec::new()), Some(Verdict::NoPigs));
}
