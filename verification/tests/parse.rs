use pigs_fly::labels::LabelSet;
use pigs_fly::parse::{
    count_from, gives_count, has_conclusion, has_premise, parse_count, parse_decimal, parse_from,
    parse_relation, parse_to, read_relation, read_relations, states_relation, Tokens,
};

fn tokens(words: &[&str]) -> Tokens {
    Tokens::new(words.iter().map(|w| w.to_string()).collect())
}

fn left(tokens: &mut Tokens) -> Vec<String> {
    let mut rest = Vec::new();
    while let Some(word) = tokens.next() {
        rest.push(word);
    }
    rest
}

fn set(labels: &[&str]) -> LabelSet {
    LabelSet::from_strs(labels)
}

fn count_on(line: &str) -> Option<usize> {
    if gives_count(line) {
        Some(parse_count(line))
    } else {
        None
    }
}

#[test]
fn tokens_come_out_in_order() {
    let mut t = tokens(&["a", "b"]);
    assert!(!t.is_empty());
    assert_eq!(t.next(), Some("a".to_string()));
    assert_eq!(t.take(), "b");
    assert!(t.is_empty());
    assert_eq!(t.next(), None);
    assert_eq!(t.next(), None);
}

#[test]
fn split_cuts_at_any_white_space() {
    let mut t = Tokens::split("  PIGS \t have\u{a0}WINGS\r\n");
    assert_eq!(left(&mut t), vec!["PIGS", "have", "WINGS"]);
    let mut none = Tokens::split(" \n");
    assert_eq!(none.next(), None);
}

#[test]
fn parse_from_stops_after_the_connector() {
    let mut t = tokens(&["PIGS", "have", "WINGS", "and", "TAILS"]);
    assert!(has_premise(&t));
    let from = parse_from(&mut t);
    assert!(from.same_labels(&set(&["PIGS"])));
    assert_eq!(left(&mut t), vec!["WINGS", "and", "TAILS"]);
}

#[test]
fn parse_from_takes_each_connector() {
    for connector in ["are", "have", "can"] {
        let mut t = tokens(&["A", connector, "B"]);
        assert!(has_premise(&t));
        assert!(parse_from(&mut t).same_labels(&set(&["A"])));
        assert_eq!(left(&mut t), vec!["B"]);
    }
}

#[test]
fn parse_from_joins_labels() {
    let mut t = tokens(&["A", "with", "B", "and", "C", "that", "can", "D", "are", "E"]);
    assert!(has_premise(&t));
    let from = parse_from(&mut t);
    assert!(from.same_labels(&set(&["A", "B", "C", "D"])));
    assert_eq!(left(&mut t), vec!["E"]);
}

#[test]
fn parse_from_leaves_out_the_word_things() {
    let mut t = tokens(&["things", "with", "WINGS", "can", "FLY"]);
    assert!(has_premise(&t));
    let from = parse_from(&mut t);
    assert!(from.same_labels(&set(&["WINGS"])));
    assert_eq!(left(&mut t), vec!["FLY"]);
    let mut only = tokens(&["things", "are", "NICE"]);
    assert!(has_premise(&only));
    assert!(parse_from(&mut only).is_empty());
}

#[test]
fn parse_from_counts_a_repeated_label_once() {
    let mut t = tokens(&["A", "and", "A", "are", "B"]);
    let from = parse_from(&mut t);
    assert_eq!(from.len(), 1);
    assert!(from.contains("A"));
}

#[test]
fn parse_from_takes_a_keyword_in_the_place_of_a_label() {
    let mut t = tokens(&["are", "are", "with"]);
    assert!(has_premise(&t));
    let from = parse_from(&mut t);
    assert!(from.same_labels(&set(&["are"])));
    assert_eq!(left(&mut t), vec!["with"]);
}

#[test]
fn a_premise_ends_with_the_word_that_ends_it() {
    assert!(has_premise(&tokens(&["PIGS", "have"])));
    assert!(has_premise(&tokens(&["PIGS", "that", "can", "OINK", "have"])));
    let mut t = tokens(&["PIGS", "have"]);
    assert!(parse_from(&mut t).same_labels(&set(&["PIGS"])));
    assert!(t.is_empty());
}

#[test]
fn words_that_run_out_are_no_premise() {
    assert!(!has_premise(&tokens(&[])));
    assert!(!has_premise(&tokens(&["PIGS"])));
    assert!(!has_premise(&tokens(&["PIGS", "with"])));
    assert!(!has_premise(&tokens(&["PIGS", "and", "COWS"])));
    assert!(!has_premise(&tokens(&["PIGS", "that"])));
    assert!(!has_premise(&tokens(&["PIGS", "that", "can"])));
    assert!(!has_premise(&tokens(&["PIGS", "with", "WINGS"])));
}

#[test]
fn other_words_between_traits_are_no_premise() {
    assert!(!has_premise(&tokens(&["PIGS", "eat", "CORN"])));
    assert!(!has_premise(&tokens(&["PIGS", "that", "have", "WINGS"])));
    assert!(!has_premise(&tokens(&["PIGS", "Have", "WINGS"])));
    assert!(!has_premise(&tokens(&["PIGS", "with", "WINGS", "eat", "CORN"])));
}

#[test]
fn has_premise_looks_from_where_the_words_stand() {
    let mut t = tokens(&["x", "PIGS", "have", "WINGS"]);
    assert!(!has_premise(&t));
    t.take();
    assert!(has_premise(&t));
    assert_eq!(left(&mut t), vec!["PIGS", "have", "WINGS"]);
}

#[test]
fn parse_to_reads_all_the_words() {
    assert!(parse_to(tokens(&["FLY"])).same_labels(&set(&["FLY"])));
    let long = ["A", "with", "B", "and", "C", "that", "can", "D"];
    assert!(has_conclusion(&tokens(&long)));
    assert!(parse_to(tokens(&long)).same_labels(&set(&["A", "B", "C", "D"])));
}

#[test]
fn parse_to_takes_no_words_as_an_empty_conclusion() {
    assert!(has_conclusion(&tokens(&[])));
    assert!(parse_to(tokens(&[])).is_empty());
}

#[test]
fn parse_to_keeps_the_word_things() {
    assert!(has_conclusion(&tokens(&["things", "with", "WINGS"])));
    assert!(parse_to(tokens(&["things", "with", "WINGS"])).same_labels(&set(&["things", "WINGS"])));
}

#[test]
fn words_that_run_out_after_a_joiner_are_no_conclusion() {
    assert!(!has_conclusion(&tokens(&["A", "and"])));
    assert!(!has_conclusion(&tokens(&["A", "with", "B", "with"])));
    assert!(!has_conclusion(&tokens(&["A", "that"])));
    assert!(!has_conclusion(&tokens(&["A", "that", "can"])));
}

#[test]
fn other_words_between_traits_are_no_conclusion() {
    assert!(!has_conclusion(&tokens(&["A", "B"])));
    assert!(!has_conclusion(&tokens(&["WINGS", "are", "BIRDS"])));
    assert!(!has_conclusion(&tokens(&["A", "have", "B"])));
    assert!(!has_conclusion(&tokens(&["A", "can", "B"])));
    assert!(!has_conclusion(&tokens(&["A", "that", "B"])));
    assert!(!has_conclusion(&tokens(&["A", "and", "B", "C"])));
}

#[test]
fn parse_relation_reads_premise_and_conclusion() {
    let r = parse_relation(tokens(&["PIGS", "and", "COWS", "have", "LEGS", "with", "HOOVES"]))
        .unwrap();
    assert!(r.premises().same_labels(&set(&["PIGS", "COWS"])));
    assert!(r.conclusions().same_labels(&set(&["LEGS", "HOOVES"])));
    let bare = parse_relation(tokens(&["PIGS", "have"])).unwrap();
    assert!(bare.premises().same_labels(&set(&["PIGS"])));
    assert!(bare.conclusions().is_empty());
}

#[test]
fn parse_relation_rejects_what_is_no_statement() {
    assert!(parse_relation(tokens(&[])).is_none());
    assert!(parse_relation(tokens(&["PIGS"])).is_none());
    assert!(parse_relation(tokens(&["PIGS", "with"])).is_none());
    assert!(parse_relation(tokens(&["PIGS", "have", "LEGS", "HOOVES"])).is_none());
    assert!(parse_relation(tokens(&["PIGS", "have", "LEGS", "and"])).is_none());
    assert!(parse_relation(tokens(&["PIGS", "eat", "CORN"])).is_none());
}

#[test]
fn read_relation_splits_the_line_into_words() {
    assert!(states_relation("PIGS have WINGS\n"));
    let r = read_relation("PIGS have WINGS\n");
    assert!(r.premises().same_labels(&set(&["PIGS"])));
    assert!(r.conclusions().same_labels(&set(&["WINGS"])));
    assert!(states_relation("\tthings with HOOVES   are PIGS with FLY"));
    let s = read_relation("\tthings with HOOVES   are PIGS with FLY");
    assert!(s.premises().same_labels(&set(&["HOOVES"])));
    assert!(s.conclusions().same_labels(&set(&["PIGS", "FLY"])));
}

#[test]
fn a_blank_line_is_no_statement() {
    assert!(!states_relation(""));
    assert!(!states_relation("   \n"));
    assert!(!states_relation("\n"));
}

#[test]
fn a_malformed_line_is_no_statement() {
    assert!(!states_relation("PIGS"));
    assert!(!states_relation("PIGS fly high"));
    assert!(!states_relation("PIGS have WINGS FLY"));
    assert!(!states_relation("PIGS,have,WINGS"));
    assert!(!states_relation("PIGS with"));
    assert!(!states_relation("PIGS have WINGS and"));
    assert!(states_relation("PIGS have"));
}

#[test]
fn parse_decimal_reads_digits_with_an_optional_plus() {
    assert_eq!(parse_decimal("0"), Some(0));
    assert_eq!(parse_decimal("7"), Some(7));
    assert_eq!(parse_decimal("1234"), Some(1234));
    assert_eq!(parse_decimal("+42"), Some(42));
    assert_eq!(parse_decimal("0012"), Some(12));
    assert_eq!(parse_decimal(&usize::MAX.to_string()), Some(usize::MAX));
}

#[test]
fn parse_decimal_agrees_with_the_standard_parser() {
    let max = usize::MAX.to_string();
    let over = format!("{}0", usize::MAX);
    let words = [
        "", "+", "-", "0", "+0", "-0", "12", "+12", "++12", "-12", "1_000", "12a", "a12", " 12",
        "12 ", "1.5", "0x10", "\u{661}\u{662}", "99999999999999999999999999", &max, &over,
    ];
    for word in words {
        assert_eq!(parse_decimal(word), word.parse::<usize>().ok());
    }
}

#[test]
fn parse_decimal_rejects_a_number_that_does_not_fit() {
    let digits = usize::MAX.to_string();
    let mut next = digits.clone().into_bytes();
    let last = next.len() - 1;
    next[last] += 1;
    assert_eq!(parse_decimal(&String::from_utf8(next).unwrap()), None);
    assert_eq!(parse_decimal(&format!("{}0", digits)), None);
}

#[test]
fn count_from_wants_one_word() {
    assert_eq!(count_from(tokens(&["3"])), Some(3));
    assert_eq!(count_from(tokens(&[])), None);
    assert_eq!(count_from(tokens(&["3", "4"])), None);
    assert_eq!(count_from(tokens(&["three"])), None);
}

#[test]
fn parse_count_ignores_white_space_around_the_number() {
    assert!(gives_count("2\n"));
    assert_eq!(parse_count("2\n"), 2);
    assert!(gives_count("  17 \r\n"));
    assert_eq!(parse_count("  17 \r\n"), 17);
    assert_eq!(parse_count("+5"), 5);
    assert_eq!(parse_count("0"), 0);
}

#[test]
fn a_line_without_a_number_gives_no_count() {
    assert!(!gives_count(""));
    assert!(!gives_count("\n"));
    assert!(!gives_count("1 2"));
    assert!(!gives_count("-1"));
    assert!(!gives_count("two"));
    assert!(!gives_count("2 PIGS"));
}

#[test]
fn parse_count_agrees_with_trimming_and_the_standard_parser() {
    for line in ["3", " 3", "3 \n", "\t+3\t", "3 3", " ", "", "x", "3\u{2003}", "\u{a0}9"] {
        assert_eq!(count_on(line), line.trim().parse::<usize>().ok());
    }
}

#[test]
fn read_relations_reads_as_many_lines_as_asked() {
    let lines = vec![
        "PIGS have WINGS\n".to_string(),
        "things with WINGS can FLY\n".to_string(),
        "this line is never read".to_string(),
    ];
    let relations = read_relations(2, &lines).unwrap();
    assert_eq!(relations.len(), 2);
    assert!(relations[0].premises().same_labels(&set(&["PIGS"])));
    assert!(relations[0].conclusions().same_labels(&set(&["WINGS"])));
    assert!(relations[1].premises().same_labels(&set(&["WINGS"])));
    assert!(relations[1].conclusions().same_labels(&set(&["FLY"])));
    assert!(read_relations(0, &lines).unwrap().is_empty());
    assert!(read_relations(3, &lines).is_none());
}

#[test]
fn read_relations_wants_as_many_lines_as_asked() {
    let lines = vec!["CATS have CLAWS".to_string()];
    assert_eq!(read_relations(1, &lines).unwrap().len(), 1);
    assert!(read_relations(2, &lines).is_none());
    assert!(read_relations(3, &lines).is_none());
    assert!(read_relations(1, &Vec::new()).is_none());
    assert!(read_relations(0, &Vec::new()).unwrap().is_empty());
}

#[test]
fn read_relations_rejects_a_blank_line_among_the_statements() {
    let lines = vec!["CATS have CLAWS".to_string(), "\n".to_string(), "PIGS can FLY".to_string()];
    assert!(read_relations(1, &lines).is_some());
    assert!(read_relations(2, &lines).is_none());
    assert!(read_relations(3, &lines).is_none());
}
