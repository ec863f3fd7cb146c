//! Reading statements: a line of words becomes a relation.
//!
//! A statement names the traits of its premise, then one of the words `are`,
//! `have` or `can`, then the traits that it concludes. Within either group
//! the traits are joined by `with`, `and` or `that can`. In a premise the
//! word `things` stands for any object and names no trait. A premise names at
//! least one word, so a blank line is no statement; a conclusion may be
//! empty.
//!
//! The functions that read a premise, a conclusion, a statement line or a
//! count line take well-formed input only, and each has a test beside it
//! that says whether the input is well formed. [`parse_relation`],
//! [`count_from`] and [`read_relations`] make the test themselves and answer
//! `None` where it fails.

use vstd::prelude::*;
use vstd::string::StrSliceExecFns;
use crate::labels::{words, LabelSet};
use crate::relation::{all_wf, facts, Relation, RelationView};

verus! {

/// The words of a line: its maximal runs of characters that are not white
/// space, in order.
pub uninterp spec fn whitespace_tokens(line: Seq<char>) -> Seq<Seq<char>>;

/// Calls `str::split_whitespace` and copies the pieces that it yields, in
/// order. The contract names the result and claims nothing else: what counts
/// as white space is left to the standard library.
#[verifier::external_body]
fn split_whitespace(line: &str) -> (tokens: Vec<String>)
    ensures
        words(tokens@) == whitespace_tokens(line@),
{
    let mut tokens: Vec<String> = Vec::new();
    for token in line.split_whitespace() {
        tokens.push(token.to_owned());
    }
    tokens
}

/// Whether `word` joins two traits of one group.
pub open spec fn is_joiner(word: Seq<char>) -> bool {
    word == "with"@ || word == "and"@
}

/// Whether `word` ends the premise.
pub open spec fn is_connector(word: Seq<char>) -> bool {
    word == "are"@ || word == "have"@ || word == "can"@
}

/// The traits that a word in the place of a premise trait names.
pub open spec fn premise_label(word: Seq<char>) -> Set<Seq<char>> {
    if word == "things"@ {
        Set::empty()
    } else {
        set![word]
    }
}

/// `labels` ahead of what the rest of a premise gave.
pub open spec fn with_premise(
    labels: Set<Seq<char>>,
    rest: Option<(Set<Seq<char>>, Seq<Seq<char>>)>,
) -> Option<(Set<Seq<char>>, Seq<Seq<char>>)> {
    match rest {
        Some((more, after)) => Some((labels.union(more), after)),
        None => None,
    }
}

/// `labels` ahead of what the rest of a list of traits gave.
pub open spec fn with_listed(labels: Set<Seq<char>>, rest: Option<Set<Seq<char>>>) -> Option<
    Set<Seq<char>>,
> {
    match rest {
        Some(more) => Some(labels.union(more)),
        None => None,
    }
}

/// The premise at the head of `tokens`: its traits, and the tokens after the
/// word that ends it. A premise is a word in the place of a trait, then
/// either a joiner and the rest of the premise, or the word that ends it.
/// Tokens that run out before the word that ends the premise are no premise:
/// not at the start, not after a trait and not after a joiner.
pub open spec fn premise(tokens: Seq<Seq<char>>) -> Option<(Set<Seq<char>>, Seq<Seq<char>>)>
    decreases tokens.len(),
{
    if tokens.len() < 2 {
        None
    } else if is_joiner(tokens[1]) {
        with_premise(premise_label(tokens[0]), premise(tokens.skip(2)))
    } else if tokens[1] == "that"@ {
        if tokens.len() >= 3 && tokens[2] == "can"@ {
            with_premise(premise_label(tokens[0]), premise(tokens.skip(3)))
        } else {
            None
        }
    } else if is_connector(tokens[1]) {
        Some((premise_label(tokens[0]), tokens.skip(2)))
    } else {
        None
    }
}

/// The traits that `tokens` list in full: a trait, then either nothing more,
/// or a joiner and the rest of the list. Tokens that run out where a trait
/// would stand list nothing, and neither does anything else.
pub open spec fn listed(tokens: Seq<Seq<char>>) -> Option<Set<Seq<char>>>
    decreases tokens.len(),
{
    if tokens.len() == 0 {
        None
    } else if tokens.len() == 1 {
        Some(set![tokens[0]])
    } else if is_joiner(tokens[1]) {
        with_listed(set![tokens[0]], listed(tokens.skip(2)))
    } else if tokens[1] == "that"@ {
        if tokens.len() >= 3 && tokens[2] == "can"@ {
            with_listed(set![tokens[0]], listed(tokens.skip(3)))
        } else {
            None
        }
    } else {
        None
    }
}

/// The traits of the conclusion that `tokens` spell in full: no tokens at all
/// conclude nothing, and other tokens conclude the traits that they list.
pub open spec fn conclusion(tokens: Seq<Seq<char>>) -> Option<Set<Seq<char>>> {
    if tokens.len() == 0 {
        Some(Set::empty())
    } else {
        listed(tokens)
    }
}

/// The relation that `tokens` state: a premise, then a conclusion made of all
/// the tokens after it.
pub open spec fn statement(tokens: Seq<Seq<char>>) -> Option<RelationView> {
    match premise(tokens) {
        Some((from, rest)) => match conclusion(rest) {
            Some(to) => Some(RelationView { from, to }),
            None => None,
        },
        None => None,
    }
}

/// The words of a line, handed out one at a time from the front.
#[derive(Debug)]
pub struct Tokens {
    items: Vec<String>,
    taken: usize,
}

impl View for Tokens {
    type V = Seq<Seq<char>>;

    /// The words that are still to come.
    closed spec fn view(&self) -> Seq<Seq<char>> {
        words(self.items@).skip(self.taken as int)
    }
}

impl Tokens {
    /// No more words were taken than there are.
    pub closed spec fn wf(&self) -> bool {
        self.taken <= self.items.len()
    }

    /// The given words, none taken yet.
    pub fn new(items: Vec<String>) -> (tokens: Self)
        ensures
            tokens.wf(),
            tokens@ == words(items@),
    {
        let tokens = Tokens { items, taken: 0 };
        assert(tokens@ =~= words(items@));
        tokens
    }

    /// The words of `line`, none taken yet.
    pub fn split(line: &str) -> (tokens: Self)
        ensures
            tokens.wf(),
            tokens@ == whitespace_tokens(line@),
    {
        Tokens::new(split_whitespace(line))
    }

    /// Whether no word is left.
    pub fn is_empty(&self) -> (empty: bool)
        requires
            self.wf(),
        ensures
            empty == (self@.len() == 0),
    {
        self.taken == self.items.len()
    }

    /// Takes the next word, if one is left.
    pub fn next(&mut self) -> (token: Option<String>)
        requires
            old(self).wf(),
        ensures
            final(self).wf(),
            match token {
                Some(word) => old(self)@.len() > 0 && word@ == old(self)@[0] && final(self)@
                    == old(self)@.skip(1),
                None => old(self)@.len() == 0 && final(self)@ == old(self)@,
            },
    {
        if self.taken < self.items.len() {
            let word = self.items[self.taken].clone();
            self.taken = self.taken + 1;
            assert(self@ =~= old(self)@.skip(1));
            Some(word)
        } else {
            None
        }
    }

    /// Takes the next word, where one is left.
    pub fn take(&mut self) -> (word: String)
        requires
            old(self).wf(),
            old(self)@.len() > 0,
        ensures
            final(self).wf(),
            word@ == old(self)@[0],
            final(self)@ == old(self)@.skip(1),
    {
        let word = self.items[self.taken].clone();
        self.taken = self.taken + 1;
        assert(self@ =~= old(self)@.skip(1));
        word
    }
}

/// Whether the token spells `word`.
fn spells(token: &String, word: &str) -> (same: bool)
    ensures
        same == (token@ == word@),
{
    let owned = word.to_owned();
    *token == owned
}

/// Whether the words of `split` start with a premise.
pub fn has_premise(split: &Tokens) -> (ok: bool)
    requires
        split.wf(),
    ensures
        ok == premise(split@) is Some,
{
    let n = split.items.len();
    let mut i = split.taken;
    loop
        invariant
            n == split.items.len(),
            split.taken <= i <= n,
            premise(split@) is Some <==> premise(words(split.items@).skip(i as int)) is Some,
        decreases n - i,
    {
        let ghost rest = words(split.items@).skip(i as int);
        if n - i < 2 {
            return false;
        }
        assert(rest[1] == split.items[i + 1]@);
        let joint = &split.items[i + 1];
        if spells(joint, "with") || spells(joint, "and") {
            assert(rest.skip(2) =~= words(split.items@).skip(i + 2));
            i += 2;
        } else if spells(joint, "that") {
            if n - i < 3 {
                return false;
            }
            assert(rest[2] == split.items[i + 2]@);
            if !spells(&split.items[i + 2], "can") {
                return false;
            }
            assert(rest.skip(3) =~= words(split.items@).skip(i + 3));
            i += 3;
        } else {
            return spells(joint, "are") || spells(joint, "have") || spells(joint, "can");
        }
    }
}

/// Reads the premise at the head of `split` and leaves `split` after the word
/// that ends it.
pub fn parse_from(split: &mut Tokens) -> (from: LabelSet)
    requires
        old(split).wf(),
        premise(old(split)@) is Some,
    ensures
        final(split).wf(),
        from.wf(),
        premise(old(split)@) == Some((from@, final(split)@)),
{
    let mut from = LabelSet::new();
    loop
        invariant
            split.wf(),
            from.wf(),
            premise(split@) is Some,
            premise(old(split)@) == with_premise(from@, premise(split@)),
        decreases split@.len(),
    {
        let ghost ahead = split@;
        let ghost so_far = from@;
        let value = split.take();
        if !spells(&value, "things") {
            from.insert(value);
        }
        assert(from@ =~= so_far.union(premise_label(ahead[0])));
        let joint = split.take();
        assert(split@ =~= ahead.skip(2));
        if spells(&joint, "with") || spells(&joint, "and") {
            proof {
                if let Some((more, after)) = premise(ahead.skip(2)) {
                    assert(so_far.union(premise_label(ahead[0]).union(more)) =~= from@.union(more));
                }
            }
        } else if spells(&joint, "that") {
            let _ = split.take();
            proof {
                assert(split@ =~= ahead.skip(3));
                if let Some((more, after)) = premise(ahead.skip(3)) {
                    assert(so_far.union(premise_label(ahead[0]).union(more)) =~= from@.union(more));
                }
            }
        } else {
            return from;
        }
    }
}

/// Whether the words of `split` spell a conclusion in full.
pub fn has_conclusion(split: &Tokens) -> (ok: bool)
    requires
        split.wf(),
    ensures
        ok == conclusion(split@) is Some,
{
    let n = split.items.len();
    let mut i = split.taken;
    if i == n {
        return true;
    }
    loop
        invariant
            n == split.items.len(),
            split.taken <= i <= n,
            conclusion(split@) is Some <==> listed(words(split.items@).skip(i as int)) is Some,
        decreases n - i,
    {
        let ghost rest = words(split.items@).skip(i as int);
        if i == n {
            return false;
        }
        if n - i == 1 {
            return true;
        }
        assert(rest[1] == split.items[i + 1]@);
        let joint = &split.items[i + 1];
        if spells(joint, "with") || spells(joint, "and") {
            assert(rest.skip(2) =~= words(split.items@).skip(i + 2));
            i += 2;
        } else if spells(joint, "that") {
            if n - i < 3 {
                return false;
            }
            assert(rest[2] == split.items[i + 2]@);
            if !spells(&split.items[i + 2], "can") {
                return false;
            }
            assert(rest.skip(3) =~= words(split.items@).skip(i + 3));
            i += 3;
        } else {
            return false;
        }
    }
}

/// Reads the conclusion that the words of `split` spell in full.
pub fn parse_to(split: Tokens) -> (to: LabelSet)
    requires
        split.wf(),
        conclusion(split@) is Some,
    ensures
        to.wf(),
        conclusion(split@) == Some(to@),
{
    let mut left = split;
    let mut to = LabelSet::new();
    if left.is_empty() {
        return to;
    }
    proof {
        let whole = listed(split@);
        assert(to@.union(whole->0) =~= whole->0);
    }
    loop
        invariant
            left.wf(),
            to.wf(),
            listed(left@) is Some,
            conclusion(split@) == with_listed(to@, listed(left@)),
        decreases left@.len(),
    {
        let ghost ahead = left@;
        let ghost so_far = to@;
        let value = left.take();
        to.insert(value);
        assert(to@ =~= so_far.union(set![ahead[0]]));
        if left.is_empty() {
            return to;
        }
        let joint = left.take();
        assert(left@ =~= ahead.skip(2));
        if spells(&joint, "with") || spells(&joint, "and") {
            proof {
                if let Some(more) = listed(ahead.skip(2)) {
                    assert(so_far.union(set![ahead[0]].union(more)) =~= to@.union(more));
                }
            }
        } else {
            let _ = left.take();
            proof {
                assert(left@ =~= ahead.skip(3));
                if let Some(more) = listed(ahead.skip(3)) {
                    assert(so_far.union(set![ahead[0]].union(more)) =~= to@.union(more));
                }
            }
        }
    }
}

/// Reads the relation that the words of `split` state. `None` says that the
/// words are no statement.
pub fn parse_relation(split: Tokens) -> (relation: Option<Relation>)
    requires
        split.wf(),
    ensures
        match statement(split@) {
            Some(stated) => relation is Some && relation->0.wf() && relation->0@ == stated,
            None => relation is None,
        },
{
    let mut left = split;
    if !has_premise(&left) {
        return None;
    }
    let from = parse_from(&mut left);
    if !has_conclusion(&left) {
        return None;
    }
    let to = parse_to(left);
    Some(Relation::new(from, to))
}

/// Whether the line is a statement.
pub fn states_relation(line: &str) -> (ok: bool)
    ensures
        ok == statement(whitespace_tokens(line@)) is Some,
{
    parse_relation(Tokens::split(line)).is_some()
}

/// Reads the relation that a line states.
pub fn read_relation(line: &str) -> (relation: Relation)
    requires
        statement(whitespace_tokens(line@)) is Some,
    ensures
        relation.wf(),
        statement(whitespace_tokens(line@)) == Some(relation@),
{
    parse_relation(Tokens::split(line)).unwrap()
}

/// Whether `c` is one of the ten decimal digits.
pub open spec fn is_digit(c: char) -> bool {
    '0' <= c && c <= '9'
}

/// The number that a decimal digit stands for.
pub open spec fn digit_value(c: char) -> nat {
    (c as nat - '0' as nat) as nat
}

/// The number that a run of decimal digits spells.
pub open spec fn decimal_value(digits: Seq<char>) -> nat
    decreases digits.len(),
{
    if digits.len() == 0 {
        0
    } else {
        decimal_value(digits.drop_last()) * 10 + digit_value(digits.last())
    }
}

/// Whether every character is a decimal digit.
pub open spec fn all_digits(digits: Seq<char>) -> bool {
    forall|i: int| 0 <= i < digits.len() ==> is_digit(#[trigger] digits[i])
}

/// `word` without the plus sign that may lead it.
pub open spec fn unsigned_part(word: Seq<char>) -> Seq<char> {
    if word.len() > 0 && word[0] == '+' {
        word.skip(1)
    } else {
        word
    }
}

/// The number that `word` spells: an optional plus sign, then at least one
/// decimal digit and nothing else, with a value that fits a machine word.
pub open spec fn decimal(word: Seq<char>) -> Option<usize> {
    let digits = unsigned_part(word);
    if digits.len() > 0 && all_digits(digits) && decimal_value(digits) <= usize::MAX {
        Some(decimal_value(digits) as usize)
    } else {
        None
    }
}

/// The count that the tokens of a line give: the number that the only token
/// spells.
pub open spec fn count_of(tokens: Seq<Seq<char>>) -> Option<usize> {
    if tokens.len() == 1 {
        decimal(tokens[0])
    } else {
        None
    }
}

/// A run of digits spells at least what any of its prefixes spells.
proof fn lemma_decimal_prefix(digits: Seq<char>, k: int)
    requires
        0 <= k <= digits.len(),
    ensures
        decimal_value(digits.take(k)) <= decimal_value(digits),
    decreases digits.len() - k,
{
    if k == digits.len() {
        assert(digits.take(k) =~= digits);
    } else {
        lemma_decimal_prefix(digits.drop_last(), k);
        assert(digits.drop_last().take(k) =~= digits.take(k));
    }
}

/// Reads the number that `word` spells. `None` says that it spells none, or
/// one that does not fit a machine word.
pub fn parse_decimal(word: &str) -> (number: Option<usize>)
    ensures
        number == decimal(word@),
{
    let len = word.unicode_len();
    let mut start: usize = 0;
    if len > 0 && word.get_char(0) == '+' {
        start = 1;
    }
    let ghost digits = word@.skip(start as int);
    assert(digits =~= unsigned_part(word@));
    if start == len {
        return None;
    }
    let mut value: usize = 0;
    let mut i: usize = start;
    while i < len
        invariant
            start <= i <= len,
            len == word@.len(),
            digits == word@.skip(start as int),
            digits == unsigned_part(word@),
            forall|k: int| 0 <= k < i - start ==> is_digit(#[trigger] digits[k]),
            value == decimal_value(digits.take(i - start)),
        decreases len - i,
    {
        let c = word.get_char(i);
        assert(c == digits[i - start]);
        if c < '0' || c > '9' {
            return None;
        }
        let digit = (c as u32 - '0' as u32) as usize;
        proof {
            let upto = digits.take(i - start + 1);
            assert(upto.drop_last() =~= digits.take(i - start));
            assert(upto.last() == c);
            assert(decimal_value(upto) == value * 10 + digit);
            lemma_decimal_prefix(digits, i - start + 1);
        }
        let tenfold = match value.checked_mul(10) {
            Some(tenfold) => tenfold,
            None => {
                return None;
            },
        };
        value = match tenfold.checked_add(digit) {
            Some(sum) => sum,
            None => {
                return None;
            },
        };
        i += 1;
    }
    assert(digits.take(len - start) =~= digits);
    Some(value)
}

/// Reads the count that the words of `split` give. `None` says that they give
/// none.
pub fn count_from(split: Tokens) -> (count: Option<usize>)
    requires
        split.wf(),
    ensures
        count == count_of(split@),
{
    let mut left = split;
    let word = match left.next() {
        Some(word) => word,
        None => {
            return None;
        },
    };
    match left.next() {
        Some(_) => None,
        None => parse_decimal(word.as_str()),
    }
}

/// Whether the line gives a count: a number that is alone on the line.
pub fn gives_count(line: &str) -> (ok: bool)
    ensures
        ok == count_of(whitespace_tokens(line@)) is Some,
{
    count_from(Tokens::split(line)).is_some()
}

/// Reads the count that a line gives: the number that is alone on the line.
pub fn parse_count(line: &str) -> (count: usize)
    requires
        count_of(whitespace_tokens(line@)) is Some,
    ensures
        count_of(whitespace_tokens(line@)) == Some(count),
{
    count_from(Tokens::split(line)).unwrap()
}

/// The relation that the line at place `i` states.
pub open spec fn stated_at(lines: Seq<Seq<char>>, i: int) -> Option<RelationView> {
    statement(whitespace_tokens(lines[i]))
}

/// The relations that the first `count` lines state, if there are as many
/// lines and each of them is a statement.
pub open spec fn relations_of(count: nat, lines: Seq<Seq<char>>) -> Option<Seq<RelationView>> {
    if count <= lines.len() && forall|i: int|
        0 <= i < count ==> (#[trigger] stated_at(lines, i)) is Some {
        Some(Seq::new(count, |i: int| stated_at(lines, i)->0))
    } else {
        None
    }
}

/// Reads `count` relations, one from each of the first `count` lines. `None`
/// says that there are fewer lines, or that one of these lines is no
/// statement.
pub fn read_relations(count: usize, lines: &Vec<String>) -> (relations: Option<Vec<Relation>>)
    ensures
        match relations_of(count as nat, words(lines@)) {
            Some(stated) => relations is Some && all_wf(relations->0@) && facts(relations->0@)
                == stated,
            None => relations is None,
        },
{
    if lines.len() < count {
        return None;
    }
    let mut relations: Vec<Relation> = Vec::new();
    let mut i: usize = 0;
    while i < count
        invariant
            i <= count <= lines.len(),
            relations.len() == i,
            all_wf(relations@),
            forall|k: int|
                0 <= k < i ==> (#[trigger] stated_at(words(lines@), k)) == Some(relations@[k]@),
        decreases count - i,
    {
        let line = lines[i].as_str();
        assert(line@ == words(lines@)[i as int]);
        if !states_relation(line) {
            assert(stated_at(words(lines@), i as int) is None);
            return None;
        }
        relations.push(read_relation(line));
        i += 1;
    }
    proof {
        let stated = relations_of(count as nat, words(lines@));
        assert(stated is Some);
        assert(facts(relations@) =~= stated->0);
    }
    Some(relations)
}

} // verus!
