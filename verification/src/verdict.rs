//! The answer to the question, and the way from input lines to it.

use vstd::prelude::*;
use crate::closure::{can_derive, saturated, some_can_fly};
use crate::engine::{any_can_fly, saturate};
use crate::labels::words;
use crate::parse::{
    count_of, gives_count, parse_count, read_relations, relations_of, whitespace_tokens,
};
use crate::relation::{all_wf, facts, Relation, RelationView};

verus! {

/// What a collection of relations says about flying pigs.
#[derive(Clone, Copy, Debug, PartialEq, Eq, Structural)]
pub enum Verdict {
    /// Every pig flies.
    AllPigs,
    /// At least one pig flies, though it does not follow that all do.
    SomePigs,
    /// It does not follow that any pig flies.
    NoPigs,
}

impl Verdict {
    /// The sentence that states the verdict.
    pub open spec fn text(self) -> Seq<char> {
        match self {
            Verdict::AllPigs => "All pigs can fly"@,
            Verdict::SomePigs => "Some pigs can fly"@,
            Verdict::NoPigs => "No pigs can fly"@,
        }
    }

    /// The sentence that states the verdict.
    pub fn message(&self) -> (text: &'static str)
        ensures
            text@ == self.text(),
    {
        match self {
            Verdict::AllPigs => "All pigs can fly",
            Verdict::SomePigs => "Some pigs can fly",
            Verdict::NoPigs => "No pigs can fly",
        }
    }
}

/// The strongest claim that the saturated collection supports.
pub open spec fn verdict_of(base: Seq<RelationView>) -> Verdict {
    if can_derive(base, true) {
        Verdict::AllPigs
    } else if can_derive(base, false) {
        Verdict::SomePigs
    } else {
        Verdict::NoPigs
    }
}

/// The verdict on the input that starts with the line `first` and goes on
/// with `lines`, if the input is well formed: a count, then as many
/// statements.
pub open spec fn answer(first: Seq<char>, lines: Seq<Seq<char>>) -> Option<Verdict> {
    match count_of(whitespace_tokens(first)) {
        Some(count) => match relations_of(count as nat, lines) {
            Some(stated) => Some(verdict_of(stated)),
            None => None,
        },
        None => None,
    }
}

/// Saturates the collection and gives the strongest claim that it supports.
pub fn verdict(relations: Vec<Relation>) -> (verdict: Verdict)
    requires
        all_wf(relations@),
    ensures
        verdict == verdict_of(facts(relations@)),
{
    let mut saturating = relations;
    let strict = saturate(&mut saturating, true);
    if strict.derived {
        Verdict::AllPigs
    } else {
        let loose = any_can_fly(&saturating, false);
        proof {
            let base = facts(relations@);
            assert(some_can_fly(saturated(base), false) == can_derive(base, false));
        }
        if loose {
            Verdict::SomePigs
        } else {
            Verdict::NoPigs
        }
    }
}

/// Reads the input that starts with the line `first` and goes on with `lines`
/// and gives the verdict on it. `None` says that the input is not well
/// formed.
pub fn solve(first: &str, lines: &Vec<String>) -> (verdict: Option<Verdict>)
    ensures
        verdict == answer(first@, words(lines@)),
{
    if !gives_count(first) {
        return None;
    }
    let count = parse_count(first);
    match read_relations(count, lines) {
        Some(relations) => Some(self::verdict(relations)),
        None => None,
    }
}

} // verus!
