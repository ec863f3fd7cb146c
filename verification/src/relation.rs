//! A relation says that objects with one set of traits also have another.

use vstd::prelude::*;
use crate::labels::LabelSet;

verus! {

/// The label of the object class that the question is about.
pub open spec fn pigs() -> Seq<char> {
    "PIGS"@
}

/// The label of the ability that the question is about.
pub open spec fn fly() -> Seq<char> {
    "FLY"@
}

/// What a relation states: every object with all the traits in `from` has
/// all the traits in `to`.
#[verifier::ext_equal]
pub struct RelationView {
    pub from: Set<Seq<char>>,
    pub to: Set<Seq<char>>,
}

impl RelationView {
    /// The premise of `self` is part of the premise of `other`, so whatever
    /// `self` concludes holds of the objects of `other` too.
    pub open spec fn matches(self, other: RelationView) -> bool {
        self.from.subset_of(other.from)
    }

    /// The conclusions of `self` cover the premise of `other`, so whatever
    /// `other` concludes holds of the objects of `self` too.
    pub open spec fn cascades(self, other: RelationView) -> bool {
        other.from.subset_of(self.to)
    }

    /// `self` after it took over the conclusions of `other`.
    pub open spec fn extended(self, other: RelationView) -> RelationView {
        RelationView { from: self.from, to: self.to.union(other.to) }
    }

    /// Whether taking over the conclusions of `other` adds a label to `self`.
    pub open spec fn grows_by(self, other: RelationView) -> bool {
        !other.to.subset_of(self.to)
    }

    /// Whether `label` occurs in the premise or among the conclusions.
    pub open spec fn mentions(self, label: Seq<char>) -> bool {
        self.from.contains(label) || self.to.contains(label)
    }

    /// Whether this relation says that pigs fly. A relation about pigs that
    /// concludes flight says so in either reading; when not all pigs are asked
    /// for, a relation that concludes both labels says so as well.
    pub open spec fn can_fly(self, all: bool) -> bool {
        ||| self.from.contains(pigs()) && self.to.contains(fly())
        ||| !all && self.to.contains(pigs()) && self.to.contains(fly())
    }
}

/// Taking over the same conclusions a second time changes nothing and is
/// reported as no growth.
pub proof fn lemma_extend_idempotent(target: RelationView, source: RelationView)
    ensures
        target.extended(source).extended(source) == target.extended(source),
        !target.extended(source).grows_by(source),
{
    assert(target.extended(source).extended(source) =~= target.extended(source));
}

/// The two readings of the question differ in one place only. A relation
/// about pigs that concludes flight says yes in both; a relation that
/// concludes both labels and is not about pigs says yes for some pigs and no
/// for all. So whoever says that all pigs fly also says that some do.
pub proof fn lemma_can_fly_readings(r: RelationView)
    ensures
        r.can_fly(true) == (r.from.contains(pigs()) && r.to.contains(fly())),
        r.can_fly(false) == (r.to.contains(fly()) && (r.from.contains(pigs()) || r.to.contains(
            pigs(),
        ))),
        r.can_fly(true) ==> r.can_fly(false),
{
}

/// A relation that says pigs fly keeps saying so when it learns more.
pub proof fn lemma_can_fly_monotone(before: RelationView, after: RelationView, all: bool)
    requires
        after.from == before.from,
        before.to.subset_of(after.to),
        before.can_fly(all),
    ensures
        after.can_fly(all),
{
}

/// A premise and the conclusions drawn from it so far. The premise is fixed
/// when the relation is made; the conclusions only ever grow.
#[derive(Debug)]
pub struct Relation {
    from: LabelSet,
    to: LabelSet,
}

impl View for Relation {
    type V = RelationView;

    closed spec fn view(&self) -> RelationView {
        RelationView { from: self.from@, to: self.to@ }
    }
}

impl Relation {
    /// Both label sets are well formed.
    pub closed spec fn wf(&self) -> bool {
        self.from.wf() && self.to.wf()
    }

    /// Both label sets of a relation are finite.
    pub proof fn lemma_finite(&self)
        ensures
            self@.from.finite(),
            self@.to.finite(),
    {
        self.from.lemma_finite();
        self.to.lemma_finite();
    }

    /// The number of conclusions of a well-formed relation fits a machine word.
    pub proof fn lemma_conclusions_fit(&self)
        requires
            self.wf(),
        ensures
            self@.to.len() <= usize::MAX,
    {
        self.to.lemma_len_fits();
    }

    /// The relation from its premise and its first conclusions.
    pub fn new(from: LabelSet, to: LabelSet) -> (r: Self)
        requires
            from.wf(),
            to.wf(),
        ensures
            r.wf(),
            r@ == (RelationView { from: from@, to: to@ }),
    {
        Relation { from, to }
    }

    /// The premise.
    pub fn premises(&self) -> (from: &LabelSet)
        ensures
            from@ == self@.from,
            self.wf() ==> from.wf(),
    {
        &self.from
    }

    /// The conclusions drawn so far.
    pub fn conclusions(&self) -> (to: &LabelSet)
        ensures
            to@ == self@.to,
            self.wf() ==> to.wf(),
    {
        &self.to
    }

    /// Whether the conclusions of `self` cover the premise of `other`.
    pub fn cascades(&self, other: &Self) -> (covered: bool)
        ensures
            covered == self@.cascades(other@),
    {
        other.from.is_subset(&self.to)
    }

    /// Whether the premise of `self` is part of the premise of `other`.
    pub fn matches(&self, other: &Self) -> (part: bool)
        ensures
            part == self@.matches(other@),
    {
        self.from.is_subset(&other.from)
    }

    /// Takes over the conclusions of `other`; says whether any was new.
    pub fn extend(&mut self, other: &Self) -> (grew: bool)
        requires
            old(self).wf(),
        ensures
            final(self).wf(),
            final(self)@ == old(self)@.extended(other@),
            grew == old(self)@.grows_by(other@),
            grew == (final(self)@.to.len() > old(self)@.to.len()),
    {
        self.to.extend(&other.to)
    }

    /// Whether this relation says that pigs fly: all of them if `all` is set,
    /// some of them otherwise.
    pub fn can_fly(&self, all: bool) -> (yes: bool)
        ensures
            yes == self@.can_fly(all),
    {
        (self.from.contains("PIGS") && self.to.contains("FLY")) || (!all && self.to.contains(
            "PIGS",
        ) && self.to.contains("FLY"))
    }

    /// A copy that states the same.
    pub fn duplicate(&self) -> (copy: Self)
        requires
            self.wf(),
        ensures
            copy.wf(),
            copy@ == self@,
    {
        Relation { from: self.from.duplicate(), to: self.to.duplicate() }
    }
}

/// What a collection of relations states, relation by relation.
pub open spec fn facts(relations: Seq<Relation>) -> Seq<RelationView> {
    relations.map_values(|r: Relation| r@)
}

/// Every relation of the collection is well formed.
pub open spec fn all_wf(relations: Seq<Relation>) -> bool {
    forall|i: int| 0 <= i < relations.len() ==> (#[trigger] relations[i]).wf()
}

} // verus!
