//! What saturation computes, stated over what relations say, and the facts
//! about it that the engine's proofs rest on.

use vstd::prelude::*;
use vstd::set_lib::lemma_len_subset;
use crate::relation::RelationView;

verus! {

/// `after` has the premises of `before` and at least its conclusions.
pub open spec fn grows_to(before: Seq<RelationView>, after: Seq<RelationView>) -> bool {
    &&& after.len() == before.len()
    &&& forall|i: int|
        #![trigger after[i]]
        #![trigger before[i]]
        0 <= i < before.len() ==> after[i].from == before[i].from && before[i].to.subset_of(
            after[i].to,
        )
}

/// No relation can learn from another one by the cascade rule: wherever the
/// conclusions of one cover the premise of another, they hold the other's
/// conclusions already.
pub open spec fn cascade_closed(facts: Seq<RelationView>) -> bool {
    forall|a: int, b: int|
        #![trigger facts[a], facts[b]]
        0 <= a < facts.len() && 0 <= b < facts.len() && a != b && facts[a].cascades(facts[b])
            ==> facts[b].to.subset_of(facts[a].to)
}

/// `label` is a conclusion of relation `i` in every cascade-closed collection
/// that grows out of `base`.
pub open spec fn derivable(base: Seq<RelationView>, i: int, label: Seq<char>) -> bool {
    forall|t: Seq<RelationView>| #[trigger]
        grows_to(base, t) && cascade_closed(t) ==> t[i].to.contains(label)
}

/// The least cascade-closed collection that grows out of `base`.
pub open spec fn cascade_closure(base: Seq<RelationView>) -> Seq<RelationView> {
    Seq::new(
        base.len(),
        |i: int|
            RelationView {
                from: base[i].from,
                to: Set::new(|label: Seq<char>| derivable(base, i, label)),
            },
    )
}

/// Every relation with the conclusions of all relations whose premise is part
/// of its own.
pub open spec fn merged(base: Seq<RelationView>) -> Seq<RelationView> {
    Seq::new(
        base.len(),
        |b: int|
            RelationView {
                from: base[b].from,
                to: Set::new(
                    |label: Seq<char>|
                        exists|a: int|
                            0 <= a < base.len() && #[trigger] base[a].matches(base[b])
                                && base[a].to.contains(label),
                ),
            },
    )
}

/// The collection after the premise merge and the cascade fixpoint.
pub open spec fn saturated(base: Seq<RelationView>) -> Seq<RelationView> {
    cascade_closure(merged(base))
}

/// Whether some relation of the saturated collection says that pigs fly.
pub open spec fn can_derive(base: Seq<RelationView>, all: bool) -> bool {
    exists|i: int| 0 <= i < base.len() && #[trigger] saturated(base)[i].can_fly(all)
}

/// Whether some relation of the collection says that pigs fly.
pub open spec fn some_can_fly(facts: Seq<RelationView>, all: bool) -> bool {
    exists|i: int| 0 <= i < facts.len() && #[trigger] facts[i].can_fly(all)
}

/// Every label that some relation concludes.
pub open spec fn conclusion_labels(facts: Seq<RelationView>) -> Set<Seq<char>> {
    Set::new(
        |label: Seq<char>|
            exists|i: int| 0 <= i < facts.len() && #[trigger] facts[i].to.contains(label),
    )
}

/// Every label that occurs in the collection, in a premise or a conclusion.
pub open spec fn distinct_labels(facts: Seq<RelationView>) -> Set<Seq<char>> {
    Set::new(
        |label: Seq<char>|
            exists|i: int| 0 <= i < facts.len() && #[trigger] facts[i].mentions(label),
    )
}

/// Every premise and every conclusion set is finite.
pub open spec fn all_finite(facts: Seq<RelationView>) -> bool {
    forall|i: int|
        0 <= i < facts.len() ==> (#[trigger] facts[i]).from.finite() && facts[i].to.finite()
}

/// The number of conclusions, summed over the relations.
pub open spec fn total_conclusions(facts: Seq<RelationView>) -> nat
    decreases facts.len(),
{
    if facts.len() == 0 {
        0
    } else {
        total_conclusions(facts.drop_last()) + facts.last().to.len()
    }
}

/// Growth is transitive.
pub proof fn lemma_grows_transitive(
    a: Seq<RelationView>,
    b: Seq<RelationView>,
    c: Seq<RelationView>,
)
    requires
        grows_to(a, b),
        grows_to(b, c),
    ensures
        grows_to(a, c),
{
    assert forall|i: int| 0 <= i < a.len() implies c[i].from == a[i].from && a[i].to.subset_of(
        c[i].to,
    ) by {
        assert(b[i].from == a[i].from);
        assert(c[i].from == b[i].from);
    }
}

/// Two collections that grow into each other are the same.
pub proof fn lemma_grows_antisymmetric(a: Seq<RelationView>, b: Seq<RelationView>)
    requires
        grows_to(a, b),
        grows_to(b, a),
    ensures
        a == b,
{
    assert forall|i: int| 0 <= i < a.len() implies a[i] == b[i] by {
        assert(b[i].from == a[i].from);
        assert(a[i].to =~= b[i].to);
    }
    assert(a =~= b);
}

/// The closure grows out of its base.
pub proof fn lemma_closure_grows(base: Seq<RelationView>)
    ensures
        grows_to(base, cascade_closure(base)),
{
    let c = cascade_closure(base);
    assert forall|i: int| 0 <= i < base.len() implies c[i].from == base[i].from
        && base[i].to.subset_of(c[i].to) by {
        assert forall|label: Seq<char>| base[i].to.contains(label) implies c[i].to.contains(
            label,
        ) by {
            assert forall|t: Seq<RelationView>| #[trigger]
                grows_to(base, t) && cascade_closed(t) implies t[i].to.contains(label) by {
                assert(t[i].from == base[i].from);
            }
        }
    }
}

/// The closure is below every cascade-closed collection that grows out of
/// the base.
pub proof fn lemma_closure_least(base: Seq<RelationView>, t: Seq<RelationView>)
    requires
        grows_to(base, t),
        cascade_closed(t),
    ensures
        grows_to(cascade_closure(base), t),
{
    let c = cascade_closure(base);
    assert forall|i: int| 0 <= i < c.len() implies t[i].from == c[i].from && c[i].to.subset_of(
        t[i].to,
    ) by {
        assert(t[i].from == base[i].from);
        assert forall|label: Seq<char>| c[i].to.contains(label) implies t[i].to.contains(
            label,
        ) by {
            assert(derivable(base, i, label));
        }
    }
}

/// The closure is itself cascade-closed.
pub proof fn lemma_closure_closed(base: Seq<RelationView>)
    ensures
        cascade_closed(cascade_closure(base)),
{
    let c = cascade_closure(base);
    assert forall|a: int, b: int|
        0 <= a < c.len() && 0 <= b < c.len() && a != b && c[a].cascades(
            c[b],
        ) implies c[b].to.subset_of(c[a].to) by {
        assert forall|label: Seq<char>| c[b].to.contains(label) implies c[a].to.contains(
            label,
        ) by {
            assert(derivable(base, b, label));
            assert forall|t: Seq<RelationView>| #[trigger]
                grows_to(base, t) && cascade_closed(t) implies t[a].to.contains(label) by {
                lemma_closure_least(base, t);
                assert(t[a].from == c[a].from && c[a].to.subset_of(t[a].to));
                assert(t[b].from == c[b].from && c[b].to.subset_of(t[b].to));
                assert(t[a].cascades(t[b]));
                assert(t[b].to.contains(label));
            }
        }
    }
}

/// A collection between a base and its closure has the same closure.
pub proof fn lemma_closure_stable(base: Seq<RelationView>, mid: Seq<RelationView>)
    requires
        grows_to(base, mid),
        grows_to(mid, cascade_closure(base)),
    ensures
        cascade_closure(mid) == cascade_closure(base),
{
    lemma_closure_closed(base);
    lemma_closure_least(mid, cascade_closure(base));
    lemma_closure_closed(mid);
    lemma_closure_grows(mid);
    lemma_grows_transitive(base, mid, cascade_closure(mid));
    lemma_closure_least(base, cascade_closure(mid));
    lemma_grows_antisymmetric(cascade_closure(mid), cascade_closure(base));
}

/// The premise merge only adds conclusions.
pub proof fn lemma_merged_grows(base: Seq<RelationView>)
    ensures
        grows_to(base, merged(base)),
{
    let m = merged(base);
    assert forall|i: int| 0 <= i < base.len() implies m[i].from == base[i].from
        && base[i].to.subset_of(m[i].to) by {
        assert forall|label: Seq<char>| base[i].to.contains(label) implies m[i].to.contains(
            label,
        ) by {
            assert(base[i].matches(base[i]));
        }
    }
}

/// What the merge gives a relation, it gives to every relation with a wider
/// premise.
pub proof fn lemma_merged_inherits(base: Seq<RelationView>, a: int, b: int)
    requires
        0 <= a < base.len(),
        0 <= b < base.len(),
        base[a].matches(base[b]),
    ensures
        merged(base)[a].to.subset_of(merged(base)[b].to),
{
    let m = merged(base);
    assert forall|label: Seq<char>| m[a].to.contains(label) implies m[b].to.contains(label) by {
        let c = choose|c: int|
            0 <= c < base.len() && #[trigger] base[c].matches(base[a]) && base[c].to.contains(
                label,
            );
        assert(base[c].matches(base[b]));
    }
}

/// Neither step of saturation invents a label: what the saturated collection
/// concludes, some relation concluded at the start.
pub proof fn lemma_closure_within_labels(base: Seq<RelationView>)
    ensures
        forall|i: int|
            0 <= i < base.len() ==> (#[trigger] cascade_closure(base)[i]).to.subset_of(
                conclusion_labels(base),
            ),
{
    let everything = conclusion_labels(base);
    let t = Seq::new(base.len(), |i: int| RelationView { from: base[i].from, to: everything });
    assert(grows_to(base, t));
    assert(cascade_closed(t));
    lemma_closure_least(base, t);
    let c = cascade_closure(base);
    assert forall|i: int| 0 <= i < base.len() implies (#[trigger] c[i]).to.subset_of(
        everything,
    ) by {
        assert(t[i].to == everything);
    }
}

/// The merge concludes no label that was not concluded before.
pub proof fn lemma_merged_within_labels(base: Seq<RelationView>)
    ensures
        conclusion_labels(merged(base)) == conclusion_labels(base),
{
    lemma_merged_grows(base);
    let m = merged(base);
    assert forall|label: Seq<char>| conclusion_labels(m).contains(label) implies conclusion_labels(
        base,
    ).contains(label) by {
        let b = choose|b: int| 0 <= b < m.len() && #[trigger] m[b].to.contains(label);
        let a = choose|a: int|
            0 <= a < base.len() && #[trigger] base[a].matches(base[b]) && base[a].to.contains(
                label,
            );
        assert(base[a].to.contains(label));
    }
    assert forall|label: Seq<char>| conclusion_labels(base).contains(label) implies conclusion_labels(
        m,
    ).contains(label) by {
        let b = choose|b: int| 0 <= b < base.len() && #[trigger] base[b].to.contains(label);
        assert(base[b].to.subset_of(m[b].to));
        assert(m[b].to.contains(label));
    }
    assert(conclusion_labels(m) =~= conclusion_labels(base));
}

/// A finite collection of finite relations holds finitely many labels.
pub proof fn lemma_labels_finite(facts: Seq<RelationView>)
    requires
        all_finite(facts),
    ensures
        distinct_labels(facts).finite(),
        conclusion_labels(facts).finite(),
        conclusion_labels(facts).subset_of(distinct_labels(facts)),
    decreases facts.len(),
{
    if facts.len() == 0 {
        assert(distinct_labels(facts) =~= Set::<Seq<char>>::empty());
    } else {
        let rest = facts.drop_last();
        let last = facts.last();
        assert forall|i: int| 0 <= i < rest.len() implies (#[trigger] rest[i]).from.finite()
            && rest[i].to.finite() by {
            assert(rest[i] == facts[i]);
        }
        lemma_labels_finite(rest);
        assert forall|label: Seq<char>|
            distinct_labels(facts).contains(label) == distinct_labels(rest).union(
                last.from,
            ).union(last.to).contains(label) by {
            if distinct_labels(facts).contains(label) {
                let i = choose|i: int| 0 <= i < facts.len() && #[trigger] facts[i].mentions(label);
                if i < rest.len() {
                    assert(rest[i] == facts[i]);
                    assert(rest[i].mentions(label));
                }
            }
            if distinct_labels(rest).contains(label) {
                let i = choose|i: int| 0 <= i < rest.len() && #[trigger] rest[i].mentions(label);
                assert(rest[i] == facts[i]);
                assert(facts[i].mentions(label));
            }
            if last.from.contains(label) || last.to.contains(label) {
                assert(facts[facts.len() - 1].mentions(label));
            }
        }
        assert(distinct_labels(facts) =~= distinct_labels(rest).union(last.from).union(last.to));
        assert(facts[facts.len() - 1].from.finite() && facts[facts.len() - 1].to.finite());
        vstd::set_lib::lemma_set_union_finite_iff(distinct_labels(rest), last.from);
        vstd::set_lib::lemma_set_union_finite_iff(distinct_labels(rest).union(last.from), last.to);
    }
    assert forall|label: Seq<char>| conclusion_labels(facts).contains(label) implies distinct_labels(
        facts,
    ).contains(label) by {
        let i = choose|i: int| 0 <= i < facts.len() && #[trigger] facts[i].to.contains(label);
        assert(facts[i].mentions(label));
    }
    lemma_len_subset(conclusion_labels(facts), distinct_labels(facts));
}

/// A collection that grew into a different one gained a label somewhere.
pub proof fn lemma_grown_somewhere(before: Seq<RelationView>, after: Seq<RelationView>) -> (i:
    int)
    requires
        grows_to(before, after),
        after != before,
    ensures
        0 <= i < before.len(),
        !after[i].to.subset_of(before[i].to),
{
    if forall|k: int| 0 <= k < before.len() ==> (#[trigger] after[k]).to.subset_of(before[k].to) {
        assert forall|k: int| 0 <= k < after.len() implies before[k].from == after[k].from
            && (#[trigger] after[k]).to.subset_of(before[k].to) by {}
        lemma_grows_antisymmetric(before, after);
    }
    choose|k: int| 0 <= k < before.len() && !(#[trigger] after[k]).to.subset_of(before[k].to)
}

/// The sum of the conclusions is at least the conclusions of any one relation.
pub proof fn lemma_total_covers(facts: Seq<RelationView>, i: int)
    requires
        0 <= i < facts.len(),
    ensures
        total_conclusions(facts) >= facts[i].to.len(),
    decreases facts.len(),
{
    if i < facts.len() - 1 {
        lemma_total_covers(facts.drop_last(), i);
    }
}

/// Where no relation has more than `bound` conclusions, the sum is at most
/// that often the bound.
pub proof fn lemma_total_bounded(facts: Seq<RelationView>, bound: nat)
    requires
        forall|i: int| 0 <= i < facts.len() ==> (#[trigger] facts[i]).to.len() <= bound,
    ensures
        total_conclusions(facts) <= facts.len() * bound,
    decreases facts.len(),
{
    if facts.len() > 0 {
        let rest = facts.drop_last();
        assert forall|i: int| 0 <= i < rest.len() implies (#[trigger] rest[i]).to.len() <= bound by {
            assert(rest[i] == facts[i]);
        }
        lemma_total_bounded(rest, bound);
        assert(facts[facts.len() - 1].to.len() <= bound);
        assert(rest.len() * bound + bound == facts.len() * bound) by (nonlinear_arith)
            requires
                rest.len() + 1 == facts.len(),
        ;
    } else {
        assert(facts.len() * bound == 0) by (nonlinear_arith)
            requires
                facts.len() == 0,
        ;
    }
}

/// A collection that grew has at least as many conclusions in sum.
pub proof fn lemma_total_monotone(before: Seq<RelationView>, after: Seq<RelationView>)
    requires
        grows_to(before, after),
        all_finite(after),
    ensures
        total_conclusions(before) <= total_conclusions(after),
    decreases before.len(),
{
    if before.len() > 0 {
        let b = before.drop_last();
        let a = after.drop_last();
        assert forall|i: int| 0 <= i < b.len() implies a[i].from == b[i].from && b[i].to.subset_of(
            a[i].to,
        ) by {
            assert(a[i] == after[i] && b[i] == before[i]);
        }
        assert forall|i: int| 0 <= i < a.len() implies (#[trigger] a[i]).from.finite()
            && a[i].to.finite() by {
            assert(a[i] == after[i]);
        }
        lemma_total_monotone(b, a);
        let n = before.len() - 1;
        assert(after[n].to.finite() && before[n].to.subset_of(after[n].to));
        lemma_len_subset(before[n].to, after[n].to);
    }
}

/// A collection in which one relation gained a label has more conclusions in
/// sum than before.
pub proof fn lemma_total_strict(before: Seq<RelationView>, after: Seq<RelationView>, i: int)
    requires
        grows_to(before, after),
        all_finite(after),
        0 <= i < before.len(),
        !after[i].to.subset_of(before[i].to),
    ensures
        total_conclusions(before) < total_conclusions(after),
    decreases before.len(),
{
    let b = before.drop_last();
    let a = after.drop_last();
    assert forall|k: int| 0 <= k < b.len() implies a[k].from == b[k].from && b[k].to.subset_of(
        a[k].to,
    ) by {
        assert(a[k] == after[k] && b[k] == before[k]);
    }
    assert forall|k: int| 0 <= k < a.len() implies (#[trigger] a[k]).from.finite()
        && a[k].to.finite() by {
        assert(a[k] == after[k]);
    }
    let n = before.len() - 1;
    assert(after[n].to.finite() && before[n].to.subset_of(after[n].to));
    if i == n {
        lemma_total_monotone(b, a);
        let label = choose|label: Seq<char>|
            after[n].to.contains(label) && !before[n].to.contains(label);
        before[n].to.lemma_subset_not_in_lt(after[n].to, label);
    } else {
        assert(a[i] == after[i] && b[i] == before[i]);
        lemma_total_strict(b, a, i);
        lemma_len_subset(before[n].to, after[n].to);
    }
}

/// Between a base and its closure no relation concludes more labels than the
/// base concludes in all.
pub proof fn lemma_conclusions_bounded(base: Seq<RelationView>, cur: Seq<RelationView>)
    requires
        conclusion_labels(base).finite(),
        grows_to(base, cur),
        grows_to(cur, cascade_closure(base)),
    ensures
        forall|i: int|
            0 <= i < cur.len() ==> (#[trigger] cur[i]).to.finite() && cur[i].to.len()
                <= conclusion_labels(base).len(),
{
    let universe = conclusion_labels(base);
    let goal = cascade_closure(base);
    lemma_closure_within_labels(base);
    assert forall|i: int| 0 <= i < cur.len() implies (#[trigger] cur[i]).to.finite()
        && cur[i].to.len() <= universe.len() by {
        assert(goal[i].to.subset_of(universe));
        assert(cur[i].to.subset_of(goal[i].to));
        lemma_len_subset(cur[i].to, universe);
    }
}

} // verus!
