//! The saturation engine: the premise merge, the cascade fixpoint, and the
//! question asked of the result.

use vstd::arithmetic::div_mod::lemma_fundamental_div_mod_converse;
use vstd::prelude::*;
use crate::closure::{
    all_finite, can_derive, cascade_closed, cascade_closure, distinct_labels, grows_to,
    lemma_grown_somewhere, lemma_grows_antisymmetric, lemma_merged_grows, lemma_total_bounded,
    merged, saturated, some_can_fly, total_conclusions,
};
use crate::relation::{all_wf, facts, Relation};
use crate::sweeps::{
    cascade_at, cascade_sweep_of, cascade_swept, cascaded_once, goes_on, headroom,
    lemma_merge_step, lemma_run, lemma_run_end, lemma_run_progress, lemma_sweep, lemma_swept,
    merge_at, merge_settled, state_after,
};

verus! {

/// Lets relation `target` take over the conclusions of relation `source`, a
/// different relation of the collection; says whether `target` grew.
pub fn extend_at(relations: &mut Vec<Relation>, target: usize, source: usize) -> (grew: bool)
    requires
        target != source,
        target < old(relations).len(),
        source < old(relations).len(),
        all_wf(old(relations)@),
    ensures
        final(relations)@.len() == old(relations)@.len(),
        all_wf(final(relations)@),
        facts(final(relations)@) == facts(old(relations)@).update(
            target as int,
            old(relations)@[target as int]@.extended(old(relations)@[source as int]@),
        ),
        grew == old(relations)@[target as int]@.grows_by(old(relations)@[source as int]@),
{
    let donor = relations[source].duplicate();
    let receiver = &mut relations[target];
    let grew = receiver.extend(&donor);
    proof {
        assert(facts(relations@) =~= facts(old(relations)@).update(
            target as int,
            old(relations)@[target as int]@.extended(old(relations)@[source as int]@),
        ));
    }
    grew
}

/// The merge step for the ordered pair (`a`, `b`) of different relations:
/// where the premise of `a` is part of the premise of `b`, `b` takes over the
/// conclusions of `a`. Says whether `b` grew.
pub fn merge_pair(relations: &mut Vec<Relation>, a: usize, b: usize) -> (grew: bool)
    requires
        a != b,
        a < old(relations).len(),
        b < old(relations).len(),
        all_wf(old(relations)@),
    ensures
        final(relations)@.len() == old(relations)@.len(),
        all_wf(final(relations)@),
        facts(final(relations)@) == merge_at(facts(old(relations)@), a as int, b as int),
        grew == (facts(old(relations)@)[a as int].matches(facts(old(relations)@)[b as int])
            && facts(old(relations)@)[b as int].grows_by(facts(old(relations)@)[a as int])),
{
    if relations[a].matches(&relations[b]) {
        extend_at(relations, b, a)
    } else {
        assert(facts(relations@) =~= facts(old(relations)@));
        false
    }
}

/// The cascade step for the ordered pair (`a`, `b`) of different relations:
/// where the conclusions of `a` cover the premise of `b`, `a` takes over the
/// conclusions of `b`. Says whether `a` grew.
pub fn cascade_pair(relations: &mut Vec<Relation>, a: usize, b: usize) -> (grew: bool)
    requires
        a != b,
        a < old(relations).len(),
        b < old(relations).len(),
        all_wf(old(relations)@),
    ensures
        final(relations)@.len() == old(relations)@.len(),
        all_wf(final(relations)@),
        facts(final(relations)@) == cascade_at(facts(old(relations)@), a as int, b as int),
        grew == (facts(old(relations)@)[a as int].cascades(facts(old(relations)@)[b as int])
            && facts(old(relations)@)[a as int].grows_by(facts(old(relations)@)[b as int])),
{
    if relations[a].cascades(&relations[b]) {
        extend_at(relations, a, b)
    } else {
        assert(facts(relations@) =~= facts(old(relations)@));
        false
    }
}

/// The premise merge: one pass over all ordered pairs of different relations,
/// in which a relation takes over the conclusions of each relation whose
/// premise is part of its own.
pub fn merge_premises(relations: &mut Vec<Relation>)
    requires
        all_wf(old(relations)@),
    ensures
        final(relations)@.len() == old(relations)@.len(),
        all_wf(final(relations)@),
        facts(final(relations)@) == merged(facts(old(relations)@)),
        grows_to(facts(old(relations)@), facts(final(relations)@)),
{
    let n = relations.len();
    let ghost base = facts(relations@);
    proof {
        lemma_merged_grows(base);
        assert(grows_to(base, base));
    }
    let mut a: usize = 0;
    while a < n
        invariant
            a <= n,
            relations.len() == n,
            base.len() == n,
            all_wf(relations@),
            grows_to(base, facts(relations@)),
            grows_to(facts(relations@), merged(base)),
            forall|x: int, y: int|
                0 <= x < a && 0 <= y < n ==> #[trigger] merge_settled(
                    base,
                    facts(relations@),
                    x,
                    y,
                ),
        decreases n - a,
    {
        let mut b: usize = 0;
        while b < n
            invariant
                a < n,
                b <= n,
                relations.len() == n,
                base.len() == n,
                all_wf(relations@),
                grows_to(base, facts(relations@)),
                grows_to(facts(relations@), merged(base)),
                forall|x: int, y: int|
                    0 <= x < a && 0 <= y < n ==> #[trigger] merge_settled(
                        base,
                        facts(relations@),
                        x,
                        y,
                    ),
                forall|y: int|
                    0 <= y < b ==> #[trigger] merge_settled(
                        base,
                        facts(relations@),
                        a as int,
                        y,
                    ),
            decreases n - b,
        {
            if a != b {
                let ghost cur = facts(relations@);
                merge_pair(relations, a, b);
                proof {
                    let next = facts(relations@);
                    lemma_merge_step(base, cur, a as int, b as int);
                    assert forall|x: int, y: int|
                        0 <= x < a && 0 <= y < n implies #[trigger] merge_settled(
                        base,
                        next,
                        x,
                        y,
                    ) by {
                        assert(merge_settled(base, cur, x, y));
                        assert(cur[y].to.subset_of(next[y].to));
                    }
                    assert forall|y: int| 0 <= y < b + 1 implies #[trigger] merge_settled(
                        base,
                        next,
                        a as int,
                        y,
                    ) by {
                        if y < b {
                            assert(merge_settled(base, cur, a as int, y));
                            assert(cur[y].to.subset_of(next[y].to));
                        }
                    }
                }
            }
            b += 1;
        }
        a += 1;
    }
    proof {
        let cur = facts(relations@);
        let goal = merged(base);
        assert forall|y: int| 0 <= y < n implies cur[y].from == goal[y].from
            && goal[y].to.subset_of(cur[y].to) by {
            assert(goal[y].from == cur[y].from);
            assert forall|label: Seq<char>| goal[y].to.contains(label) implies cur[y].to.contains(
                label,
            ) by {
                let x = choose|x: int|
                    0 <= x < base.len() && #[trigger] base[x].matches(base[y])
                        && base[x].to.contains(label);
                if x == y {
                    assert(base[y].to.subset_of(cur[y].to));
                } else {
                    assert(merge_settled(base, cur, x, y));
                }
            }
        }
        lemma_grows_antisymmetric(cur, goal);
    }
}

/// One sweep of the cascade rule over all ordered pairs of different
/// relations, row by row. Says whether any relation grew. Whatever the order
/// of the pairs, a sweep only adds conclusions, adds at least what one
/// application of the rule to each pair yields and at most what the closure
/// holds, and changes nothing exactly where the collection is closed.
pub fn cascade_sweep(relations: &mut Vec<Relation>) -> (changed: bool)
    requires
        all_wf(old(relations)@),
    ensures
        final(relations)@.len() == old(relations)@.len(),
        all_wf(final(relations)@),
        facts(final(relations)@) == cascade_sweep_of(facts(old(relations)@)),
        grows_to(facts(old(relations)@), facts(final(relations)@)),
        grows_to(facts(final(relations)@), cascade_closure(facts(old(relations)@))),
        cascaded_once(facts(old(relations)@), facts(final(relations)@)),
        changed == (facts(final(relations)@) != facts(old(relations)@)),
        changed == !cascade_closed(facts(old(relations)@)),
{
    let n = relations.len();
    let ghost start = facts(relations@);
    let mut changed = false;
    let mut a: usize = 0;
    while a < n
        invariant
            a <= n,
            relations.len() == n,
            start.len() == n,
            all_wf(relations@),
            facts(relations@) == cascade_swept(start, (a * n) as nat),
            changed == (facts(relations@) != start),
        decreases n - a,
    {
        let mut b: usize = 0;
        while b < n
            invariant
                a < n,
                b <= n,
                relations.len() == n,
                start.len() == n,
                all_wf(relations@),
                facts(relations@) == cascade_swept(start, (a * n + b) as nat),
                changed == (facts(relations@) != start),
            decreases n - b,
        {
            let ghost cur = facts(relations@);
            proof {
                assert(a * n + b < n * n) by (nonlinear_arith)
                    requires
                        0 <= a < n,
                        0 <= b < n,
                ;
                lemma_fundamental_div_mod_converse(a * n + b, n as int, a as int, b as int);
                lemma_swept(start, (a * n + b) as nat);
            }
            if a != b {
                let grew = cascade_pair(relations, a, b);
                proof {
                    let next = facts(relations@);
                    if grew {
                        assert(!next[a as int].to.subset_of(cur[a as int].to));
                        assert(start[a as int].to.subset_of(cur[a as int].to));
                        assert(next[a as int] != start[a as int]);
                    } else {
                        assert(next[a as int].to =~= cur[a as int].to);
                        assert(next =~= cur);
                    }
                    if changed {
                        let i = lemma_grown_somewhere(start, cur);
                        assert(next[i].from == cur[i].from && cur[i].to.subset_of(next[i].to));
                        assert(next[i] != start[i]);
                    }
                }
                changed = changed || grew;
            }
            b += 1;
        }
        assert(a * n + n == (a + 1) * n) by (nonlinear_arith);
        a += 1;
    }
    proof {
        lemma_sweep(start);
    }
    changed
}

/// Whether some relation of the collection says that pigs fly.
pub fn any_can_fly(relations: &Vec<Relation>, all: bool) -> (yes: bool)
    ensures
        yes == some_can_fly(facts(relations@), all),
{
    let mut i: usize = 0;
    while i < relations.len()
        invariant
            i <= relations.len(),
            forall|k: int| 0 <= k < i ==> !(#[trigger] facts(relations@)[k]).can_fly(all),
        decreases relations.len() - i,
    {
        if relations[i].can_fly(all) {
            assert(facts(relations@)[i as int].can_fly(all));
            return true;
        }
        i += 1;
    }
    false
}

/// What a collection of relations states is finite.
pub proof fn lemma_facts_finite(relations: Seq<Relation>)
    ensures
        all_finite(facts(relations)),
{
    let f = facts(relations);
    assert forall|i: int| 0 <= i < f.len() implies (#[trigger] f[i]).from.finite()
        && f[i].to.finite() by {
        relations[i].lemma_finite();
    }
}

/// The conclusions of a well-formed collection, summed up, stay below the
/// square of the largest machine word.
proof fn lemma_total_fits(relations: Seq<Relation>)
    requires
        all_wf(relations),
        relations.len() <= usize::MAX,
    ensures
        total_conclusions(facts(relations)) < u128::MAX,
{
    let f = facts(relations);
    assert forall|i: int| 0 <= i < f.len() implies (#[trigger] f[i]).to.len()
        <= usize::MAX as nat by {
        relations[i].lemma_conclusions_fit();
    }
    lemma_total_bounded(f, usize::MAX as nat);
    assert(f.len() * (usize::MAX as nat) <= 0xffff_ffff_ffff_ffff * 0xffff_ffff_ffff_ffff)
        by (nonlinear_arith)
        requires
            f.len() <= 0xffff_ffff_ffff_ffff,
            usize::MAX <= 0xffff_ffff_ffff_ffff,
    ;
}

/// What a run of the engine reports.
#[derive(Clone, Copy, Debug, PartialEq, Eq, Structural)]
pub struct Saturation {
    /// Whether some relation said that pigs fly after a completed sweep.
    pub derived: bool,
    /// The number of cascade sweeps that were made.
    pub sweeps: u128,
}

/// Saturates the collection and asks it whether pigs fly: the premise merge
/// once, then cascade sweeps until one changes nothing, with the question
/// asked after each sweep. The run ends with the first sweep after which the
/// answer is yes, or else with the first sweep that changes nothing; the
/// collection is left as that sweep left it.
///
/// The answer does not depend on the order of the pairs within a sweep: it is
/// yes exactly where a relation of the saturated collection says so, and a
/// run that ends with no leaves the saturated collection. Where the
/// collection holds a label at all, the run makes no more sweeps than it has
/// relations times distinct labels; where it holds none, it makes one.
pub fn saturate(relations: &mut Vec<Relation>, all: bool) -> (report: Saturation)
    requires
        all_wf(old(relations)@),
    ensures
        final(relations)@.len() == old(relations)@.len(),
        all_wf(final(relations)@),
        report.sweeps >= 1,
        facts(final(relations)@) == state_after(facts(old(relations)@), report.sweeps as nat),
        forall|sweep: nat|
            1 <= sweep < report.sweeps ==> #[trigger] goes_on(facts(old(relations)@), all, sweep),
        !goes_on(facts(old(relations)@), all, report.sweeps as nat),
        report.derived == some_can_fly(facts(final(relations)@), all),
        report.derived == can_derive(facts(old(relations)@), all),
        !report.derived ==> facts(final(relations)@) == saturated(facts(old(relations)@)),
        grows_to(facts(old(relations)@), facts(final(relations)@)),
        grows_to(merged(facts(old(relations)@)), facts(final(relations)@)),
        grows_to(facts(final(relations)@), saturated(facts(old(relations)@))),
        old(relations)@.len() * distinct_labels(facts(old(relations)@)).len() > 0 ==> report.sweeps
            <= old(relations)@.len() * distinct_labels(facts(old(relations)@)).len(),
        old(relations)@.len() * distinct_labels(facts(old(relations)@)).len() == 0
            ==> report.sweeps == 1,
{
    let ghost orig = facts(relations@);
    proof {
        lemma_facts_finite(relations@);
    }
    merge_premises(relations);
    let mut sweeps: u128 = 0;
    let mut changed = true;
    while changed
        invariant
            relations.len() == orig.len(),
            all_wf(relations@),
            all_finite(orig),
            orig == facts(old(relations)@),
            facts(relations@) == state_after(orig, sweeps as nat),
            forall|sweep: nat| 1 <= sweep < sweeps ==> #[trigger] goes_on(orig, all, sweep),
            changed && sweeps >= 1 ==> goes_on(orig, all, sweeps as nat),
            !changed ==> sweeps >= 1 && !goes_on(orig, all, sweeps as nat) && !some_can_fly(
                facts(relations@),
                all,
            ),
        decreases headroom(orig) - sweeps + (if changed { 2int } else { 1int }),
    {
        proof {
            lemma_run_progress(orig, all, sweeps as nat);
            lemma_total_fits(relations@);
        }
        changed = cascade_sweep(relations);
        sweeps = sweeps + 1;
        if any_can_fly(relations, all) {
            proof {
                lemma_run(orig, sweeps as nat);
                lemma_run_end(orig, all, sweeps as nat);
            }
            return Saturation { derived: true, sweeps };
        }
    }
    proof {
        lemma_run(orig, sweeps as nat);
        lemma_run_end(orig, all, sweeps as nat);
    }
    Saturation { derived: false, sweeps }
}

/// Whether the collection, once saturated, says that pigs fly: all of them if
/// `all` is set, some of them otherwise.
pub fn can_fly(relations: Vec<Relation>, all: bool) -> (yes: bool)
    requires
        all_wf(relations@),
    ensures
        yes == can_derive(facts(relations@), all),
{
    let mut relations = relations;
    saturate(&mut relations, all).derived
}

} // verus!
