//! The steps of a run, one by one, and what holds of every run: conclusions
//! only grow, a run stays below the saturated collection and ends with the
//! answer that the saturated collection gives, and it ends after a number of
//! sweeps that the size of the input bounds.

use vstd::arithmetic::div_mod::{
    lemma_div_pos_is_pos, lemma_fundamental_div_mod, lemma_fundamental_div_mod_converse,
    lemma_mod_bound,
};
use vstd::prelude::*;
use vstd::set_lib::lemma_len_subset;
use crate::closure::{
    all_finite, can_derive, cascade_closed, cascade_closure, conclusion_labels, distinct_labels,
    grows_to, lemma_closure_closed, lemma_closure_grows, lemma_closure_least,
    lemma_closure_stable, lemma_conclusions_bounded, lemma_grown_somewhere,
    lemma_grows_antisymmetric, lemma_grows_transitive, lemma_labels_finite, lemma_merged_grows,
    lemma_merged_inherits, lemma_merged_within_labels, lemma_total_bounded, lemma_total_covers,
    lemma_total_strict, merged, saturated, some_can_fly, total_conclusions,
};
use crate::relation::{lemma_can_fly_monotone, RelationView};

verus! {

/// The collection after relation `b` took over the conclusions of relation
/// `a`, where the premise of `a` is part of the premise of `b`.
pub open spec fn merge_at(facts: Seq<RelationView>, a: int, b: int) -> Seq<RelationView> {
    if facts[a].matches(facts[b]) {
        facts.update(b, facts[b].extended(facts[a]))
    } else {
        facts
    }
}

/// The collection after relation `a` took over the conclusions of relation
/// `b`, where the conclusions of `a` cover the premise of `b`.
pub open spec fn cascade_at(facts: Seq<RelationView>, a: int, b: int) -> Seq<RelationView> {
    if facts[a].cascades(facts[b]) {
        facts.update(a, facts[a].extended(facts[b]))
    } else {
        facts
    }
}

/// In `cur`, relation `y` holds what the merge of `base` owes it from
/// relation `x`.
pub open spec fn merge_settled(
    base: Seq<RelationView>,
    cur: Seq<RelationView>,
    x: int,
    y: int,
) -> bool {
    x != y && base[x].matches(base[y]) ==> base[x].to.subset_of(cur[y].to)
}

/// In `cur`, relation `x` holds what one application of the cascade rule to
/// `start` owes it from relation `y`.
pub open spec fn cascade_settled(
    start: Seq<RelationView>,
    cur: Seq<RelationView>,
    x: int,
    y: int,
) -> bool {
    x != y && start[x].cascades(start[y]) ==> start[y].to.subset_of(cur[x].to)
}

/// `after` holds whatever one application of the cascade rule to each pair of
/// `before` yields.
pub open spec fn cascaded_once(before: Seq<RelationView>, after: Seq<RelationView>) -> bool {
    forall|a: int, b: int|
        #![trigger before[a], before[b]]
        0 <= a < before.len() && 0 <= b < before.len() && a != b && before[a].cascades(before[b])
            ==> before[b].to.subset_of(after[a].to)
}

/// The collection after the first `done` steps of a cascade sweep. A sweep
/// takes the ordered pairs row by row: with `n` relations, step `k` is the
/// cascade step for relation `k / n` and relation `k % n`, and does nothing
/// where the two are the same.
pub open spec fn cascade_swept(facts: Seq<RelationView>, done: nat) -> Seq<RelationView>
    decreases done,
{
    if done == 0 || facts.len() == 0 {
        facts
    } else {
        let before = cascade_swept(facts, (done - 1) as nat);
        let a = (done - 1) / (facts.len() as int);
        let b = (done - 1) % (facts.len() as int);
        if a != b {
            cascade_at(before, a, b)
        } else {
            before
        }
    }
}

/// The collection after one full cascade sweep.
pub open spec fn cascade_sweep_of(facts: Seq<RelationView>) -> Seq<RelationView> {
    cascade_swept(facts, facts.len() * facts.len())
}

/// The collection after the premise merge and `sweeps` cascade sweeps.
pub open spec fn state_after(orig: Seq<RelationView>, sweeps: nat) -> Seq<RelationView>
    decreases sweeps,
{
    if sweeps == 0 {
        merged(orig)
    } else {
        cascade_sweep_of(state_after(orig, (sweeps - 1) as nat))
    }
}

/// Whether a run goes on after sweep number `sweep`, counted from one: the
/// sweep changed something, and no relation says that pigs fly after it.
pub open spec fn goes_on(orig: Seq<RelationView>, all: bool, sweep: nat) -> bool {
    &&& sweep >= 1
    &&& state_after(orig, sweep) != state_after(orig, (sweep - 1) as nat)
    &&& !some_can_fly(state_after(orig, sweep), all)
}

/// The number of conclusions that the cascade sweeps can add at most: what
/// there would be if every relation concluded every label that any relation
/// concludes, less what there is after the premise merge.
pub open spec fn headroom(orig: Seq<RelationView>) -> int {
    orig.len() * conclusion_labels(orig).len() - total_conclusions(merged(orig))
}

/// One merge step keeps the collection between the base and its merge, and
/// settles its pair.
pub proof fn lemma_merge_step(base: Seq<RelationView>, cur: Seq<RelationView>, a: int, b: int)
    requires
        grows_to(base, cur),
        grows_to(cur, merged(base)),
        0 <= a < base.len(),
        0 <= b < base.len(),
        a != b,
    ensures
        grows_to(cur, merge_at(cur, a, b)),
        grows_to(base, merge_at(cur, a, b)),
        grows_to(merge_at(cur, a, b), merged(base)),
        merge_settled(base, merge_at(cur, a, b), a, b),
{
    let next = merge_at(cur, a, b);
    let goal = merged(base);
    assert(cur[a].from == base[a].from && cur[b].from == base[b].from);
    assert(goal[a].from == cur[a].from && cur[a].to.subset_of(goal[a].to));
    assert(goal[b].from == cur[b].from && cur[b].to.subset_of(goal[b].to));
    if cur[a].matches(cur[b]) {
        lemma_merged_inherits(base, a, b);
    }
    assert forall|i: int| 0 <= i < cur.len() implies next[i].from == cur[i].from
        && cur[i].to.subset_of(next[i].to) by {}
    assert forall|i: int| 0 <= i < next.len() implies goal[i].from == next[i].from
        && next[i].to.subset_of(goal[i].to) by {
        assert(goal[i].from == cur[i].from && cur[i].to.subset_of(goal[i].to));
    }
    lemma_grows_transitive(base, cur, next);
    assert(base[a].to.subset_of(cur[a].to));
}

/// One cascade step keeps the collection between the start of the sweep and
/// its closure, and settles its pair.
pub proof fn lemma_cascade_step(start: Seq<RelationView>, cur: Seq<RelationView>, a: int, b: int)
    requires
        grows_to(start, cur),
        grows_to(cur, cascade_closure(start)),
        0 <= a < start.len(),
        0 <= b < start.len(),
        a != b,
    ensures
        grows_to(cur, cascade_at(cur, a, b)),
        grows_to(start, cascade_at(cur, a, b)),
        grows_to(cascade_at(cur, a, b), cascade_closure(start)),
        cascade_settled(start, cascade_at(cur, a, b), a, b),
{
    let next = cascade_at(cur, a, b);
    let goal = cascade_closure(start);
    lemma_closure_closed(start);
    assert(cur[a].from == start[a].from && start[a].to.subset_of(cur[a].to));
    assert(cur[b].from == start[b].from && start[b].to.subset_of(cur[b].to));
    assert(goal[a].from == cur[a].from && cur[a].to.subset_of(goal[a].to));
    assert(goal[b].from == cur[b].from && cur[b].to.subset_of(goal[b].to));
    if cur[a].cascades(cur[b]) {
        assert(goal[a].cascades(goal[b]));
        assert(goal[b].to.subset_of(goal[a].to));
    }
    assert forall|i: int| 0 <= i < cur.len() implies next[i].from == cur[i].from
        && cur[i].to.subset_of(next[i].to) by {}
    assert forall|i: int| 0 <= i < next.len() implies goal[i].from == next[i].from
        && next[i].to.subset_of(goal[i].to) by {
        assert(goal[i].from == cur[i].from && cur[i].to.subset_of(goal[i].to));
    }
    lemma_grows_transitive(start, cur, next);
}

/// The pair that has its turn at step `k` of a sweep over `n` relations.
pub proof fn lemma_pair_of_step(k: int, n: int)
    requires
        0 <= n,
        0 <= k < n * n,
    ensures
        0 <= k / n < n,
        0 <= k % n < n,
        k == (k / n) * n + k % n,
{
    assert(n > 0) by (nonlinear_arith)
        requires
            0 <= n,
            0 <= k < n * n,
    ;
    lemma_fundamental_div_mod(k, n);
    lemma_mod_bound(k, n);
    lemma_div_pos_is_pos(k, n);
    let a = k / n;
    let b = k % n;
    assert(n * a == a * n) by (nonlinear_arith);
    assert(a < n) by (nonlinear_arith)
        requires
            a * n + b < n * n,
            0 <= b,
            0 < n,
    ;
}

/// Part of the way through a sweep the collection lies between the start of
/// the sweep and its closure, and every pair that had its turn is settled.
pub proof fn lemma_swept(start: Seq<RelationView>, done: nat)
    requires
        done <= start.len() * start.len(),
    ensures
        grows_to(start, cascade_swept(start, done)),
        grows_to(cascade_swept(start, done), cascade_closure(start)),
        forall|x: int, y: int|
            0 <= x < start.len() && 0 <= y < start.len() && x * start.len() + y < done
                ==> #[trigger] cascade_settled(start, cascade_swept(start, done), x, y),
    decreases done,
{
    let n = start.len() as int;
    lemma_closure_grows(start);
    if done == 0 || n == 0 {
        assert(grows_to(start, start));
        assert forall|x: int, y: int|
            0 <= x < n && 0 <= y < n && x * n + y < done implies #[trigger] cascade_settled(
            start,
            cascade_swept(start, done),
            x,
            y,
        ) by {
            assert(x * n >= 0) by (nonlinear_arith)
                requires
                    0 <= x,
                    0 <= n,
            ;
        }
    } else {
        let k = done - 1;
        lemma_swept(start, k as nat);
        lemma_pair_of_step(k, n);
        let prev = cascade_swept(start, k as nat);
        let next = cascade_swept(start, done);
        let a = k / n;
        let b = k % n;
        if a != b {
            lemma_cascade_step(start, prev, a, b);
        }
        assert forall|x: int, y: int|
            0 <= x < n && 0 <= y < n && x * n + y < done implies #[trigger] cascade_settled(
            start,
            next,
            x,
            y,
        ) by {
            if x * n + y < k {
                assert(cascade_settled(start, prev, x, y));
                assert(next[x].from == prev[x].from && prev[x].to.subset_of(next[x].to));
            } else {
                lemma_fundamental_div_mod_converse(k, n, x, y);
            }
        }
    }
}

/// A sweep only adds conclusions. It adds at least what one application of
/// the cascade rule to each pair yields and at most what the closure holds,
/// and it changes nothing exactly where the collection is closed.
pub proof fn lemma_sweep(facts: Seq<RelationView>)
    ensures
        grows_to(facts, cascade_sweep_of(facts)),
        grows_to(cascade_sweep_of(facts), cascade_closure(facts)),
        cascaded_once(facts, cascade_sweep_of(facts)),
        (cascade_sweep_of(facts) == facts) == cascade_closed(facts),
{
    let n = facts.len() as int;
    let swept = cascade_sweep_of(facts);
    lemma_swept(facts, facts.len() * facts.len());
    assert forall|x: int, y: int|
        0 <= x < n && 0 <= y < n && x != y && facts[x].cascades(
            facts[y],
        ) implies facts[y].to.subset_of(swept[x].to) by {
        assert(x * n + y < n * n) by (nonlinear_arith)
            requires
                0 <= x < n,
                0 <= y < n,
        ;
        assert(cascade_settled(facts, swept, x, y));
    }
    if cascade_closed(facts) {
        assert(grows_to(facts, facts));
        lemma_closure_least(facts, facts);
        lemma_grows_transitive(swept, cascade_closure(facts), facts);
        lemma_grows_antisymmetric(swept, facts);
    }
}

/// Along a run conclusions only grow, from the merged collection up to at
/// most the saturated one.
pub proof fn lemma_run(orig: Seq<RelationView>, sweeps: nat)
    ensures
        grows_to(orig, state_after(orig, sweeps)),
        grows_to(merged(orig), state_after(orig, sweeps)),
        grows_to(state_after(orig, sweeps), saturated(orig)),
        sweeps >= 1 ==> grows_to(
            state_after(orig, (sweeps - 1) as nat),
            state_after(orig, sweeps),
        ),
    decreases sweeps,
{
    let base = merged(orig);
    lemma_merged_grows(orig);
    if sweeps == 0 {
        assert(grows_to(base, base));
        lemma_closure_grows(base);
    } else {
        let prev = state_after(orig, (sweeps - 1) as nat);
        let cur = state_after(orig, sweeps);
        lemma_run(orig, (sweeps - 1) as nat);
        lemma_sweep(prev);
        lemma_closure_stable(base, prev);
        lemma_grows_transitive(base, prev, cur);
        lemma_grows_transitive(orig, base, cur);
    }
}

/// Later in a run every relation concludes at least what it concluded
/// earlier.
pub proof fn lemma_run_grows(orig: Seq<RelationView>, earlier: nat, later: nat)
    requires
        earlier <= later,
    ensures
        grows_to(state_after(orig, earlier), state_after(orig, later)),
    decreases later - earlier,
{
    if earlier == later {
        lemma_run(orig, earlier);
        assert(grows_to(state_after(orig, earlier), state_after(orig, earlier)));
    } else {
        lemma_run_grows(orig, earlier, (later - 1) as nat);
        lemma_run(orig, later);
        lemma_grows_transitive(
            state_after(orig, earlier),
            state_after(orig, (later - 1) as nat),
            state_after(orig, later),
        );
    }
}

/// Along a run over finite relations, the relations stay finite and none
/// concludes more labels than the collection concludes in all.
pub proof fn lemma_run_finite(orig: Seq<RelationView>, sweeps: nat)
    requires
        all_finite(orig),
    ensures
        all_finite(state_after(orig, sweeps)),
        conclusion_labels(orig).finite(),
        total_conclusions(state_after(orig, sweeps)) <= orig.len() * conclusion_labels(orig).len(),
{
    let base = merged(orig);
    let cur = state_after(orig, sweeps);
    lemma_run(orig, sweeps);
    lemma_labels_finite(orig);
    lemma_merged_within_labels(orig);
    lemma_conclusions_bounded(base, cur);
    lemma_total_bounded(cur, conclusion_labels(orig).len());
    assert forall|i: int| 0 <= i < cur.len() implies (#[trigger] cur[i]).from.finite()
        && cur[i].to.finite() by {
        assert(cur[i].from == orig[i].from);
    }
}

/// A run that went on after each of its first `sweeps` sweeps has added that
/// many conclusions at least, so that it has made no more sweeps than there
/// was room for conclusions.
pub proof fn lemma_run_progress(orig: Seq<RelationView>, all: bool, sweeps: nat)
    requires
        all_finite(orig),
        forall|sweep: nat| 1 <= sweep <= sweeps ==> #[trigger] goes_on(orig, all, sweep),
    ensures
        total_conclusions(merged(orig)) + sweeps <= total_conclusions(state_after(orig, sweeps)),
        sweeps <= headroom(orig),
    decreases sweeps,
{
    lemma_run_finite(orig, sweeps);
    if sweeps > 0 {
        let prev = state_after(orig, (sweeps - 1) as nat);
        let cur = state_after(orig, sweeps);
        lemma_run_progress(orig, all, (sweeps - 1) as nat);
        lemma_run(orig, sweeps);
        assert(goes_on(orig, all, sweeps));
        let i = lemma_grown_somewhere(prev, cur);
        lemma_total_strict(prev, cur, i);
    }
}

/// Where the run ends. A run ends with the first sweep after which it does
/// not go on. It then holds the answer of the saturated collection: some
/// relation says that pigs fly exactly where one of the saturated collection
/// does, and where none does, the run has reached the saturated collection.
/// It has made no more sweeps than the collection has relations times
/// distinct labels; a collection without any label is done after one sweep.
pub proof fn lemma_run_end(orig: Seq<RelationView>, all: bool, sweeps: nat)
    requires
        all_finite(orig),
        sweeps >= 1,
        forall|sweep: nat| 1 <= sweep < sweeps ==> #[trigger] goes_on(orig, all, sweep),
        !goes_on(orig, all, sweeps),
    ensures
        some_can_fly(state_after(orig, sweeps), all) == can_derive(orig, all),
        !can_derive(orig, all) ==> state_after(orig, sweeps) == saturated(orig),
        orig.len() * distinct_labels(orig).len() > 0 ==> sweeps <= orig.len() * distinct_labels(
            orig,
        ).len(),
        orig.len() * distinct_labels(orig).len() == 0 ==> sweeps == 1,
{
    let base = merged(orig);
    let goal = saturated(orig);
    let prev = state_after(orig, (sweeps - 1) as nat);
    let cur = state_after(orig, sweeps);
    lemma_run(orig, sweeps);
    lemma_run(orig, (sweeps - 1) as nat);
    if some_can_fly(cur, all) {
        let i = choose|i: int| 0 <= i < cur.len() && #[trigger] cur[i].can_fly(all);
        assert(goal[i].from == cur[i].from && cur[i].to.subset_of(goal[i].to));
        lemma_can_fly_monotone(cur[i], goal[i], all);
    } else {
        lemma_sweep(prev);
        lemma_closure_least(base, prev);
        lemma_grows_antisymmetric(prev, goal);
    }
    lemma_run_progress(orig, all, (sweeps - 1) as nat);
    lemma_run_finite(orig, (sweeps - 1) as nat);
    lemma_labels_bound(orig, sweeps);
}

/// A number of sweeps within the room for conclusions, and one more, is
/// within the number of relations times distinct labels, or is one.
proof fn lemma_labels_bound(orig: Seq<RelationView>, sweeps: nat)
    requires
        all_finite(orig),
        sweeps <= 1 + headroom(orig),
    ensures
        orig.len() * distinct_labels(orig).len() > 0 ==> sweeps <= orig.len() * distinct_labels(
            orig,
        ).len(),
        orig.len() * distinct_labels(orig).len() == 0 ==> sweeps <= 1,
{
    let base = merged(orig);
    let universe = conclusion_labels(orig);
    let labels = distinct_labels(orig);
    lemma_merged_grows(orig);
    lemma_labels_finite(orig);
    lemma_len_subset(universe, labels);
    if universe.len() == 0 {
        assert(orig.len() * universe.len() == 0) by (nonlinear_arith)
            requires
                universe.len() == 0,
        ;
    } else {
        let label = universe.choose();
        assert(universe.contains(label));
        let i = choose|i: int| 0 <= i < orig.len() && #[trigger] orig[i].to.contains(label);
        assert(base[i].from == orig[i].from && orig[i].to.subset_of(base[i].to));
        lemma_merged_within_labels(orig);
        assert(base[i].to.subset_of(universe)) by {
            assert forall|l: Seq<char>| base[i].to.contains(l) implies conclusion_labels(
                base,
            ).contains(l) by {}
        }
        lemma_len_subset(base[i].to, universe);
        lemma_total_covers(base, i);
        assert(orig.len() * universe.len() <= orig.len() * labels.len()) by (nonlinear_arith)
            requires
                universe.len() <= labels.len(),
        ;
        assert(orig.len() * labels.len() > 0) by (nonlinear_arith)
            requires
                orig.len() > 0,
                labels.len() > 0,
        ;
    }
}

} // verus!
