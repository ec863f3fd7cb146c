use std::collections::BTreeSet;

use pigs_fly::engine::{can_fly, saturate};
use pigs_fly::labels::LabelSet;
use pigs_fly::relation::Relation;
use pigs_fly::verdict::{verdict, Verdict};

type Plain = (BTreeSet<&'static str>, BTreeSet<&'static str>);

const POOL: [&str; 7] = ["PIGS", "FLY", "A", "B", "C", "D", "E"];

struct Dice(u64);

impl Dice {
    fn roll(&mut self, sides: u64) -> u64 {
        self.0 = self.0.wrapping_mul(6364136223846793005).wrapping_add(1442695040888963407);
        (self.0 >> 33) % sides
    }

    fn labels(&mut self, most: u64) -> BTreeSet<&'static str> {
        let mut set = BTreeSet::new();
        for _ in 0..self.roll(most + 1) {
            set.insert(POOL[self.roll(POOL.len() as u64) as usize]);
        }
        set
    }

    fn collection(&mut self) -> Vec<Plain> {
        let mut all = Vec::new();
        for _ in 0..self.roll(6) {
            all.push((self.labels(2), self.labels(3)));
        }
        all
    }
}

fn built(plain: &[Plain]) -> Vec<Relation> {
    plain
        .iter()
        .map(|(from, to)| {
            let from: Vec<&str> = from.iter().copied().collect();
            let to: Vec<&str> = to.iter().copied().collect();
            Relation::new(LabelSet::from_strs(&from), LabelSet::from_strs(&to))
        })
        .collect()
}

/// The saturated collection, computed with plain sets: every relation with
/// the conclusions of all relations with a narrower premise, then closed under
/// the cascade rule.
fn closed(plain: &[Plain]) -> Vec<Plain> {
    let mut all: Vec<Plain> = plain
        .iter()
        .map(|(from, _)| {
            let mut to = BTreeSet::new();
            for (other_from, other_to) in plain {
                if other_from.is_subset(from) {
                    to.extend(other_to.iter().copied());
                }
            }
            (from.clone(), to)
        })
        .collect();
    loop {
        let mut changed = false;
        for a in (0..all.len()).rev() {
            for b in 0..all.len() {
                if a != b && all[b].0.is_subset(&all[a].1) {
                    let gift = all[b].1.clone();
                    let before = all[a].1.len();
                    all[a].1.extend(gift);
                    changed |= all[a].1.len() > before;
                }
            }
        }
        if !changed {
            return all;
        }
    }
}

fn says(all: &[Plain], every: bool) -> bool {
    all.iter().any(|(from, to)| {
        to.contains("FLY") && (from.contains("PIGS") || (!every && to.contains("PIGS")))
    })
}

fn distinct(plain: &[Plain]) -> u128 {
    let mut labels = BTreeSet::new();
    for (from, to) in plain {
        labels.extend(from.iter().copied());
        labels.extend(to.iter().copied());
    }
    labels.len() as u128
}

#[test]
fn answers_agree_with_plain_sets() {
    let mut dice = Dice(2024);
    let mut seen = [0usize; 3];
    for _ in 0..3000 {
        let plain = dice.collection();
        let goal = closed(&plain);
        assert_eq!(can_fly(built(&plain), true), says(&goal, true));
        assert_eq!(can_fly(built(&plain), false), says(&goal, false));
        let expected = if says(&goal, true) {
            Verdict::AllPigs
        } else if says(&goal, false) {
            Verdict::SomePigs
        } else {
            Verdict::NoPigs
        };
        assert_eq!(verdict(built(&plain)), expected);
        seen[expected as usize] += 1;
    }
    assert!(seen.iter().all(|&count| count > 100));
}

#[test]
fn a_run_without_an_answer_leaves_the_saturated_collection() {
    let mut dice = Dice(7);
    let mut runs = 0;
    for _ in 0..3000 {
        let plain = dice.collection();
        let goal = closed(&plain);
        let mut relations = built(&plain);
        let report = saturate(&mut relations, true);
        assert_eq!(report.derived, says(&goal, true));
        assert_eq!(relations.len(), goal.len());
        for (relation, (from, to)) in relations.iter().zip(goal.iter()) {
            let from: Vec<&str> = from.iter().copied().collect();
            let to: Vec<&str> = to.iter().copied().collect();
            assert!(relation.premises().same_labels(&LabelSet::from_strs(&from)));
            assert!(relation.conclusions().is_subset(&LabelSet::from_strs(&to)));
            if !report.derived {
                assert!(relation.conclusions().same_labels(&LabelSet::from_strs(&to)));
            }
        }
        if !report.derived {
            runs += 1;
        }
    }
    assert!(runs > 100);
}

#[test]
fn runs_stay_within_the_sweep_bound() {
    let mut dice = Dice(99);
    let mut most = 0;
    for _ in 0..3000 {
        let plain = dice.collection();
        let mut relations = built(&plain);
        let report = saturate(&mut relations, false);
        let bound = plain.len() as u128 * distinct(&plain);
        assert!(report.sweeps >= 1);
        if bound == 0 {
            assert_eq!(report.sweeps, 1);
        } else {
            assert!(report.sweeps <= bound);
        }
        most = most.max(report.sweeps);
    }
    assert!(most >= 3);
}
