//! Finite sets of trait labels.

use vstd::prelude::*;

verus! {

/// The words that a sequence of strings spells, in order.
pub open spec fn words(items: Seq<String>) -> Seq<Seq<char>> {
    items.map_values(|s: String| s@)
}

/// The words that a slice of string slices spells, in order.
pub open spec fn slice_words(items: Seq<&str>) -> Seq<Seq<char>> {
    items.map_values(|s: &str| s@)
}

/// A finite set of labels. A label is a word, compared character by
/// character; the order in which labels were added is not observable through
/// the view.
#[derive(Debug)]
pub struct LabelSet {
    items: Vec<String>,
}

impl View for LabelSet {
    type V = Set<Seq<char>>;

    closed spec fn view(&self) -> Set<Seq<char>> {
        words(self.items@).to_set()
    }
}

impl LabelSet {
    /// No label is stored twice.
    pub closed spec fn wf(&self) -> bool {
        words(self.items@).no_duplicates()
    }

    /// Every label set is finite.
    pub proof fn lemma_finite(&self)
        ensures
            self@.finite(),
    {
        vstd::seq_lib::seq_to_set_is_finite(words(self.items@));
    }

    /// A well-formed set has as many labels as it stores strings, so its size
    /// fits a machine word.
    pub proof fn lemma_len_fits(&self)
        requires
            self.wf(),
        ensures
            self@.len() <= usize::MAX,
    {
        words(self.items@).unique_seq_to_set();
        vstd::std_specs::vec::axiom_spec_len(&self.items);
    }

    /// The empty set.
    pub fn new() -> (s: Self)
        ensures
            s.wf(),
            s@ == Set::<Seq<char>>::empty(),
    {
        let s = LabelSet { items: Vec::new() };
        assert(s@ =~= Set::<Seq<char>>::empty());
        s
    }

    /// The number of labels.
    pub fn len(&self) -> (n: usize)
        requires
            self.wf(),
        ensures
            n == self@.len(),
    {
        proof {
            words(self.items@).unique_seq_to_set();
        }
        self.items.len()
    }

    /// Whether the set has no label.
    pub fn is_empty(&self) -> (empty: bool)
        ensures
            empty == (self@ == Set::<Seq<char>>::empty()),
    {
        let empty = self.items.len() == 0;
        proof {
            if empty {
                assert(self@ =~= Set::<Seq<char>>::empty());
            } else {
                assert(words(self.items@)[0] == self.items[0]@);
                assert(self@.contains(self.items[0]@));
            }
        }
        empty
    }

    /// Membership test against an owned word.
    fn holds(&self, label: &String) -> (found: bool)
        ensures
            found == self@.contains(label@),
    {
        let mut i: usize = 0;
        while i < self.items.len()
            invariant
                i <= self.items.len(),
                forall|k: int| 0 <= k < i ==> self.items[k]@ != label@,
            decreases self.items.len() - i,
        {
            if self.items[i] == *label {
                assert(words(self.items@)[i as int] == label@);
                return true;
            }
            i += 1;
        }
        assert(forall|k: int|
            0 <= k < self.items.len() ==> words(self.items@)[k] == self.items[k]@);
        false
    }

    /// Membership test.
    pub fn contains(&self, label: &str) -> (found: bool)
        ensures
            found == self@.contains(label@),
    {
        let owned = label.to_owned();
        self.holds(&owned)
    }

    /// Adds `label`; says whether it was new.
    pub fn insert(&mut self, label: String) -> (added: bool)
        requires
            old(self).wf(),
        ensures
            final(self).wf(),
            final(self)@ == old(self)@.insert(label@),
            added == !old(self)@.contains(label@),
    {
        if self.holds(&label) {
            assert(self@.insert(label@) =~= self@);
            false
        } else {
            let ghost before = words(self.items@);
            self.items.push(label);
            proof {
                let after = words(self.items@);
                assert(after =~= before.push(label@));
                assert forall|i: int, j: int|
                    0 <= i < after.len() && 0 <= j < after.len() && i != j implies after[i]
                    != after[j] by {
                    if i < before.len() {
                        assert(before.to_set().contains(before[i]));
                    }
                    if j < before.len() {
                        assert(before.to_set().contains(before[j]));
                    }
                }
                assert forall|l: Seq<char>|
                    after.to_set().contains(l) == before.to_set().insert(label@).contains(l) by {
                    if after.to_set().contains(l) {
                        let k = choose|k: int| 0 <= k < after.len() && after[k] == l;
                        if k < before.len() {
                            assert(before[k] == l);
                        }
                    }
                    if before.to_set().contains(l) {
                        let k = choose|k: int| 0 <= k < before.len() && before[k] == l;
                        assert(after[k] == l);
                    }
                    if l == label@ {
                        assert(after[before.len() as int] == l);
                    }
                }
                assert(after.to_set() =~= before.to_set().insert(label@));
            }
            true
        }
    }

    /// Whether every label of `self` is a label of `other`.
    pub fn is_subset(&self, other: &LabelSet) -> (subset: bool)
        ensures
            subset == self@.subset_of(other@),
    {
        let mut i: usize = 0;
        while i < self.items.len()
            invariant
                i <= self.items.len(),
                forall|k: int| 0 <= k < i ==> other@.contains(self.items[k]@),
            decreases self.items.len() - i,
        {
            if !other.holds(&self.items[i]) {
                assert(words(self.items@)[i as int] == self.items[i as int]@);
                assert(self@.contains(self.items[i as int]@));
                return false;
            }
            i += 1;
        }
        assert forall|l: Seq<char>| self@.contains(l) implies other@.contains(l) by {
            let k = choose|k: int| 0 <= k < self.items.len() && words(self.items@)[k] == l;
            assert(self.items[k]@ == l);
        }
        true
    }

    /// Whether both sets hold the same labels.
    pub fn same_labels(&self, other: &LabelSet) -> (same: bool)
        ensures
            same == (self@ == other@),
    {
        let same = self.is_subset(other) && other.is_subset(self);
        proof {
            if same {
                assert(self@ =~= other@);
            }
        }
        same
    }

    /// Adds every label of `other`; says whether the set grew.
    pub fn extend(&mut self, other: &LabelSet) -> (grew: bool)
        requires
            old(self).wf(),
        ensures
            final(self).wf(),
            final(self)@ == old(self)@.union(other@),
            grew == !other@.subset_of(old(self)@),
            grew == (final(self)@.len() > old(self)@.len()),
    {
        let mut grew = false;
        let mut i: usize = 0;
        while i < other.items.len()
            invariant
                i <= other.items.len(),
                self.wf(),
                old(self)@.subset_of(self@),
                forall|k: int| 0 <= k < i ==> self@.contains(other.items[k]@),
                forall|l: Seq<char>| #[trigger]
                    self@.contains(l) ==> old(self)@.contains(l) || other@.contains(l),
                !grew ==> self@ == old(self)@,
                grew ==> exists|k: int| 0 <= k < i && !old(self)@.contains(other.items[k]@),
            decreases other.items.len() - i,
        {
            let label = other.items[i].clone();
            proof {
                assert(words(other.items@)[i as int] == other.items[i as int]@);
                assert(other@.contains(label@));
            }
            let ghost middle = self@;
            let added = self.insert(label);
            proof {
                if added {
                    assert(!old(self)@.contains(other.items[i as int]@));
                } else {
                    assert(self@ =~= middle);
                }
            }
            grew = grew || added;
            i += 1;
        }
        proof {
            assert forall|l: Seq<char>| other@.contains(l) implies self@.contains(l) by {
                let k = choose|k: int| 0 <= k < other.items.len() && words(other.items@)[k] == l;
                assert(other.items[k]@ == l);
            }
            assert(self@ =~= old(self)@.union(other@));
            if grew {
                let k = choose|k: int|
                    0 <= k < other.items.len() && !old(self)@.contains(other.items[k]@);
                assert(words(other.items@)[k] == other.items[k]@);
                assert(other@.contains(other.items[k]@));
                self.lemma_finite();
                old(self)@.lemma_subset_not_in_lt(self@, other.items[k]@);
            }
        }
        grew
    }

    /// The set of the given words; a word given twice counts once.
    pub fn from_strs(labels: &[&str]) -> (s: Self)
        ensures
            s.wf(),
            s@ == slice_words(labels@).to_set(),
    {
        let mut s = LabelSet::new();
        let mut i: usize = 0;
        while i < labels.len()
            invariant
                i <= labels.len(),
                s.wf(),
                s@ == slice_words(labels@).take(i as int).to_set(),
            decreases labels.len() - i,
        {
            let word = labels[i].to_owned();
            let ghost before = s@;
            s.insert(word);
            proof {
                let all = slice_words(labels@);
                assert(all.take(i + 1) =~= all.take(i as int).push(all[i as int]));
                Seq::lemma_to_set_insert_commutes(all.take(i as int), all[i as int]);
                assert(all.take(i as int).push(all[i as int]) =~= all.take(i as int) + seq![
                    all[i as int],
                ]);
            }
            i += 1;
        }
        assert(slice_words(labels@).take(labels.len() as int) =~= slice_words(labels@));
        s
    }

    /// The labels, each once, in no particular order.
    pub fn to_vec(&self) -> (labels: Vec<String>)
        requires
            self.wf(),
        ensures
            words(labels@).no_duplicates(),
            words(labels@).to_set() == self@,
    {
        let mut labels: Vec<String> = Vec::new();
        let mut i: usize = 0;
        while i < self.items.len()
            invariant
                i <= self.items.len(),
                words(labels@) == words(self.items@).take(i as int),
            decreases self.items.len() - i,
        {
            let label = self.items[i].clone();
            proof {
                assert(words(labels@.push(label)) =~= words(labels@).push(label@));
                assert(words(self.items@).take(i + 1) =~= words(self.items@).take(i as int).push(
                    self.items[i as int]@,
                ));
            }
            labels.push(label);
            i += 1;
        }
        assert(words(self.items@).take(self.items.len() as int) =~= words(self.items@));
        labels
    }

    /// A copy with the same labels.
    pub fn duplicate(&self) -> (copy: Self)
        requires
            self.wf(),
        ensures
            copy.wf(),
            copy@ == self@,
    {
        LabelSet { items: self.to_vec() }
    }
}

} // verus!
