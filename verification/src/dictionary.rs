//! The feature dictionary: for each feature id, the diagnoses that define it.

use crate::covering::{at_or_above, eligible, first_eligible};
use crate::csr::PyBasicCsrMatrix;
use crate::ordered_set::OrderedSet;
use vstd::prelude::*;

verus! {

/// The dictionary that an indicator matrix defines: feature `f` is row `f`.
pub open spec fn definitions(rows: Seq<Set<int>>) -> Map<int, Set<int>> {
    Map::new(|f: int| 0 <= f < rows.len(), |f: int| rows[f])
}

/// A mapping from feature ids to diagnosis sets. Ids are handed out from 0
/// when the dictionary is built; afterwards features can only leave.
pub struct FeatureDictionary {
    entries: Vec<Option<OrderedSet<i32>>>,
}

impl View for FeatureDictionary {
    type V = Map<int, Set<int>>;

    /// The features that are present, each with its diagnosis set.
    closed spec fn view(&self) -> Map<int, Set<int>> {
        Map::new(
            |f: int| 0 <= f < self.entries@.len() && self.entries@[f] is Some,
            |f: int| self.entries@[f]->0@,
        )
    }
}

impl FeatureDictionary {
    /// The number of ids that were handed out: every id is below it.
    pub closed spec fn span(&self) -> nat {
        self.entries@.len()
    }

    /// Every stored diagnosis set is well formed, and every id fits a
    /// feature id of the matrix format.
    pub closed spec fn wf(&self) -> bool {
        &&& self.entries@.len() <= i32::MAX
        &&& forall|f: int|
            0 <= f < self.entries@.len() && self.entries@[f] is Some
                ==> (#[trigger] self.entries@[f])->0.wf()
    }

    /// The ids of a well-formed dictionary lie between 0 and its span, and
    /// it holds finitely many features of finitely many diagnoses each.
    pub proof fn lemma_bounds(&self)
        requires
            self.wf(),
        ensures
            self.span() <= i32::MAX,
            self@.dom().finite(),
            self@.dom().len() <= self.span(),
            forall|f: int| self@.dom().contains(f) ==> 0 <= f < self.span(),
            forall|f: int| self@.dom().contains(f) ==> (#[trigger] self@[f]).finite(),
    {
        let range = vstd::set_lib::set_int_range(0, self.span() as int);
        vstd::set_lib::lemma_int_range(0, self.span() as int);
        assert(self@.dom().subset_of(range));
        vstd::set_lib::lemma_len_subset(self@.dom(), range);
        assert forall|f: int| self@.dom().contains(f) implies (#[trigger] self@[f]).finite() by {
            self.entries@[f]->0.lemma_len();
        }
    }

    /// The dictionary that the indicator matrix `i` defines.
    pub fn from_indicator(i: &PyBasicCsrMatrix) -> (d: Self)
        requires
            i.wf(),
            i.shape.rows <= i32::MAX,
        ensures
            d.wf(),
            d.span() == i.shape.rows,
            d@ == definitions(i@),
    {
        let mut entries: Vec<Option<OrderedSet<i32>>> = Vec::new();
        let mut f: usize = 0;
        while f < i.shape.rows
            invariant
                i.wf(),
                f <= i.shape.rows,
                entries@.len() == f,
                forall|g: int|
                    0 <= g < f ==> (#[trigger] entries@[g]) is Some && entries@[g]->0.wf()
                        && entries@[g]->0@ == i.row(g),
            decreases i.shape.rows - f,
        {
            let defn = i.row_set(f);
            entries.push(Some(defn));
            f = f + 1;
        }
        let d = FeatureDictionary { entries };
        assert(d@ =~= definitions(i@));
        d
    }

    /// The number of ids that were handed out.
    pub fn n_features(&self) -> (n: usize)
        ensures
            n == self.span(),
    {
        self.entries.len()
    }

    /// Whether feature `f` is present.
    pub fn contains(&self, f: i32) -> (b: bool)
        ensures
            b == self@.dom().contains(f as int),
    {
        f >= 0 && (f as usize) < self.entries.len() && self.entries[f as usize].is_some()
    }

    /// The diagnoses that define feature `f`.
    pub fn get(&self, f: i32) -> (defn: &OrderedSet<i32>)
        requires
            self.wf(),
            self@.dom().contains(f as int),
        ensures
            defn.wf(),
            defn@ == self@[f as int],
    {
        self.entries[f as usize].as_ref().unwrap()
    }

    /// Takes feature `f` out; a feature that is not present changes nothing.
    pub fn remove(&mut self, f: i32)
        requires
            old(self).wf(),
        ensures
            final(self).wf(),
            final(self).span() == old(self).span(),
            final(self)@ == old(self)@.remove(f as int),
    {
        if f >= 0 && (f as usize) < self.entries.len() {
            self.entries.set(f as usize, None);
        }
        assert(self@ =~= old(self)@.remove(f as int));
    }

    /// The present feature with the lowest id from `start` up that is
    /// defined by at least one diagnosis, all of them in `remaining`.
    pub fn first_match_from(&self, remaining: &OrderedSet<i32>, start: usize) -> (found: Option<i32>)
        requires
            self.wf(),
            remaining.wf(),
        ensures
            match found {
                Some(f) => first_eligible(at_or_above(self@, start as int), remaining@, f as int),
                None => forall|g: int| !eligible(at_or_above(self@, start as int), remaining@, g),
            },
    {
        let ghost part = at_or_above(self@, start as int);
        let mut f: usize = start;
        while f < self.entries.len()
            invariant
                self.wf(),
                remaining.wf(),
                start <= f,
                part == at_or_above(self@, start as int),
                forall|g: int| g < f ==> !eligible(part, remaining@, g),
            decreases self.entries.len() - f,
        {
            match &self.entries[f] {
                Some(defn) => {
                    if !defn.is_empty() && defn.is_subset(remaining) {
                        assert(part.dom().contains(f as int));
                        assert(part[f as int] == defn@);
                        return Some(f as i32);
                    }
                },
                None => {},
            }
            f = f + 1;
        }
        None
    }
}

} // verus!
