//! The greedy covering of a diagnosis set by features, as mathematics.
//!
//! A dictionary maps a feature id to the set of diagnoses that define the
//! feature. A feature is eligible for a diagnosis set when it is defined by
//! at least one diagnosis and all of its diagnoses are in the set. The
//! covering picks the eligible feature with the lowest id, takes its
//! diagnoses out of the set, and goes on with what is left until no feature
//! is eligible. Diagnoses still left then belong to no feature.

use vstd::prelude::*;
use vstd::relations::injective_on;
use vstd::set_lib::*;

verus! {

/// Feature `f` is in the dictionary, is defined by at least one diagnosis,
/// and all of its diagnoses are in `d`.
pub open spec fn eligible(dict: Map<int, Set<int>>, d: Set<int>, f: int) -> bool {
    &&& dict.dom().contains(f)
    &&& dict[f] != Set::<int>::empty()
    &&& dict[f].subset_of(d)
}

/// Feature `f` is eligible for `d` and no feature with a lower id is.
pub open spec fn first_eligible(dict: Map<int, Set<int>>, d: Set<int>, f: int) -> bool {
    &&& eligible(dict, d, f)
    &&& forall|g: int| g < f ==> !eligible(dict, d, g)
}

/// The feature that the covering selects next for `d`, if there is one.
pub open spec fn pick(dict: Map<int, Set<int>>, d: Set<int>) -> int {
    choose|f: int| first_eligible(dict, d, f)
}

/// The features that cover `d`, in the order of their selection.
pub open spec fn cover(dict: Map<int, Set<int>>, d: Set<int>) -> Seq<int>
    decreases d.len(),
    when d.finite()
{
    let f = pick(dict, d);
    if first_eligible(dict, d, f) {
        proof {
            lemma_selection_shrinks(dict, d, f);
        }
        seq![f] + cover(dict, d.difference(dict[f]))
    } else {
        Seq::empty()
    }
}

/// The part of a dictionary with the feature ids from `lo` up.
pub open spec fn at_or_above(dict: Map<int, Set<int>>, lo: int) -> Map<int, Set<int>> {
    dict.restrict(Set::new(|g: int| lo <= g))
}

/// A dictionary whose ids all start at `lo` is its own part from `lo` up.
pub proof fn lemma_at_or_above_all(dict: Map<int, Set<int>>, lo: int)
    requires
        forall|f: int| dict.dom().contains(f) ==> lo <= f,
    ensures
        at_or_above(dict, lo) == dict,
{
    assert(at_or_above(dict, lo) =~= dict);
}

/// A set other than the empty one has an element.
pub proof fn lemma_inhabited(s: Set<int>)
    requires
        s != Set::<int>::empty(),
    ensures
        s.contains(s.choose()),
{
    if !s.contains(s.choose()) {
        assert(forall|c: int| !s.contains(c));
        assert(s =~= Set::<int>::empty());
    }
}

/// Taking an eligible feature's diagnoses out of a finite set leaves a
/// smaller finite set.
pub proof fn lemma_selection_shrinks(dict: Map<int, Set<int>>, d: Set<int>, f: int)
    requires
        d.finite(),
        eligible(dict, d, f),
    ensures
        d.difference(dict[f]).finite(),
        d.difference(dict[f]).len() < d.len(),
{
    lemma_inhabited(dict[f]);
    let c = dict[f].choose();
    let rest = d.difference(dict[f]);
    assert(rest.subset_of(d.remove(c)));
    lemma_len_subset(rest, d.remove(c));
}

/// At most one feature is the first eligible one.
pub proof fn lemma_first_eligible_unique(dict: Map<int, Set<int>>, d: Set<int>, f: int, g: int)
    requires
        first_eligible(dict, d, f),
        first_eligible(dict, d, g),
    ensures
        f == g,
{
}

/// Where a feature is selected, the covering starts with it and goes on
/// with the diagnoses it leaves.
pub proof fn lemma_cover_step(dict: Map<int, Set<int>>, d: Set<int>, f: int)
    requires
        d.finite(),
        first_eligible(dict, d, f),
    ensures
        cover(dict, d) == seq![f] + cover(dict, d.difference(dict[f])),
{
    lemma_first_eligible_unique(dict, d, f, pick(dict, d));
}

/// Where no feature is eligible, the covering selects nothing.
pub proof fn lemma_cover_stalls(dict: Map<int, Set<int>>, d: Set<int>)
    requires
        d.finite(),
        forall|f: int| !eligible(dict, d, f),
    ensures
        cover(dict, d) == Seq::<int>::empty(),
{
}

/// Nothing covers the empty diagnosis set.
pub proof fn lemma_cover_of_nothing(dict: Map<int, Set<int>>)
    ensures
        cover(dict, Set::<int>::empty()) == Seq::<int>::empty(),
{
    let none = Set::<int>::empty();
    assert forall|f: int| !eligible(dict, none, f) by {
        if eligible(dict, none, f) {
            assert(dict[f] =~= none);
        }
    }
    lemma_cover_stalls(dict, none);
}

/// A feature that is eligible for a part of `d` is eligible for `d`.
pub proof fn lemma_eligible_in_superset(
    dict: Map<int, Set<int>>,
    part: Set<int>,
    d: Set<int>,
    f: int,
)
    requires
        part.subset_of(d),
        eligible(dict, part, f),
    ensures
        eligible(dict, d, f),
{
}

/// Every selected feature is in the dictionary, is defined by at least one
/// diagnosis, and has all of its diagnoses in the set that was covered.
pub proof fn lemma_cover_sound(dict: Map<int, Set<int>>, d: Set<int>)
    requires
        d.finite(),
    ensures
        forall|k: int| 0 <= k < cover(dict, d).len() ==> eligible(dict, d, #[trigger] cover(dict, d)[k]),
    decreases d.len(),
{
    let f = pick(dict, d);
    if first_eligible(dict, d, f) {
        let rest = d.difference(dict[f]);
        lemma_selection_shrinks(dict, d, f);
        lemma_cover_sound(dict, rest);
        assert forall|k: int| 0 <= k < cover(dict, d).len() implies eligible(
            dict,
            d,
            #[trigger] cover(dict, d)[k],
        ) by {
            if k > 0 {
                assert(cover(dict, d)[k] == cover(dict, rest)[k - 1]);
                lemma_eligible_in_superset(dict, rest, d, cover(dict, rest)[k - 1]);
            }
        }
    }
}

/// The selected features have pairwise disjoint diagnosis sets.
pub proof fn lemma_cover_disjoint(dict: Map<int, Set<int>>, d: Set<int>)
    requires
        d.finite(),
    ensures
        forall|j: int, k: int|
            0 <= j < k < cover(dict, d).len() ==> dict[#[trigger] cover(dict, d)[j]].disjoint(
                dict[#[trigger] cover(dict, d)[k]],
            ),
    decreases d.len(),
{
    let f = pick(dict, d);
    if first_eligible(dict, d, f) {
        let rest = d.difference(dict[f]);
        lemma_selection_shrinks(dict, d, f);
        lemma_cover_disjoint(dict, rest);
        lemma_cover_sound(dict, rest);
        assert forall|j: int, k: int| 0 <= j < k < cover(dict, d).len() implies dict[#[trigger] cover(
            dict,
            d,
        )[j]].disjoint(dict[#[trigger] cover(dict, d)[k]]) by {
            assert(cover(dict, d)[k] == cover(dict, rest)[k - 1]);
            if j == 0 {
                assert(eligible(dict, rest, cover(dict, rest)[k - 1]));
            } else {
                assert(cover(dict, d)[j] == cover(dict, rest)[j - 1]);
            }
        }
    }
}

/// The selected feature ids are strictly ascending: no feature is selected
/// twice, and the order of selection is the order of the ids.
pub proof fn lemma_cover_ascending(dict: Map<int, Set<int>>, d: Set<int>)
    requires
        d.finite(),
    ensures
        forall|j: int, k: int|
            0 <= j < k < cover(dict, d).len() ==> cover(dict, d)[j] < cover(dict, d)[k],
    decreases d.len(),
{
    let f = pick(dict, d);
    if first_eligible(dict, d, f) {
        let rest = d.difference(dict[f]);
        lemma_selection_shrinks(dict, d, f);
        lemma_cover_ascending(dict, rest);
        lemma_cover_sound(dict, rest);
        assert forall|j: int, k: int| 0 <= j < k < cover(dict, d).len() implies cover(dict, d)[j]
            < cover(dict, d)[k] by {
            let g = cover(dict, rest)[k - 1];
            assert(cover(dict, d)[k] == g);
            if j == 0 {
                assert(eligible(dict, rest, g));
                lemma_eligible_in_superset(dict, rest, d, g);
                lemma_inhabited(dict[f]);
                assert(!dict[f].subset_of(rest));
                assert(g != f);
            } else {
                assert(cover(dict, d)[j] == cover(dict, rest)[j - 1]);
            }
        }
    }
}

/// No more features are selected than the set has diagnoses.
pub proof fn lemma_cover_len(dict: Map<int, Set<int>>, d: Set<int>)
    requires
        d.finite(),
    ensures
        cover(dict, d).len() <= d.len(),
    decreases d.len(),
{
    let f = pick(dict, d);
    if first_eligible(dict, d, f) {
        lemma_selection_shrinks(dict, d, f);
        lemma_cover_len(dict, d.difference(dict[f]));
    }
}

/// Every selected feature is in the dictionary.
pub proof fn lemma_cover_within(dict: Map<int, Set<int>>, d: Set<int>)
    requires
        d.finite(),
    ensures
        forall|f: int| cover(dict, d).to_set().contains(f) ==> dict.dom().contains(f),
{
    lemma_cover_sound(dict, d);
    assert forall|f: int| cover(dict, d).to_set().contains(f) implies dict.dom().contains(f) by {
        let k = choose|k: int| 0 <= k < cover(dict, d).len() && cover(dict, d)[k] == f;
        assert(eligible(dict, d, cover(dict, d)[k]));
    }
}

/// The features of `held` are defined by at least one diagnosis each, all
/// of them in `row`, and no two of them share a diagnosis.
pub open spec fn apart(defs: Map<int, Set<int>>, row: Set<int>, held: Set<int>) -> bool {
    &&& held.finite()
    &&& forall|g: int| #[trigger]
        held.contains(g) ==> defs.dom().contains(g) && defs[g] != Set::<int>::empty()
            && defs[g].subset_of(row)
    &&& forall|g: int, h: int|
        held.contains(g) && held.contains(h) && g != h ==> (#[trigger] defs[g]).disjoint(
            #[trigger] defs[h],
        )
}

/// Features that are apart within a finite set of diagnoses are no more
/// than the diagnoses.
pub proof fn lemma_apart_bound(defs: Map<int, Set<int>>, row: Set<int>, held: Set<int>)
    requires
        row.finite(),
        apart(defs, row, held),
    ensures
        held.len() <= row.len(),
{
    let rep = |g: int| defs[g].choose();
    assert(injective_on(rep, held)) by {
        assert forall|g: int, h: int|
            held.contains(g) && held.contains(h) && #[trigger] rep(g) == #[trigger] rep(
                h,
            ) implies g == h by {
            lemma_inhabited(defs[g]);
            lemma_inhabited(defs[h]);
            if g != h {
                assert(defs[g].disjoint(defs[h]));
            }
        }
    }
    let reps = held.map(rep);
    lemma_map_size(held, reps, rep);
    assert(reps.subset_of(row)) by {
        assert forall|c: int| reps.contains(c) implies row.contains(c) by {
            let g = choose|g: int| held.contains(g) && c == rep(g);
            lemma_inhabited(defs[g]);
        }
    }
    lemma_len_subset(reps, row);
}

/// The features that cover a set of diagnoses are apart within it.
pub proof fn lemma_cover_apart(dict: Map<int, Set<int>>, d: Set<int>)
    requires
        d.finite(),
    ensures
        apart(dict, d, cover(dict, d).to_set()),
{
    let picked = cover(dict, d);
    lemma_cover_sound(dict, d);
    lemma_cover_disjoint(dict, d);
    lemma_cover_ascending(dict, d);
    picked.lemma_cardinality_of_set();
    assert forall|g: int| #[trigger] picked.to_set().contains(g) implies dict.dom().contains(g)
        && dict[g] != Set::<int>::empty() && dict[g].subset_of(d) by {
        let k = choose|k: int| 0 <= k < picked.len() && picked[k] == g;
        assert(eligible(dict, d, picked[k]));
    }
    assert forall|g: int, h: int|
        picked.to_set().contains(g) && picked.to_set().contains(h) && g != h implies (
    #[trigger] dict[g]).disjoint(#[trigger] dict[h]) by {
        let j = choose|j: int| 0 <= j < picked.len() && picked[j] == g;
        let k = choose|k: int| 0 <= k < picked.len() && picked[k] == h;
        if j < k {
            assert(dict[picked[j]].disjoint(dict[picked[k]]));
        } else {
            assert(dict[picked[k]].disjoint(dict[picked[j]]));
        }
    }
}

/// Features that are apart under a dictionary are apart under every
/// dictionary that extends it.
pub proof fn lemma_apart_in_larger(
    dict: Map<int, Set<int>>,
    defs: Map<int, Set<int>>,
    row: Set<int>,
    held: Set<int>,
)
    requires
        dict.submap_of(defs),
        apart(dict, row, held),
    ensures
        apart(defs, row, held),
{
    assert forall|g: int| #[trigger] held.contains(g) implies defs.dom().contains(g) && defs[g]
        == dict[g] by {
        assert(dict.dom().contains(g));
    }
}

} // verus!
