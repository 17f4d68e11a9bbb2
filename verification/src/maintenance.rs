//! Keeping a floor under the support of every feature, as mathematics.
//!
//! An assignment gives each observation the set of features that cover it.
//! The support of a feature is the number of observations that hold it. While
//! some feature of the dictionary has a support above zero and below the
//! floor, the one with the lowest id leaves the dictionary and every
//! observation that held it is resolved again against what is left.

use crate::covering::{
    apart, cover, lemma_apart_bound, lemma_apart_in_larger, lemma_cover_apart, lemma_cover_within,
};
use vstd::prelude::*;
use vstd::set_lib::*;

verus! {

/// The observations that hold feature `f`.
pub open spec fn holders(assign: Seq<Set<int>>, f: int) -> Set<int> {
    Set::new(|o: int| 0 <= o < assign.len() && assign[o].contains(f))
}

/// The number of observations that hold feature `f`.
pub open spec fn support(assign: Seq<Set<int>>, f: int) -> nat {
    holders(assign, f).len()
}

/// Every observation resolved against the dictionary.
pub open spec fn resolve_all(dict: Map<int, Set<int>>, rows: Seq<Set<int>>) -> Seq<Set<int>> {
    Seq::new(rows.len(), |o: int| cover(dict, rows[o]).to_set())
}

/// Feature `f` is in the dictionary and its support is above zero and below
/// `smin`.
pub open spec fn under_supported(
    dict: Map<int, Set<int>>,
    assign: Seq<Set<int>>,
    smin: int,
    f: int,
) -> bool {
    dict.dom().contains(f) && 0 < support(assign, f) < smin
}

/// Feature `f` is under-supported and no feature with a lower id is.
pub open spec fn first_under_supported(
    dict: Map<int, Set<int>>,
    assign: Seq<Set<int>>,
    smin: int,
    f: int,
) -> bool {
    &&& under_supported(dict, assign, smin, f)
    &&& forall|g: int| g < f ==> !under_supported(dict, assign, smin, g)
}

/// The feature that leaves next, if one does.
pub open spec fn victim(dict: Map<int, Set<int>>, assign: Seq<Set<int>>, smin: int) -> int {
    choose|f: int| first_under_supported(dict, assign, smin, f)
}

/// The assignment after feature `f` has left `dict`: every observation that
/// held `f` is resolved against the dictionary without `f`, the others keep
/// what they had.
pub open spec fn repair(
    dict: Map<int, Set<int>>,
    rows: Seq<Set<int>>,
    assign: Seq<Set<int>>,
    f: int,
) -> Seq<Set<int>> {
    Seq::new(
        assign.len(),
        |o: int|
            if assign[o].contains(f) {
                cover(dict.remove(f), rows[o]).to_set()
            } else {
                assign[o]
            },
    )
}

/// The dictionary and the assignment once no feature is under-supported.
pub open spec fn settle(
    dict: Map<int, Set<int>>,
    rows: Seq<Set<int>>,
    assign: Seq<Set<int>>,
    smin: int,
) -> (Map<int, Set<int>>, Seq<Set<int>>)
    decreases dict.dom().len(),
    when dict.dom().finite()
{
    let f = victim(dict, assign, smin);
    if first_under_supported(dict, assign, smin, f) {
        settle(dict.remove(f), rows, repair(dict, rows, assign, f), smin)
    } else {
        (dict, assign)
    }
}

/// The number of features that leave before no feature is under-supported.
pub open spec fn removals(
    dict: Map<int, Set<int>>,
    rows: Seq<Set<int>>,
    assign: Seq<Set<int>>,
    smin: int,
) -> nat
    decreases dict.dom().len(),
    when dict.dom().finite()
{
    let f = victim(dict, assign, smin);
    if first_under_supported(dict, assign, smin, f) {
        1 + removals(dict.remove(f), rows, repair(dict, rows, assign, f), smin)
    } else {
        0
    }
}

/// Every assigned feature is in the dictionary.
pub open spec fn assigned_within(dict: Map<int, Set<int>>, assign: Seq<Set<int>>) -> bool {
    forall|o: int, f: int|
        0 <= o < assign.len() && (#[trigger] assign[o].contains(f)) ==> dict.dom().contains(f)
}

/// Each observation holds finitely many features, no more than it has
/// diagnoses.
pub open spec fn within_rows(rows: Seq<Set<int>>, assign: Seq<Set<int>>) -> bool {
    &&& assign.len() == rows.len()
    &&& forall|o: int|
        0 <= o < assign.len() ==> (#[trigger] assign[o]).finite() && assign[o].len()
            <= rows[o].len()
}

/// Every observation has finitely many diagnoses.
pub open spec fn finite_rows(rows: Seq<Set<int>>) -> bool {
    forall|o: int| 0 <= o < rows.len() ==> (#[trigger] rows[o]).finite()
}

/// Every observation holds features that are apart within its diagnoses.
pub open spec fn all_apart(defs: Map<int, Set<int>>, rows: Seq<Set<int>>, assign: Seq<Set<int>>) -> bool {
    &&& assign.len() == rows.len()
    &&& forall|o: int| 0 <= o < assign.len() ==> apart(defs, rows[o], #[trigger] assign[o])
}

/// A feature is held by finitely many observations, no more than there are.
pub proof fn lemma_holders_bounded(assign: Seq<Set<int>>, f: int)
    ensures
        holders(assign, f).finite(),
        holders(assign, f).len() <= assign.len(),
{
    let all = set_int_range(0, assign.len() as int);
    lemma_int_range(0, assign.len() as int);
    assert(holders(assign, f).subset_of(all));
    lemma_len_subset(holders(assign, f), all);
}

/// Giving observation `o` the feature `f` adds `o` to the holders of `f` and
/// changes the holders of no other feature.
pub proof fn lemma_holders_insert(assign: Seq<Set<int>>, o: int, f: int)
    requires
        0 <= o < assign.len(),
    ensures
        holders(assign.update(o, assign[o].insert(f)), f) == holders(assign, f).insert(o),
        forall|g: int|
            g != f ==> #[trigger] holders(assign.update(o, assign[o].insert(f)), g) == holders(
                assign,
                g,
            ),
{
    let after = assign.update(o, assign[o].insert(f));
    assert(holders(after, f) =~= holders(assign, f).insert(o));
    assert forall|g: int| g != f implies #[trigger] holders(after, g) == holders(assign, g) by {
        assert(holders(after, g) =~= holders(assign, g));
    }
}

/// Taking the feature `f` from observation `o` takes `o` out of the holders
/// of `f` and changes the holders of no other feature.
pub proof fn lemma_holders_remove(assign: Seq<Set<int>>, o: int, f: int)
    requires
        0 <= o < assign.len(),
    ensures
        holders(assign.update(o, assign[o].remove(f)), f) == holders(assign, f).remove(o),
        forall|g: int|
            g != f ==> #[trigger] holders(assign.update(o, assign[o].remove(f)), g) == holders(
                assign,
                g,
            ),
{
    let after = assign.update(o, assign[o].remove(f));
    assert(holders(after, f) =~= holders(assign, f).remove(o));
    assert forall|g: int| g != f implies #[trigger] holders(after, g) == holders(assign, g) by {
        assert(holders(after, g) =~= holders(assign, g));
    }
}

/// A finite set of integers that has an element has a least one.
pub proof fn lemma_least(s: Set<int>) -> (m: int)
    requires
        s.finite(),
        s.len() > 0,
    ensures
        s.contains(m),
        forall|x: int| s.contains(x) ==> m <= x,
    decreases s.len(),
{
    let a = s.choose();
    let rest = s.remove(a);
    if rest.len() == 0 {
        assert forall|x: int| s.contains(x) implies a <= x by {
            if x != a {
                assert(rest.contains(x));
            }
        }
        a
    } else {
        let b = lemma_least(rest);
        let m = if a <= b { a } else { b };
        assert forall|x: int| s.contains(x) implies m <= x by {
            if x != a {
                assert(rest.contains(x));
            }
        }
        m
    }
}

/// The first under-supported feature is the victim.
pub proof fn lemma_first_under_supported_unique(
    dict: Map<int, Set<int>>,
    assign: Seq<Set<int>>,
    smin: int,
    f: int,
)
    requires
        first_under_supported(dict, assign, smin, f),
    ensures
        victim(dict, assign, smin) == f,
{
    let v = victim(dict, assign, smin);
    assert(first_under_supported(dict, assign, smin, v));
    if v < f {
        assert(!under_supported(dict, assign, smin, v));
    }
    if f < v {
        assert(!under_supported(dict, assign, smin, f));
    }
}

/// Where some feature is under-supported, the victim is the first such.
pub proof fn lemma_victim(dict: Map<int, Set<int>>, assign: Seq<Set<int>>, smin: int, f: int)
    requires
        dict.dom().finite(),
        under_supported(dict, assign, smin, f),
    ensures
        first_under_supported(dict, assign, smin, victim(dict, assign, smin)),
{
    let low = dict.dom().filter(|g: int| under_supported(dict, assign, smin, g));
    assert(low.subset_of(dict.dom()));
    lemma_len_subset(low, dict.dom());
    assert(low.contains(f));
    let m = lemma_least(low);
    assert forall|g: int| g < m implies !under_supported(dict, assign, smin, g) by {
        if under_supported(dict, assign, smin, g) {
            assert(low.contains(g));
        }
    }
    assert(first_under_supported(dict, assign, smin, m));
}

/// Features that are apart for every observation are, for each observation,
/// no more than its diagnoses.
pub proof fn lemma_all_apart_within_rows(
    defs: Map<int, Set<int>>,
    rows: Seq<Set<int>>,
    assign: Seq<Set<int>>,
)
    requires
        finite_rows(rows),
        all_apart(defs, rows, assign),
    ensures
        within_rows(rows, assign),
{
    assert forall|o: int| 0 <= o < assign.len() implies (#[trigger] assign[o]).finite()
        && assign[o].len() <= rows[o].len() by {
        lemma_apart_bound(defs, rows[o], assign[o]);
    }
}

/// Resolving every observation gives an assignment within the dictionary
/// whose features are apart for every observation.
pub proof fn lemma_resolve_all_keeps(dict: Map<int, Set<int>>, rows: Seq<Set<int>>)
    requires
        finite_rows(rows),
    ensures
        all_apart(dict, rows, resolve_all(dict, rows)),
        assigned_within(dict, resolve_all(dict, rows)),
{
    let first = resolve_all(dict, rows);
    assert forall|o: int| 0 <= o < first.len() implies apart(dict, rows[o], #[trigger] first[o]) by {
        lemma_cover_apart(dict, rows[o]);
    }
    assert forall|o: int, g: int| 0 <= o < first.len() && (#[trigger] first[o].contains(
        g,
    )) implies dict.dom().contains(g) by {
        lemma_cover_within(dict, rows[o]);
    }
}

/// What one repair keeps: the features stay apart for every observation and
/// within what is left of the dictionary, and no observation holds the
/// feature that left.
pub proof fn lemma_repair_keeps(
    defs: Map<int, Set<int>>,
    dict: Map<int, Set<int>>,
    rows: Seq<Set<int>>,
    assign: Seq<Set<int>>,
    f: int,
)
    requires
        dict.submap_of(defs),
        finite_rows(rows),
        all_apart(defs, rows, assign),
        assigned_within(dict, assign),
    ensures
        all_apart(defs, rows, repair(dict, rows, assign, f)),
        assigned_within(dict.remove(f), repair(dict, rows, assign, f)),
        holders(repair(dict, rows, assign, f), f) == Set::<int>::empty(),
{
    let after = repair(dict, rows, assign, f);
    let rest = dict.remove(f);
    assert forall|o: int| 0 <= o < after.len() implies apart(defs, rows[o], #[trigger] after[o]) by {
        if assign[o].contains(f) {
            lemma_cover_apart(rest, rows[o]);
            lemma_apart_in_larger(rest, defs, rows[o], after[o]);
        } else {
            assert(apart(defs, rows[o], assign[o]));
        }
    }
    assert forall|o: int, g: int| 0 <= o < after.len() && (#[trigger] after[o].contains(
        g,
    )) implies rest.dom().contains(g) by {
        if assign[o].contains(f) {
            lemma_cover_within(rest, rows[o]);
        } else {
            assert(assign[o].contains(g));
        }
    }
    assert(holders(after, f) =~= Set::<int>::empty()) by {
        assert forall|o: int| !holders(after, f).contains(o) by {
            if 0 <= o < after.len() && after[o].contains(f) {
                assert(rest.dom().contains(f));
            }
        }
    }
}

/// What settling arrives at: features that are apart for every observation
/// and within what is left of the dictionary, and no feature at all with a
/// support above zero and below `smin`.
pub proof fn lemma_settle_floor(
    defs: Map<int, Set<int>>,
    dict: Map<int, Set<int>>,
    rows: Seq<Set<int>>,
    assign: Seq<Set<int>>,
    smin: int,
)
    requires
        dict.dom().finite(),
        dict.submap_of(defs),
        finite_rows(rows),
        all_apart(defs, rows, assign),
        assigned_within(dict, assign),
    ensures
        settle(dict, rows, assign, smin).0.submap_of(dict),
        all_apart(defs, rows, settle(dict, rows, assign, smin).1),
        assigned_within(
            settle(dict, rows, assign, smin).0,
            settle(dict, rows, assign, smin).1,
        ),
        forall|f: int|
            support(settle(dict, rows, assign, smin).1, f) == 0 || #[trigger] support(
                settle(dict, rows, assign, smin).1,
                f,
            ) >= smin,
    decreases dict.dom().len(),
{
    let f = victim(dict, assign, smin);
    if first_under_supported(dict, assign, smin, f) {
        lemma_repair_keeps(defs, dict, rows, assign, f);
        lemma_settle_floor(defs, dict.remove(f), rows, repair(dict, rows, assign, f), smin);
        let left = settle(dict, rows, assign, smin).0;
        assert forall|g: int| #[trigger] left.dom().contains(g) implies dict.dom().contains(g)
            && left[g] == dict[g] by {
            assert(dict.remove(f).dom().contains(g));
        }
    } else {
        assert forall|g: int| support(assign, g) == 0 || #[trigger] support(assign, g)
            >= smin by {
            if dict.dom().contains(g) {
                if under_supported(dict, assign, smin, g) {
                    lemma_victim(dict, assign, smin, g);
                }
            } else {
                assert(holders(assign, g) =~= Set::<int>::empty());
            }
        }
    }
}

/// Each removal takes one feature out of the dictionary, so no more features
/// leave than the dictionary holds.
pub proof fn lemma_removals_bounded(
    dict: Map<int, Set<int>>,
    rows: Seq<Set<int>>,
    assign: Seq<Set<int>>,
    smin: int,
)
    requires
        dict.dom().finite(),
    ensures
        settle(dict, rows, assign, smin).0.dom().finite(),
        removals(dict, rows, assign, smin) + settle(dict, rows, assign, smin).0.dom().len()
            == dict.dom().len(),
        removals(dict, rows, assign, smin) <= dict.dom().len(),
    decreases dict.dom().len(),
{
    let f = victim(dict, assign, smin);
    if first_under_supported(dict, assign, smin, f) {
        lemma_removals_bounded(dict.remove(f), rows, repair(dict, rows, assign, f), smin);
    }
}

} // verus!
