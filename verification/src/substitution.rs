//! The earlier way of keeping a floor under the support of every feature, as
//! mathematics: a feature that lacks support leaves the dictionary, and
//! each observation that held it gets in its place the features with
//! higher ids that cover the diagnoses of the feature that left.
//!
//! Features are looked at once, in ascending order of their ids; one whose
//! support is zero counts as lacking support too.

use crate::covering::{apart, at_or_above, cover, lemma_cover_apart};
use crate::maintenance::{
    all_apart, assigned_within, holders, lemma_holders_bounded, lemma_least, support,
};
use vstd::prelude::*;
use vstd::set_lib::*;

verus! {

/// Feature `f` is in the dictionary, its id is `from` or higher, and its
/// support is below `smin`.
pub open spec fn lacking(
    dict: Map<int, Set<int>>,
    assign: Seq<Set<int>>,
    smin: int,
    from: int,
    f: int,
) -> bool {
    dict.dom().contains(f) && from <= f && support(assign, f) < smin
}

/// Feature `f` lacks support and no feature with a lower id does.
pub open spec fn first_lacking(
    dict: Map<int, Set<int>>,
    assign: Seq<Set<int>>,
    smin: int,
    from: int,
    f: int,
) -> bool {
    &&& lacking(dict, assign, smin, from, f)
    &&& forall|g: int| g < f ==> !lacking(dict, assign, smin, from, g)
}

/// The features with ids above `f` that cover the diagnoses of feature `f`.
pub open spec fn alternatives(dict: Map<int, Set<int>>, f: int) -> Seq<int> {
    cover(at_or_above(dict, f + 1), dict[f])
}

/// The assignment after feature `f` has left: every observation that held
/// `f` holds its alternatives instead.
pub open spec fn substitute(dict: Map<int, Set<int>>, assign: Seq<Set<int>>, f: int) -> Seq<
    Set<int>,
> {
    Seq::new(
        assign.len(),
        |o: int|
            if assign[o].contains(f) {
                assign[o].remove(f).union(alternatives(dict, f).to_set())
            } else {
                assign[o]
            },
    )
}

/// The assignment once no feature with an id from `from` up lacks support.
pub open spec fn settle_by_substitution(
    dict: Map<int, Set<int>>,
    assign: Seq<Set<int>>,
    smin: int,
    from: int,
) -> Seq<Set<int>>
    decreases dict.dom().len(),
    when dict.dom().finite()
{
    let f = choose|f: int| first_lacking(dict, assign, smin, from, f);
    if first_lacking(dict, assign, smin, from, f) {
        settle_by_substitution(dict.remove(f), substitute(dict, assign, f), smin, f + 1)
    } else {
        assign
    }
}

/// Every feature is defined by finitely many diagnoses.
pub open spec fn finite_definitions(defs: Map<int, Set<int>>) -> bool {
    forall|g: int| defs.dom().contains(g) ==> (#[trigger] defs[g]).finite()
}

/// What one substitution keeps and what it changes: the features stay
/// apart and within what is left of the dictionary, the feature that left
/// is held by no observation, and no other feature loses a holder.
pub proof fn lemma_substitute_keeps(
    defs: Map<int, Set<int>>,
    dict: Map<int, Set<int>>,
    rows: Seq<Set<int>>,
    assign: Seq<Set<int>>,
    f: int,
)
    requires
        dict.submap_of(defs),
        dict.dom().contains(f),
        finite_definitions(defs),
        all_apart(defs, rows, assign),
        assigned_within(dict, assign),
    ensures
        all_apart(defs, rows, substitute(dict, assign, f)),
        assigned_within(dict.remove(f), substitute(dict, assign, f)),
        forall|g: int|
            g != f ==> #[trigger] holders(assign, g).subset_of(
                holders(substitute(dict, assign, f), g),
            ),
{
    let after = substitute(dict, assign, f);
    let above = at_or_above(dict, f + 1);
    let alt = alternatives(dict, f).to_set();
    assert(dict[f] == defs[f]);
    lemma_cover_apart(above, dict[f]);
    assert forall|h: int| alt.contains(h) implies h > f && dict.dom().contains(h) && defs[h]
        == above[h] by {
        assert(above.dom().contains(h));
    }
    assert forall|o: int| 0 <= o < after.len() implies apart(defs, rows[o], #[trigger] after[o]) by {
        assert(apart(defs, rows[o], assign[o]));
        if assign[o].contains(f) {
            let kept = assign[o].remove(f);
            assert forall|g: int| #[trigger] after[o].contains(g) implies defs.dom().contains(g)
                && defs[g] != Set::<int>::empty() && defs[g].subset_of(rows[o]) by {
                if alt.contains(g) {
                    assert(above[g].subset_of(dict[f]));
                } else {
                    assert(assign[o].contains(g));
                }
            }
            assert forall|g: int, h: int|
                after[o].contains(g) && after[o].contains(h) && g != h implies (
            #[trigger] defs[g]).disjoint(#[trigger] defs[h]) by {
                if alt.contains(g) && alt.contains(h) {
                    assert(above[g].disjoint(above[h]));
                } else if alt.contains(g) {
                    assert(kept.contains(h));
                    assert(defs[h].disjoint(defs[f]));
                    assert(above[g].subset_of(dict[f]));
                } else if alt.contains(h) {
                    assert(kept.contains(g));
                    assert(defs[g].disjoint(defs[f]));
                    assert(above[h].subset_of(dict[f]));
                } else {
                    assert(assign[o].contains(g) && assign[o].contains(h));
                }
            }
        }
    }
    assert forall|o: int, g: int| 0 <= o < after.len() && (#[trigger] after[o].contains(
        g,
    )) implies dict.remove(f).dom().contains(g) by {
        if assign[o].contains(f) {
            if !alt.contains(g) {
                assert(assign[o].contains(g));
            }
        } else {
            assert(assign[o].contains(g));
        }
    }
    assert forall|g: int| g != f implies #[trigger] holders(assign, g).subset_of(
        holders(after, g),
    ) by {
        assert forall|o: int| holders(assign, g).contains(o) implies holders(after, g).contains(
            o,
        ) by {
            assert(after[o].contains(g));
        }
    }
}

/// What settling by substitution arrives at: features that are apart for
/// every observation, and no feature at all with a support above zero and
/// below `smin`.
pub proof fn lemma_settle_by_substitution(
    defs: Map<int, Set<int>>,
    dict: Map<int, Set<int>>,
    rows: Seq<Set<int>>,
    assign: Seq<Set<int>>,
    smin: int,
    from: int,
)
    requires
        dict.dom().finite(),
        dict.submap_of(defs),
        finite_definitions(defs),
        all_apart(defs, rows, assign),
        assigned_within(dict, assign),
        forall|g: int| dict.dom().contains(g) && g < from ==> #[trigger] support(assign, g) >= smin,
    ensures
        all_apart(defs, rows, settle_by_substitution(dict, assign, smin, from)),
        forall|g: int|
            support(settle_by_substitution(dict, assign, smin, from), g) == 0 || #[trigger] support(
                settle_by_substitution(dict, assign, smin, from),
                g,
            ) >= smin,
    decreases dict.dom().len(),
{
    let f = choose|f: int| first_lacking(dict, assign, smin, from, f);
    if first_lacking(dict, assign, smin, from, f) {
        let after = substitute(dict, assign, f);
        lemma_substitute_keeps(defs, dict, rows, assign, f);
        assert forall|g: int| dict.remove(f).dom().contains(g) && g < f + 1 implies #[trigger] support(
            after,
            g,
        ) >= smin by {
            assert(!lacking(dict, assign, smin, from, g));
            assert(support(assign, g) >= smin);
            assert(holders(assign, g).subset_of(holders(after, g)));
            lemma_holders_bounded(after, g);
            lemma_len_subset(holders(assign, g), holders(after, g));
        }
        lemma_settle_by_substitution(defs, dict.remove(f), rows, after, smin, f + 1);
    } else {
        assert forall|g: int| support(assign, g) == 0 || #[trigger] support(assign, g)
            >= smin by {
            if dict.dom().contains(g) {
                if lacking(dict, assign, smin, from, g) {
                    let low = dict.dom().filter(|h: int| lacking(dict, assign, smin, from, h));
                    assert(low.subset_of(dict.dom()));
                    lemma_len_subset(low, dict.dom());
                    assert(low.contains(g));
                    let m = lemma_least(low);
                    assert forall|h: int| h < m implies !lacking(dict, assign, smin, from, h) by {
                        if lacking(dict, assign, smin, from, h) {
                            assert(low.contains(h));
                        }
                    }
                    assert(first_lacking(dict, assign, smin, from, m));
                }
            } else {
                assert(holders(assign, g) =~= Set::<int>::empty());
            }
        }
    }
}

} // verus!
