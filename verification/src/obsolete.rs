//! The earlier remapping with a floor under the support of every feature,
//! which puts the alternatives of a feature in its place.

use crate::covering::{
    at_or_above, cover, eligible, lemma_cover_ascending, lemma_cover_sound, lemma_cover_within,
};
use crate::csr::PyBasicCsrMatrix;
use crate::dictionary::{definitions, FeatureDictionary};
use crate::maintenance::{
    all_apart, holders, lemma_all_apart_within_rows, lemma_holders_bounded,
    lemma_resolve_all_keeps, support, within_rows,
};
use crate::ordered_set::{ascending, ids, lemma_ascending_len, OrderedSet};
use crate::remap::{presents, remapped};
use crate::resolver::{greedy_cover, resolve_in_parallel};
use crate::substitution::{
    alternatives, first_lacking, lacking, lemma_settle_by_substitution, settle_by_substitution,
    substitute,
};
use crate::support::SupportState;
use vstd::prelude::*;

verus! {

/// The features of every observation of `x` under the indicator rows `i`
/// once every feature that lacked support has given way to its
/// alternatives.
pub open spec fn remapped_by_substitution(x: Seq<Set<int>>, i: Seq<Set<int>>, smin: int) -> Seq<
    Set<int>,
> {
    settle_by_substitution(definitions(i), remapped(x, i), smin, 0)
}

/// The features with ids above `source_feature` that cover its diagnoses.
pub fn alternative_features(feature_diagnoses: &FeatureDictionary, source_feature: i32) -> (
    target_features: OrderedSet<i32>)
    requires
        feature_diagnoses.wf(),
        feature_diagnoses@.dom().contains(source_feature as int),
    ensures
        target_features.wf(),
        target_features.keys() == alternatives(feature_diagnoses@, source_feature as int),
        target_features@ == alternatives(feature_diagnoses@, source_feature as int).to_set(),
{
    proof {
        feature_diagnoses.lemma_bounds();
    }
    let diag2map = feature_diagnoses.get(source_feature).duplicate();
    let list = greedy_cover(feature_diagnoses, diag2map, source_feature as usize + 1);
    proof {
        lemma_cover_ascending(
            at_or_above(feature_diagnoses@, source_feature + 1),
            feature_diagnoses@[source_feature as int],
        );
    }
    OrderedSet::from_ascending(list)
}

/// The feature with the lowest id from `candidate_feat` up that is in the
/// dictionary and has a support below `smin`.
pub fn find_lacking(
    state: &SupportState,
    feature_diagnoses: &FeatureDictionary,
    smin: u32,
    candidate_feat: usize,
) -> (found: Option<i32>)
    requires
        state.wf(),
        feature_diagnoses.wf(),
        feature_diagnoses.span() == state.n_features(),
    ensures
        match found {
            Some(feat) => first_lacking(
                feature_diagnoses@,
                state.assignment(),
                smin as int,
                candidate_feat as int,
                feat as int,
            ),
            None => forall|g: int|
                !lacking(
                    feature_diagnoses@,
                    state.assignment(),
                    smin as int,
                    candidate_feat as int,
                    g,
                ),
        },
{
    proof {
        feature_diagnoses.lemma_bounds();
    }
    let n = feature_diagnoses.n_features();
    let mut f: usize = candidate_feat;
    while f < n
        invariant
            state.wf(),
            candidate_feat <= f,
            n == state.n_features(),
            n <= i32::MAX,
            forall|g: int|
                g < f ==> !lacking(
                    feature_diagnoses@,
                    state.assignment(),
                    smin as int,
                    candidate_feat as int,
                    g,
                ),
        decreases n - f,
    {
        if feature_diagnoses.contains(f as i32) && state.support_of(f as i32) < smin as usize {
            return Some(f as i32);
        }
        f = f + 1;
    }
    None
}

/// Takes feature `feat` out of the dictionary and gives every observation
/// that held it the alternatives of `feat` in its place.
pub fn substitute_feature(
    state: &mut SupportState,
    feature_diagnoses: &mut FeatureDictionary,
    feat: i32,
)
    requires
        old(state).wf(),
        old(feature_diagnoses).wf(),
        old(feature_diagnoses).span() == old(state).n_features(),
        old(feature_diagnoses)@.dom().contains(feat as int),
    ensures
        final(state).wf(),
        final(state).n_features() == old(state).n_features(),
        final(feature_diagnoses).wf(),
        final(feature_diagnoses).span() == old(feature_diagnoses).span(),
        final(feature_diagnoses)@ == old(feature_diagnoses)@.remove(feat as int),
        final(state).assignment() == substitute(
            old(feature_diagnoses)@,
            old(state).assignment(),
            feat as int,
        ),
{
    let ghost dict0 = feature_diagnoses@;
    let ghost assign0 = state.assignment();
    let ghost goal = substitute(dict0, assign0, feat as int);
    let ghost alt = alternatives(dict0, feat as int);
    let alt_features = alternative_features(feature_diagnoses, feat);
    let feats = alt_features.as_slice();
    proof {
        feature_diagnoses.lemma_bounds();
        let above = at_or_above(dict0, feat + 1);
        lemma_cover_within(above, dict0[feat as int]);
        assert(ids(feats@) == alt);
        assert forall|k: int| 0 <= k < feats@.len() implies feat < #[trigger] feats@[k]
            < state.n_features() by {
            assert(ids(feats@)[k] == feats@[k] as int);
            assert(alt.to_set().contains(alt[k]));
            assert(above.dom().contains(alt[k]));
        }
    }
    feature_diagnoses.remove(feat);
    loop
        invariant
            state.wf(),
            feature_diagnoses.wf(),
            state.n_obs() == assign0.len(),
            state.n_features() == old(state).n_features(),
            feature_diagnoses.span() == old(feature_diagnoses).span(),
            feature_diagnoses@ == dict0.remove(feat as int),
            0 <= feat < state.n_features(),
            ids(feats@) == alt,
            alt == alternatives(dict0, feat as int),
            goal == substitute(dict0, assign0, feat as int),
            forall|k: int| 0 <= k < feats@.len() ==> feat < #[trigger] feats@[k] < state.n_features(),
            forall|o: int|
                0 <= o < assign0.len() ==> #[trigger] state.assignment()[o] == (if state.assignment()[o].contains(
                    feat as int,
                ) {
                    assign0[o]
                } else {
                    goal[o]
                }),
        ensures
            state.wf(),
            state.n_features() == old(state).n_features(),
            state.assignment() == goal,
        decreases support(state.assignment(), feat as int),
    {
        let ghost current = state.assignment();
        match state.first_holder(feat) {
            Some(obs) => {
                state.unlink(obs, feat);
                state.install(obs, feats);
                proof {
                    let fresh = current[obs as int].remove(feat as int).union(alt.to_set());
                    assert(state.assignment() =~= current.update(obs as int, fresh));
                    assert(!fresh.contains(feat as int)) by {
                        if alt.to_set().contains(feat as int) {
                            let k = choose|k: int| 0 <= k < alt.len() && alt[k] == feat as int;
                            assert(ids(feats@)[k] == feats@[k] as int);
                        }
                    }
                    assert(holders(state.assignment(), feat as int) =~= holders(
                        current,
                        feat as int,
                    ).remove(obs as int));
                    lemma_holders_bounded(current, feat as int);
                }
            },
            None => {
                proof {
                    assert forall|o: int| 0 <= o < assign0.len() implies state.assignment()[o]
                        == goal[o] by {
                        if state.assignment()[o].contains(feat as int) {
                            assert(holders(state.assignment(), feat as int).contains(o));
                        }
                    }
                    assert(state.assignment() =~= goal);
                }
                break ;
            },
        }
    }
}

/// Maps every observation of `x` onto the features that the indicator
/// matrix `i` defines, then goes through the features once in ascending
/// order: each one whose support is below `smin` leaves, and the
/// observations that held it hold its alternatives instead.
pub fn remap_rows_smin_obsolete(x: &PyBasicCsrMatrix, i: &PyBasicCsrMatrix, smin: u32) -> (y:
    PyBasicCsrMatrix)
    requires
        x.wf(),
        i.wf(),
        x.shape.cols == i.shape.cols,
        i.shape.rows <= i32::MAX,
    ensures
        presents(y, i.shape.rows as int, remapped_by_substitution(x@, i@, smin as int)),
        y.shape.rows == x.shape.rows,
        forall|f: int| support(y@, f) == 0 || #[trigger] support(y@, f) >= smin,
        forall|obs: int, f: int|
            0 <= obs < x.shape.rows && #[trigger] y@[obs].contains(f) ==> 0 <= f < i.shape.rows
                && i@[f].subset_of(x@[obs]),
{
    let mut feature_diagnoses = FeatureDictionary::from_indicator(i);
    let n_obs = x.shape.rows;
    let ghost defs = definitions(i@);
    let ghost first = remapped(x@, i@);
    let ghost last = remapped_by_substitution(x@, i@, smin as int);
    let mapped_obs = resolve_in_parallel(x, &feature_diagnoses);
    proof {
        feature_diagnoses.lemma_bounds();
        assert forall|o: int| 0 <= o < x@.len() implies (#[trigger] x@[o]).finite() by {
            x.lemma_rows_fit(o);
        }
        assert forall|o: int, k: int|
            0 <= o < mapped_obs@.len() && 0 <= k < mapped_obs@[o]@.len() implies 0
            <= #[trigger] mapped_obs@[o]@[k] < i.shape.rows by {
            let picked = cover(defs, x.row(o));
            x.lemma_rows_fit(o);
            lemma_cover_sound(defs, x.row(o));
            assert(ids(mapped_obs@[o]@) == picked);
            assert(ids(mapped_obs@[o]@)[k] == mapped_obs@[o]@[k] as int);
            assert(eligible(defs, x.row(o), picked[k]));
        }
    }
    let mut state = SupportState::from_lists(&mapped_obs, i.shape.rows);
    proof {
        assert(state.assignment() =~= first) by {
            assert forall|o: int| 0 <= o < n_obs implies state.assignment()[o] == first[o] by {
                assert(x@[o] == x.row(o));
            }
        }
        lemma_resolve_all_keeps(defs, x@);
        lemma_settle_by_substitution(defs, defs, x@, first, smin as int, 0);
        lemma_all_apart_within_rows(defs, x@, last);
    }
    let mut candidate_feat: usize = 0;
    loop
        invariant
            state.wf(),
            feature_diagnoses.wf(),
            feature_diagnoses.span() == state.n_features(),
            feature_diagnoses.span() == i.shape.rows,
            feature_diagnoses@.dom().finite(),
            candidate_feat <= i.shape.rows <= i32::MAX,
            last == settle_by_substitution(
                feature_diagnoses@,
                state.assignment(),
                smin as int,
                candidate_feat as int,
            ),
        ensures
            state.wf(),
            state.assignment() == last,
        decreases feature_diagnoses@.dom().len(),
    {
        match find_lacking(&state, &feature_diagnoses, smin, candidate_feat) {
            Some(feat) => {
                proof {
                    feature_diagnoses.lemma_bounds();
                    let chosen = choose|f: int|
                        first_lacking(
                            feature_diagnoses@,
                            state.assignment(),
                            smin as int,
                            candidate_feat as int,
                            f,
                        );
                    if chosen < feat {
                        assert(!lacking(
                            feature_diagnoses@,
                            state.assignment(),
                            smin as int,
                            candidate_feat as int,
                            chosen,
                        ));
                    }
                    if feat < chosen {
                        assert(!lacking(
                            feature_diagnoses@,
                            state.assignment(),
                            smin as int,
                            candidate_feat as int,
                            feat as int,
                        ));
                    }
                }
                substitute_feature(&mut state, &mut feature_diagnoses, feat);
                candidate_feat = feat as usize + 1;
            },
            None => {
                break ;
            },
        }
    }
    assert(within_rows(x@, last));
    assert(all_apart(defs, x@, last));
    let mut y = PyBasicCsrMatrix::empty(i.shape.rows);
    let mut obs: usize = 0;
    while obs < n_obs
        invariant
            x.wf(),
            state.wf(),
            n_obs == x.shape.rows,
            obs <= n_obs,
            state.assignment() == last,
            within_rows(x@, last),
            y.compact(),
            y.shape.rows == obs,
            y.shape.cols == i.shape.rows,
            y.indices@.len() <= x.indptr@[obs as int] - x.indptr@[0],
            forall|o: int|
                0 <= o < obs ==> ascending(#[trigger] y.row_seq(o)) && y.row_seq(o).to_set()
                    == last[o],
        decreases n_obs - obs,
    {
        let feats = state.row(obs);
        proof {
            x.lemma_rows_fit(obs as int);
            lemma_ascending_len(ids(feats@));
            assert(x@[obs as int] == x.row(obs as int));
            assert(last[obs as int].len() <= x@[obs as int].len());
            assert(ids(feats@).len() == feats@.len());
        }
        let ghost before = y;
        y.push_row(feats);
        proof {
            assert forall|o: int| 0 <= o < obs + 1 implies ascending(#[trigger] y.row_seq(o))
                && y.row_seq(o).to_set() == last[o] by {
                if o < obs {
                    assert(y.row_seq(o) == before.row_seq(o));
                }
            }
        }
        obs = obs + 1;
    }
    assert(y@ =~= last);
    y
}

} // verus!
