//! Resolving observations: which features cover an observation's diagnoses.

use crate::covering::{
    at_or_above, cover, lemma_at_or_above_all, lemma_cover_ascending, lemma_cover_of_nothing,
    lemma_cover_stalls, lemma_cover_step, lemma_selection_shrinks,
};
use crate::csr::PyBasicCsrMatrix;
use crate::dictionary::FeatureDictionary;
use crate::ordered_set::{ids, OrderedSet};
use rayon::iter::{IntoParallelIterator, ParallelIterator};
use vstd::prelude::*;

verus! {

/// The features with ids from `start` up that cover `remaining`, in the
/// order of their selection.
pub fn greedy_cover(
    feature_diagnoses: &FeatureDictionary,
    remaining: OrderedSet<i32>,
    start: usize,
) -> (result: Vec<i32>)
    requires
        feature_diagnoses.wf(),
        remaining.wf(),
    ensures
        ids(result@) == cover(at_or_above(feature_diagnoses@, start as int), remaining@),
{
    let ghost part = at_or_above(feature_diagnoses@, start as int);
    let ghost whole = remaining@;
    let mut diag2map = remaining;
    let mut result: Vec<i32> = Vec::new();
    proof {
        diag2map.lemma_len();
        assert(ids(result@) + cover(part, whole) =~= cover(part, whole));
    }
    while !diag2map.is_empty()
        invariant
            feature_diagnoses.wf(),
            diag2map.wf(),
            diag2map@.finite(),
            whole == remaining@,
            whole.finite(),
            part == at_or_above(feature_diagnoses@, start as int),
            ids(result@) + cover(part, diag2map@) == cover(part, whole),
        decreases diag2map@.len(),
    {
        match feature_diagnoses.first_match_from(&diag2map, start) {
            Some(feat) => {
                let ghost before = diag2map@;
                let ghost chosen = ids(result@);
                proof {
                    lemma_cover_step(part, before, feat as int);
                    lemma_selection_shrinks(part, before, feat as int);
                    assert(part[feat as int] == feature_diagnoses@[feat as int]);
                }
                diag2map.subtract(feature_diagnoses.get(feat));
                result.push(feat);
                proof {
                    diag2map.lemma_len();
                    assert(ids(result@) =~= chosen.push(feat as int));
                    assert(ids(result@) + cover(part, diag2map@) =~= chosen + (seq![feat as int]
                        + cover(part, diag2map@)));
                }
            },
            None => {
                proof {
                    lemma_cover_stalls(part, diag2map@);
                    assert(ids(result@) + Seq::<int>::empty() =~= ids(result@));
                }
                return result;
            },
        }
    }
    proof {
        lemma_cover_of_nothing(part);
        assert(ids(result@) + Seq::<int>::empty() =~= ids(result@));
    }
    result
}

/// The features that cover the diagnoses of observation `obs`, as a list in
/// the order of their selection.
pub fn obsdiag2feat(
    obs: usize,
    x: &PyBasicCsrMatrix,
    feature_diagnoses: &FeatureDictionary,
) -> (result: Vec<i32>)
    requires
        x.wf(),
        obs < x.shape.rows,
        feature_diagnoses.wf(),
    ensures
        ids(result@) == cover(feature_diagnoses@, x.row(obs as int)),
{
    proof {
        feature_diagnoses.lemma_bounds();
        lemma_at_or_above_all(feature_diagnoses@, 0);
    }
    greedy_cover(feature_diagnoses, x.row_set(obs), 0)
}

/// The features that cover the diagnoses of observation `obs`, as a set.
pub fn obsdiag2featset(
    obs: usize,
    x: &PyBasicCsrMatrix,
    feature_diagnoses: &FeatureDictionary,
) -> (result: OrderedSet<i32>)
    requires
        x.wf(),
        obs < x.shape.rows,
        feature_diagnoses.wf(),
    ensures
        result.wf(),
        result.keys() == cover(feature_diagnoses@, x.row(obs as int)),
        result@ == cover(feature_diagnoses@, x.row(obs as int)).to_set(),
{
    let list = obsdiag2feat(obs, x, feature_diagnoses);
    proof {
        x.lemma_rows_fit(obs as int);
        lemma_cover_ascending(feature_diagnoses@, x.row(obs as int));
    }
    OrderedSet::from_ascending(list)
}

/// Resolves every observation of `x`, in parallel.
///
/// Calls rayon's `into_par_iter` on the range of observations, `map` with
/// `obsdiag2feat`, and `collect` into a vector. Believed of rayon: the vector
/// holds one result per observation, in the order of the observations, and
/// each is what `obsdiag2feat` returns for that observation.
#[verifier::external_body]
pub(crate) fn resolve_in_parallel(x: &PyBasicCsrMatrix, feature_diagnoses: &FeatureDictionary) -> (mapped:
    Vec<Vec<i32>>)
    requires
        x.wf(),
        feature_diagnoses.wf(),
    ensures
        mapped@.len() == x.shape.rows,
        forall|obs: int|
            0 <= obs < x.shape.rows ==> ids((#[trigger] mapped@[obs])@) == cover(
                feature_diagnoses@,
                x.row(obs),
            ),
{
    (0..x.shape.rows).into_par_iter().map(|obs| obsdiag2feat(obs, x, feature_diagnoses)).collect()
}

} // verus!
