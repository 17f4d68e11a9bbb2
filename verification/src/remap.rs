//! The two remappings: every observation resolved against the indicator
//! matrix, without and with a floor under the support of each feature.

use crate::covering::{cover, eligible, lemma_cover_ascending, lemma_cover_len, lemma_cover_sound};
use crate::csr::PyBasicCsrMatrix;
use crate::dictionary::{definitions, FeatureDictionary};
use crate::maintenance::{
    all_apart, lemma_all_apart_within_rows, lemma_resolve_all_keeps, lemma_settle_floor,
    resolve_all, settle, support, within_rows,
};
use crate::ordered_set::{ascending, ids, lemma_ascending_len, lemma_ascending_unique};
use crate::resolver::resolve_in_parallel;
use crate::support::{verify_support_counts, SupportState};
use vstd::prelude::*;

verus! {

/// The features of every observation of `x` under the indicator rows `i`.
pub open spec fn remapped(x: Seq<Set<int>>, i: Seq<Set<int>>) -> Seq<Set<int>> {
    resolve_all(definitions(i), x)
}

/// The features of every observation of `x` under the indicator rows `i`
/// once no feature has a support above zero and below `smin`.
pub open spec fn remapped_with_min_support(x: Seq<Set<int>>, i: Seq<Set<int>>, smin: int) -> Seq<
    Set<int>,
> {
    settle(definitions(i), x, remapped(x, i), smin).1
}

/// Matrix `y` presents the sets `rows` over `cols` columns: it is compact,
/// each of its rows lists its column ids in ascending order, and row by row
/// it holds exactly these sets.
pub open spec fn presents(y: PyBasicCsrMatrix, cols: int, rows: Seq<Set<int>>) -> bool {
    &&& y.compact()
    &&& y.shape.cols == cols
    &&& y@ == rows
    &&& forall|r: int| 0 <= r < y.shape.rows ==> ascending(#[trigger] y.row_seq(r))
}

/// Two matrices that present the same sets agree on the offset of every
/// row boundary and on all indices up to it.
proof fn lemma_prefixes_agree(a: PyBasicCsrMatrix, b: PyBasicCsrMatrix, rows: Seq<Set<int>>, r: int)
    requires
        presents(a, a.shape.cols as int, rows),
        presents(b, b.shape.cols as int, rows),
        0 <= r <= rows.len(),
    ensures
        a.indptr@[r] == b.indptr@[r],
        a.indices@.subrange(0, a.indptr@[r] as int) == b.indices@.subrange(
            0,
            b.indptr@[r] as int,
        ),
    decreases r,
{
    assert(a.shape.rows == rows.len() && b.shape.rows == rows.len()) by {
        assert(a@.len() == rows.len());
        assert(b@.len() == rows.len());
    }
    if r == 0 {
        assert(a.indices@.subrange(0, 0) =~= b.indices@.subrange(0, 0));
    } else {
        let p = r - 1;
        lemma_prefixes_agree(a, b, rows, p);
        a.lemma_rows_fit(p);
        b.lemma_rows_fit(p);
        assert(a@[p] == b@[p]);
        assert(ascending(a.row_seq(p)) && ascending(b.row_seq(p)));
        lemma_ascending_unique(a.row_seq(p), b.row_seq(p));
        let lo = a.indptr@[p] as int;
        let ra = a.indices@.subrange(lo, a.indptr@[r] as int);
        let rb = b.indices@.subrange(lo, b.indptr@[r] as int);
        assert(ids(ra).len() == ids(rb).len());
        assert forall|k: int| 0 <= k < a.indptr@[r] implies a.indices@[k] == b.indices@[k] by {
            if k < lo {
                assert(a.indices@.subrange(0, lo)[k] == b.indices@.subrange(0, lo)[k]);
            } else {
                assert(ids(ra)[k - lo] == ids(rb)[k - lo]);
                assert(ra[k - lo] == a.indices@[k]);
                assert(rb[k - lo] == b.indices@[k]);
            }
        }
        assert(a.indices@.subrange(0, a.indptr@[r] as int) =~= b.indices@.subrange(
            0,
            b.indptr@[r] as int,
        ));
    }
}

/// Two matrices that present the same sets over as many columns have the
/// same shape, the same indices and the same offsets.
pub proof fn lemma_presentation_unique(
    a: PyBasicCsrMatrix,
    b: PyBasicCsrMatrix,
    cols: int,
    rows: Seq<Set<int>>,
)
    requires
        presents(a, cols, rows),
        presents(b, cols, rows),
    ensures
        a.shape == b.shape,
        a.indices@ == b.indices@,
        a.indptr@ == b.indptr@,
{
    assert(a@.len() == rows.len() && b@.len() == rows.len());
    let n = rows.len() as int;
    lemma_prefixes_agree(a, b, rows, n);
    assert(a.indices@.subrange(0, a.indices@.len() as int) =~= a.indices@);
    assert(b.indices@.subrange(0, b.indices@.len() as int) =~= b.indices@);
    assert forall|r: int| 0 <= r < a.indptr@.len() implies a.indptr@[r] == b.indptr@[r] by {
        lemma_prefixes_agree(a, b, rows, r);
    }
    assert(a.indptr@ =~= b.indptr@);
}

/// Whether `x` can be remapped under `i`: both are well formed, they have
/// as many columns as each other, and every row number of `i` fits a feature
/// id.
pub fn can_remap(x: &PyBasicCsrMatrix, i: &PyBasicCsrMatrix) -> (ok: bool)
    ensures
        ok == (x.wf() && i.wf() && x.shape.cols == i.shape.cols && i.shape.rows <= i32::MAX),
{
    x.is_well_formed() && i.is_well_formed() && x.shape.cols == i.shape.cols && i.shape.rows
        <= i32::MAX as usize
}

/// Remapping is deterministic: two matrices that each present the features
/// of every observation of `x` under the indicator matrix `i` have the same
/// shape, the same indices and the same offsets.
pub proof fn lemma_remap_rows_deterministic(
    x: PyBasicCsrMatrix,
    i: PyBasicCsrMatrix,
    y1: PyBasicCsrMatrix,
    y2: PyBasicCsrMatrix,
)
    requires
        presents(y1, i.shape.rows as int, remapped(x@, i@)),
        presents(y2, i.shape.rows as int, remapped(x@, i@)),
    ensures
        y1.shape == y2.shape,
        y1.indices@ == y2.indices@,
        y1.indptr@ == y2.indptr@,
{
    lemma_presentation_unique(y1, y2, i.shape.rows as int, remapped(x@, i@));
}

/// Maps every observation of `x` onto the features that the indicator
/// matrix `i` defines: row `obs` of the result lists, in ascending order,
/// the features that cover the diagnoses of observation `obs`.
pub fn remap_rows(x: &PyBasicCsrMatrix, i: &PyBasicCsrMatrix) -> (y: PyBasicCsrMatrix)
    requires
        x.wf(),
        i.wf(),
        x.shape.cols == i.shape.cols,
        i.shape.rows <= i32::MAX,
    ensures
        presents(y, i.shape.rows as int, remapped(x@, i@)),
        y.shape.rows == x.shape.rows,
        forall|obs: int|
            0 <= obs < x.shape.rows ==> #[trigger] y.row_seq(obs) == cover(definitions(i@), x@[obs]),
        forall|obs: int, f: int|
            0 <= obs < x.shape.rows && #[trigger] y@[obs].contains(f) ==> 0 <= f < i.shape.rows
                && i@[f].subset_of(x@[obs]),
{
    let feature_diagnoses = FeatureDictionary::from_indicator(i);
    let mapped_obs = resolve_in_parallel(x, &feature_diagnoses);
    let n_obs = x.shape.rows;
    let ghost dict = definitions(i@);
    let mut y = PyBasicCsrMatrix::empty(i.shape.rows);
    let mut obs: usize = 0;
    while obs < n_obs
        invariant
            x.wf(),
            n_obs == x.shape.rows,
            obs <= n_obs,
            mapped_obs@.len() == n_obs,
            dict == feature_diagnoses@,
            forall|o: int|
                0 <= o < n_obs ==> ids((#[trigger] mapped_obs@[o])@) == cover(dict, x.row(o)),
            y.compact(),
            y.shape.rows == obs,
            y.shape.cols == i.shape.rows,
            y.indices@.len() <= x.indptr@[obs as int] - x.indptr@[0],
            forall|o: int| 0 <= o < obs ==> #[trigger] y.row_seq(o) == cover(dict, x.row(o)),
        decreases n_obs - obs,
    {
        let feats = mapped_obs[obs].as_slice();
        proof {
            x.lemma_rows_fit(obs as int);
            lemma_cover_len(dict, x.row(obs as int));
            assert(ids(feats@).len() == feats@.len());
        }
        let ghost before = y;
        y.push_row(feats);
        proof {
            assert forall|o: int| 0 <= o < obs + 1 implies #[trigger] y.row_seq(o) == cover(
                dict,
                x.row(o),
            ) by {
                if o < obs {
                    assert(y.row_seq(o) == before.row_seq(o));
                }
            }
        }
        obs = obs + 1;
    }
    proof {
        assert forall|o: int| 0 <= o < n_obs implies ascending(#[trigger] y.row_seq(o)) && y@[o]
            == remapped(x@, i@)[o] by {
            x.lemma_rows_fit(o);
            lemma_cover_ascending(dict, x.row(o));
            assert(x@[o] == x.row(o));
        }
        assert(y@ =~= remapped(x@, i@));
        assert forall|o: int, f: int| 0 <= o < n_obs && #[trigger] y@[o].contains(f) implies 0 <= f
            < i.shape.rows && i@[f].subset_of(x@[o]) by {
            x.lemma_rows_fit(o);
            lemma_cover_sound(dict, x.row(o));
            let picked = cover(dict, x.row(o));
            let k = choose|k: int| 0 <= k < picked.len() && picked[k] == f;
            assert(eligible(dict, x.row(o), picked[k]));
        }
    }
    y
}

/// Maps every observation of `x` onto the features that the indicator
/// matrix `i` defines, then removes under-supported features, lowest id
/// first, and resolves afresh the observations that held them, until no
/// feature has a support above zero and below `smin`.
pub fn remap_rows_smin(x: &PyBasicCsrMatrix, i: &PyBasicCsrMatrix, smin: u32) -> (y:
    PyBasicCsrMatrix)
    requires
        x.wf(),
        i.wf(),
        x.shape.cols == i.shape.cols,
        i.shape.rows <= i32::MAX,
    ensures
        presents(y, i.shape.rows as int, remapped_with_min_support(x@, i@, smin as int)),
        y.shape.rows == x.shape.rows,
        forall|f: int| support(y@, f) == 0 || #[trigger] support(y@, f) >= smin,
        forall|obs: int, f: int|
            0 <= obs < x.shape.rows && #[trigger] y@[obs].contains(f) ==> 0 <= f < i.shape.rows
                && i@[f].subset_of(x@[obs]),
{
    let mut feature_diagnoses = FeatureDictionary::from_indicator(i);
    let n_obs = x.shape.rows;
    let ghost dict = definitions(i@);
    let ghost first = remapped(x@, i@);
    let ghost last = remapped_with_min_support(x@, i@, smin as int);
    let mapped_obs = resolve_in_parallel(x, &feature_diagnoses);
    proof {
        feature_diagnoses.lemma_bounds();
        assert forall|o: int| 0 <= o < x@.len() implies (#[trigger] x@[o]).finite() by {
            x.lemma_rows_fit(o);
        }
        assert forall|o: int, k: int|
            0 <= o < mapped_obs@.len() && 0 <= k < mapped_obs@[o]@.len() implies 0
            <= #[trigger] mapped_obs@[o]@[k] < i.shape.rows by {
            let picked = cover(dict, x.row(o));
            x.lemma_rows_fit(o);
            lemma_cover_sound(dict, x.row(o));
            assert(ids(mapped_obs@[o]@) == picked);
            assert(ids(mapped_obs@[o]@)[k] == mapped_obs@[o]@[k] as int);
            assert(eligible(dict, x.row(o), picked[k]));
        }
    }
    let mut state = SupportState::from_lists(&mapped_obs, i.shape.rows);
    proof {
        assert(state.assignment() =~= first) by {
            assert forall|o: int| 0 <= o < n_obs implies state.assignment()[o] == first[o] by {
                assert(x@[o] == x.row(o));
            }
        }
        lemma_resolve_all_keeps(dict, x@);
        lemma_settle_floor(dict, dict, x@, first, smin as int);
        lemma_all_apart_within_rows(dict, x@, last);
    }
    state.maintain(&mut feature_diagnoses, x, smin);
    let checked = verify_support_counts(state.feature_obs(), state.feat_count());
    assert(checked is Ok);
    assert(state.assignment() == last);
    assert(within_rows(x@, last));
    assert(all_apart(dict, x@, last));
    let mut y = PyBasicCsrMatrix::empty(i.shape.rows);
    let mut obs: usize = 0;
    while obs < n_obs
        invariant
            x.wf(),
            state.wf(),
            n_obs == x.shape.rows,
            obs <= n_obs,
            state.assignment() == last,
            within_rows(x@, last),
            y.compact(),
            y.shape.rows == obs,
            y.shape.cols == i.shape.rows,
            y.indices@.len() <= x.indptr@[obs as int] - x.indptr@[0],
            forall|o: int|
                0 <= o < obs ==> ascending(#[trigger] y.row_seq(o)) && y.row_seq(o).to_set()
                    == last[o],
        decreases n_obs - obs,
    {
        let feats = state.row(obs);
        proof {
            x.lemma_rows_fit(obs as int);
            lemma_ascending_len(ids(feats@));
            assert(x@[obs as int] == x.row(obs as int));
            assert(last[obs as int].len() <= x@[obs as int].len());
            assert(ids(feats@).len() == feats@.len());
        }
        let ghost before = y;
        y.push_row(feats);
        proof {
            assert forall|o: int| 0 <= o < obs + 1 implies ascending(#[trigger] y.row_seq(o))
                && y.row_seq(o).to_set() == last[o] by {
                if o < obs {
                    assert(y.row_seq(o) == before.row_seq(o));
                }
            }
        }
        obs = obs + 1;
    }
    assert(y@ =~= last);
    y
}

} // verus!
