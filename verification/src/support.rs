//! The assignment of features to observations, with its inverse index and
//! the support counts, kept in step while under-supported features leave.

use crate::covering::{cover, lemma_cover_within};
use crate::csr::PyBasicCsrMatrix;
use crate::dictionary::FeatureDictionary;
use crate::maintenance::{
    first_under_supported, holders, lemma_holders_bounded, lemma_holders_insert,
    lemma_holders_remove, removals, repair, settle, support, under_supported,
};
use crate::ordered_set::{ascending, ids, OrderedSet};
use crate::resolver::obsdiag2featset;
use vstd::prelude::*;

verus! {

/// The features assigned to each observation, the observations listed under
/// each feature, and the number of observations counted for each feature.
pub struct SupportState {
    obs_features: Vec<OrderedSet<i32>>,
    feature_obs: Vec<OrderedSet<usize>>,
    feat_count: Vec<usize>,
}

impl SupportState {
    /// For each observation, the set of features assigned to it.
    pub closed spec fn assignment(&self) -> Seq<Set<int>> {
        Seq::new(self.obs_features@.len(), |o: int| self.obs_features@[o]@)
    }

    /// For each feature id, the set of observations listed under it.
    pub closed spec fn inverse_index(&self) -> Seq<Set<int>> {
        Seq::new(self.feature_obs@.len(), |f: int| self.feature_obs@[f]@)
    }

    /// For each feature id, the number of observations counted for it.
    pub closed spec fn support_counts(&self) -> Seq<int> {
        Seq::new(self.feat_count@.len(), |f: int| self.feat_count@[f] as int)
    }

    /// The number of feature ids.
    pub closed spec fn n_features(&self) -> nat {
        self.feature_obs@.len()
    }

    /// The number of observations.
    pub open spec fn n_obs(&self) -> nat {
        self.assignment().len()
    }

    /// Every stored set is well formed, only feature ids below `n_features`
    /// are assigned, the inverse index lists under each feature exactly the
    /// observations that hold it, and each count is the size of that list.
    pub closed spec fn wf(&self) -> bool {
        &&& self.feature_obs@.len() == self.feat_count@.len()
        &&& self.feature_obs@.len() <= i32::MAX
        &&& forall|o: int|
            0 <= o < self.obs_features@.len() ==> (#[trigger] self.obs_features@[o]).wf()
        &&& forall|f: int|
            0 <= f < self.feature_obs@.len() ==> (#[trigger] self.feature_obs@[f]).wf()
        &&& forall|o: int, g: int|
            0 <= o < self.obs_features@.len() && #[trigger] self.obs_features@[o]@.contains(g)
                ==> 0 <= g < self.feature_obs@.len()
        &&& forall|f: int|
            0 <= f < self.feature_obs@.len() ==> (#[trigger] self.feature_obs@[f])@ == holders(
                self.assignment(),
                f,
            )
        &&& forall|f: int|
            0 <= f < self.feat_count@.len() ==> (#[trigger] self.feat_count@[f])
                == self.feature_obs@[f]@.len()
    }

    /// On a well-formed state an observation is listed under a feature
    /// exactly when the feature is assigned to the observation, and the
    /// count of the feature is the number of observations that hold it.
    pub proof fn lemma_inverse_index(&self, o: int, f: int)
        requires
            self.wf(),
            0 <= o < self.n_obs(),
            0 <= f < self.n_features(),
        ensures
            self.inverse_index()[f].contains(o) <==> self.assignment()[o].contains(f),
            self.inverse_index()[f] == holders(self.assignment(), f),
            self.support_counts()[f] == support(self.assignment(), f),
    {
        assert(self.feature_obs@[f]@ == holders(self.assignment(), f));
        assert(self.feat_count@[f] == self.feature_obs@[f]@.len());
    }

    /// The state of `n_obs` observations with nothing assigned.
    pub fn new(n_obs: usize, n_features: usize) -> (s: Self)
        requires
            n_features <= i32::MAX,
        ensures
            s.wf(),
            s.n_features() == n_features,
            s.assignment() == Seq::new(n_obs as nat, |o: int| Set::<int>::empty()),
    {
        let mut obs_features: Vec<OrderedSet<i32>> = Vec::new();
        let mut o: usize = 0;
        while o < n_obs
            invariant
                o <= n_obs,
                obs_features@.len() == o,
                forall|p: int|
                    0 <= p < o ==> (#[trigger] obs_features@[p]).wf() && obs_features@[p]@
                        == Set::<int>::empty(),
            decreases n_obs - o,
        {
            obs_features.push(OrderedSet::new());
            o = o + 1;
        }
        let mut feature_obs: Vec<OrderedSet<usize>> = Vec::new();
        let mut feat_count: Vec<usize> = Vec::new();
        let mut f: usize = 0;
        while f < n_features
            invariant
                f <= n_features,
                feature_obs@.len() == f,
                feat_count@.len() == f,
                forall|g: int|
                    0 <= g < f ==> (#[trigger] feature_obs@[g]).wf() && feature_obs@[g]@
                        == Set::<int>::empty(),
                forall|g: int| 0 <= g < f ==> (#[trigger] feat_count@[g]) == 0,
            decreases n_features - f,
        {
            feature_obs.push(OrderedSet::new());
            feat_count.push(0);
            f = f + 1;
        }
        let s = SupportState { obs_features, feature_obs, feat_count };
        proof {
            assert(s.assignment() =~= Seq::new(n_obs as nat, |o: int| Set::<int>::empty()));
            assert forall|g: int| 0 <= g < s.feature_obs@.len() implies (
            #[trigger] s.feature_obs@[g])@ == holders(s.assignment(), g) by {
                assert(holders(s.assignment(), g) =~= Set::<int>::empty());
            }
        }
        s
    }

    /// The number of observations.
    pub fn observations(&self) -> (n: usize)
        ensures
            n == self.n_obs(),
    {
        self.obs_features.len()
    }

    /// The features assigned to observation `obs`, in ascending order.
    pub fn row(&self, obs: usize) -> (feats: &[i32])
        requires
            self.wf(),
            obs < self.n_obs(),
        ensures
            ascending(ids(feats@)),
            ids(feats@).to_set() == self.assignment()[obs as int],
    {
        self.obs_features[obs].as_slice()
    }

    /// The inverse index: for each feature id, the observations that hold
    /// the feature.
    pub fn feature_obs(&self) -> (lists: &Vec<OrderedSet<usize>>)
        requires
            self.wf(),
        ensures
            lists@.len() == self.n_features(),
            forall|f: int|
                0 <= f < lists@.len() ==> (#[trigger] lists@[f]).wf() && lists@[f]@ == holders(
                    self.assignment(),
                    f,
                ),
    {
        &self.feature_obs
    }

    /// The support counts: for each feature id, the number of observations
    /// that hold the feature.
    pub fn feat_count(&self) -> (counts: &Vec<usize>)
        requires
            self.wf(),
        ensures
            counts@.len() == self.n_features(),
            forall|f: int|
                0 <= f < counts@.len() ==> #[trigger] counts@[f] == support(self.assignment(), f),
    {
        assert forall|f: int| 0 <= f < self.feat_count@.len() implies #[trigger] self.feat_count@[f]
            == support(self.assignment(), f) by {
            assert(self.feature_obs@[f]@ == holders(self.assignment(), f));
        }
        &self.feat_count
    }

    /// The observations that hold feature `feat`, in ascending order.
    pub fn observations_of(&self, feat: i32) -> (listed: &[usize])
        requires
            self.wf(),
            0 <= feat < self.n_features(),
        ensures
            ascending(ids(listed@)),
            ids(listed@).to_set() == holders(self.assignment(), feat as int),
    {
        assert(self.feature_obs@[feat as int]@ == holders(self.assignment(), feat as int));
        self.feature_obs[feat as usize].as_slice()
    }

    /// The number of observations that hold feature `feat`.
    pub fn support_of(&self, feat: i32) -> (n: usize)
        requires
            self.wf(),
            0 <= feat < self.n_features(),
        ensures
            n == support(self.assignment(), feat as int),
    {
        assert(self.feature_obs@[feat as int]@ == holders(self.assignment(), feat as int));
        self.feat_count[feat as usize]
    }

    /// The first observation that holds feature `feat`, if any does.
    pub fn first_holder(&self, feat: i32) -> (found: Option<usize>)
        requires
            self.wf(),
            0 <= feat < self.n_features(),
        ensures
            match found {
                Some(obs) => {
                    &&& holders(self.assignment(), feat as int).contains(obs as int)
                    &&& forall|o: int|
                        holders(self.assignment(), feat as int).contains(o) ==> obs <= o
                },
                None => holders(self.assignment(), feat as int) == Set::<int>::empty(),
            },
    {
        let listed = &self.feature_obs[feat as usize];
        assert(listed@ == holders(self.assignment(), feat as int));
        if listed.is_empty() {
            None
        } else {
            let obs = listed.get(0);
            assert forall|o: int| listed@.contains(o) implies obs <= o by {
                let k = choose|k: int| 0 <= k < listed.keys().len() && listed.keys()[k] == o;
                if k > 0 {
                    assert(listed.keys()[0] < listed.keys()[k]);
                }
            }
            Some(obs)
        }
    }

    /// Assigns feature `feat` to observation `obs`.
    pub fn link(&mut self, obs: usize, feat: i32)
        requires
            old(self).wf(),
            obs < old(self).n_obs(),
            0 <= feat < old(self).n_features(),
        ensures
            final(self).wf(),
            final(self).n_features() == old(self).n_features(),
            final(self).assignment() == old(self).assignment().update(
                obs as int,
                old(self).assignment()[obs as int].insert(feat as int),
            ),
    {
        let ghost before = self.assignment();
        let ghost after = before.update(obs as int, before[obs as int].insert(feat as int));
        proof {
            lemma_holders_insert(before, obs as int, feat as int);
            lemma_holders_bounded(after, feat as int);
            self.feature_obs@[feat as int].lemma_len();
        }
        let added = self.obs_features[obs].insert(feat);
        assert(self.assignment() =~= after);
        if added {
            let n_obs = self.obs_features.len();
            assert(!holders(before, feat as int).contains(obs as int));
            assert(self.feat_count@[feat as int] + 1 == holders(after, feat as int).len());
            assert(holders(after, feat as int).len() <= n_obs);
            self.feature_obs[feat as usize].insert(obs);
            self.feat_count[feat as usize] = self.feat_count[feat as usize] + 1;
        } else {
            assert(before[obs as int].insert(feat as int) =~= before[obs as int]);
            assert(after =~= before);
        }
    }

    /// Takes feature `feat` from observation `obs`.
    pub fn unlink(&mut self, obs: usize, feat: i32)
        requires
            old(self).wf(),
            obs < old(self).n_obs(),
        ensures
            final(self).wf(),
            final(self).n_features() == old(self).n_features(),
            final(self).assignment() == old(self).assignment().update(
                obs as int,
                old(self).assignment()[obs as int].remove(feat as int),
            ),
    {
        let ghost before = self.assignment();
        let ghost after = before.update(obs as int, before[obs as int].remove(feat as int));
        proof {
            lemma_holders_remove(before, obs as int, feat as int);
        }
        let removed = self.obs_features[obs].remove(feat);
        assert(self.assignment() =~= after);
        if removed {
            proof {
                self.feature_obs@[feat as int].lemma_len();
            }
            assert(holders(before, feat as int).contains(obs as int));
            self.feature_obs[feat as usize].remove(obs);
            self.feat_count[feat as usize] = self.feat_count[feat as usize] - 1;
        } else {
            assert(before[obs as int].remove(feat as int) =~= before[obs as int]);
            assert(after =~= before);
        }
    }

    /// Takes every feature from observation `obs`.
    pub fn clear(&mut self, obs: usize)
        requires
            old(self).wf(),
            obs < old(self).n_obs(),
        ensures
            final(self).wf(),
            final(self).n_features() == old(self).n_features(),
            final(self).assignment() == old(self).assignment().update(
                obs as int,
                Set::<int>::empty(),
            ),
    {
        let ghost before = self.assignment();
        assert(before =~= before.update(obs as int, before[obs as int]));
        while !self.obs_features[obs].is_empty()
            invariant
                self.wf(),
                obs < self.n_obs(),
                self.n_features() == old(self).n_features(),
                before == old(self).assignment(),
                obs < before.len(),
                self.assignment() == before.update(obs as int, self.assignment()[obs as int]),
            decreases self.assignment()[obs as int].len(),
        {
            proof {
                self.obs_features@[obs as int].lemma_len();
            }
            let last = self.obs_features[obs].len() - 1;
            let feat = self.obs_features[obs].get(last);
            let ghost held = self.assignment()[obs as int];
            self.unlink(obs, feat);
            assert(self.assignment() =~= before.update(obs as int, held.remove(feat as int)));
        }
    }

    /// Assigns every feature of `feats` to observation `obs`.
    pub fn install(&mut self, obs: usize, feats: &[i32])
        requires
            old(self).wf(),
            obs < old(self).n_obs(),
            forall|k: int| 0 <= k < feats@.len() ==> 0 <= #[trigger] feats@[k] < old(self).n_features(),
        ensures
            final(self).wf(),
            final(self).n_features() == old(self).n_features(),
            final(self).assignment() == old(self).assignment().update(
                obs as int,
                old(self).assignment()[obs as int].union(ids(feats@).to_set()),
            ),
    {
        let ghost before = self.assignment();
        let ghost held = before[obs as int];
        let mut k: usize = 0;
        proof {
            assert(ids(feats@.subrange(0, 0)).to_set() =~= Set::<int>::empty());
            assert(held.union(Set::<int>::empty()) =~= held);
            assert(before =~= before.update(obs as int, held));
        }
        while k < feats.len()
            invariant
                self.wf(),
                k <= feats@.len(),
                obs < self.n_obs(),
                self.n_features() == old(self).n_features(),
                before == old(self).assignment(),
                obs < before.len(),
                held == before[obs as int],
                forall|j: int|
                    0 <= j < feats@.len() ==> 0 <= #[trigger] feats@[j] < self.n_features(),
                self.assignment() == before.update(
                    obs as int,
                    held.union(ids(feats@.subrange(0, k as int)).to_set()),
                ),
            decreases feats@.len() - k,
        {
            let feat = feats[k];
            self.link(obs, feat);
            proof {
                let done = ids(feats@.subrange(0, k as int));
                let more = ids(feats@.subrange(0, k + 1));
                assert(more =~= done.push(feat as int));
                done.lemma_push_to_set_commute(feat as int);
                assert(held.union(more.to_set()) =~= held.union(done.to_set()).insert(
                    feat as int,
                ));
                assert(self.assignment() =~= before.update(
                    obs as int,
                    held.union(more.to_set()),
                ));
            }
            k = k + 1;
        }
        assert(feats@.subrange(0, feats@.len() as int) =~= feats@);
    }

    /// Resolves observation `obs` afresh against the dictionary and makes
    /// the result its assignment.
    pub fn reresolve(
        &mut self,
        obs: usize,
        x: &PyBasicCsrMatrix,
        feature_diagnoses: &FeatureDictionary,
    )
        requires
            old(self).wf(),
            x.wf(),
            feature_diagnoses.wf(),
            obs < old(self).n_obs(),
            x.shape.rows == old(self).n_obs(),
            feature_diagnoses.span() == old(self).n_features(),
        ensures
            final(self).wf(),
            final(self).n_features() == old(self).n_features(),
            final(self).assignment() == old(self).assignment().update(
                obs as int,
                cover(feature_diagnoses@, x.row(obs as int)).to_set(),
            ),
    {
        self.clear(obs);
        let fresh = obsdiag2featset(obs, x, feature_diagnoses);
        let feats = fresh.as_slice();
        proof {
            let picked = cover(feature_diagnoses@, x.row(obs as int));
            x.lemma_rows_fit(obs as int);
            lemma_cover_within(feature_diagnoses@, x.row(obs as int));
            feature_diagnoses.lemma_bounds();
            assert(ids(feats@) == picked);
            assert forall|k: int| 0 <= k < feats@.len() implies 0 <= #[trigger] feats@[k]
                < self.n_features() by {
                assert(ids(feats@)[k] == feats@[k] as int);
                assert(picked.to_set().contains(picked[k]));
                assert(feature_diagnoses@.dom().contains(picked[k]));
            }
            assert(Set::<int>::empty().union(picked.to_set()) =~= picked.to_set());
        }
        self.install(obs, feats);
        assert(self.assignment() =~= old(self).assignment().update(
            obs as int,
            cover(feature_diagnoses@, x.row(obs as int)).to_set(),
        ));
    }

    /// The state in which each observation holds the features of its list.
    pub fn from_lists(lists: &Vec<Vec<i32>>, n_features: usize) -> (s: Self)
        requires
            n_features <= i32::MAX,
            forall|o: int, k: int|
                0 <= o < lists@.len() && 0 <= k < lists@[o]@.len() ==> 0 <= #[trigger] lists@[o]@[k]
                    < n_features,
        ensures
            s.wf(),
            s.n_features() == n_features,
            s.assignment() == Seq::new(lists@.len(), |o: int| ids(lists@[o]@).to_set()),
    {
        let n_obs = lists.len();
        let mut s = SupportState::new(n_obs, n_features);
        let mut obs: usize = 0;
        while obs < n_obs
            invariant
                s.wf(),
                obs <= n_obs,
                n_obs == lists@.len(),
                s.n_obs() == n_obs,
                s.n_features() == n_features,
                forall|o: int, k: int|
                    0 <= o < lists@.len() && 0 <= k < lists@[o]@.len() ==> 0
                        <= #[trigger] lists@[o]@[k] < n_features,
                forall|o: int| 0 <= o < obs ==> #[trigger] s.assignment()[o] == ids(lists@[o]@).to_set(),
                forall|o: int| obs <= o < n_obs ==> #[trigger] s.assignment()[o] == Set::<int>::empty(),
            decreases n_obs - obs,
        {
            let feats = lists[obs].as_slice();
            assert forall|k: int| 0 <= k < feats@.len() implies 0 <= #[trigger] feats@[k]
                < s.n_features() by {
                assert(feats@[k] == lists@[obs as int]@[k]);
            }
            s.install(obs, feats);
            assert(Set::<int>::empty().union(ids(feats@).to_set()) =~= ids(feats@).to_set());
            obs = obs + 1;
        }
        assert(s.assignment() =~= Seq::new(lists@.len(), |o: int| ids(lists@[o]@).to_set()));
        s
    }

    /// The under-supported feature with the lowest id, if there is one.
    pub fn first_invalid(&self, feature_diagnoses: &FeatureDictionary, smin: u32) -> (found: Option<
        i32,
    >)
        requires
            self.wf(),
            feature_diagnoses.wf(),
            feature_diagnoses.span() == self.n_features(),
        ensures
            match found {
                Some(feat) => first_under_supported(
                    feature_diagnoses@,
                    self.assignment(),
                    smin as int,
                    feat as int,
                ),
                None => forall|g: int|
                    !under_supported(feature_diagnoses@, self.assignment(), smin as int, g),
            },
    {
        proof {
            feature_diagnoses.lemma_bounds();
        }
        let n = self.feat_count.len();
        let mut f: usize = 0;
        while f < n
            invariant
                self.wf(),
                f <= n,
                n == self.n_features(),
                forall|g: int|
                    g < f ==> !under_supported(
                        feature_diagnoses@,
                        self.assignment(),
                        smin as int,
                        g,
                    ),
            decreases n - f,
        {
            let count = self.feat_count[f];
            assert(count == support(self.assignment(), f as int)) by {
                assert(self.feature_obs@[f as int]@ == holders(self.assignment(), f as int));
            }
            if count != 0 && count < smin as usize && feature_diagnoses.contains(f as i32) {
                return Some(f as i32);
            }
            f = f + 1;
        }
        None
    }

    /// Takes feature `feat` out of the dictionary and resolves afresh every
    /// observation that held it.
    pub fn repair(
        &mut self,
        feature_diagnoses: &mut FeatureDictionary,
        x: &PyBasicCsrMatrix,
        feat: i32,
    )
        requires
            old(self).wf(),
            old(feature_diagnoses).wf(),
            x.wf(),
            x.shape.rows == old(self).n_obs(),
            old(feature_diagnoses).span() == old(self).n_features(),
            0 <= feat < old(self).n_features(),
        ensures
            final(self).wf(),
            final(self).n_features() == old(self).n_features(),
            final(feature_diagnoses).wf(),
            final(feature_diagnoses).span() == old(feature_diagnoses).span(),
            final(feature_diagnoses)@ == old(feature_diagnoses)@.remove(feat as int),
            final(self).assignment() == repair(
                old(feature_diagnoses)@,
                x@,
                old(self).assignment(),
                feat as int,
            ),
    {
        let ghost dict0 = feature_diagnoses@;
        let ghost assign0 = self.assignment();
        let ghost goal = repair(dict0, x@, assign0, feat as int);
        feature_diagnoses.remove(feat);
        while !self.feature_obs[feat as usize].is_empty()
            invariant
                self.wf(),
                feature_diagnoses.wf(),
                x.wf(),
                x.shape.rows == self.n_obs(),
                self.n_obs() == assign0.len(),
                self.n_features() == old(self).n_features(),
                feature_diagnoses.span() == self.n_features(),
                0 <= feat < self.n_features(),
                feature_diagnoses@ == dict0.remove(feat as int),
                goal == repair(dict0, x@, assign0, feat as int),
                forall|o: int|
                    0 <= o < assign0.len() ==> #[trigger] self.assignment()[o] == (if self.assignment()[o].contains(
                        feat as int,
                    ) {
                        assign0[o]
                    } else {
                        goal[o]
                    }),
            decreases self.inverse_index()[feat as int].len(),
        {
            let ghost listed = self.feature_obs@[feat as int]@;
            let ghost current = self.assignment();
            proof {
                self.feature_obs@[feat as int].lemma_len();
                assert(listed == holders(current, feat as int));
            }
            let obs = self.feature_obs[feat as usize].get(0);
            assert(holders(current, feat as int).contains(obs as int));
            self.reresolve(obs, x, feature_diagnoses);
            proof {
                let fresh = cover(feature_diagnoses@, x.row(obs as int)).to_set();
                x.lemma_rows_fit(obs as int);
                lemma_cover_within(feature_diagnoses@, x.row(obs as int));
                assert(!fresh.contains(feat as int)) by {
                    if fresh.contains(feat as int) {
                        assert(feature_diagnoses@.dom().contains(feat as int));
                    }
                }
                assert(self.feature_obs@[feat as int]@ == holders(self.assignment(), feat as int));
                assert(holders(self.assignment(), feat as int) =~= listed.remove(obs as int));
                assert(x@[obs as int] == x.row(obs as int));
                assert(goal[obs as int] == fresh);
            }
        }
        proof {
            assert forall|o: int| 0 <= o < assign0.len() implies self.assignment()[o]
                == goal[o] by {
                if self.assignment()[o].contains(feat as int) {
                    assert(holders(self.assignment(), feat as int).contains(o));
                    assert(self.feature_obs@[feat as int]@ == holders(
                        self.assignment(),
                        feat as int,
                    ));
                }
            }
            assert(self.assignment() =~= goal);
        }
    }

    /// Removes under-supported features, lowest id first, until none is
    /// left; returns how many were removed.
    pub fn maintain(
        &mut self,
        feature_diagnoses: &mut FeatureDictionary,
        x: &PyBasicCsrMatrix,
        smin: u32,
    ) -> (removed: usize)
        requires
            old(self).wf(),
            old(feature_diagnoses).wf(),
            x.wf(),
            x.shape.rows == old(self).n_obs(),
            old(feature_diagnoses).span() == old(self).n_features(),
        ensures
            final(self).wf(),
            final(self).n_features() == old(self).n_features(),
            final(feature_diagnoses).wf(),
            final(feature_diagnoses).span() == old(feature_diagnoses).span(),
            (final(feature_diagnoses)@, final(self).assignment()) == settle(
                old(feature_diagnoses)@,
                x@,
                old(self).assignment(),
                smin as int,
            ),
            removed == removals(old(feature_diagnoses)@, x@, old(self).assignment(), smin as int),
            removed <= old(feature_diagnoses).span(),
    {
        let ghost dict0 = feature_diagnoses@;
        let ghost assign0 = self.assignment();
        let mut removed: usize = 0;
        proof {
            feature_diagnoses.lemma_bounds();
        }
        loop
            invariant
                self.wf(),
                feature_diagnoses.wf(),
                x.wf(),
                x.shape.rows == self.n_obs(),
                self.n_features() == old(self).n_features(),
                feature_diagnoses.span() == self.n_features(),
                feature_diagnoses.span() == old(feature_diagnoses).span(),
                dict0 == old(feature_diagnoses)@,
                assign0 == old(self).assignment(),
                feature_diagnoses@.dom().finite(),
                dict0.dom().finite(),
                settle(feature_diagnoses@, x@, self.assignment(), smin as int) == settle(
                    dict0,
                    x@,
                    assign0,
                    smin as int,
                ),
                removed + removals(feature_diagnoses@, x@, self.assignment(), smin as int)
                    == removals(dict0, x@, assign0, smin as int),
                removed + feature_diagnoses@.dom().len() == dict0.dom().len(),
                dict0.dom().len() <= feature_diagnoses.span() <= i32::MAX,
            ensures
                self.wf(),
                self.n_features() == old(self).n_features(),
                feature_diagnoses.wf(),
                feature_diagnoses.span() == old(feature_diagnoses).span(),
                (feature_diagnoses@, self.assignment()) == settle(dict0, x@, assign0, smin as int),
                removed == removals(dict0, x@, assign0, smin as int),
                removed <= feature_diagnoses.span(),
            decreases feature_diagnoses@.dom().len(),
        {
            match self.first_invalid(feature_diagnoses, smin) {
                Some(feat) => {
                    proof {
                        feature_diagnoses.lemma_bounds();
                        crate::maintenance::lemma_first_under_supported_unique(
                            feature_diagnoses@,
                            self.assignment(),
                            smin as int,
                            feat as int,
                        );
                    }
                    self.repair(feature_diagnoses, x, feat);
                    removed = removed + 1;
                },
                None => {
                    break ;
                },
            }
        }
        removed
    }
}

/// A support count that differs from the recount of the inverse index.
#[derive(Debug, Clone, Copy, PartialEq, Eq)]
pub struct CountMismatch {
    /// The feature id.
    pub feature: usize,
    /// The count that was maintained.
    pub counted: usize,
    /// The number of observations that the inverse index lists.
    pub recounted: usize,
}

/// The count maintained for feature `f`; zero where none is kept.
pub open spec fn counted(feat_count: Seq<usize>, f: int) -> int {
    if 0 <= f < feat_count.len() {
        feat_count[f] as int
    } else {
        0
    }
}

/// The number of observations listed under feature `f`; zero where there is
/// no list.
pub open spec fn recounted(feature_obs: Seq<OrderedSet<usize>>, f: int) -> int {
    if 0 <= f < feature_obs.len() {
        feature_obs[f]@.len() as int
    } else {
        0
    }
}

/// Recounts the support of every feature from the inverse index and
/// compares it with the maintained count; reports the first feature for
/// which the two differ.
pub fn verify_support_counts(feature_obs: &Vec<OrderedSet<usize>>, feat_count: &Vec<usize>) -> (r:
    Result<(), CountMismatch>)
    requires
        forall|f: int| 0 <= f < feature_obs@.len() ==> (#[trigger] feature_obs@[f]).wf(),
    ensures
        match r {
            Ok(_) => forall|f: int| counted(feat_count@, f) == recounted(feature_obs@, f),
            Err(m) => {
                &&& counted(feat_count@, m.feature as int) != recounted(
                    feature_obs@,
                    m.feature as int,
                )
                &&& forall|f: int|
                    f < m.feature ==> counted(feat_count@, f) == recounted(feature_obs@, f)
                &&& m.counted == counted(feat_count@, m.feature as int)
                &&& m.recounted == recounted(feature_obs@, m.feature as int)
            },
        },
{
    let n = if feature_obs.len() > feat_count.len() {
        feature_obs.len()
    } else {
        feat_count.len()
    };
    let mut f: usize = 0;
    while f < n
        invariant
            f <= n,
            n >= feature_obs@.len(),
            n >= feat_count@.len(),
            forall|g: int| 0 <= g < feature_obs@.len() ==> (#[trigger] feature_obs@[g]).wf(),
            forall|g: int| g < f ==> counted(feat_count@, g) == recounted(feature_obs@, g),
        decreases n - f,
    {
        let c = if f < feat_count.len() {
            feat_count[f]
        } else {
            0
        };
        let fin_c = if f < feature_obs.len() {
            feature_obs[f].len()
        } else {
            0
        };
        if c != fin_c {
            return Err(CountMismatch { feature: f, counted: c, recounted: fin_c });
        }
        f = f + 1;
    }
    Ok(())
}

} // verus!
