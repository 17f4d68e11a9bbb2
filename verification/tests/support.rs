use feature_mapper::csr::PyBasicCsrMatrix;
use feature_mapper::dictionary::FeatureDictionary;
use feature_mapper::ordered_set::OrderedSet;
use feature_mapper::support::{verify_support_counts, CountMismatch, SupportState};

// feature 0 = {1, 2}, feature 1 = {2, 3}, feature 2 = {2}
fn indicator() -> PyBasicCsrMatrix {
    PyBasicCsrMatrix::new(3, 4, vec![1, 2, 2, 3, 2], vec![0, 2, 4, 5])
}

fn obs_set(values: &[usize]) -> OrderedSet<usize> {
    let mut s = OrderedSet::new();
    for v in values {
        s.insert(*v);
    }
    s
}

fn inverse_is_exact(state: &SupportState, n_features: i32) {
    for f in 0..n_features {
        let listed = state.observations_of(f);
        assert_eq!(state.support_of(f), listed.len());
        for obs in 0..state.observations() {
            assert_eq!(listed.contains(&obs), state.row(obs).contains(&f));
        }
    }
    assert_eq!(verify_support_counts(state.feature_obs(), state.feat_count()), Ok(()));
}

#[test]
fn a_new_state_assigns_nothing() {
    let s = SupportState::new(3, 2);
    assert_eq!(s.observations(), 3);
    for obs in 0..3 {
        assert!(s.row(obs).is_empty());
    }
    assert_eq!(s.support_of(0), 0);
    assert_eq!(s.support_of(1), 0);
    assert_eq!(s.first_holder(0), None);
    inverse_is_exact(&s, 2);
}

#[test]
fn link_and_unlink_keep_the_three_parts_in_step() {
    let mut s = SupportState::new(3, 4);
    s.link(2, 1);
    s.link(0, 1);
    s.link(0, 3);
    s.link(0, 1);
    assert_eq!(s.row(0), &[1, 3]);
    assert_eq!(s.row(1), &[] as &[i32]);
    assert_eq!(s.row(2), &[1]);
    assert_eq!(s.observations_of(1), &[0, 2]);
    assert_eq!(s.observations_of(3), &[0]);
    assert_eq!(s.support_of(1), 2);
    assert_eq!(s.support_of(3), 1);
    assert_eq!(s.support_of(0), 0);
    assert_eq!(s.first_holder(1), Some(0));
    assert_eq!(s.first_holder(2), None);
    inverse_is_exact(&s, 4);
    s.unlink(0, 1);
    s.unlink(0, 2);
    s.unlink(1, 1);
    assert_eq!(s.row(0), &[3]);
    assert_eq!(s.observations_of(1), &[2]);
    assert_eq!(s.support_of(1), 1);
    assert_eq!(s.first_holder(1), Some(2));
    inverse_is_exact(&s, 4);
}

#[test]
fn clear_and_install_replace_an_assignment() {
    let mut s = SupportState::from_lists(&vec![vec![0, 2], vec![2], vec![]], 3);
    assert_eq!(s.row(0), &[0, 2]);
    assert_eq!(s.observations_of(2), &[0, 1]);
    inverse_is_exact(&s, 3);
    s.clear(0);
    assert_eq!(s.row(0), &[] as &[i32]);
    assert_eq!(s.support_of(0), 0);
    assert_eq!(s.support_of(2), 1);
    inverse_is_exact(&s, 3);
    s.install(0, &[1]);
    s.install(2, &[1, 2]);
    assert_eq!(s.row(0), &[1]);
    assert_eq!(s.row(2), &[1, 2]);
    assert_eq!(s.observations_of(1), &[0, 2]);
    assert_eq!(s.observations_of(2), &[1, 2]);
    inverse_is_exact(&s, 3);
}

#[test]
fn reresolve_installs_the_fresh_cover() {
    let x = PyBasicCsrMatrix::new(2, 4, vec![1, 2, 2, 3], vec![0, 2, 4]);
    let mut d = FeatureDictionary::from_indicator(&indicator());
    let mut s = SupportState::from_lists(&vec![vec![0], vec![1]], 3);
    d.remove(0);
    s.reresolve(0, &x, &d);
    assert_eq!(s.row(0), &[2]);
    assert_eq!(s.row(1), &[1]);
    assert_eq!(s.support_of(0), 0);
    assert_eq!(s.support_of(2), 1);
    inverse_is_exact(&s, 3);
}

#[test]
fn first_invalid_skips_unsupported_and_removed_features() {
    let mut d = FeatureDictionary::from_indicator(&indicator());
    // supports: feature 0: 0, feature 1: 1, feature 2: 2
    let s = SupportState::from_lists(&vec![vec![1, 2], vec![2]], 3);
    assert_eq!(s.first_invalid(&d, 0), None);
    assert_eq!(s.first_invalid(&d, 1), None);
    assert_eq!(s.first_invalid(&d, 2), Some(1));
    assert_eq!(s.first_invalid(&d, 3), Some(1));
    d.remove(1);
    assert_eq!(s.first_invalid(&d, 2), None);
    assert_eq!(s.first_invalid(&d, 3), Some(2));
}

#[test]
fn repair_resolves_every_holder_against_the_smaller_dictionary() {
    // observations {1, 2}, {2, 3}, {1, 2, 3}
    let x = PyBasicCsrMatrix::new(3, 4, vec![1, 2, 2, 3, 1, 2, 3], vec![0, 2, 4, 7]);
    let mut d = FeatureDictionary::from_indicator(&indicator());
    let mut s = SupportState::from_lists(&vec![vec![0], vec![1], vec![0]], 3);
    s.repair(&mut d, &x, 0);
    assert!(!d.contains(0));
    assert_eq!(s.row(0), &[2]);
    assert_eq!(s.row(1), &[1]);
    assert_eq!(s.row(2), &[1]);
    assert_eq!(s.support_of(0), 0);
    assert_eq!(s.support_of(1), 2);
    assert_eq!(s.support_of(2), 1);
    inverse_is_exact(&s, 3);
}

#[test]
fn maintain_removes_no_more_features_than_there_are() {
    // a single observation {1, 2, 3} against a floor it can never meet
    let x = PyBasicCsrMatrix::new(1, 4, vec![1, 2, 3], vec![0, 3]);
    let mut d = FeatureDictionary::from_indicator(&indicator());
    let mut s = SupportState::from_lists(&vec![vec![0]], 3);
    let removed = s.maintain(&mut d, &x, 2);
    assert_eq!(removed, 3);
    assert!(removed <= d.n_features());
    assert!(!d.contains(0) && !d.contains(1) && !d.contains(2));
    assert_eq!(s.row(0), &[] as &[i32]);
    inverse_is_exact(&s, 3);
}

#[test]
fn maintain_stops_as_soon_as_every_support_meets_the_floor() {
    // observations {1, 2}, {2, 3}, {2, 3}, {2}
    let x = PyBasicCsrMatrix::new(4, 4, vec![1, 2, 2, 3, 2, 3, 2], vec![0, 2, 4, 6, 7]);
    let mut d = FeatureDictionary::from_indicator(&indicator());
    let mut s = SupportState::from_lists(&vec![vec![0], vec![1], vec![1], vec![2]], 3);
    let removed = s.maintain(&mut d, &x, 2);
    assert_eq!(removed, 1);
    assert!(!d.contains(0) && d.contains(1) && d.contains(2));
    assert_eq!(s.row(0), &[2]);
    assert_eq!(s.row(1), &[1]);
    assert_eq!(s.row(2), &[1]);
    assert_eq!(s.row(3), &[2]);
    for f in 0..3 {
        assert!(s.support_of(f) == 0 || s.support_of(f) >= 2);
    }
    inverse_is_exact(&s, 3);
    assert_eq!(s.maintain(&mut d, &x, 2), 0);
}

#[test]
fn matching_counts_pass_the_recount() {
    let lists = vec![obs_set(&[0, 3]), obs_set(&[]), obs_set(&[1])];
    assert_eq!(verify_support_counts(&lists, &vec![2, 0, 1]), Ok(()));
    assert_eq!(verify_support_counts(&Vec::new(), &Vec::new()), Ok(()));
    // a missing count stands for zero, and so does a missing list
    assert_eq!(verify_support_counts(&lists, &vec![2, 0, 1, 0]), Ok(()));
    assert_eq!(verify_support_counts(&vec![obs_set(&[5]), obs_set(&[])], &vec![1]), Ok(()));
}

#[test]
fn the_first_diverging_count_is_reported() {
    let lists = vec![obs_set(&[0, 3]), obs_set(&[]), obs_set(&[1])];
    assert_eq!(
        verify_support_counts(&lists, &vec![2, 1, 0]),
        Err(CountMismatch { feature: 1, counted: 1, recounted: 0 })
    );
    assert_eq!(
        verify_support_counts(&lists, &vec![3, 0, 1]),
        Err(CountMismatch { feature: 0, counted: 3, recounted: 2 })
    );
    assert_eq!(
        verify_support_counts(&lists, &vec![2, 0]),
        Err(CountMismatch { feature: 2, counted: 0, recounted: 1 })
    );
    assert_eq!(
        verify_support_counts(&lists, &vec![2, 0, 1, 4]),
        Err(CountMismatch { feature: 3, counted: 4, recounted: 0 })
    );
}
