use feature_mapper::csr::PyBasicCsrMatrix;
use feature_mapper::dictionary::FeatureDictionary;
use feature_mapper::obsolete::{
    alternative_features, find_lacking, remap_rows_smin_obsolete, substitute_feature,
};
use feature_mapper::remap::remap_rows;
use feature_mapper::support::{verify_support_counts, SupportState};

// feature 0 = {1, 2}, feature 1 = {2, 3}, feature 2 = {2}
fn indicator() -> PyBasicCsrMatrix {
    PyBasicCsrMatrix::new(3, 4, vec![1, 2, 2, 3, 2], vec![0, 2, 4, 5])
}

// feature 0 = {1, 2}, feature 1 = {1}, feature 2 = {2}
fn split_indicator() -> PyBasicCsrMatrix {
    PyBasicCsrMatrix::new(3, 4, vec![1, 2, 1, 2], vec![0, 2, 3, 4])
}

#[test]
fn alternatives_are_higher_features_within_the_source() {
    let d = FeatureDictionary::from_indicator(&indicator());
    assert_eq!(alternative_features(&d, 0).as_slice(), &[2]);
    assert_eq!(alternative_features(&d, 1).as_slice(), &[2]);
    assert_eq!(alternative_features(&d, 2).as_slice(), &[] as &[i32]);
    let d = FeatureDictionary::from_indicator(&split_indicator());
    assert_eq!(alternative_features(&d, 0).as_slice(), &[1, 2]);
    assert_eq!(alternative_features(&d, 1).as_slice(), &[] as &[i32]);
}

#[test]
fn find_lacking_counts_unsupported_features_too() {
    let mut d = FeatureDictionary::from_indicator(&indicator());
    // supports: feature 0: 0, feature 1: 1, feature 2: 2
    let s = SupportState::from_lists(&vec![vec![1, 2], vec![2]], 3);
    assert_eq!(find_lacking(&s, &d, 0, 0), None);
    assert_eq!(find_lacking(&s, &d, 1, 0), Some(0));
    assert_eq!(find_lacking(&s, &d, 1, 1), None);
    assert_eq!(find_lacking(&s, &d, 2, 1), Some(1));
    assert_eq!(find_lacking(&s, &d, 3, 2), Some(2));
    assert_eq!(find_lacking(&s, &d, 3, 3), None);
    d.remove(0);
    assert_eq!(find_lacking(&s, &d, 1, 0), None);
    assert_eq!(find_lacking(&s, &d, 2, 0), Some(1));
}

#[test]
fn substitution_puts_the_alternatives_in_place_of_the_feature() {
    let mut d = FeatureDictionary::from_indicator(&split_indicator());
    let mut s = SupportState::from_lists(&vec![vec![0], vec![1], vec![0]], 3);
    substitute_feature(&mut s, &mut d, 0);
    assert!(!d.contains(0));
    assert_eq!(s.row(0), &[1, 2]);
    assert_eq!(s.row(1), &[1]);
    assert_eq!(s.row(2), &[1, 2]);
    assert_eq!(s.support_of(0), 0);
    assert_eq!(s.support_of(1), 3);
    assert_eq!(s.support_of(2), 2);
    assert_eq!(verify_support_counts(s.feature_obs(), s.feat_count()), Ok(()));
}

#[test]
fn the_earlier_remapping_splits_a_lone_feature() {
    // {1, 2}, {1}, {2}
    let x = PyBasicCsrMatrix::new(3, 4, vec![1, 2, 1, 2], vec![0, 2, 3, 4]);
    let y = remap_rows_smin_obsolete(&x, &split_indicator(), 2);
    assert_eq!(y.shape.rows, 3);
    assert_eq!(y.shape.cols, 3);
    assert_eq!(y.indices.vec, vec![1, 2, 1, 2]);
    assert_eq!(y.indptr.vec, vec![0, 2, 3, 4]);
}

#[test]
fn the_earlier_remapping_drops_what_has_no_alternative() {
    // {1, 2}, {2, 3}, {2, 3}: feature 0 gives way to feature 2, which then
    // lacks support itself and has no alternative
    let x = PyBasicCsrMatrix::new(3, 4, vec![1, 2, 2, 3, 2, 3], vec![0, 2, 4, 6]);
    let y = remap_rows_smin_obsolete(&x, &indicator(), 2);
    assert_eq!(y.shape.rows, 3);
    assert_eq!(y.shape.cols, 3);
    assert_eq!(y.indices.vec, vec![1, 1]);
    assert_eq!(y.indptr.vec, vec![0, 0, 1, 2]);
}

#[test]
fn the_earlier_remapping_keeps_a_diagnosis_the_later_one_regains() {
    // {1, 2, 3}, {2, 3}: feature 0 leaves; its only alternative is feature
    // 2, so observation 0 never comes to hold feature 1
    let x = PyBasicCsrMatrix::new(2, 4, vec![1, 2, 3, 2, 3], vec![0, 3, 5]);
    let y = remap_rows_smin_obsolete(&x, &indicator(), 2);
    // supports after feature 0 left: feature 1: 1, feature 2: 1; feature 1
    // gives way to feature 2, which then has both observations
    assert_eq!(y.indices.vec, vec![2, 2]);
    assert_eq!(y.indptr.vec, vec![0, 1, 2]);
}

#[test]
fn the_earlier_remapping_with_a_floor_of_zero_changes_nothing() {
    let x = PyBasicCsrMatrix::new(5, 4, vec![2, 1, 2, 3, 0, 3, 3, 2], vec![0, 1, 1, 4, 6, 8]);
    assert_eq!(remap_rows_smin_obsolete(&x, &indicator(), 0), remap_rows(&x, &indicator()));
    assert_eq!(remap_rows_smin_obsolete(&x, &indicator(), 1), remap_rows(&x, &indicator()));
}

#[test]
fn the_earlier_remapping_leaves_no_support_below_the_floor() {
    let i = PyBasicCsrMatrix::new(5, 6, vec![5, 1, 2, 1, 3, 4, 2], vec![0, 1, 3, 4, 6, 7]);
    let x = PyBasicCsrMatrix::new(
        5,
        6,
        vec![4, 3, 2, 1, 1, 2, 5, 2, 4, 5, 4, 3, 1, 1],
        vec![0, 4, 7, 9, 13, 14],
    );
    for smin in 0..5u32 {
        let y = remap_rows_smin_obsolete(&x, &i, smin);
        assert!(y.is_well_formed());
        for f in 0..5 {
            let s = (0..5).filter(|obs| y.row_set(*obs).contains(f)).count();
            assert!(s == 0 || s >= smin as usize);
        }
    }
    // supports at first: 0: 2, 1: 2, 2: 2, 3: 2, 4: 1; with a floor of 3
    // feature 1 = {1, 2} gives way to features 2 and 4, which then have
    // supports 4 and 3
    let y = remap_rows_smin_obsolete(&x, &i, 3);
    assert_eq!(y.indices.vec, vec![2, 4, 2, 4, 4, 2, 2]);
    assert_eq!(y.indptr.vec, vec![0, 2, 4, 5, 6, 7]);
}
