use feature_mapper::csr::PyBasicCsrMatrix;
use feature_mapper::dictionary::FeatureDictionary;
use feature_mapper::ordered_set::OrderedSet;
use feature_mapper::resolver::{greedy_cover, obsdiag2feat, obsdiag2featset};

fn set_of(values: &[i32]) -> OrderedSet<i32> {
    let mut s = OrderedSet::new();
    for v in values {
        s.insert(*v);
    }
    s
}

// feature 0 = {1, 2}, feature 1 = {2, 3}, feature 2 = {2}
fn dictionary() -> FeatureDictionary {
    let i = PyBasicCsrMatrix::new(3, 4, vec![1, 2, 2, 3, 2], vec![0, 2, 4, 5]);
    FeatureDictionary::from_indicator(&i)
}

#[test]
fn the_dictionary_holds_one_feature_per_indicator_row() {
    let d = dictionary();
    assert_eq!(d.n_features(), 3);
    assert!(d.contains(0));
    assert!(d.contains(1));
    assert!(d.contains(2));
    assert!(!d.contains(3));
    assert!(!d.contains(-1));
    assert_eq!(d.get(0).as_slice(), &[1, 2]);
    assert_eq!(d.get(1).as_slice(), &[2, 3]);
    assert_eq!(d.get(2).as_slice(), &[2]);
}

#[test]
fn a_removed_feature_is_gone_and_the_others_keep_their_ids() {
    let mut d = dictionary();
    d.remove(1);
    assert_eq!(d.n_features(), 3);
    assert!(d.contains(0));
    assert!(!d.contains(1));
    assert!(d.contains(2));
    d.remove(1);
    d.remove(7);
    d.remove(-2);
    assert!(d.contains(0));
    assert!(d.contains(2));
    assert_eq!(d.get(2).as_slice(), &[2]);
}

#[test]
fn first_match_is_the_lowest_eligible_feature() {
    let d = dictionary();
    assert_eq!(d.first_match_from(&set_of(&[1, 2, 3]), 0), Some(0));
    assert_eq!(d.first_match_from(&set_of(&[2, 3]), 0), Some(1));
    assert_eq!(d.first_match_from(&set_of(&[2]), 0), Some(2));
    assert_eq!(d.first_match_from(&set_of(&[1, 3]), 0), None);
    assert_eq!(d.first_match_from(&set_of(&[]), 0), None);
    assert_eq!(d.first_match_from(&set_of(&[1, 2, 3]), 1), Some(1));
    assert_eq!(d.first_match_from(&set_of(&[1, 2, 3]), 2), Some(2));
    assert_eq!(d.first_match_from(&set_of(&[1, 2, 3]), 3), None);
    assert_eq!(d.first_match_from(&set_of(&[1, 2]), 1), Some(2));
}

#[test]
fn first_match_skips_removed_features() {
    let mut d = dictionary();
    d.remove(0);
    assert_eq!(d.first_match_from(&set_of(&[1, 2, 3]), 0), Some(1));
    d.remove(1);
    assert_eq!(d.first_match_from(&set_of(&[1, 2, 3]), 0), Some(2));
    d.remove(2);
    assert_eq!(d.first_match_from(&set_of(&[1, 2, 3]), 0), None);
}

#[test]
fn a_feature_without_diagnoses_never_matches() {
    // feature 0 = {}, feature 1 = {1}
    let i = PyBasicCsrMatrix::new(2, 4, vec![1], vec![0, 0, 1]);
    let d = FeatureDictionary::from_indicator(&i);
    assert!(d.contains(0));
    assert!(d.get(0).is_empty());
    assert_eq!(d.first_match_from(&set_of(&[1, 2]), 0), Some(1));
    assert_eq!(d.first_match_from(&set_of(&[2]), 0), None);
    assert_eq!(d.first_match_from(&set_of(&[]), 0), None);
    assert_eq!(greedy_cover(&d, set_of(&[1, 2]), 0), vec![1]);
}

#[test]
fn an_observation_resolves_to_the_feature_that_consumes_it() {
    let x = PyBasicCsrMatrix::new(2, 4, vec![1, 2, 2, 3], vec![0, 2, 4]);
    let d = dictionary();
    assert_eq!(obsdiag2feat(0, &x, &d), vec![0]);
    assert_eq!(obsdiag2feat(1, &x, &d), vec![1]);
    assert_eq!(obsdiag2featset(0, &x, &d).as_slice(), &[0]);
    assert_eq!(obsdiag2featset(1, &x, &d).as_slice(), &[1]);
}

#[test]
fn diagnoses_that_no_feature_covers_are_dropped() {
    // {1, 2, 3}: feature 0 takes 1 and 2, nothing covers 3 alone
    // {0}: nothing at all; {}: nothing to cover
    let x = PyBasicCsrMatrix::new(3, 4, vec![1, 2, 3, 0], vec![0, 3, 4, 4]);
    let d = dictionary();
    assert_eq!(obsdiag2feat(0, &x, &d), vec![0]);
    assert_eq!(obsdiag2feat(1, &x, &d), Vec::<i32>::new());
    assert_eq!(obsdiag2feat(2, &x, &d), Vec::<i32>::new());
    assert!(obsdiag2featset(1, &x, &d).is_empty());
}

#[test]
fn the_stored_order_and_repeats_of_a_row_do_not_matter() {
    let x = PyBasicCsrMatrix::new(2, 4, vec![3, 2, 2, 2, 1, 2], vec![0, 3, 6]);
    let d = dictionary();
    assert_eq!(obsdiag2feat(0, &x, &d), vec![1]);
    assert_eq!(obsdiag2feat(1, &x, &d), vec![0]);
}

#[test]
fn several_features_cover_one_observation_in_ascending_order() {
    // feature 0 = {5}, feature 1 = {1, 2}, feature 2 = {1}, feature 3 = {3, 4}, feature 4 = {2}
    let i = PyBasicCsrMatrix::new(5, 6, vec![5, 1, 2, 1, 3, 4, 2], vec![0, 1, 3, 4, 6, 7]);
    let d = FeatureDictionary::from_indicator(&i);
    let x = PyBasicCsrMatrix::new(2, 6, vec![4, 3, 2, 1, 1, 2, 5], vec![0, 4, 7]);
    assert_eq!(obsdiag2feat(0, &x, &d), vec![1, 3]);
    assert_eq!(obsdiag2feat(1, &x, &d), vec![0, 1]);
    assert_eq!(obsdiag2featset(0, &x, &d).as_slice(), &[1, 3]);
}

#[test]
fn the_lowest_id_wins_a_shared_diagnosis() {
    // feature 0 = {2, 3}, feature 1 = {2}, feature 2 = {3}
    let i = PyBasicCsrMatrix::new(3, 4, vec![2, 3, 2, 3], vec![0, 2, 3, 4]);
    let d = FeatureDictionary::from_indicator(&i);
    assert_eq!(greedy_cover(&d, set_of(&[2, 3]), 0), vec![0]);
    assert_eq!(greedy_cover(&d, set_of(&[2, 3]), 1), vec![1, 2]);
    assert_eq!(greedy_cover(&d, set_of(&[2, 3]), 2), vec![2]);
    assert_eq!(greedy_cover(&d, set_of(&[2, 3]), 3), Vec::<i32>::new());
}

#[test]
fn every_selected_feature_lies_within_the_observation() {
    let i = PyBasicCsrMatrix::new(5, 6, vec![5, 1, 2, 1, 3, 4, 2], vec![0, 1, 3, 4, 6, 7]);
    let d = FeatureDictionary::from_indicator(&i);
    let x = PyBasicCsrMatrix::new(3, 6, vec![4, 3, 2, 1, 1, 2, 5, 0, 4], vec![0, 4, 7, 9]);
    for obs in 0..3 {
        let row = x.row_set(obs);
        for f in obsdiag2feat(obs, &x, &d) {
            assert!(d.contains(f));
            assert!(!d.get(f).is_empty());
            assert!(d.get(f).is_subset(&row));
        }
    }
}
