use feature_mapper::ordered_set::{Id, OrderedSet};

fn set_of(values: &[i32]) -> OrderedSet<i32> {
    let mut s = OrderedSet::new();
    for v in values {
        s.insert(*v);
    }
    s
}

#[test]
fn identifiers_are_ordered_by_their_value() {
    assert!(3i32.precedes(4));
    assert!(!4i32.precedes(4));
    assert!((-1i32).precedes(0));
    assert!(4i32.same(4));
    assert!(!4i32.same(-4));
    assert!(7usize.precedes(8));
    assert!(!8usize.precedes(7));
    assert!(8usize.same(8));
}

#[test]
fn a_new_set_is_empty() {
    let s: OrderedSet<i32> = OrderedSet::new();
    assert_eq!(s.len(), 0);
    assert!(s.is_empty());
    assert!(!s.contains(0));
    assert_eq!(s.as_slice(), &[] as &[i32]);
}

#[test]
fn insert_keeps_the_elements_ascending_and_single() {
    let mut s: OrderedSet<i32> = OrderedSet::new();
    assert!(s.insert(5));
    assert!(s.insert(-3));
    assert!(s.insert(9));
    assert!(!s.insert(5));
    assert!(s.insert(0));
    assert_eq!(s.as_slice(), &[-3, 0, 5, 9]);
    assert_eq!(s.len(), 4);
    assert!(!s.is_empty());
    assert_eq!(s.get(0), -3);
    assert_eq!(s.get(3), 9);
}

#[test]
fn contains_finds_exactly_the_elements() {
    let s = set_of(&[1, 4, 6, 10]);
    assert!(s.contains(1));
    assert!(s.contains(4));
    assert!(s.contains(6));
    assert!(s.contains(10));
    assert!(!s.contains(0));
    assert!(!s.contains(5));
    assert!(!s.contains(11));
}

#[test]
fn remove_takes_out_one_element() {
    let mut s = set_of(&[1, 4, 6, 10]);
    assert!(s.remove(4));
    assert!(!s.remove(4));
    assert!(!s.remove(5));
    assert_eq!(s.as_slice(), &[1, 6, 10]);
    assert!(s.remove(1));
    assert!(s.remove(10));
    assert!(s.remove(6));
    assert!(s.is_empty());
}

#[test]
fn is_subset_compares_element_by_element() {
    let all = set_of(&[1, 2, 3, 5, 8]);
    assert!(set_of(&[]).is_subset(&all));
    assert!(set_of(&[1]).is_subset(&all));
    assert!(set_of(&[2, 8]).is_subset(&all));
    assert!(all.is_subset(&all));
    assert!(!set_of(&[4]).is_subset(&all));
    assert!(!set_of(&[1, 2, 3, 5, 8, 9]).is_subset(&all));
    assert!(!set_of(&[0, 1]).is_subset(&all));
    assert!(!all.is_subset(&set_of(&[])));
    assert!(set_of(&[]).is_subset(&set_of(&[])));
}

#[test]
fn subtract_leaves_the_difference() {
    let mut s = set_of(&[1, 2, 3, 5, 8]);
    s.subtract(&set_of(&[2, 4, 8, 9]));
    assert_eq!(s.as_slice(), &[1, 3, 5]);
    s.subtract(&set_of(&[]));
    assert_eq!(s.as_slice(), &[1, 3, 5]);
    s.subtract(&set_of(&[0, 1, 3, 5, 7]));
    assert!(s.is_empty());
}

#[test]
fn from_ascending_takes_the_vector_as_it_is() {
    let s = OrderedSet::from_ascending(vec![2usize, 3, 7]);
    assert_eq!(s.len(), 3);
    assert!(s.contains(3));
    assert!(!s.contains(4));
    assert_eq!(s.as_slice(), &[2, 3, 7]);
}

#[test]
fn duplicate_is_independent_of_its_source() {
    let s = set_of(&[4, 2]);
    let mut t = s.duplicate();
    assert_eq!(t.as_slice(), &[2, 4]);
    t.insert(3);
    assert_eq!(t.as_slice(), &[2, 3, 4]);
    assert_eq!(s.as_slice(), &[2, 4]);
}

#[test]
fn sets_of_observations_work_like_sets_of_features() {
    let mut s: OrderedSet<usize> = OrderedSet::new();
    assert!(s.insert(usize::MAX));
    assert!(s.insert(0));
    assert!(s.insert(12));
    assert_eq!(s.as_slice(), &[0, 12, usize::MAX]);
    assert!(s.remove(12));
    assert_eq!(s.as_slice(), &[0, usize::MAX]);
}
