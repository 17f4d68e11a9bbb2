use feature_mapper::csr::{PyArray, PyBasicCsrMatrix, PyShape};

#[test]
fn an_array_hands_back_what_it_was_given() {
    let a = PyArray::new(vec![3, 1, 2]);
    assert_eq!(a.len(), 3);
    assert_eq!(a.as_slice(), &[3, 1, 2]);
    assert_eq!(a.into_vec(), vec![3, 1, 2]);
    let empty: PyArray<i32> = PyArray::new(Vec::new());
    assert_eq!(empty.len(), 0);
}

#[test]
fn a_matrix_keeps_its_parts() {
    let m = PyBasicCsrMatrix::new(2, 5, vec![1, 2, 4], vec![0, 2, 3]);
    assert_eq!(m.shape, PyShape { rows: 2, cols: 5 });
    assert_eq!(m.rows(), 2);
    assert_eq!(m.cols(), 5);
    assert_eq!(m.indices.vec, vec![1, 2, 4]);
    assert_eq!(m.indptr.vec, vec![0, 2, 3]);
}

#[test]
fn well_formed_matrices_are_recognised() {
    assert!(PyBasicCsrMatrix::new(2, 5, vec![1, 2, 4], vec![0, 2, 3]).is_well_formed());
    assert!(PyBasicCsrMatrix::new(0, 5, vec![], vec![0]).is_well_formed());
    assert!(PyBasicCsrMatrix::new(3, 5, vec![7], vec![0, 0, 1, 1]).is_well_formed());
    // rows that leave part of the indices unused
    assert!(PyBasicCsrMatrix::new(1, 5, vec![1, 2, 4], vec![1, 2]).is_well_formed());
}

#[test]
fn ill_formed_matrices_are_recognised() {
    // no offsets at all
    assert!(!PyBasicCsrMatrix::new(0, 5, vec![], vec![]).is_well_formed());
    // one offset too few, one too many
    assert!(!PyBasicCsrMatrix::new(2, 5, vec![1, 2, 4], vec![0, 3]).is_well_formed());
    assert!(!PyBasicCsrMatrix::new(2, 5, vec![1, 2, 4], vec![0, 1, 2, 3]).is_well_formed());
    // a negative offset
    assert!(!PyBasicCsrMatrix::new(2, 5, vec![1, 2, 4], vec![-1, 2, 3]).is_well_formed());
    // offsets that decrease
    assert!(!PyBasicCsrMatrix::new(2, 5, vec![1, 2, 4], vec![0, 3, 2]).is_well_formed());
    // an offset beyond the indices
    assert!(!PyBasicCsrMatrix::new(2, 5, vec![1, 2, 4], vec![0, 2, 4]).is_well_formed());
}

#[test]
fn a_row_is_read_as_a_set() {
    let m = PyBasicCsrMatrix::new(3, 9, vec![4, 2, 4, 8, -1, 0], vec![0, 4, 4, 6]);
    assert_eq!(m.row_set(0).as_slice(), &[2, 4, 8]);
    assert_eq!(m.row_set(1).as_slice(), &[] as &[i32]);
    assert_eq!(m.row_set(2).as_slice(), &[-1, 0]);
}

#[test]
fn rows_are_appended_one_by_one() {
    let mut m = PyBasicCsrMatrix::empty(7);
    assert_eq!(m.shape, PyShape { rows: 0, cols: 7 });
    assert_eq!(m.indptr.vec, vec![0]);
    assert!(m.indices.vec.is_empty());
    assert!(m.is_well_formed());
    m.push_row(&[1, 5]);
    m.push_row(&[]);
    m.push_row(&[6]);
    assert_eq!(m.shape, PyShape { rows: 3, cols: 7 });
    assert_eq!(m.indices.vec, vec![1, 5, 6]);
    assert_eq!(m.indptr.vec, vec![0, 2, 2, 3]);
    assert!(m.is_well_formed());
}
