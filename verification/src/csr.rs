//! Binary sparse matrices in compressed-row form.
//!
//! A matrix is its shape, the column ids of its entries row after row
//! (`indices`), and one offset per row boundary into those (`indptr`). A row
//! is read as the set of its column ids.

use crate::ordered_set::{ids, Id, OrderedSet};
use vstd::prelude::*;

verus! {

/// The number of rows and of columns of a matrix.
#[derive(Debug, Clone, Copy, PartialEq, Eq)]
pub struct PyShape {
    pub rows: usize,
    pub cols: usize,
}

/// An owned flat buffer.
#[derive(Debug, Clone, PartialEq, Eq)]
pub struct PyArray<T> {
    pub vec: Vec<T>,
}

impl<T> View for PyArray<T> {
    type V = Seq<T>;

    open spec fn view(&self) -> Seq<T> {
        self.vec@
    }
}

impl<T> PyArray<T> {
    /// The buffer that holds `vec`.
    pub fn new(vec: Vec<T>) -> (a: Self)
        ensures
            a@ == vec@,
    {
        PyArray { vec }
    }

    /// The number of elements.
    pub fn len(&self) -> (n: usize)
        ensures
            n == self@.len(),
    {
        self.vec.len()
    }

    /// The elements.
    pub fn as_slice(&self) -> (s: &[T])
        ensures
            s@ == self@,
    {
        self.vec.as_slice()
    }

    /// Hands the elements over.
    pub fn into_vec(self) -> (v: Vec<T>)
        ensures
            v@ == self@,
    {
        self.vec
    }
}

/// A binary sparse matrix in compressed-row form.
#[derive(Debug, Clone, PartialEq, Eq)]
pub struct PyBasicCsrMatrix {
    pub shape: PyShape,
    pub indices: PyArray<i32>,
    pub indptr: PyArray<i32>,
}

impl View for PyBasicCsrMatrix {
    type V = Seq<Set<int>>;

    /// The rows, each as the set of its column ids.
    open spec fn view(&self) -> Seq<Set<int>> {
        Seq::new(self.shape.rows as nat, |r: int| self.row(r))
    }
}

impl PyBasicCsrMatrix {
    /// There is one offset per row boundary, the offsets never decrease, and
    /// they all lie within `indices`.
    pub open spec fn wf(&self) -> bool {
        &&& self.indptr@.len() == self.shape.rows + 1
        &&& 0 <= self.indptr@[0]
        &&& self.indptr@[self.shape.rows as int] <= self.indices@.len()
        &&& forall|a: int, b: int|
            0 <= a <= b <= self.shape.rows ==> self.indptr@[a] <= self.indptr@[b]
    }

    /// Well formed, with the rows filling `indices` from end to end.
    pub open spec fn compact(&self) -> bool {
        &&& self.wf()
        &&& self.indptr@[0] == 0
        &&& self.indptr@[self.shape.rows as int] == self.indices@.len()
    }

    /// The column ids of row `r` as they are stored.
    pub open spec fn row_seq(&self, r: int) -> Seq<int> {
        ids(self.indices@.subrange(self.indptr@[r] as int, self.indptr@[r + 1] as int))
    }

    /// Row `r` as a set of column ids.
    pub open spec fn row(&self, r: int) -> Set<int> {
        self.row_seq(r).to_set()
    }

    /// The rows hold no more entries than `indices` does, and no more than
    /// an offset can count.
    pub proof fn lemma_rows_fit(&self, r: int)
        requires
            self.wf(),
            0 <= r < self.shape.rows,
        ensures
            0 <= self.indptr@[r] <= self.indptr@[r + 1] <= self.indices@.len(),
            self.row_seq(r).len() == self.indptr@[r + 1] - self.indptr@[r],
            self.row(r).finite(),
            self.row(r).len() <= self.indptr@[r + 1] - self.indptr@[r],
    {
        assert(self.indptr@[0] <= self.indptr@[r]);
        assert(self.indptr@[r] <= self.indptr@[r + 1]);
        assert(self.indptr@[r + 1] <= self.indptr@[self.shape.rows as int]);
        self.row_seq(r).lemma_cardinality_of_set();
    }

    /// The matrix of these parts.
    pub fn new(rows: usize, cols: usize, indices: Vec<i32>, indptr: Vec<i32>) -> (m: Self)
        ensures
            m.shape.rows == rows,
            m.shape.cols == cols,
            m.indices@ == indices@,
            m.indptr@ == indptr@,
    {
        PyBasicCsrMatrix {
            shape: PyShape { rows, cols },
            indices: PyArray::new(indices),
            indptr: PyArray::new(indptr),
        }
    }

    /// The matrix with `cols` columns and no row.
    pub fn empty(cols: usize) -> (m: Self)
        ensures
            m.compact(),
            m.shape.rows == 0,
            m.shape.cols == cols,
            m.indices@.len() == 0,
    {
        let mut indptr: Vec<i32> = Vec::new();
        indptr.push(0);
        PyBasicCsrMatrix {
            shape: PyShape { rows: 0, cols },
            indices: PyArray::new(Vec::new()),
            indptr: PyArray::new(indptr),
        }
    }

    /// The number of rows.
    pub fn rows(&self) -> (n: usize)
        ensures
            n == self.shape.rows,
    {
        self.shape.rows
    }

    /// The number of columns.
    pub fn cols(&self) -> (n: usize)
        ensures
            n == self.shape.cols,
    {
        self.shape.cols
    }

    /// Whether the parts fit together as a matrix.
    pub fn is_well_formed(&self) -> (b: bool)
        ensures
            b == self.wf(),
    {
        let n = self.indptr.len();
        if n == 0 || n - 1 != self.shape.rows {
            return false;
        }
        if self.indptr.vec[0] < 0 {
            return false;
        }
        let mut r: usize = 0;
        while r < self.shape.rows
            invariant
                self.indptr@.len() == self.shape.rows + 1,
                0 <= self.indptr@[0],
                r <= self.shape.rows,
                forall|a: int, b: int| 0 <= a <= b <= r ==> self.indptr@[a] <= self.indptr@[b],
            decreases self.shape.rows - r,
        {
            if self.indptr.vec[r] > self.indptr.vec[r + 1] {
                return false;
            }
            assert forall|a: int, b: int| 0 <= a <= b <= r + 1 implies self.indptr@[a]
                <= self.indptr@[b] by {
                if a <= r {
                    assert(self.indptr@[a] <= self.indptr@[r as int]);
                }
            }
            r = r + 1;
        }
        let last = self.indptr.vec[self.shape.rows];
        assert(self.indptr@[0] <= last);
        last as usize <= self.indices.len()
    }

    /// Row `r` as a set of column ids.
    pub fn row_set(&self, r: usize) -> (s: OrderedSet<i32>)
        requires
            self.wf(),
            r < self.shape.rows,
        ensures
            s.wf(),
            s@ == self.row(r as int),
    {
        proof {
            self.lemma_rows_fit(r as int);
        }
        let lo = self.indptr.vec[r] as usize;
        let hi = self.indptr.vec[r + 1] as usize;
        let mut s: OrderedSet<i32> = OrderedSet::new();
        let mut k: usize = lo;
        while k < hi
            invariant
                lo <= k <= hi <= self.indices@.len(),
                s.wf(),
                s@ == ids(self.indices@.subrange(lo as int, k as int)).to_set(),
            decreases hi - k,
        {
            let c = self.indices.vec[k];
            s.insert(c);
            proof {
                let before = ids(self.indices@.subrange(lo as int, k as int));
                let after = ids(self.indices@.subrange(lo as int, k + 1));
                assert(after =~= before.push(c.id()));
                before.lemma_push_to_set_commute(c.id());
            }
            k = k + 1;
        }
        s
    }

    /// Appends a row that holds the column ids of `row`.
    pub fn push_row(&mut self, row: &[i32])
        requires
            old(self).compact(),
            old(self).indices@.len() + row@.len() <= i32::MAX,
        ensures
            final(self).compact(),
            final(self).shape.rows == old(self).shape.rows + 1,
            final(self).shape.cols == old(self).shape.cols,
            final(self).indices@ == old(self).indices@ + row@,
            final(self).indptr@ == old(self).indptr@.push(final(self).indices@.len() as i32),
            forall|r: int|
                0 <= r < old(self).shape.rows ==> final(self).row_seq(r) == old(self).row_seq(r),
            final(self).row_seq(old(self).shape.rows as int) == ids(row@),
    {
        let ghost rows = self.shape.rows as int;
        let ghost before = self.indices@;
        let mut k: usize = 0;
        while k < row.len()
            invariant
                k <= row@.len(),
                before.len() + row@.len() <= i32::MAX,
                self.indices@ == before + row@.subrange(0, k as int),
                self.indptr == old(self).indptr,
                self.shape == old(self).shape,
            decreases row@.len() - k,
        {
            self.indices.vec.push(row[k]);
            assert(self.indices@ =~= before + row@.subrange(0, k + 1));
            k = k + 1;
        }
        assert(row@.subrange(0, row@.len() as int) =~= row@);
        let end = self.indices.vec.len() as i32;
        self.indptr.vec.push(end);
        self.shape.rows = self.indptr.vec.len() - 1;
        proof {
            assert forall|a: int, b: int| 0 <= a <= b <= rows + 1 implies self.indptr@[a]
                <= self.indptr@[b] by {
                if a <= rows {
                    assert(old(self).indptr@[a] <= old(self).indptr@[rows]);
                }
                if b <= rows {
                    assert(old(self).indptr@[a] <= old(self).indptr@[b]);
                }
            }
            assert forall|r: int| 0 <= r < rows implies self.row_seq(r) == old(self).row_seq(
                r,
            ) by {
                old(self).lemma_rows_fit(r);
                assert(self.indices@.subrange(self.indptr@[r] as int, self.indptr@[r + 1] as int)
                    =~= before.subrange(
                    old(self).indptr@[r] as int,
                    old(self).indptr@[r + 1] as int,
                ));
            }
            assert(self.indices@.subrange(self.indptr@[rows] as int, self.indptr@[rows + 1] as int)
                =~= row@);
        }
    }
}

} // verus!
