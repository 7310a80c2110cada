//! Immutable matrices over GF(2^8).
//!
//! [`GfMatrix`] stores rows of [`GfVec`] in row-major order.  Every operation
//! returns a new matrix; nothing is mutated.
use super::linear;
use super::gf_vec::{self, GfVec};
use crate::error::Error;
use crate::field::Gf256;
use vstd::prelude::*;

verus! {

/// An immutable matrix of GF(2^8) elements in row-major order.
///
/// Used for the augmented decoder matrix in Gaussian elimination.  Each row
/// operation (swap, scale, add) returns a fresh matrix.
#[derive(Debug, PartialEq, Eq)]
#[must_use]
pub struct GfMatrix {
    pub(crate) rows: Vec<GfVec>,
    pub(crate) col_count: usize,
}

/// The rows of a matrix, and their common length.
#[verifier::ext_equal]
pub struct MatrixView {
    pub rows: Seq<Seq<u8>>,
    pub cols: nat,
}

impl View for GfMatrix {
    type V = MatrixView;

    open(crate) spec fn view(&self) -> MatrixView {
        MatrixView { rows: gf_vec::views_of(self.rows@), cols: self.col_count as nat }
    }
}

impl Clone for GfMatrix {
    fn clone(&self) -> (r: Self)
        ensures
            r@ == self@,
    {
        proof {
            use_type_invariant(self);
        }
        Self { rows: gf_vec::clone_vecs(&self.rows), col_count: self.col_count }
    }
}

impl GfMatrix {
    /// All rows have as many elements as the matrix has columns.
    #[verifier::type_invariant]
    pub(crate) open(crate) spec fn rectangular(&self) -> bool {
        linear::has_width(gf_vec::views_of(self.rows@), self.col_count as nat)
    }

    /// Create a matrix from a vector of rows.
    ///
    /// All rows must have the same length; otherwise the first row that
    /// differs from row zero is reported.  An empty row list produces a 0x0
    /// matrix.
    pub fn new(rows: Vec<GfVec>) -> (r: Result<Self, Error>)
        ensures
            ({
                let views = gf_vec::views_of(rows@);
                let n = gf_vec::first_width(views);
                if linear::has_width(views, n) {
                    r matches Ok(m) && m@ == (MatrixView { rows: views, cols: n })
                } else {
                    exists|i: int| #[trigger]
                        gf_vec::first_odd_row(views, i) && r == Err::<Self, Error>(
                            Error::DimensionMismatch {
                                expected: n as usize,
                                actual: views[i].len() as usize,
                            },
                        )
                }
            }),
    {
        let ghost views = gf_vec::views_of(rows@);
        let col_count: usize = if rows.len() == 0 {
            0
        } else {
            rows[0].len()
        };
        let mut i: usize = 0;
        while i < rows.len()
            invariant
                i <= rows@.len(),
                views == gf_vec::views_of(rows@),
                col_count == gf_vec::first_width(views),
                forall|k: int| 0 <= k < i ==> (#[trigger] views[k]).len() == col_count,
            decreases rows@.len() - i,
        {
            assert(views[i as int] == rows@[i as int]@);
            if rows[i].len() != col_count {
                assert(gf_vec::first_odd_row(views, i as int));
                return Err(
                    Error::DimensionMismatch { expected: col_count, actual: rows[i].len() },
                );
            }
            i += 1;
        }
        Ok(Self { rows, col_count })
    }

    /// Create a matrix with zero rows and the given column count.
    pub fn empty(col_count: usize) -> (r: Self)
        ensures
            r@ == (MatrixView { rows: Seq::empty(), cols: col_count as nat }),
    {
        let rows: Vec<GfVec> = Vec::new();
        assert(gf_vec::views_of(rows@) =~= Seq::empty());
        Self { rows, col_count }
    }

    /// The number of rows.
    #[must_use]
    pub fn row_count(&self) -> (r: usize)
        ensures
            r == self@.rows.len(),
    {
        self.rows.len()
    }

    /// The number of columns.
    #[must_use]
    pub fn col_count(&self) -> (r: usize)
        ensures
            r == self@.cols,
    {
        self.col_count
    }

    /// A borrowed reference to the given row.
    #[must_use]
    pub fn row(&self, index: usize) -> (r: Option<&GfVec>)
        ensures
            index >= self@.rows.len() ==> r is None,
            index < self@.rows.len() ==> (r matches Some(v) && v@ == self@.rows[index as int]
                && v@.len() == self@.cols),
    {
        if index < self.rows.len() {
            proof {
                use_type_invariant(self);
                assert(self@.rows[index as int].len() == self@.cols);
            }
            Some(&self.rows[index])
        } else {
            None
        }
    }

    /// The element at (row, col).
    #[must_use]
    pub fn get(&self, row: usize, col: usize) -> (r: Option<Gf256>)
        ensures
            row >= self@.rows.len() || col >= self@.cols ==> r is None,
            row < self@.rows.len() && col < self@.cols ==> (r matches Some(e) && e@
                == self@.rows[row as int][col as int]),
    {
        match self.row(row) {
            Some(v) => v.get(col),
            None => None,
        }
    }

    /// A borrowed slice of all rows.
    pub fn rows(&self) -> (r: &[GfVec])
        ensures
            gf_vec::views_of(r@) == self@.rows,
            linear::has_width(self@.rows, self@.cols),
    {
        proof {
            use_type_invariant(self);
        }
        self.rows.as_slice()
    }

    /// Append a row to the matrix, returning a new matrix, or
    /// [`Error::DimensionMismatch`] if the row's length differs from the
    /// column count.
    pub fn append_row(&self, row: GfVec) -> (r: Result<Self, Error>)
        ensures
            row@.len() != self@.cols ==> r == Err::<Self, Error>(
                Error::DimensionMismatch {
                    expected: self@.cols as usize,
                    actual: row@.len() as usize,
                },
            ),
            row@.len() == self@.cols ==> (r matches Ok(m) && m@ == (MatrixView {
                rows: self@.rows.push(row@),
                cols: self@.cols,
            })),
    {
        if row.len() == self.col_count {
            proof {
                use_type_invariant(self);
            }
            let mut new_rows = gf_vec::clone_vecs(&self.rows);
            new_rows.push(row);
            proof {
                let ghost views = self@.rows.push(row@);
                assert(gf_vec::views_of(new_rows@) =~= views) by {
                    assert forall|k: int| 0 <= k < views.len() implies gf_vec::views_of(
                        new_rows@,
                    )[k] == #[trigger] views[k] by {
                        if k < self@.rows.len() {
                            assert(gf_vec::views_of(new_rows@.drop_last())[k] == self@.rows[k]);
                        }
                    }
                }
            }
            Ok(Self { rows: new_rows, col_count: self.col_count })
        } else {
            Err(Error::DimensionMismatch { expected: self.col_count, actual: row.len() })
        }
    }

    /// Replace one row by another of the same length.
    fn with_row(&self, index: usize, row: GfVec) -> (r: Self)
        requires
            index < self@.rows.len(),
            row@.len() == self@.cols,
        ensures
            r@ == (MatrixView {
                rows: self@.rows.update(index as int, row@),
                cols: self@.cols,
            }),
    {
        proof {
            use_type_invariant(self);
        }
        let mut new_rows = gf_vec::clone_vecs(&self.rows);
        let ghost before = gf_vec::views_of(new_rows@);
        new_rows.set(index, row);
        assert(gf_vec::views_of(new_rows@) =~= before.update(index as int, row@));
        Self { rows: new_rows, col_count: self.col_count }
    }

    /// Swap two rows, returning a new matrix, or `None` if either index is out
    /// of bounds.
    #[must_use]
    pub fn with_rows_swapped(&self, i: usize, j: usize) -> (r: Option<Self>)
        ensures
            i >= self@.rows.len() || j >= self@.rows.len() ==> r is None,
            i < self@.rows.len() && j < self@.rows.len() ==> (r matches Some(m) && m@ == (
            MatrixView {
                rows: self@.rows.update(i as int, self@.rows[j as int]).update(
                    j as int,
                    self@.rows[i as int],
                ),
                cols: self@.cols,
            })),
    {
        if i >= self.rows.len() || j >= self.rows.len() {
            None
        } else {
            proof {
                use_type_invariant(self);
                assert(self@.rows[i as int].len() == self@.cols);
                assert(self@.rows[j as int].len() == self@.cols);
            }
            Some(self.with_row(i, self.rows[j].clone()).with_row(j, self.rows[i].clone()))
        }
    }

    /// Scale a row by a scalar, returning a new matrix, or `None` if the index
    /// is out of bounds.
    #[must_use]
    pub fn with_row_scaled(&self, index: usize, scalar: Gf256) -> (r: Option<Self>)
        ensures
            index >= self@.rows.len() ==> r is None,
            index < self@.rows.len() ==> (r matches Some(m) && m@ == (MatrixView {
                rows: self@.rows.update(
                    index as int,
                    linear::scaled(scalar@, self@.rows[index as int]),
                ),
                cols: self@.cols,
            })),
    {
        if index >= self.rows.len() {
            None
        } else {
            proof {
                use_type_invariant(self);
                assert(self@.rows[index as int].len() == self@.cols);
            }
            Some(self.with_row(index, self.rows[index].scale(scalar)))
        }
    }

    /// Add `scalar * row[source]` to `row[target]`, returning a new matrix, or
    /// `None` if either index is out of bounds.
    #[must_use]
    pub fn with_row_added(&self, target: usize, source: usize, scalar: Gf256) -> (r: Option<Self>)
        ensures
            target >= self@.rows.len() || source >= self@.rows.len() ==> r is None,
            target < self@.rows.len() && source < self@.rows.len() ==> (r matches Some(m) && m@ == (
            MatrixView {
                rows: self@.rows.update(
                    target as int,
                    linear::sum(
                        self@.rows[target as int],
                        linear::scaled(scalar@, self@.rows[source as int]),
                    ),
                ),
                cols: self@.cols,
            })),
    {
        if target >= self.rows.len() || source >= self.rows.len() {
            None
        } else {
            proof {
                use_type_invariant(self);
                assert(self@.rows[target as int].len() == self@.cols);
                assert(self@.rows[source as int].len() == self@.cols);
            }
            match self.rows[target].mac(&self.rows[source], scalar) {
                Ok(new_target) => Some(self.with_row(target, new_target)),
                Err(_) => None,
            }
        }
    }

    /// Split the matrix at the given column, returning (left, right): the left
    /// matrix has columns `0..col` and the right has `col..col_count`.
    ///
    /// Fails with [`Error::DimensionMismatch`] if `col > col_count`.
    pub fn split_at_col(&self, col: usize) -> (r: Result<(Self, Self), Error>)
        ensures
            col > self@.cols ==> r == Err::<(Self, Self), Error>(
                Error::DimensionMismatch { expected: self@.cols as usize, actual: col },
            ),
            col <= self@.cols ==> (r matches Ok((left, right)) && left@ == (MatrixView {
                rows: linear::columns(self@.rows, 0, col as int),
                cols: col as nat,
            }) && right@ == (MatrixView {
                rows: linear::columns(self@.rows, col as int, self@.cols as int),
                cols: (self@.cols - col) as nat,
            })),
    {
        if col > self.col_count {
            return Err(Error::DimensionMismatch { expected: self.col_count, actual: col });
        }
        proof {
            use_type_invariant(self);
        }
        let mut left_rows: Vec<GfVec> = Vec::with_capacity(self.rows.len());
        let mut right_rows: Vec<GfVec> = Vec::with_capacity(self.rows.len());
        let mut i: usize = 0;
        while i < self.rows.len()
            invariant
                i <= self.rows@.len(),
                col <= self.col_count,
                self.rectangular(),
                left_rows@.len() == i,
                right_rows@.len() == i,
                forall|k: int|
                    0 <= k < i ==> (#[trigger] left_rows@[k])@ == self@.rows[k].subrange(
                        0,
                        col as int,
                    ),
                forall|k: int|
                    0 <= k < i ==> (#[trigger] right_rows@[k])@ == self@.rows[k].subrange(
                        col as int,
                        self.col_count as int,
                    ),
            decreases self.rows@.len() - i,
        {
            assert(self@.rows[i as int].len() == self.col_count);
            let bytes = self.rows[i].to_bytes();
            let (l, r) = bytes.as_slice().split_at(col);
            left_rows.push(GfVec::from_bytes(l));
            right_rows.push(GfVec::from_bytes(r));
            i += 1;
        }
        proof {
            assert(gf_vec::views_of(left_rows@) =~= linear::columns(self@.rows, 0, col as int));
            assert(gf_vec::views_of(right_rows@) =~= linear::columns(
                self@.rows,
                col as int,
                self@.cols as int,
            ));
            assert forall|k: int| 0 <= k < self@.rows.len() implies (
            #[trigger] self@.rows[k]).len() == self@.cols by {}
        }
        Ok(
            (
                Self { rows: left_rows, col_count: col },
                Self { rows: right_rows, col_count: self.col_count - col },
            ),
        )
    }
}

} // verus!
