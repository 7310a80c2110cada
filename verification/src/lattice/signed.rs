//! Integer vectors and matrices over `Z`.
//!
//! [`ZVec`] and [`ZMatrix`] carry integer entries (stored as `i64`) without any
//! modular reduction.  They are the natural domain of signature vectors and
//! short lattice bases: shortness is measured in the `Z` interpretation via
//! [`ZVec::squared_l2_norm`], and the projection into `Z/qZ` happens only at
//! verification time via [`ZVec::reduce_mod`] and [`ZMatrix::reduce_mod`].
//!
//! Sums and products are not checked: callers keep them within `i64`.
use super::integers::{self, MatrixView};
use super::matrix::ZqMatrix;
use super::vector::{self, ZqVec};
use super::zq::Zq;
use crate::error::Error;
use vstd::prelude::*;
use vstd::slice::slice_subrange;

verus! {

/// An immutable vector of `i64` entries.  Its view is the sequence of integers.
#[derive(Debug, PartialEq, Eq)]
#[must_use]
pub struct ZVec {
    pub(crate) entries: Vec<i64>,
}

/// The integers of a sequence of `i64`.
pub open spec fn ints_of(entries: Seq<i64>) -> Seq<int> {
    Seq::new(entries.len(), |i: int| entries[i] as int)
}

/// The views of a sequence of vectors.
pub open spec fn views_of(vecs: Seq<ZVec>) -> Seq<Seq<int>> {
    Seq::new(vecs.len(), |i: int| vecs[i]@)
}

impl View for ZVec {
    type V = Seq<int>;

    open(crate) spec fn view(&self) -> Seq<int> {
        ints_of(self.entries@)
    }
}

impl Clone for ZVec {
    fn clone(&self) -> (r: Self)
        ensures
            r@ == self@,
    {
        let entries = self.entries.clone();
        assert(entries@ =~= self.entries@);
        Self { entries }
    }
}

/// The least of `x` and the largest `u128`.
pub open spec fn saturated(x: int) -> int {
    if x <= u128::MAX {
        x
    } else {
        u128::MAX as int
    }
}

/// The square of `x`.
fn square_of(x: i64) -> (r: u128)
    ensures
        r == x * x,
{
    let a: u128 = if x < 0 {
        (-(x as i128)) as u128
    } else {
        x as u128
    };
    proof {
        assert(a * a <= 0x4000_0000_0000_0000_0000_0000_0000_0000) by (nonlinear_arith)
            requires
                0 <= a <= 0x8000_0000_0000_0000,
        ;
        assert(a * a == x * x) by (nonlinear_arith)
            requires
                a == x || a == -x,
        ;
    }
    a * a
}

/// The residue of `x` modulo `Q`.
pub(crate) fn residue<const Q: u32>(x: i64) -> (r: Zq<Q>)
    requires
        Q > 0,
    ensures
        r@ == x as int % Q as int,
{
    let q: i64 = Q as i64;
    match x.checked_rem_euclid(q) {
        Some(r) => {
            proof {
                vstd::arithmetic::div_mod::lemma_small_mod(r as nat, Q as nat);
            }
            Zq::new(r as u32)
        },
        None => Zq::zero(),
    }
}

impl ZVec {
    /// Wrap an owned entry list.
    pub fn new(entries: Vec<i64>) -> (r: Self)
        ensures
            r@ == ints_of(entries@),
    {
        Self { entries }
    }

    /// The zero vector of the given length.
    pub fn zeros(len: usize) -> (r: Self)
        ensures
            r@ == integers::zeros(len as nat),
    {
        let mut entries: Vec<i64> = Vec::with_capacity(len);
        let mut i: usize = 0;
        while i < len
            invariant
                i <= len,
                entries@.len() == i,
                forall|k: int| 0 <= k < i ==> #[trigger] entries@[k] == 0,
            decreases len - i,
        {
            entries.push(0);
            i += 1;
        }
        assert(ints_of(entries@) =~= integers::zeros(len as nat));
        Self { entries }
    }

    /// The number of entries.
    #[must_use]
    pub fn len(&self) -> (r: usize)
        ensures
            r == self@.len(),
    {
        self.entries.len()
    }

    /// Whether the vector has zero length.
    #[must_use]
    pub fn is_empty(&self) -> (r: bool)
        ensures
            r == (self@.len() == 0),
    {
        self.entries.len() == 0
    }

    /// A borrowed slice of the entries.
    #[must_use]
    pub fn entries(&self) -> (r: &[i64])
        ensures
            ints_of(r@) == self@,
    {
        self.entries.as_slice()
    }

    /// The entry at `index`, if in bounds.
    #[must_use]
    pub fn get(&self, index: usize) -> (r: Option<i64>)
        ensures
            index >= self@.len() ==> r is None,
            index < self@.len() ==> (r matches Some(e) && e as int == self@[index as int]),
    {
        if index < self.entries.len() {
            Some(self.entries[index])
        } else {
            None
        }
    }

    /// Pointwise addition, or [`Error::DimensionMismatch`] if lengths differ.
    pub fn add(&self, other: &Self) -> (r: Result<Self, Error>)
        requires
            self@.len() == other@.len() ==> forall|i: int|
                0 <= i < self@.len() ==> integers::fits(#[trigger] self@[i] + other@[i]),
        ensures
            self@.len() != other@.len() ==> r == Err::<Self, Error>(
                Error::DimensionMismatch {
                    expected: self@.len() as usize,
                    actual: other@.len() as usize,
                },
            ),
            self@.len() == other@.len() ==> (r matches Ok(v) && v@ == integers::sum(
                self@,
                other@,
            )),
    {
        if self.len() == other.len() {
            let mut entries: Vec<i64> = Vec::with_capacity(self.len());
            let mut i: usize = 0;
            while i < self.entries.len()
                invariant
                    i <= self.entries@.len(),
                    self.entries@.len() == other.entries@.len(),
                    forall|i: int|
                        0 <= i < self@.len() ==> integers::fits(#[trigger] self@[i] + other@[i]),
                    entries@.len() == i,
                    forall|k: int| 0 <= k < i ==> #[trigger] entries@[k] == self@[k] + other@[k],
                decreases self.entries@.len() - i,
            {
                assert(integers::fits(self@[i as int] + other@[i as int]));
                entries.push(self.entries[i] + other.entries[i]);
                i += 1;
            }
            assert(ints_of(entries@) =~= integers::sum(self@, other@));
            Ok(Self { entries })
        } else {
            Err(Error::DimensionMismatch { expected: self.len(), actual: other.len() })
        }
    }

    /// Pointwise subtraction `self - other`, or [`Error::DimensionMismatch`] if
    /// lengths differ.
    pub fn sub(&self, other: &Self) -> (r: Result<Self, Error>)
        requires
            self@.len() == other@.len() ==> forall|i: int|
                0 <= i < self@.len() ==> integers::fits(#[trigger] self@[i] - other@[i]),
        ensures
            self@.len() != other@.len() ==> r == Err::<Self, Error>(
                Error::DimensionMismatch {
                    expected: self@.len() as usize,
                    actual: other@.len() as usize,
                },
            ),
            self@.len() == other@.len() ==> (r matches Ok(v) && v@ == integers::difference(
                self@,
                other@,
            )),
    {
        if self.len() == other.len() {
            let mut entries: Vec<i64> = Vec::with_capacity(self.len());
            let mut i: usize = 0;
            while i < self.entries.len()
                invariant
                    i <= self.entries@.len(),
                    self.entries@.len() == other.entries@.len(),
                    forall|i: int|
                        0 <= i < self@.len() ==> integers::fits(#[trigger] self@[i] - other@[i]),
                    entries@.len() == i,
                    forall|k: int| 0 <= k < i ==> #[trigger] entries@[k] == self@[k] - other@[k],
                decreases self.entries@.len() - i,
            {
                assert(integers::fits(self@[i as int] - other@[i as int]));
                entries.push(self.entries[i] - other.entries[i]);
                i += 1;
            }
            assert(ints_of(entries@) =~= integers::difference(self@, other@));
            Ok(Self { entries })
        } else {
            Err(Error::DimensionMismatch { expected: self.len(), actual: other.len() })
        }
    }

    /// Multiply every entry by the integer scalar `k`.
    pub fn scale(&self, k: i64) -> (r: Self)
        requires
            forall|i: int| 0 <= i < self@.len() ==> integers::fits(k * #[trigger] self@[i]),
        ensures
            r@ == integers::scaled(k as int, self@),
    {
        let mut entries: Vec<i64> = Vec::with_capacity(self.len());
        let mut i: usize = 0;
        while i < self.entries.len()
            invariant
                i <= self.entries@.len(),
                forall|i: int| 0 <= i < self@.len() ==> integers::fits(k * #[trigger] self@[i]),
                entries@.len() == i,
                forall|j: int| 0 <= j < i ==> #[trigger] entries@[j] == k * self@[j],
            decreases self.entries@.len() - i,
        {
            assert(integers::fits(k * self@[i as int]));
            entries.push(k * self.entries[i]);
            i += 1;
        }
        assert(ints_of(entries@) =~= integers::scaled(k as int, self@));
        Self { entries }
    }

    /// The linear combination `sum(scalars[i] * vecs[i])` over `Z`, or the first
    /// inconsistency of lengths as [`Error::DimensionMismatch`].
    pub fn linear_combine(scalars: &[i64], vecs: &[Self]) -> (r: Result<Self, Error>)
        requires
            combination_fits(ints_of(scalars@), views_of(vecs@)),
        ensures
            ({
                let rows = views_of(vecs@);
                if integers::combinable(scalars@.len(), rows) {
                    r matches Ok(v) && v@ == integers::combination(
                        ints_of(scalars@),
                        rows,
                        integers::first_width(rows),
                    )
                } else {
                    r matches Err(e) && integers::is_combination_error(scalars@.len(), rows, e)
                }
            }),
    {
        if scalars.len() != vecs.len() {
            return Err(Error::DimensionMismatch { expected: scalars.len(), actual: vecs.len() });
        }
        let ghost rows = views_of(vecs@);
        let ghost cs = ints_of(scalars@);
        let dim: usize = if vecs.len() == 0 {
            0
        } else {
            vecs[0].len()
        };
        let mut i: usize = 0;
        while i < vecs.len()
            invariant
                i <= vecs@.len(),
                scalars@.len() == vecs@.len(),
                rows == views_of(vecs@),
                dim == integers::first_width(rows),
                forall|k: int| 0 <= k < i ==> (#[trigger] rows[k]).len() == dim,
            decreases vecs@.len() - i,
        {
            assert(rows[i as int] == vecs@[i as int]@);
            if vecs[i].len() != dim {
                assert(integers::first_odd_row(rows, i as int));
                return Err(Error::DimensionMismatch { expected: dim, actual: vecs[i].len() });
            }
            i += 1;
        }
        let zero = Self::zeros(dim);
        let ghost start = zero@;
        let mut acc: Vec<i64> = zero.entries;
        proof {
            assert(start.len() == acc@.len());
            assert forall|j: int| 0 <= j < dim implies #[trigger] acc@[j] == integers::dot(
                cs.take(0),
                integers::column(rows, j).take(0),
            ) by {
                assert(start[j] == 0);
            }
        }
        let mut i: usize = 0;
        while i < vecs.len()
            invariant
                i <= vecs@.len(),
                scalars@.len() == vecs@.len(),
                rows == views_of(vecs@),
                cs == ints_of(scalars@),
                integers::has_width(rows, dim as nat),
                dim == integers::first_width(rows),
                combination_fits(cs, rows),
                acc@.len() == dim,
                forall|j: int|
                    0 <= j < dim ==> #[trigger] acc@[j] == integers::dot(
                        cs.take(i as int),
                        integers::column(rows, j).take(i as int),
                    ),
            decreases vecs@.len() - i,
        {
            let s: i64 = scalars[i];
            let v = &vecs[i];
            assert(rows[i as int].len() == dim);
            let mut next: Vec<i64> = Vec::with_capacity(dim);
            let mut j: usize = 0;
            while j < dim
                invariant
                    i < vecs@.len(),
                    scalars@.len() == vecs@.len(),
                    rows == views_of(vecs@),
                    cs == ints_of(scalars@),
                    integers::has_width(rows, dim as nat),
                    dim == integers::first_width(rows),
                    combination_fits(cs, rows),
                    s == scalars@[i as int],
                    *v == vecs@[i as int],
                    v@.len() == dim,
                    j <= dim,
                    next@.len() == j,
                    acc@.len() == dim,
                    forall|j: int|
                        0 <= j < dim ==> #[trigger] acc@[j] == integers::dot(
                            cs.take(i as int),
                            integers::column(rows, j).take(i as int),
                        ),
                    forall|k: int|
                        0 <= k < j ==> #[trigger] next@[k] == integers::dot(
                            cs.take(i + 1),
                            integers::column(rows, k).take(i + 1),
                        ),
                decreases dim - j,
            {
                let ghost col = integers::column(rows, j as int);
                proof {
                    integers::lemma_dot_step(cs, col, i as int);
                    assert(integers::dot_fits(cs, col));
                    assert(integers::fits(cs[i as int] * col[i as int]));
                }
                next.push(acc[j] + s * v.entries[j]);
                j += 1;
            }
            acc = next;
            i += 1;
        }
        proof {
            let c = integers::combination(cs, rows, dim as nat);
            assert forall|j: int| 0 <= j < dim implies ints_of(acc@)[j] == c[j] by {
                assert(acc@[j] == integers::dot(
                    cs.take(i as int),
                    integers::column(rows, j).take(i as int),
                ));
                assert(cs.take(i as int) =~= cs);
                assert(integers::column(rows, j).take(i as int) =~= integers::column(rows, j));
            }
            assert(ints_of(acc@) =~= c);
        }
        Ok(Self { entries: acc })
    }

    /// Sum of squared entries as a `u128`.  Safe against overflow for any `i64`
    /// entries: a sum beyond the largest `u128` gives that.
    #[must_use]
    pub fn squared_l2_norm(&self) -> (r: u128)
        ensures
            r == saturated(integers::squared_norm(self@)),
    {
        let mut total: u128 = 0;
        let mut i: usize = 0;
        assert(self@.take(0).len() == 0);
        while i < self.entries.len()
            invariant
                i <= self.entries@.len(),
                total == saturated(
                    integers::dot(self@.take(i as int), self@.take(i as int)),
                ),
            decreases self.entries@.len() - i,
        {
            let square: u128 = square_of(self.entries[i]);
            proof {
                integers::lemma_dot_step(self@, self@, i as int);
                integers::lemma_norm_nonnegative(self@.take(i as int));
            }
            if square > u128::MAX - total {
                total = u128::MAX;
            } else {
                total = total + square;
            }
            i += 1;
        }
        assert(self@.take(i as int) =~= self@);
        total
    }

    /// Whether the sum of squared entries is at most `bound`.
    #[must_use]
    pub fn norm_within(&self, bound: u128) -> (r: bool)
        ensures
            r == (integers::squared_norm(self@) <= bound),
    {
        let mut total: u128 = 0;
        let mut i: usize = 0;
        assert(self@.take(0).len() == 0);
        while i < self.entries.len()
            invariant
                i <= self.entries@.len(),
                total == integers::dot(self@.take(i as int), self@.take(i as int)),
                total <= bound,
            decreases self.entries@.len() - i,
        {
            let square: u128 = square_of(self.entries[i]);
            proof {
                integers::lemma_dot_step(self@, self@, i as int);
            }
            if square > bound - total {
                proof {
                    integers::lemma_norm_grows(self@, i + 1);
                }
                return false;
            }
            total = total + square;
            i += 1;
        }
        assert(self@.take(i as int) =~= self@);
        true
    }

    /// Reduce each entry modulo `Q`, yielding a [`ZqVec<Q>`].
    ///
    /// Negative entries are lifted into `[0, Q)` so the output matches the
    /// canonical representative of `Zq`.
    pub fn reduce_mod<const Q: u32>(&self) -> (r: ZqVec<Q>)
        requires
            Q > 0,
        ensures
            r@ == integers::reduced(self@, Q as int),
    {
        let mut entries: Vec<Zq<Q>> = Vec::with_capacity(self.len());
        let mut i: usize = 0;
        while i < self.entries.len()
            invariant
                Q > 0,
                i <= self.entries@.len(),
                entries@.len() == i,
                forall|k: int| 0 <= k < i ==> (#[trigger] entries@[k])@ == self@[k] % Q as int,
            decreases self.entries@.len() - i,
        {
            entries.push(residue(self.entries[i]));
            i += 1;
        }
        assert(vector::values_of(entries@) =~= integers::reduced(self@, Q as int));
        ZqVec { entries }
    }
}

/// The products and partial sums of a linear combination are of type `i64`.
pub open spec fn combination_fits(coeffs: Seq<int>, rows: Seq<Seq<int>>) -> bool {
    integers::combinable(coeffs.len(), rows) ==> forall|j: int|
        0 <= j < integers::first_width(rows) ==> integers::dot_fits(
            coeffs,
            #[trigger] integers::column(rows, j),
        )
}

/// A matrix of `i64` entries in row-major storage.  Its view is the rows of
/// integers.
#[derive(Debug, PartialEq, Eq)]
#[must_use]
pub struct ZMatrix {
    pub(crate) rows: usize,
    pub(crate) cols: usize,
    pub(crate) data: Vec<i64>,
}

impl View for ZMatrix {
    type V = MatrixView;

    open(crate) spec fn view(&self) -> MatrixView {
        MatrixView {
            rows: integers::rows_of(
                ints_of(self.data@),
                self.rows as nat,
                self.cols as nat,
            ),
            cols: self.cols as nat,
        }
    }
}

impl Clone for ZMatrix {
    fn clone(&self) -> (r: Self)
        ensures
            r@ == self@,
    {
        proof {
            use_type_invariant(self);
        }
        let data = self.data.clone();
        assert(data@ =~= self.data@);
        Self { rows: self.rows, cols: self.cols, data }
    }
}

impl ZMatrix {
    #[verifier::type_invariant]
    pub(crate) open(crate) spec fn consistent(&self) -> bool {
        self.data@.len() == self.rows * self.cols
    }

    /// Create from row-major data, or [`Error::DimensionMismatch`] if
    /// `data.len() != rows * cols`.
    pub fn new(rows: usize, cols: usize, data: Vec<i64>) -> (r: Result<Self, Error>)
        requires
            rows * cols <= usize::MAX,
        ensures
            data@.len() != rows * cols ==> r == Err::<Self, Error>(
                Error::DimensionMismatch {
                    expected: (rows * cols) as usize,
                    actual: data@.len() as usize,
                },
            ),
            data@.len() == rows * cols ==> (r matches Ok(m) && m@ == (MatrixView {
                rows: integers::rows_of(ints_of(data@), rows as nat, cols as nat),
                cols: cols as nat,
            }) && m@.rectangular()),
    {
        if data.len() == rows * cols {
            proof {
                integers::lemma_rows_width(ints_of(data@), rows as nat, cols as nat);
            }
            Ok(Self { rows, cols, data })
        } else {
            Err(Error::DimensionMismatch { expected: rows * cols, actual: data.len() })
        }
    }

    /// The zero matrix.
    pub fn zeros(rows: usize, cols: usize) -> (r: Self)
        requires
            rows * cols <= usize::MAX,
        ensures
            r@ == (MatrixView {
                rows: Seq::new(rows as nat, |i: int| integers::zeros(cols as nat)),
                cols: cols as nat,
            }),
    {
        let zero = ZVec::zeros(rows * cols);
        let ghost values = zero@;
        let data = zero.entries;
        assert(values.len() == data@.len());
        proof {
            let view = integers::rows_of(values, rows as nat, cols as nat);
            assert forall|i: int| 0 <= i < rows implies view[i] == integers::zeros(
                cols as nat,
            ) by {
                integers::lemma_row_bounds(rows as nat, cols as nat, i);
                assert(view[i] =~= integers::zeros(cols as nat));
            }
            assert(view =~= Seq::new(rows as nat, |i: int| integers::zeros(cols as nat)));
        }
        Self { rows, cols, data }
    }

    /// The row count.
    #[must_use]
    pub fn rows(&self) -> (r: usize)
        ensures
            r == self@.rows.len(),
            self@.rectangular(),
    {
        proof {
            use_type_invariant(self);
            integers::lemma_rows_width(
                ints_of(self.data@),
                self.rows as nat,
                self.cols as nat,
            );
        }
        self.rows
    }

    /// The column count.
    #[must_use]
    pub fn cols(&self) -> (r: usize)
        ensures
            r == self@.cols,
    {
        self.cols
    }

    /// The entry at `(row, col)` if in bounds.
    #[must_use]
    pub fn entry(&self, row: usize, col: usize) -> (r: Option<i64>)
        ensures
            row >= self@.rows.len() || col >= self@.cols ==> r is None,
            row < self@.rows.len() && col < self@.cols ==> (r matches Some(e) && e as int
                == self@.rows[row as int][col as int]),
    {
        if row < self.rows && col < self.cols {
            proof {
                use_type_invariant(self);
                integers::lemma_row_index(
                    ints_of(self.data@),
                    self.rows as nat,
                    self.cols as nat,
                    row as int,
                    col as int,
                );
            }
            assert(self.rows * self.cols <= self.data.len());
            Some(self.data[row * self.cols + col])
        } else {
            None
        }
    }

    /// A borrowed slice covering row `row`, if in bounds.
    #[must_use]
    pub fn row(&self, row: usize) -> (r: Option<&[i64]>)
        ensures
            row >= self@.rows.len() ==> r is None,
            row < self@.rows.len() ==> (r matches Some(s) && ints_of(s@)
                == self@.rows[row as int]),
    {
        if row < self.rows {
            proof {
                use_type_invariant(self);
                integers::lemma_row_bounds(self.rows as nat, self.cols as nat, row as int);
            }
            assert(self.rows * self.cols <= self.data.len());
            let start: usize = row * self.cols;
            let slice = slice_subrange(self.data.as_slice(), start, start + self.cols);
            assert(ints_of(slice@) =~= self@.rows[row as int]);
            Some(slice)
        } else {
            None
        }
    }

    /// Multiply by an integer column vector, or [`Error::DimensionMismatch`] if
    /// `v.len()` is not the column count.
    pub fn mul_vec(&self, v: &ZVec) -> (r: Result<ZVec, Error>)
        requires
            v@.len() == self@.cols ==> product_fits(self@.rows, v@),
        ensures
            v@.len() != self@.cols ==> r == Err::<ZVec, Error>(
                Error::DimensionMismatch {
                    expected: self@.cols as usize,
                    actual: v@.len() as usize,
                },
            ),
            v@.len() == self@.cols ==> (r matches Ok(product) && product@ == integers::apply(
                self@.rows,
                v@,
            )),
    {
        if v.len() != self.cols {
            return Err(Error::DimensionMismatch { expected: self.cols, actual: v.len() });
        }
        proof {
            use_type_invariant(self);
        }
        let ghost values = ints_of(self.data@);
        let mut entries: Vec<i64> = Vec::with_capacity(self.rows);
        let mut i: usize = 0;
        while i < self.rows
            invariant
                self.consistent(),
                v@.len() == self.cols,
                product_fits(self@.rows, v@),
                values == ints_of(self.data@),
                i <= self.rows,
                entries@.len() == i,
                forall|k: int|
                    0 <= k < i ==> #[trigger] entries@[k] == integers::dot(self@.rows[k], v@),
            decreases self.rows - i,
        {
            let ghost row = self@.rows[i as int];
            proof {
                integers::lemma_row_bounds(self.rows as nat, self.cols as nat, i as int);
            }
            assert(self.rows * self.cols <= self.data.len());
            let start: usize = i * self.cols;
            let mut acc: i64 = 0;
            let mut j: usize = 0;
            assert(row.take(0).len() == 0);
            while j < self.cols
                invariant
                    self.consistent(),
                    v@.len() == self.cols,
                    i < self.rows,
                    start == i * self.cols,
                    start + self.cols <= self.data@.len(),
                    values == ints_of(self.data@),
                    row == values.subrange(start as int, start + self.cols),
                    row == self@.rows[i as int],
                    product_fits(self@.rows, v@),
                    j <= self.cols,
                    acc == integers::dot(row.take(j as int), v@.take(j as int)),
                decreases self.cols - j,
            {
                proof {
                    integers::lemma_dot_step(row, v@, j as int);
                    assert(integers::dot_fits(row, v@));
                    assert(integers::fits(row[j as int] * v@[j as int]));
                }
                assert(self.data.len() >= start + self.cols);
                acc = acc + self.data[start + j] * v.entries[j];
                j += 1;
            }
            proof {
                assert(row.take(j as int) =~= row);
                assert(v@.take(j as int) =~= v@);
            }
            entries.push(acc);
            i += 1;
        }
        assert(ints_of(entries@) =~= integers::apply(self@.rows, v@));
        Ok(ZVec { entries })
    }

    /// Reduce every entry modulo `Q`, yielding a [`ZqMatrix<Q>`].
    pub fn reduce_mod<const Q: u32>(&self) -> (r: ZqMatrix<Q>)
        requires
            Q > 0,
        ensures
            r@ == (MatrixView {
                rows: integers::reduced_rows(self@.rows, Q as int),
                cols: self@.cols,
            }),
    {
        proof {
            use_type_invariant(self);
            integers::lemma_reduced_rows_of(
                ints_of(self.data@),
                self.rows as nat,
                self.cols as nat,
                Q as int,
            );
        }
        let mut data: Vec<Zq<Q>> = Vec::with_capacity(self.data.len());
        let mut i: usize = 0;
        while i < self.data.len()
            invariant
                Q > 0,
                i <= self.data@.len(),
                data@.len() == i,
                forall|k: int|
                    0 <= k < i ==> (#[trigger] data@[k])@ == self.data@[k] as int % Q as int,
            decreases self.data@.len() - i,
        {
            data.push(residue(self.data[i]));
            i += 1;
        }
        assert(vector::values_of(data@) =~= integers::reduced(ints_of(self.data@), Q as int));
        ZqMatrix { rows: self.rows, cols: self.cols, data }
    }
}

/// The products and partial sums of a matrix-vector product are of type `i64`.
pub open spec fn product_fits(rows: Seq<Seq<int>>, v: Seq<int>) -> bool {
    forall|i: int| 0 <= i < rows.len() ==> integers::dot_fits(#[trigger] rows[i], v)
}

} // verus!
