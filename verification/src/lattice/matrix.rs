//! Matrices over `Z/QZ` in row-major storage.
//!
//! [`ZqMatrix`] is the matrix counterpart to [`ZqVec`].  Only the operations
//! needed by the homomorphic-signature scheme live here: construction, entry
//! access, matrix-vector multiplication, and uniform sampling.
use super::integers::{self, MatrixView};
use super::vector::{self, ZqVec};
use super::zq::{self, Zq};
use crate::effect;
use crate::error::Error;
use crate::journal::Draws;
use vstd::arithmetic::div_mod::*;
use vstd::prelude::*;

verus! {

/// A matrix over `Z/QZ`, stored row-major.  Its view is the rows of canonical
/// representatives.
#[derive(Debug, PartialEq, Eq)]
#[must_use]
pub struct ZqMatrix<const Q: u32> {
    pub(crate) rows: usize,
    pub(crate) cols: usize,
    pub(crate) data: Vec<Zq<Q>>,
}

impl<const Q: u32> View for ZqMatrix<Q> {
    type V = MatrixView;

    open(crate) spec fn view(&self) -> MatrixView {
        MatrixView {
            rows: integers::rows_of(
                vector::values_of(self.data@),
                self.rows as nat,
                self.cols as nat,
            ),
            cols: self.cols as nat,
        }
    }
}

impl<const Q: u32> Clone for ZqMatrix<Q> {
    fn clone(&self) -> (r: Self)
        ensures
            r@ == self@,
    {
        proof {
            use_type_invariant(self);
        }
        let data = vector::copy_entries(&self.data);
        assert(vector::values_of(data@).len() == vector::values_of(self.data@).len());
        Self { rows: self.rows, cols: self.cols, data }
    }
}

impl<const Q: u32> ZqMatrix<Q> {
    #[verifier::type_invariant]
    pub(crate) open(crate) spec fn consistent(&self) -> bool {
        self.data@.len() == self.rows * self.cols
    }

    /// Create a matrix from row-major data, or [`Error::DimensionMismatch`] if
    /// `data.len() != rows * cols`.
    pub fn new(rows: usize, cols: usize, data: Vec<Zq<Q>>) -> (r: Result<Self, Error>)
        requires
            rows * cols <= usize::MAX,
        ensures
            data@.len() != rows * cols ==> r == Err::<Self, Error>(
                Error::DimensionMismatch {
                    expected: (rows * cols) as usize,
                    actual: data@.len() as usize,
                },
            ),
            data@.len() == rows * cols ==> (r matches Ok(m) && m@ == (MatrixView {
                rows: integers::rows_of(
                    vector::values_of(data@),
                    rows as nat,
                    cols as nat,
                ),
                cols: cols as nat,
            }) && m@.rectangular()),
    {
        if data.len() == rows * cols {
            proof {
                integers::lemma_rows_width(
                    vector::values_of(data@),
                    rows as nat,
                    cols as nat,
                );
            }
            Ok(Self { rows, cols, data })
        } else {
            Err(Error::DimensionMismatch { expected: rows * cols, actual: data.len() })
        }
    }

    /// The zero matrix of the given dimensions.
    pub fn zeros(rows: usize, cols: usize) -> (r: Self)
        requires
            rows * cols <= usize::MAX,
        ensures
            r@ == (MatrixView {
                rows: Seq::new(rows as nat, |i: int| integers::zeros(cols as nat)),
                cols: cols as nat,
            }),
    {
        let zero: ZqVec<Q> = ZqVec::zeros(rows * cols);
        let ghost values = zero@;
        let data = zero.entries;
        assert(values.len() == data@.len());
        proof {
            let view = integers::rows_of(values, rows as nat, cols as nat);
            assert forall|i: int| 0 <= i < rows implies view[i] == integers::zeros(
                cols as nat,
            ) by {
                integers::lemma_row_bounds(rows as nat, cols as nat, i);
                assert(view[i] =~= integers::zeros(cols as nat));
            }
            assert(view =~= Seq::new(rows as nat, |i: int| integers::zeros(cols as nat)));
        }
        Self { rows, cols, data }
    }

    /// The row count.
    #[must_use]
    pub fn rows(&self) -> (r: usize)
        ensures
            r == self@.rows.len(),
            self@.rectangular(),
    {
        proof {
            use_type_invariant(self);
            integers::lemma_rows_width(
                vector::values_of(self.data@),
                self.rows as nat,
                self.cols as nat,
            );
        }
        self.rows
    }

    /// The column count.
    #[must_use]
    pub fn cols(&self) -> (r: usize)
        ensures
            r == self@.cols,
    {
        self.cols
    }

    /// The entry at `(row, col)`, if in bounds.
    #[must_use]
    pub fn entry(&self, row: usize, col: usize) -> (r: Option<Zq<Q>>)
        ensures
            row >= self@.rows.len() || col >= self@.cols ==> r is None,
            row < self@.rows.len() && col < self@.cols ==> (r matches Some(e) && e@
                == self@.rows[row as int][col as int]),
    {
        if row < self.rows && col < self.cols {
            proof {
                use_type_invariant(self);
                integers::lemma_row_index(
                    vector::values_of(self.data@),
                    self.rows as nat,
                    self.cols as nat,
                    row as int,
                    col as int,
                );
            }
            assert(self.rows * self.cols <= self.data.len());
            Some(self.data[row * self.cols + col])
        } else {
            None
        }
    }

    /// Multiply this matrix by a column vector, or [`Error::DimensionMismatch`]
    /// if `v.len()` is not the column count.
    pub fn mul_vec(&self, v: &ZqVec<Q>) -> (r: Result<ZqVec<Q>, Error>)
        requires
            Q > 0,
        ensures
            v@.len() != self@.cols ==> r == Err::<ZqVec<Q>, Error>(
                Error::DimensionMismatch {
                    expected: self@.cols as usize,
                    actual: v@.len() as usize,
                },
            ),
            v@.len() == self@.cols ==> (r matches Ok(product) && product@ == integers::reduced(
                integers::apply(self@.rows, v@),
                Q as int,
            )),
    {
        if v.len() != self.cols {
            return Err(Error::DimensionMismatch { expected: self.cols, actual: v.len() });
        }
        proof {
            use_type_invariant(self);
        }
        let ghost values = vector::values_of(self.data@);
        let ghost q = Q as int;
        let mut entries: Vec<Zq<Q>> = Vec::with_capacity(self.rows);
        let mut i: usize = 0;
        while i < self.rows
            invariant
                Q > 0,
                q == Q as int,
                self.consistent(),
                v@.len() == self.cols,
                values == vector::values_of(self.data@),
                i <= self.rows,
                entries@.len() == i,
                forall|k: int|
                    0 <= k < i ==> (#[trigger] entries@[k])@ == integers::dot(
                        self@.rows[k],
                        v@,
                    ) % q,
            decreases self.rows - i,
        {
            let ghost row = self@.rows[i as int];
            proof {
                integers::lemma_row_bounds(self.rows as nat, self.cols as nat, i as int);
                lemma_small_mod(0nat, q as nat);
            }
            assert(self.rows * self.cols <= self.data.len());
            let start: usize = i * self.cols;
            let mut acc: Zq<Q> = Zq::zero();
            let mut j: usize = 0;
            assert(row.take(0).len() == 0);
            while j < self.cols
                invariant
                    Q > 0,
                    q == Q as int,
                    self.consistent(),
                    v@.len() == self.cols,
                    i < self.rows,
                    start == i * self.cols,
                    start + self.cols <= self.data@.len(),
                    values == vector::values_of(self.data@),
                    row == values.subrange(start as int, start + self.cols),
                    j <= self.cols,
                    acc@ == integers::dot(row.take(j as int), v@.take(j as int)) % q,
                decreases self.cols - j,
            {
                proof {
                    integers::lemma_dot_step(row, v@, j as int);
                    let d = integers::dot(row.take(j as int), v@.take(j as int));
                    let p = row[j as int] * v@[j as int];
                    lemma_mod_twice(d, q);
                    lemma_mod_twice(p, q);
                    integers::lemma_add_congruent(d % q, d, p % q, p, q);
                }
                assert(self.data.len() >= start + self.cols);
                acc = acc + self.data[start + j] * v.entries[j];
                j += 1;
            }
            proof {
                assert(row.take(j as int) =~= row);
                assert(v@.take(j as int) =~= v@);
            }
            entries.push(acc);
            i += 1;
        }
        assert(vector::values_of(entries@) =~= integers::reduced(
            integers::apply(self@.rows, v@),
            q,
        ));
        Ok(ZqVec { entries })
    }

    /// Sample a uniform `rows x cols` matrix, entry by entry; the first
    /// [`Error::RandomGenerationFailed`] of the per-entry sampler is the result.
    pub fn sample<F>(rows: usize, cols: usize, rng: &F) -> (r: Result<Self, Error>) where
        F: Fn(usize) -> Result<Vec<u8>, Error>,

        requires
            Q > 0,
            rng.requires((4usize,)),
            rows * cols <= usize::MAX,
        ensures
            match r {
                Ok(m) => {
                    &&& m@.rows.len() == rows
                    &&& m@.cols == cols
                    &&& m@.rectangular()
                    &&& exists|values: Seq<int>| #[trigger]
                        vector::all_sampled(*rng, values, Q, (rows * cols) as nat) && m@.rows
                            == integers::rows_of(values, rows as nat, cols as nat)
                },
                Err(e) => {
                    &&& rows * cols > 0
                    &&& zq::sampled::<Q, F>(*rng, 32, Err(e))
                    &&& e is RandomGenerationFailed
                },
            },
            matrix_asking(*rng, rows, cols, r),
    {
        let draws: Draws<&F> = Draws::new(rng);
        let ghost before = draws;
        let (r, left) = effect::call_three(Self::sample_asking::<&F>, rows, cols, draws);
        proof {
            assert(call_ensures(Self::sample_asking::<&F>, (rows, cols, before), (r, left)));
            let asked = choose|asked: Seq<(usize, Result<Vec<u8>, Error>)>| #[trigger]
                matrix_sampled(rows, cols, asked, r) && left.follows(before, asked);
            let listed = choose|listed: Result<Vec<Zq<Q>>, Error>| #[trigger]
                vector::entries_sampled((rows * cols) as nat, asked, listed) && match (
                    listed,
                    r,
                ) {
                    (Ok(entries), Ok(m)) => is_listed(rows, cols, entries@, m@),
                    (Err(e), Err(f)) => e == f,
                    _ => false,
                };
            vector::lemma_entries_sampled(rng, (rows * cols) as nat, asked, listed);
            if let Ok(entries) = listed {
                assert(vector::all_sampled(
                    *rng,
                    vector::values_of(entries@),
                    Q,
                    (rows * cols) as nat,
                ));
            }
        }
        r
    }

    /// Sample a uniform `rows x cols` matrix, entry by entry, with the answers of a
    /// random source.
    pub fn sample_asking<F>(rows: usize, cols: usize, draws: Draws<F>) -> (out: (
        Result<Self, Error>,
        Draws<F>,
    )) where F: Fn(usize) -> Result<Vec<u8>, Error>
        requires
            Q > 0,
            draws.source().requires((4usize,)),
            rows * cols <= usize::MAX,
        ensures
            exists|asked: Seq<(usize, Result<Vec<u8>, Error>)>| #[trigger]
                matrix_sampled(rows, cols, asked, out.0) && out.1.follows(draws, asked),
            out.0 matches Ok(m) ==> m@.rows.len() == rows && m@.cols == cols && m@.rectangular(),
            out.0 matches Err(e) ==> e is RandomGenerationFailed,
    {
        let (listed, left) = vector::sample_entries_asking::<Q, F>(rows * cols, draws);
        let ghost asked = choose|asked: Seq<(usize, Result<Vec<u8>, Error>)>| #[trigger]
            vector::entries_sampled((rows * cols) as nat, asked, listed) && left.follows(
                draws,
                asked,
            );
        let ghost drawn = listed;
        match listed {
            Ok(data) => {
                proof {
                    integers::lemma_rows_width(
                        vector::values_of(data@),
                        rows as nat,
                        cols as nat,
                    );
                }
                let out = (Ok(Self { rows, cols, data }), left);
                assert(vector::entries_sampled((rows * cols) as nat, asked, drawn));
                assert(matrix_sampled(rows, cols, asked, out.0));
                out
            },
            Err(e) => {
                let out = (Err(e), left);
                assert(vector::entries_sampled((rows * cols) as nat, asked, drawn));
                assert(matrix_sampled::<Q>(rows, cols, asked, out.0));
                out
            },
        }
    }
}

/// `m` is the matrix with these entries, row by row.
pub open spec fn is_listed<const Q: u32>(
    rows: usize,
    cols: usize,
    entries: Seq<Zq<Q>>,
    m: MatrixView,
) -> bool {
    &&& m.rows == integers::rows_of(vector::values_of(entries), rows as nat, cols as nat)
    &&& m.rows.len() == rows
    &&& m.cols == cols
    &&& m.rectangular()
}

/// `r` is what sampling a matrix gives where `asked` is what the random source was
/// asked and answered: its entries are sampled row by row.
pub open spec fn matrix_sampled<const Q: u32>(
    rows: usize,
    cols: usize,
    asked: Seq<(usize, Result<Vec<u8>, Error>)>,
    r: Result<ZqMatrix<Q>, Error>,
) -> bool {
    exists|listed: Result<Vec<Zq<Q>>, Error>| #[trigger]
        vector::entries_sampled((rows * cols) as nat, asked, listed) && match (listed, r) {
            (Ok(entries), Ok(m)) => is_listed(rows, cols, entries@, m@),
            (Err(e), Err(f)) => e == f,
            _ => false,
        }
}

/// `r` is what sampling a matrix gives with a random source that was not asked before.
pub open spec fn matrix_asking<const Q: u32, F: Fn(usize) -> Result<Vec<u8>, Error>>(
    rng: F,
    rows: usize,
    cols: usize,
    r: Result<ZqMatrix<Q>, Error>,
) -> bool {
    exists|before: Draws<&F>, after: Draws<&F>|
        before.is_fresh(&rng) && #[trigger] call_ensures(
            ZqMatrix::<Q>::sample_asking::<&F>,
            (rows, cols, before),
            (r, after),
        )
}

/// The entries of a sampled matrix are the residues of the answers of the random
/// source in the order in which they came, row by row, and none is asked for behind
/// that of the last.
pub proof fn lemma_matrix_in_order<const Q: u32, F: Fn(usize) -> Result<Vec<u8>, Error>>(
    rows: usize,
    cols: usize,
    before: Draws<F>,
    m: ZqMatrix<Q>,
    after: Draws<F>,
)
    requires
        call_ensures(ZqMatrix::<Q>::sample_asking::<F>, (rows, cols, before), (Ok(m), after)),
    ensures
        exists|asked: Seq<(usize, Result<Vec<u8>, Error>)>| #[trigger]
            after.follows(before, asked) && {
                &&& vector::residues(Q, asked).len() == rows * cols
                &&& m@.rows.len() == rows
                &&& m@.cols == cols
                &&& forall|i: int, j: int|
                    0 <= i < rows && 0 <= j < cols ==> #[trigger] m@.rows[i][j]
                        == vector::residues(Q, asked)[i * cols + j]
                &&& asked.len() > 0 ==> vector::is_residue(Q, asked.last())
            },
{
    let asked = choose|asked: Seq<(usize, Result<Vec<u8>, Error>)>| #[trigger]
        matrix_sampled(rows, cols, asked, Ok(m)) && after.follows(before, asked);
    lemma_matrix_residues(rows, cols, asked, m);
}

/// The entries of a matrix sampled with `asked` are the residues of its answers.
pub proof fn lemma_matrix_residues<const Q: u32>(
    rows: usize,
    cols: usize,
    asked: Seq<(usize, Result<Vec<u8>, Error>)>,
    m: ZqMatrix<Q>,
)
    requires
        matrix_sampled(rows, cols, asked, Ok(m)),
    ensures
        vector::residues(Q, asked).len() == rows * cols,
        m@.rows.len() == rows,
        m@.cols == cols,
        forall|i: int, j: int|
            0 <= i < rows && 0 <= j < cols ==> #[trigger] m@.rows[i][j] == vector::residues(
                Q,
                asked,
            )[i * cols + j],
        asked.len() > 0 ==> vector::is_residue(Q, asked.last()),
{
    let listed = choose|listed: Result<Vec<Zq<Q>>, Error>| #[trigger]
        vector::entries_sampled((rows * cols) as nat, asked, listed) && match listed {
            Ok(entries) => is_listed(rows, cols, entries@, m@),
            Err(_) => false,
        };
    let entries = listed->Ok_0;
    vector::lemma_entries_residues(asked, entries@);
    let values = vector::residues(Q, asked);
    assert(values.len() == rows * cols);
    assert forall|i: int, j: int| 0 <= i < rows && 0 <= j < cols implies #[trigger] m@.rows[i][j]
        == values[i * cols + j] by {
        integers::lemma_row_index(values, rows as nat, cols as nat, i, j);
    }
}

} // verus!
