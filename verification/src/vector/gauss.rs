//! Gaussian elimination over GF(2^8).
//!
//! Pure functions that reduce a [`GfMatrix`] to reduced row echelon form
//! (RREF) via forward and backward elimination.  Each step returns a new
//! matrix; nothing is mutated.
use super::dimension;
use super::echelon;
use super::linear;
use super::matrix::{GfMatrix, MatrixView};
use crate::error::Error;
use crate::field::Gf256;
use vstd::prelude::*;

verus! {

/// Find the first nonzero entry in the given column at or below `start_row`.
fn find_pivot(matrix: &GfMatrix, col: usize, start_row: usize) -> (r: Option<usize>)
    requires
        col < matrix@.cols,
    ensures
        match r {
            Some(p) => {
                &&& start_row <= p < matrix@.rows.len()
                &&& matrix@.rows[p as int][col as int] != 0
                &&& forall|k: int|
                    start_row <= k < p ==> #[trigger] matrix@.rows[k][col as int] == 0
            },
            None => forall|k: int|
                start_row <= k < matrix@.rows.len() ==> #[trigger] matrix@.rows[k][col as int] == 0,
        },
{
    let mut r: usize = start_row;
    while r < matrix.row_count()
        invariant
            start_row <= r,
            r <= matrix@.rows.len() || r == start_row,
            col < matrix@.cols,
            forall|k: int| start_row <= k < r ==> #[trigger] matrix@.rows[k][col as int] == 0,
        decreases matrix@.rows.len() - r,
    {
        match matrix.get(r, col) {
            Some(e) => {
                if !e.is_zero() {
                    return Some(r);
                }
            },
            None => {},
        }
        r += 1;
    }
    None
}

/// Perform forward elimination on a single column.
///
/// Given a pivot at (`pivot_row`, `pivot_col`), scale its row to a leading one
/// and eliminate all entries below it.
fn eliminate_below(matrix: &GfMatrix, pivot_row: usize, pivot_col: usize) -> (r: Result<
    GfMatrix,
    Error,
>)
    ensures
        pivot_row >= matrix@.rows.len() || pivot_col >= matrix@.cols ==> r == Err::<
            GfMatrix,
            Error,
        >(Error::DimensionMismatch { expected: pivot_col, actual: matrix@.cols as usize }),
        pivot_row < matrix@.rows.len() && pivot_col < matrix@.cols ==> {
            &&& matrix@.rows[pivot_row as int][pivot_col as int] == 0 ==> r == Err::<
                GfMatrix,
                Error,
            >(Error::DivisionByZero)
            &&& matrix@.rows[pivot_row as int][pivot_col as int] != 0 ==> (r matches Ok(m) && m@
                == (MatrixView {
                rows: echelon::eliminated_below(
                    matrix@.rows,
                    pivot_row as int,
                    pivot_col as int,
                ),
                cols: matrix@.cols,
            }))
        },
{
    let pivot_val = match matrix.get(pivot_row, pivot_col) {
        Some(v) => v,
        None => {
            return Err(
                Error::DimensionMismatch { expected: pivot_col, actual: matrix.col_count() },
            );
        },
    };
    let pivot_inv = match pivot_val.inv() {
        Ok(v) => v,
        Err(e) => {
            return Err(e);
        },
    };
    let mut acc = match matrix.with_row_scaled(pivot_row, pivot_inv) {
        Some(m) => m,
        None => {
            return Err(
                Error::DimensionMismatch { expected: pivot_row, actual: matrix.row_count() },
            );
        },
    };
    let ghost rows = matrix@.rows;
    let ghost (pr, pc) = (pivot_row as int, pivot_col as int);
    let ghost new = echelon::eliminated_below(rows, pr, pc);
    let ghost lead = echelon::normalized(rows, pr, pc);
    let count: usize = acc.row_count();
    proof {
        use_type_invariant(matrix);
    }
    let mut r: usize = pivot_row + 1;
    while r < count
        invariant
            pivot_row < r <= count,
            count == rows.len(),
            rows == matrix@.rows,
            linear::has_width(rows, matrix@.cols),
            pivot_col < matrix@.cols,
            (pr, pc) == (pivot_row as int, pivot_col as int),
            lead == echelon::normalized(rows, pr, pc),
            new == echelon::eliminated_below(rows, pr, pc),
            acc@.cols == matrix@.cols,
            acc@.rows.len() == rows.len(),
            forall|k: int| 0 <= k < r ==> #[trigger] acc@.rows[k] == new[k],
            forall|k: int| r <= k < rows.len() ==> #[trigger] acc@.rows[k] == rows[k],
        decreases count - r,
    {
        assert(acc@.rows[r as int] == rows[r as int]);
        assert(acc@.rows[pr] == new[pr]);
        assert(rows[r as int].len() == matrix@.cols && rows[pr].len() == matrix@.cols);
        let entry = match acc.get(r, pivot_col) {
            Some(e) => e,
            None => Gf256::zero(),
        };
        if entry.is_zero() {
            proof {
                echelon::lemma_add_zero_multiple(rows[r as int], lead);
            }
        } else {
            match acc.with_row_added(r, pivot_row, entry) {
                Some(m) => {
                    acc = m;
                },
                None => {
                    return Err(
                        Error::DimensionMismatch { expected: r, actual: acc.row_count() },
                    );
                },
            }
        }
        r += 1;
    }
    assert(acc@.rows =~= new);
    Ok(acc)
}

/// Perform backward elimination on a single column.
///
/// Given a pivot at (`pivot_row`, `pivot_col`) with value 1, eliminate all
/// entries above the pivot.
fn eliminate_above(matrix: &GfMatrix, pivot_row: usize, pivot_col: usize) -> (r: Result<
    GfMatrix,
    Error,
>)
    requires
        pivot_row < matrix@.rows.len(),
        pivot_col < matrix@.cols,
    ensures
        r matches Ok(m) && m@ == (MatrixView {
            rows: echelon::eliminated_above(matrix@.rows, pivot_row as int, pivot_col as int),
            cols: matrix@.cols,
        }),
{
    let ghost rows = matrix@.rows;
    let ghost (pr, pc) = (pivot_row as int, pivot_col as int);
    let ghost new = echelon::eliminated_above(rows, pr, pc);
    proof {
        use_type_invariant(matrix);
    }
    let mut acc = matrix.clone();
    let mut r: usize = 0;
    while r < pivot_row
        invariant
            r <= pivot_row < rows.len(),
            rows == matrix@.rows,
            linear::has_width(rows, matrix@.cols),
            pivot_col < matrix@.cols,
            (pr, pc) == (pivot_row as int, pivot_col as int),
            new == echelon::eliminated_above(rows, pr, pc),
            acc@.cols == matrix@.cols,
            acc@.rows.len() == rows.len(),
            forall|k: int| 0 <= k < r ==> #[trigger] acc@.rows[k] == new[k],
            forall|k: int| r <= k < rows.len() ==> #[trigger] acc@.rows[k] == rows[k],
        decreases pivot_row - r,
    {
        assert(acc@.rows[r as int] == rows[r as int]);
        assert(acc@.rows[pr] == rows[pr]);
        assert(rows[r as int].len() == matrix@.cols && rows[pr].len() == matrix@.cols);
        let entry = match acc.get(r, pivot_col) {
            Some(e) => e,
            None => Gf256::zero(),
        };
        if entry.is_zero() {
            proof {
                echelon::lemma_add_zero_multiple(rows[r as int], rows[pr]);
            }
        } else {
            match acc.with_row_added(r, pivot_row, entry) {
                Some(m) => {
                    acc = m;
                },
                None => {
                    return Err(
                        Error::DimensionMismatch { expected: r, actual: acc.row_count() },
                    );
                },
            }
        }
        r += 1;
    }
    assert(acc@.rows =~= new);
    Ok(acc)
}

/// Forward elimination: produce row echelon form.
///
/// Returns the matrix in row echelon form together with the pivot column
/// positions (one per pivot row, in order).  Entries above a pivot stay.
pub fn forward_eliminate(matrix: &GfMatrix) -> (r: Result<(GfMatrix, Vec<usize>), Error>)
    ensures
        r matches Ok((m, pivots)) && {
            &&& m@.cols == matrix@.cols
            &&& m@.rows.len() == matrix@.rows.len()
            &&& m@.rows == echelon::forward(matrix@.rows, matrix@.cols).rows
            &&& pivots@ == echelon::forward(matrix@.rows, matrix@.cols).pivots
            &&& echelon::is_echelon_upto(m@.rows, pivots@, m@.cols as int)
            &&& linear::same_span(matrix@.rows, m@.rows, m@.cols)
        },
{
    let cols: usize = matrix.col_count();
    let rows: usize = matrix.row_count();
    proof {
        use_type_invariant(matrix);
    }
    let mut mat = matrix.clone();
    let mut pivots: Vec<usize> = Vec::new();
    let mut current_row: usize = 0;
    proof {
        linear::lemma_same_span_reflexive(matrix@.rows, matrix@.cols);
    }
    let mut col: usize = 0;
    while col < cols
        invariant
            col <= cols,
            cols == matrix@.cols,
            rows == matrix@.rows.len(),
            linear::has_width(matrix@.rows, matrix@.cols),
            mat@.cols == cols,
            mat@.rows.len() == rows,
            linear::has_width(mat@.rows, mat@.cols),
            current_row == pivots@.len(),
            mat@.rows == echelon::forward(matrix@.rows, col as nat).rows,
            pivots@ == echelon::forward(matrix@.rows, col as nat).pivots,
            echelon::is_echelon_upto(mat@.rows, pivots@, col as int),
            linear::same_span(matrix@.rows, mat@.rows, mat@.cols),
        decreases cols - col,
    {
        let ghost before = mat@.rows;
        if current_row < rows {
            match find_pivot(&mat, col, current_row) {
                None => {
                    proof {
                        echelon::lemma_pivot_row(
                            before,
                            current_row as int,
                            col as int,
                            before.len() as int,
                        );
                    }
                },
                Some(pivot_row) => {
                    proof {
                        echelon::lemma_pivot_row(
                            before,
                            current_row as int,
                            col as int,
                            pivot_row as int,
                        );
                    }
                    if pivot_row != current_row {
                        match mat.with_rows_swapped(current_row, pivot_row) {
                            Some(m) => {
                                proof {
                                    echelon::lemma_swap_span(
                                        before,
                                        mat@.cols,
                                        current_row as int,
                                        pivot_row as int,
                                    );
                                    linear::lemma_same_span_transitive(
                                        matrix@.rows,
                                        before,
                                        m@.rows,
                                        mat@.cols,
                                    );
                                    assert(echelon::is_echelon_upto(m@.rows, pivots@, col as int));
                                }
                                mat = m;
                            },
                            None => {
                                return Err(
                                    Error::DimensionMismatch {
                                        expected: pivot_row,
                                        actual: mat.row_count(),
                                    },
                                );
                            },
                        }
                    }
                    assert(mat@.rows =~= echelon::swapped(
                        before,
                        current_row as int,
                        pivot_row as int,
                    ));
                    let eliminated = match eliminate_below(&mat, current_row, col) {
                        Ok(m) => m,
                        Err(e) => {
                            return Err(e);
                        },
                    };
                    proof {
                        echelon::lemma_eliminate_below_span(
                            mat@.rows,
                            mat@.cols,
                            current_row as int,
                            col as int,
                        );
                        echelon::lemma_eliminate_below_extends(
                            mat@.rows,
                            mat@.cols,
                            pivots@,
                            col,
                        );
                        linear::lemma_same_span_transitive(
                            matrix@.rows,
                            mat@.rows,
                            eliminated@.rows,
                            mat@.cols,
                        );
                    }
                    mat = eliminated;
                    pivots.push(col);
                    current_row += 1;
                },
            }
        }
        col += 1;
    }
    Ok((mat, pivots))
}

/// Reduce a matrix to reduced row echelon form (RREF).
///
/// Returns the fully reduced matrix and the pivot column positions.  It is the
/// one matrix in reduced row echelon form with as many rows and the same row
/// space.
pub fn reduced_row_echelon_form(matrix: &GfMatrix) -> (r: Result<(GfMatrix, Vec<usize>), Error>)
    ensures
        r matches Ok((m, pivots)) && {
            &&& m@.cols == matrix@.cols
            &&& m@.rows.len() == matrix@.rows.len()
            &&& echelon::is_rref(m@.rows, m@.cols, pivots@)
            &&& linear::same_span(matrix@.rows, m@.rows, m@.cols)
        },
{
    let (ref_matrix, pivots) = match forward_eliminate(matrix) {
        Ok(v) => v,
        Err(e) => {
            return Err(e);
        },
    };
    proof {
        use_type_invariant(matrix);
        use_type_invariant(&ref_matrix);
    }
    let mut acc = ref_matrix;
    let mut i: usize = pivots.len();
    while i > 0
        invariant
            i <= pivots@.len(),
            linear::has_width(matrix@.rows, matrix@.cols),
            acc@.cols == matrix@.cols,
            acc@.rows.len() == matrix@.rows.len(),
            linear::has_width(acc@.rows, acc@.cols),
            echelon::is_echelon_upto(acc@.rows, pivots@, acc@.cols as int),
            echelon::is_clear_from(acc@.rows, pivots@, i as int),
            linear::same_span(matrix@.rows, acc@.rows, acc@.cols),
        decreases i,
    {
        i -= 1;
        let ghost (pr, pc) = (i as int, pivots@[i as int] as int);
        match eliminate_above(&acc, i, pivots[i]) {
            Ok(m) => {
                proof {
                    echelon::lemma_eliminate_above_span(acc@.rows, acc@.cols, pr, pc);
                    echelon::lemma_eliminate_above_clears(acc@.rows, acc@.cols, pivots@, pr);
                    linear::lemma_same_span_transitive(
                        matrix@.rows,
                        acc@.rows,
                        m@.rows,
                        acc@.cols,
                    );
                }
                acc = m;
            },
            Err(e) => {
                return Err(e);
            },
        }
    }
    Ok((acc, pivots))
}

/// Count the rank of a matrix (number of linearly independent rows).
pub fn rank(matrix: &GfMatrix) -> (r: Result<usize, Error>)
    ensures
        r matches Ok(k) && dimension::has_rank(matrix@.rows, matrix@.cols, k as nat),
{
    match reduced_row_echelon_form(matrix) {
        Ok((m, pivots)) => {
            proof {
                use_type_invariant(matrix);
                use_type_invariant(&m);
                dimension::lemma_rref_rank(m@.rows, m@.cols, pivots@);
                dimension::lemma_rank_of_span(m@.rows, matrix@.rows, m@.cols, pivots@.len());
            }
            Ok(pivots.len())
        },
        Err(e) => Err(e),
    }
}

} // verus!
