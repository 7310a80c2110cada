//! Echelon forms: what row reduction does to a matrix, and why its result is
//! unique.
use super::linear;
use crate::field::math;
use crate::field::tables;
use vstd::prelude::*;

verus! {

/// Row `row` has its first nonzero entry, a one, at column `p`.
pub open spec fn leads(row: Seq<u8>, p: int) -> bool {
    &&& row[p] == 1
    &&& forall|j: int| 0 <= j < p ==> #[trigger] row[j] == 0
}

pub open spec fn increasing(pivots: Seq<usize>) -> bool {
    forall|i: int, j: int| 0 <= i < j < pivots.len() ==> #[trigger] pivots[i] < #[trigger] pivots[j]
}

/// The columns before `col` are in row echelon form, with leading ones at `pivots`.
pub open spec fn is_echelon_upto(
    rows: Seq<Seq<u8>>,
    pivots: Seq<usize>,
    col: int,
) -> bool {
    &&& pivots.len() <= rows.len()
    &&& increasing(pivots)
    &&& forall|i: int| 0 <= i < pivots.len() ==> #[trigger] pivots[i] < col
    &&& forall|i: int| 0 <= i < pivots.len() ==> leads(#[trigger] rows[i], pivots[i] as int)
    &&& forall|r: int, j: int|
        pivots.len() <= r < rows.len() && 0 <= j < col ==> #[trigger] rows[r][j] == 0
}

/// From pivot `from` on, the pivot columns are zero outside their pivot.
pub open spec fn is_clear_from(rows: Seq<Seq<u8>>, pivots: Seq<usize>, from: int) -> bool {
    forall|i: int, r: int|
        from <= i < pivots.len() && 0 <= r < rows.len() && r != i
            ==> #[trigger] rows[r][pivots[i] as int] == 0
}

/// A matrix of `n` columns is in reduced row echelon form: leading ones at the
/// strictly increasing columns `pivots`, alone in their columns, and zero rows
/// below.
pub open spec fn is_rref(rows: Seq<Seq<u8>>, n: nat, pivots: Seq<usize>) -> bool {
    is_echelon_upto(rows, pivots, n as int) && is_clear_from(rows, pivots, 0)
}

/// Two rows exchanged.
pub open spec fn swapped(rows: Seq<Seq<u8>>, i: int, j: int) -> Seq<Seq<u8>> {
    rows.update(i, rows[j]).update(j, rows[i])
}

/// Row `pr` scaled to a one at column `pc`.
pub open spec fn normalized(rows: Seq<Seq<u8>>, pr: int, pc: int) -> Seq<u8> {
    linear::scaled(math::gf_inv(rows[pr][pc]), rows[pr])
}

/// Row `pr` scaled to a one at column `pc`, and that column cleared below it.
pub open spec fn eliminated_below(rows: Seq<Seq<u8>>, pr: int, pc: int) -> Seq<Seq<u8>> {
    Seq::new(
        rows.len(),
        |r: int|
            if r < pr {
                rows[r]
            } else if r == pr {
                normalized(rows, pr, pc)
            } else {
                linear::sum(rows[r], linear::scaled(rows[r][pc], normalized(rows, pr, pc)))
            },
    )
}

/// The first row from `start` on with a nonzero entry in column `col`, or the
/// number of rows if there is none.
pub open spec fn pivot_row(rows: Seq<Seq<u8>>, start: int, col: int) -> int
    decreases rows.len() - start,
{
    if start >= rows.len() || rows[start][col] != 0 {
        start
    } else {
        pivot_row(rows, start + 1, col)
    }
}

/// A matrix under elimination, with the pivot columns found so far.
#[verifier::ext_equal]
pub struct Elimination {
    pub rows: Seq<Seq<u8>>,
    pub pivots: Seq<usize>,
}

impl Elimination {
    /// Forward elimination of one column: the first row with an entry there, below
    /// the pivot rows, is swapped up to become the next pivot row, scaled to a
    /// leading one, and the column is cleared below it.  Without such a row
    /// nothing changes.
    pub open spec fn forward_column(self, col: int) -> Elimination {
        let row = self.pivots.len() as int;
        let found = pivot_row(self.rows, row, col);
        if found < self.rows.len() {
            Elimination {
                rows: eliminated_below(swapped(self.rows, row, found), row, col),
                pivots: self.pivots.push(col as usize),
            }
        } else {
            self
        }
    }
}

/// Forward elimination of the first `cols` columns, from left to right.
pub open spec fn forward(rows: Seq<Seq<u8>>, cols: nat) -> Elimination
    decreases cols,
{
    if cols == 0 {
        Elimination { rows, pivots: Seq::empty() }
    } else {
        forward(rows, (cols - 1) as nat).forward_column(cols - 1)
    }
}

/// A row with a nonzero entry behind rows with none is the pivot row.
pub proof fn lemma_pivot_row(rows: Seq<Seq<u8>>, start: int, col: int, found: int)
    requires
        start <= found <= rows.len(),
        found < rows.len() ==> rows[found][col] != 0,
        forall|k: int| start <= k < found ==> #[trigger] rows[k][col] == 0,
    ensures
        pivot_row(rows, start, col) == found,
    decreases found - start,
{
    if start < found {
        assert(rows[start][col] == 0);
        lemma_pivot_row(rows, start + 1, col, found);
    }
}

/// Column `pc` cleared above row `pr`, which holds a one there.
pub open spec fn eliminated_above(rows: Seq<Seq<u8>>, pr: int, pc: int) -> Seq<Seq<u8>> {
    Seq::new(
        rows.len(),
        |r: int|
            if r < pr {
                linear::sum(rows[r], linear::scaled(rows[r][pc], rows[pr]))
            } else {
                rows[r]
            },
    )
}

/// Adding a zero multiple changes nothing.
pub proof fn lemma_add_zero_multiple(v: Seq<u8>, w: Seq<u8>)
    requires
        v.len() == w.len(),
    ensures
        linear::sum(v, linear::scaled(0, w)) == v,
{
    let s = linear::sum(v, linear::scaled(0, w));
    assert forall|j: int| 0 <= j < v.len() implies s[j] == v[j] by {
        math::lemma_mul_units(w[j]);
        math::lemma_mul_commutes(0, w[j]);
        math::lemma_add_laws(v[j], 0, 0);
    }
    assert(s =~= v);
}

/// Adding the same vector twice changes nothing.
pub proof fn lemma_add_twice(v: Seq<u8>, w: Seq<u8>)
    requires
        v.len() == w.len(),
    ensures
        linear::sum(linear::sum(v, w), w) == v,
{
    let s = linear::sum(linear::sum(v, w), w);
    assert forall|j: int| 0 <= j < v.len() implies s[j] == v[j] by {
        math::lemma_add_laws(v[j], w[j], 0);
    }
    assert(s =~= v);
}

/// Scaling by the inverse of a nonzero scalar undoes scaling.
pub proof fn lemma_scale_back(c: u8, v: Seq<u8>)
    requires
        c != 0,
    ensures
        linear::scaled(c, linear::scaled(math::gf_inv(c), v)) == v,
{
    let s = linear::scaled(c, linear::scaled(math::gf_inv(c), v));
    assert forall|j: int| 0 <= j < v.len() implies s[j] == v[j] by {
        tables::lemma_inverse(c);
        math::lemma_mul_associates(c, math::gf_inv(c), v[j]);
        math::lemma_mul_units(v[j]);
        math::lemma_mul_commutes(1, v[j]);
    }
    assert(s =~= v);
}

pub proof fn lemma_swap_span(rows: Seq<Seq<u8>>, n: nat, i: int, j: int)
    requires
        linear::has_width(rows, n),
        0 <= i < rows.len(),
        0 <= j < rows.len(),
    ensures
        linear::has_width(swapped(rows, i, j), n),
        linear::same_span(rows, swapped(rows, i, j), n),
{
    let new = swapped(rows, i, j);
    assert forall|r: int| 0 <= r < new.len() implies (#[trigger] new[r]).len() == n
        && linear::in_span(new[r], rows, n) by {
        let from = if r == j {
            i
        } else if r == i {
            j
        } else {
            r
        };
        assert(new[r] == rows[from]);
        linear::lemma_span_of_row(rows, n, from);
    }
    assert forall|r: int| 0 <= r < rows.len() implies linear::in_span(
        #[trigger] rows[r],
        new,
        n,
    ) by {
        let to = if r == j {
            i
        } else if r == i {
            j
        } else {
            r
        };
        assert(rows[r] == new[to]);
        linear::lemma_span_of_row(new, n, to);
    }
}

pub proof fn lemma_eliminate_below_span(rows: Seq<Seq<u8>>, n: nat, pr: int, pc: int)
    requires
        linear::has_width(rows, n),
        0 <= pr < rows.len(),
        0 <= pc < n,
        rows[pr][pc] != 0,
    ensures
        linear::has_width(eliminated_below(rows, pr, pc), n),
        linear::same_span(rows, eliminated_below(rows, pr, pc), n),
{
    let new = eliminated_below(rows, pr, pc);
    let lead = normalized(rows, pr, pc);
    let c = rows[pr][pc];
    assert(rows[pr].len() == n);
    linear::lemma_span_of_row(rows, n, pr);
    linear::lemma_span_closed(rows[pr], math::gf_inv(c), rows[pr], rows, n);
    assert forall|r: int| 0 <= r < new.len() implies (#[trigger] new[r]).len() == n
        && linear::in_span(new[r], rows, n) by {
        assert(rows[r].len() == n);
        linear::lemma_span_of_row(rows, n, r);
        if r > pr {
            linear::lemma_span_closed(rows[r], rows[r][pc], lead, rows, n);
        }
    }
    linear::lemma_span_of_row(new, n, pr);
    assert(new[pr] == lead);
    assert forall|r: int| 0 <= r < rows.len() implies linear::in_span(
        #[trigger] rows[r],
        new,
        n,
    ) by {
        assert(rows[r].len() == n);
        linear::lemma_span_of_row(new, n, r);
        if r == pr {
            linear::lemma_span_closed(lead, c, lead, new, n);
            lemma_scale_back(c, rows[pr]);
        } else if r > pr {
            linear::lemma_span_closed(new[r], rows[r][pc], lead, new, n);
            lemma_add_twice(rows[r], linear::scaled(rows[r][pc], lead));
        } else {
            assert(new[r] == rows[r]);
        }
    }
}

pub proof fn lemma_eliminate_above_span(rows: Seq<Seq<u8>>, n: nat, pr: int, pc: int)
    requires
        linear::has_width(rows, n),
        0 <= pr < rows.len(),
        0 <= pc < n,
    ensures
        linear::has_width(eliminated_above(rows, pr, pc), n),
        linear::same_span(rows, eliminated_above(rows, pr, pc), n),
{
    let new = eliminated_above(rows, pr, pc);
    assert(rows[pr].len() == n);
    linear::lemma_span_of_row(rows, n, pr);
    assert forall|r: int| 0 <= r < new.len() implies (#[trigger] new[r]).len() == n
        && linear::in_span(new[r], rows, n) by {
        assert(rows[r].len() == n);
        linear::lemma_span_of_row(rows, n, r);
        linear::lemma_span_closed(rows[r], rows[r][pc], rows[pr], rows, n);
    }
    assert(new[pr] == rows[pr]);
    linear::lemma_span_of_row(new, n, pr);
    assert forall|r: int| 0 <= r < rows.len() implies linear::in_span(
        #[trigger] rows[r],
        new,
        n,
    ) by {
        assert(rows[r].len() == n);
        linear::lemma_span_of_row(new, n, r);
        if r < pr {
            linear::lemma_span_closed(new[r], rows[r][pc], rows[pr], new, n);
            lemma_add_twice(rows[r], linear::scaled(rows[r][pc], rows[pr]));
        } else {
            assert(new[r] == rows[r]);
        }
    }
}

/// Clearing below a pivot in column `col` extends the echelon form by that column.
pub proof fn lemma_eliminate_below_extends(
    rows: Seq<Seq<u8>>,
    n: nat,
    pivots: Seq<usize>,
    col: usize,
)
    requires
        linear::has_width(rows, n),
        col < n,
        is_echelon_upto(rows, pivots, col as int),
        pivots.len() < rows.len(),
        rows[pivots.len() as int][col as int] != 0,
    ensures
        is_echelon_upto(
            eliminated_below(rows, pivots.len() as int, col as int),
            pivots.push(col),
            col + 1,
        ),
{
    let pr = pivots.len() as int;
    let new = eliminated_below(rows, pr, col as int);
    let lead = normalized(rows, pr, col as int);
    let inv = math::gf_inv(rows[pr][col as int]);
    let p = pivots.push(col);
    tables::lemma_inverse(rows[pr][col as int]);
    assert(rows[pr].len() == n);
    assert forall|j: int| 0 <= j < col implies #[trigger] lead[j] == 0 by {
        assert(rows[pr][j] == 0);
        math::lemma_mul_units(inv);
    }
    assert(lead[col as int] == 1);
    assert forall|i: int| 0 <= i < p.len() implies leads(#[trigger] new[i], p[i] as int) by {
        if i < pr {
            assert(new[i] == rows[i]);
            assert(leads(rows[i], pivots[i] as int));
        }
    }
    assert forall|r: int, j: int| p.len() <= r < new.len() && 0 <= j < col + 1 implies #[trigger] new[r][j]
        == 0 by {
        assert(rows[r].len() == n);
        let e = rows[r][col as int];
        math::lemma_mul_units(e);
        math::lemma_add_laws(e, e, 0);
        math::lemma_add_laws(0, 0, 0);
        if j < col {
            assert(rows[r][j] == 0);
        }
    }
}

/// Clearing above the pivot of row `pr` makes its column a pivot column and
/// keeps the later ones.
pub proof fn lemma_eliminate_above_clears(
    rows: Seq<Seq<u8>>,
    n: nat,
    pivots: Seq<usize>,
    pr: int,
)
    requires
        linear::has_width(rows, n),
        is_echelon_upto(rows, pivots, n as int),
        0 <= pr < pivots.len(),
        is_clear_from(rows, pivots, pr + 1),
    ensures
        is_echelon_upto(eliminated_above(rows, pr, pivots[pr] as int), pivots, n as int),
        is_clear_from(eliminated_above(rows, pr, pivots[pr] as int), pivots, pr),
{
    let pc = pivots[pr] as int;
    let new = eliminated_above(rows, pr, pc);
    assert(leads(rows[pr], pc));
    assert(rows[pr].len() == n);
    assert forall|r: int, j: int| 0 <= r < pr && 0 <= j < n && rows[pr][j] == 0 implies #[trigger] new[r][j]
        == rows[r][j] by {
        assert(rows[r].len() == n);
        math::lemma_mul_units(rows[r][pc]);
        math::lemma_add_laws(rows[r][j], 0, 0);
    }
    assert forall|i: int| 0 <= i < pivots.len() implies leads(
        #[trigger] new[i],
        pivots[i] as int,
    ) by {
        assert(leads(rows[i], pivots[i] as int));
        if i < pr {
            assert(pivots[i] < pivots[pr]);
            assert forall|j: int| 0 <= j <= pivots[i] implies #[trigger] new[i][j]
                == rows[i][j] by {
                assert(rows[pr][j] == 0);
            }
        }
    }
    assert forall|i: int, r: int|
        pr <= i < pivots.len() && 0 <= r < new.len() && r != i implies #[trigger] new[r][pivots[i] as int]
        == 0 by {
        assert(rows[r].len() == n);
        if i == pr {
            if r < pr {
                math::lemma_mul_units(rows[r][pc]);
                math::lemma_add_laws(rows[r][pc], 0, 0);
            } else if r < pivots.len() {
                assert(leads(rows[r], pivots[r] as int));
                assert(pivots[pr] < pivots[r]);
                assert(rows[r][pc] == 0);
            } else {
                assert(rows[r][pc] == 0);
            }
        } else {
            assert(rows[pr][pivots[i] as int] == 0);
            assert(rows[r][pivots[i] as int] == 0);
        }
    }
}

} // verus!
