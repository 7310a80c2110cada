//! Integer vectors and matrices as sequences, and arithmetic modulo `q`.
use crate::error::Error;
use vstd::arithmetic::div_mod::*;
use vstd::arithmetic::mul::*;
use vstd::prelude::*;

verus! {

/// The dot product of two vectors of the same length.
pub open spec fn dot(a: Seq<int>, b: Seq<int>) -> int
    decreases a.len(),
{
    if a.len() == 0 {
        0
    } else {
        dot(a.drop_last(), b.drop_last()) + a.last() * b.last()
    }
}

/// Column `j` of a matrix.
pub open spec fn column(rows: Seq<Seq<int>>, j: int) -> Seq<int> {
    Seq::new(rows.len(), |i: int| rows[i][j])
}

/// The linear combination of vectors of length `n`.
pub open spec fn combination(coeffs: Seq<int>, rows: Seq<Seq<int>>, n: nat) -> Seq<int> {
    Seq::new(n, |j: int| dot(coeffs, column(rows, j)))
}

/// The product of a matrix and a column vector.
pub open spec fn apply(rows: Seq<Seq<int>>, v: Seq<int>) -> Seq<int> {
    Seq::new(rows.len(), |i: int| dot(rows[i], v))
}

/// Every row has length `n`.
pub open spec fn has_width(rows: Seq<Seq<int>>, n: nat) -> bool {
    forall|i: int| 0 <= i < rows.len() ==> (#[trigger] rows[i]).len() == n
}

/// The zero vector of length `n`.
pub open spec fn zeros(n: nat) -> Seq<int> {
    Seq::new(n, |i: int| 0int)
}

/// The element-wise sum.
pub open spec fn sum(a: Seq<int>, b: Seq<int>) -> Seq<int> {
    Seq::new(a.len(), |i: int| a[i] + b[i])
}

/// The element-wise difference.
pub open spec fn difference(a: Seq<int>, b: Seq<int>) -> Seq<int> {
    Seq::new(a.len(), |i: int| a[i] - b[i])
}

/// The multiple of a vector.
pub open spec fn scaled(c: int, v: Seq<int>) -> Seq<int> {
    Seq::new(v.len(), |i: int| c * v[i])
}

/// Every element reduced to its representative in `[0, q)`.
pub open spec fn reduced(v: Seq<int>, q: int) -> Seq<int> {
    Seq::new(v.len(), |i: int| v[i] % q)
}

/// Every row reduced.
pub open spec fn reduced_rows(rows: Seq<Seq<int>>, q: int) -> Seq<Seq<int>> {
    Seq::new(rows.len(), |i: int| reduced(rows[i], q))
}

/// Two vectors agree modulo `q`.
pub open spec fn congruent(a: Seq<int>, b: Seq<int>, q: int) -> bool {
    &&& a.len() == b.len()
    &&& forall|i: int| 0 <= i < a.len() ==> #[trigger] a[i] % q == b[i] % q
}

/// The length of the first row, or zero without rows.
pub open spec fn first_width(rows: Seq<Seq<int>>) -> nat {
    if rows.len() == 0 {
        0
    } else {
        rows[0].len()
    }
}

/// Row `i` is the first one whose length is not that of row zero.
pub open spec fn first_odd_row(rows: Seq<Seq<int>>, i: int) -> bool {
    &&& 0 <= i < rows.len()
    &&& rows[i].len() != first_width(rows)
    &&& forall|k: int| 0 <= k < i ==> (#[trigger] rows[k]).len() == first_width(rows)
}

/// The error of combining rows with coefficients: for a number of coefficients
/// other than the number of rows, or for the first row whose length is not that
/// of row zero.
pub open spec fn is_combination_error(coeffs: nat, rows: Seq<Seq<int>>, e: Error) -> bool {
    if coeffs != rows.len() {
        e == Error::DimensionMismatch { expected: coeffs as usize, actual: rows.len() as usize }
    } else {
        exists|i: int| #[trigger]
            first_odd_row(rows, i) && e == Error::DimensionMismatch {
                expected: first_width(rows) as usize,
                actual: rows[i].len() as usize,
            }
    }
}

/// Rows can be combined with a number of coefficients.
pub open spec fn combinable(coeffs: nat, rows: Seq<Seq<int>>) -> bool {
    coeffs == rows.len() && has_width(rows, first_width(rows))
}

/// The sum of squares.
pub open spec fn squared_norm(v: Seq<int>) -> int {
    dot(v, v)
}

/// The rows of a matrix, and their common length.
#[verifier::ext_equal]
pub struct MatrixView {
    pub rows: Seq<Seq<int>>,
    pub cols: nat,
}

impl MatrixView {
    /// All rows have the common length.
    pub open spec fn rectangular(self) -> bool {
        has_width(self.rows, self.cols)
    }
}

/// Row `i` of a row-major matrix with `cols` columns.
pub open spec fn row_of(data: Seq<int>, cols: nat, i: int) -> Seq<int> {
    data.subrange(i * cols, (i + 1) * cols)
}

/// The rows of a row-major matrix.
pub open spec fn rows_of(data: Seq<int>, rows: nat, cols: nat) -> Seq<Seq<int>> {
    Seq::new(rows, |i: int| row_of(data, cols, i))
}

/// A value of type `i64`.
pub open spec fn fits(x: int) -> bool {
    i64::MIN <= x <= i64::MAX
}

/// The products and partial sums of a dot product are of type `i64`.
pub open spec fn dot_fits(a: Seq<int>, b: Seq<int>) -> bool {
    forall|i: int|
        0 <= i < a.len() ==> fits(#[trigger] a[i] * b[i]) && fits(
            dot(a.take(i + 1), b.take(i + 1)),
        )
}

pub proof fn lemma_dot_step(a: Seq<int>, b: Seq<int>, i: int)
    requires
        a.len() == b.len(),
        0 <= i < a.len(),
    ensures
        dot(a.take(i + 1), b.take(i + 1)) == dot(a.take(i), b.take(i)) + a[i] * b[i],
        dot(a.take(0), b.take(0)) == 0,
        dot(a.take(a.len() as int), b.take(a.len() as int)) == dot(a, b),
{
    assert(a.take(i + 1).drop_last() =~= a.take(i));
    assert(b.take(i + 1).drop_last() =~= b.take(i));
    assert(a.take(a.len() as int) =~= a);
    assert(b.take(a.len() as int) =~= b);
}

/// The dot product is symmetric.
pub proof fn lemma_dot_commutes(a: Seq<int>, b: Seq<int>)
    requires
        a.len() == b.len(),
    ensures
        dot(a, b) == dot(b, a),
    decreases a.len(),
{
    if a.len() > 0 {
        lemma_dot_commutes(a.drop_last(), b.drop_last());
        lemma_mul_is_commutative(a.last(), b.last());
    }
}

/// The dot product is additive and homogeneous in its second argument.
pub proof fn lemma_dot_linear(a: Seq<int>, v: Seq<int>, c: int, w: Seq<int>)
    requires
        a.len() == v.len(),
        a.len() == w.len(),
    ensures
        dot(a, sum(v, scaled(c, w))) == dot(a, v) + c * dot(a, w),
    decreases a.len(),
{
    let s = sum(v, scaled(c, w));
    if a.len() > 0 {
        let (a0, v0, w0) = (a.drop_last(), v.drop_last(), w.drop_last());
        lemma_dot_linear(a0, v0, c, w0);
        assert(s.drop_last() =~= sum(v0, scaled(c, w0)));
        let (x, y, z) = (a.last(), v.last(), w.last());
        assert(x * (y + c * z) == x * y + c * (x * z)) by (nonlinear_arith);
        let d = dot(a0, w0);
        assert(c * (d + x * z) == c * d + c * (x * z)) by (nonlinear_arith);
    } else {
        lemma_mul_basics(c);
    }
}

/// Zeros have no product.
pub proof fn lemma_dot_zeros(a: Seq<int>, z: Seq<int>)
    requires
        a.len() == z.len(),
        forall|i: int| 0 <= i < z.len() ==> z[i] == 0,
    ensures
        dot(a, z) == 0,
        dot(z, a) == 0,
    decreases a.len(),
{
    if a.len() > 0 {
        lemma_dot_zeros(a.drop_last(), z.drop_last());
        lemma_mul_basics(a.last());
    }
}

/// The dot product of concatenations is the sum of the dot products.
pub proof fn lemma_dot_concat(a: Seq<int>, b: Seq<int>, c: Seq<int>, d: Seq<int>)
    requires
        a.len() == c.len(),
        b.len() == d.len(),
    ensures
        dot(a + b, c + d) == dot(a, c) + dot(b, d),
    decreases b.len(),
{
    if b.len() == 0 {
        assert(a + b =~= a);
        assert(c + d =~= c);
    } else {
        assert((a + b).drop_last() =~= a + b.drop_last());
        assert((c + d).drop_last() =~= c + d.drop_last());
        lemma_dot_concat(a, b.drop_last(), c, d.drop_last());
    }
}

/// Multiplying by a combination of rows is combining the products with the rows:
/// `(a^T R) w = a^T (R w)`.
pub proof fn lemma_dot_associates(a: Seq<int>, rows: Seq<Seq<int>>, w: Seq<int>)
    requires
        a.len() == rows.len(),
        has_width(rows, w.len()),
    ensures
        dot(a, apply(rows, w)) == dot(combination(a, rows, w.len()), w),
    decreases a.len(),
{
    let n = w.len();
    if a.len() == 0 {
        lemma_dot_zeros(w, combination(a, rows, n));
    } else {
        let (a0, r0) = (a.drop_last(), rows.drop_last());
        lemma_dot_associates(a0, r0, w);
        assert(apply(rows, w).drop_last() =~= apply(r0, w));
        let (x, row) = (a.last(), rows.last());
        assert(rows[rows.len() - 1].len() == n);
        let (c, c0) = (combination(a, rows, n), combination(a0, r0, n));
        assert forall|j: int| 0 <= j < n implies c[j] == c0[j] + x * row[j] by {
            assert(column(rows, j).drop_last() =~= column(r0, j));
        }
        assert(c =~= sum(c0, scaled(x, row)));
        lemma_dot_commutes(c, w);
        lemma_dot_linear(w, c0, x, row);
        lemma_dot_commutes(c0, w);
        lemma_dot_commutes(row, w);
    }
}

/// Dot products of congruent vectors are congruent.
pub proof fn lemma_dot_congruent(a: Seq<int>, b: Seq<int>, c: Seq<int>, d: Seq<int>, q: int)
    requires
        q > 0,
        a.len() == c.len(),
        congruent(a, b, q),
        congruent(c, d, q),
    ensures
        dot(a, c) % q == dot(b, d) % q,
    decreases a.len(),
{
    if a.len() > 0 {
        let last = a.len() - 1;
        assert(a[last] % q == b[last] % q);
        assert(c[last] % q == d[last] % q);
        assert forall|i: int| 0 <= i < a.drop_last().len() implies #[trigger] a.drop_last()[i] % q
            == b.drop_last()[i] % q by {
            assert(a[i] % q == b[i] % q);
        }
        assert forall|i: int| 0 <= i < c.drop_last().len() implies #[trigger] c.drop_last()[i] % q
            == d.drop_last()[i] % q by {
            assert(c[i] % q == d[i] % q);
        }
        lemma_dot_congruent(a.drop_last(), b.drop_last(), c.drop_last(), d.drop_last(), q);
        lemma_mul_congruent(a[last], b[last], c[last], d[last], q);
        lemma_add_congruent(
            dot(a.drop_last(), c.drop_last()),
            dot(b.drop_last(), d.drop_last()),
            a[last] * c[last],
            b[last] * d[last],
            q,
        );
    }
}

pub proof fn lemma_mul_congruent(a: int, b: int, c: int, d: int, q: int)
    requires
        q > 0,
        a % q == b % q,
        c % q == d % q,
    ensures
        (a * c) % q == (b * d) % q,
{
    lemma_mul_mod_noop(a, c, q);
    lemma_mul_mod_noop(b, d, q);
}

pub proof fn lemma_add_congruent(a: int, b: int, c: int, d: int, q: int)
    requires
        q > 0,
        a % q == b % q,
        c % q == d % q,
    ensures
        (a + c) % q == (b + d) % q,
{
    lemma_add_mod_noop(a, c, q);
    lemma_add_mod_noop(b, d, q);
}

pub proof fn lemma_sub_congruent(a: int, b: int, c: int, d: int, q: int)
    requires
        q > 0,
        a % q == b % q,
        c % q == d % q,
    ensures
        (a - c) % q == (b - d) % q,
{
    lemma_sub_mod_noop(a, c, q);
    lemma_sub_mod_noop(b, d, q);
}

/// Reducing keeps the residues.
pub proof fn lemma_reduced_congruent(v: Seq<int>, q: int)
    requires
        q > 0,
    ensures
        congruent(reduced(v, q), v, q),
        congruent(v, v, q),
{
    assert forall|i: int| 0 <= i < v.len() implies #[trigger] reduced(v, q)[i] % q == v[i]
        % q by {
        lemma_mod_twice(v[i], q);
    }
}

/// A sum of squares is not negative.
pub proof fn lemma_norm_nonnegative(v: Seq<int>)
    ensures
        squared_norm(v) >= 0,
    decreases v.len(),
{
    if v.len() > 0 {
        lemma_norm_nonnegative(v.drop_last());
        let x = v.last();
        assert(x * x >= 0) by (nonlinear_arith);
    }
}

/// A prefix has at most the sum of squares of the whole.
pub proof fn lemma_norm_grows(v: Seq<int>, i: int)
    requires
        0 <= i <= v.len(),
    ensures
        squared_norm(v.take(i)) <= squared_norm(v),
{
    assert(v =~= v.take(i) + v.skip(i));
    lemma_dot_concat(v.take(i), v.skip(i), v.take(i), v.skip(i));
    lemma_norm_nonnegative(v.skip(i));
}

/// Every element has at most the magnitude `x`.
pub open spec fn bounded(v: Seq<int>, x: int) -> bool {
    forall|i: int| 0 <= i < v.len() ==> -x <= #[trigger] v[i] <= x
}

/// A dot product of bounded vectors is bounded by their length times the product
/// of the bounds.
pub proof fn lemma_dot_bounded(a: Seq<int>, b: Seq<int>, x: int, y: int)
    requires
        a.len() == b.len(),
        bounded(a, x),
        bounded(b, y),
        x >= 0,
        y >= 0,
    ensures
        -(a.len() * (x * y)) <= dot(a, b) <= a.len() * (x * y),
    decreases a.len(),
{
    if a.len() > 0 {
        let (a0, b0) = (a.drop_last(), b.drop_last());
        assert(bounded(a0, x)) by {
            assert forall|i: int| 0 <= i < a0.len() implies -x <= #[trigger] a0[i] <= x by {
                assert(-x <= a[i] <= x);
            }
        }
        assert(bounded(b0, y)) by {
            assert forall|i: int| 0 <= i < b0.len() implies -y <= #[trigger] b0[i] <= y by {
                assert(-y <= b[i] <= y);
            }
        }
        lemma_dot_bounded(a0, b0, x, y);
        let (u, v) = (a[a.len() - 1], b[a.len() - 1]);
        lemma_product_bounded(u, v, x, y);
        let (n, p) = (a.len() as int, x * y);
        assert(n * p == (n - 1) * p + p) by (nonlinear_arith);
    } else {
        assert(0 * (x * y) == 0);
    }
}

proof fn lemma_product_bounded(u: int, v: int, x: int, y: int)
    requires
        -x <= u <= x,
        -y <= v <= y,
    ensures
        -(x * y) <= u * v <= x * y,
        0 <= x * y,
{
    assert(-(x * y) <= u * v <= x * y && 0 <= x * y) by (nonlinear_arith)
        requires
            -x <= u <= x,
            -y <= v <= y,
    ;
}

/// The products and partial sums of a dot product of bounded vectors fit if the
/// bound does.
pub proof fn lemma_dot_fits(a: Seq<int>, b: Seq<int>, x: int, y: int)
    requires
        a.len() == b.len(),
        bounded(a, x),
        bounded(b, y),
        x >= 0,
        y >= 0,
        a.len() * (x * y) <= i64::MAX,
    ensures
        dot_fits(a, b),
{
    assert forall|i: int| 0 <= i < a.len() implies fits(#[trigger] a[i] * b[i]) && fits(
        dot(a.take(i + 1), b.take(i + 1)),
    ) by {
        let (n, p) = (a.len() as int, x * y);
        lemma_product_bounded(a[i], b[i], x, y);
        let (a1, b1) = (a.take(i + 1), b.take(i + 1));
        assert(bounded(a1, x));
        assert(bounded(b1, y));
        lemma_dot_bounded(a1, b1, x, y);
        assert(p <= n * p && (i + 1) * p <= n * p) by (nonlinear_arith)
            requires
                0 <= p,
                1 <= i + 1 <= n,
        ;
    }
}

/// Where an entry of a row-major matrix stands.
pub proof fn lemma_row_index(data: Seq<int>, rows: nat, cols: nat, i: int, j: int)
    requires
        data.len() == rows * cols,
        0 <= i < rows,
        0 <= j < cols,
    ensures
        0 <= i * cols,
        i * cols + cols == (i + 1) * cols,
        i * cols + cols <= rows * cols,
        rows_of(data, rows, cols)[i].len() == cols,
        rows_of(data, rows, cols)[i][j] == data[i * cols + j],
{
    lemma_row_bounds(rows, cols, i);
}

pub proof fn lemma_row_bounds(rows: nat, cols: nat, i: int)
    requires
        0 <= i < rows,
    ensures
        0 <= i * cols,
        i * cols + cols == (i + 1) * cols,
        i * cols + cols <= rows * cols,
{
    assert(0 <= i * cols) by (nonlinear_arith)
        requires
            0 <= i,
            0 <= cols,
    ;
    assert(i * cols + cols == (i + 1) * cols) by (nonlinear_arith);
    assert((i + 1) * cols <= rows * cols) by (nonlinear_arith)
        requires
            i + 1 <= rows,
            0 <= cols,
    ;
}

/// The rows of a row-major matrix have as many elements as it has columns.
pub proof fn lemma_rows_width(data: Seq<int>, rows: nat, cols: nat)
    requires
        data.len() == rows * cols,
    ensures
        has_width(rows_of(data, rows, cols), cols),
{
    assert forall|i: int| 0 <= i < rows implies (#[trigger] rows_of(data, rows, cols)[i]).len()
        == cols by {
        lemma_row_bounds(rows, cols, i);
    }
}

/// Reducing a row-major matrix reduces its rows.
pub proof fn lemma_reduced_rows_of(data: Seq<int>, rows: nat, cols: nat, q: int)
    requires
        data.len() == rows * cols,
    ensures
        rows_of(reduced(data, q), rows, cols) == reduced_rows(rows_of(data, rows, cols), q),
{
    assert forall|i: int| 0 <= i < rows implies rows_of(reduced(data, q), rows, cols)[i]
        == reduced_rows(rows_of(data, rows, cols), q)[i] by {
        lemma_row_bounds(rows, cols, i);
        assert(row_of(reduced(data, q), cols, i) =~= reduced(row_of(data, cols, i), q));
    }
    assert(rows_of(reduced(data, q), rows, cols) =~= reduced_rows(
        rows_of(data, rows, cols),
        q,
    ));
}

} // verus!
