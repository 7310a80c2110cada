//! Linear independence and rank.
use super::echelon;
use super::linear;
use crate::field::math;
use crate::field::tables;
use vstd::prelude::*;

verus! {

/// Only the zero coefficients combine `rows` to zero.
pub open spec fn independent(rows: Seq<Seq<u8>>, n: nat) -> bool {
    forall|coeffs: Seq<u8>|
        coeffs.len() == rows.len() && #[trigger] linear::combination(coeffs, rows, n)
            == linear::zeros(n) ==> coeffs == linear::zeros(rows.len())
}

/// `rank` linearly independent vectors have the same span as `rows`.
pub open spec fn has_rank(rows: Seq<Seq<u8>>, n: nat, rank: nat) -> bool {
    exists|basis: Seq<Seq<u8>>| #[trigger] is_basis(basis, rows, n) && basis.len() == rank
}

/// `basis` is linearly independent and has the same span as `rows`.
pub open spec fn is_basis(basis: Seq<Seq<u8>>, rows: Seq<Seq<u8>>, n: nat) -> bool {
    &&& linear::has_width(basis, n)
    &&& independent(basis, n)
    &&& linear::same_span(basis, rows, n)
}

/// More rows than columns: some nonzero coefficients combine the rows to zero.
proof fn lemma_dependent(rows: Seq<Seq<u8>>, n: nat) -> (coeffs: Seq<u8>)
    requires
        linear::has_width(rows, n),
        n < rows.len(),
    ensures
        coeffs.len() == rows.len(),
        coeffs != linear::zeros(rows.len()),
        linear::combination(coeffs, rows, n) == linear::zeros(n),
    decreases n,
{
    let k = rows.len();
    if n == 0 {
        let coeffs = linear::unit(k, 0);
        assert(coeffs[0] == 1);
        linear::lemma_combination_len(coeffs, rows, n);
        assert(linear::combination(coeffs, rows, n) =~= linear::zeros(n));
        coeffs
    } else {
        let last = n - 1;
        if forall|r: int| 0 <= r < k ==> #[trigger] rows[r][last] == 0 {
            let coeffs = lemma_dependent(linear::columns(rows, 0, last), last as nat);
            lemma_zero_from_columns(coeffs, rows, n);
            coeffs
        } else {
            let p = choose|r: int| 0 <= r < k && #[trigger] rows[r][last] != 0;
            let inner = reduced_coeffs(rows, n, p);
            let reduced = linear::product(inner, rows, n);
            assert forall|r: int| 0 <= r < reduced.len() implies (#[trigger] reduced[r]).len() == n
                && reduced[r][last] == 0 by {
                lemma_reduced_row(rows, n, p, r);
                linear::lemma_combination_len(inner[r], rows, n);
            }
            let outer = lemma_dependent(linear::columns(reduced, 0, last), last as nat);
            lemma_zero_from_columns(outer, reduced, n);
            assert forall|r: int| 0 <= r < inner.len() implies (#[trigger] inner[r]).len() == k by {}
            linear::lemma_combination_product(outer, inner, rows, n);
            let coeffs = linear::combination(outer, inner, k);
            linear::lemma_combination_len(outer, inner, k);
            assert(exists|i: int| 0 <= i < outer.len() && outer[i] != 0) by {
                if forall|i: int| 0 <= i < outer.len() ==> outer[i] == 0 {
                    assert(outer =~= linear::zeros(outer.len()));
                }
            }
            let i = choose|i: int| 0 <= i < outer.len() && outer[i] != 0;
            let j = skip(i, p);
            assert forall|r: int| 0 <= r < inner.len() && r != i implies #[trigger] inner[r][j]
                == 0 by {
                math::lemma_mul_units(elimination_factor(rows, n, p, r));
                math::lemma_add_laws(0, 0, 0);
            }
            linear::lemma_combination_at(outer, inner, k, i, j);
            math::lemma_mul_units(elimination_factor(rows, n, p, i));
            math::lemma_add_laws(1, 0, 0);
            math::lemma_mul_units(outer[i]);
            assert(coeffs[j] == outer[i]);
            coeffs
        }
    }
}

/// The index of the `i`th of the rows other than row `p`.
spec fn skip(i: int, p: int) -> int {
    if i < p {
        i
    } else {
        i + 1
    }
}

/// The multiple of row `p` that clears the last column of the `i`th other row.
spec fn elimination_factor(rows: Seq<Seq<u8>>, n: nat, p: int, i: int) -> u8 {
    math::gf_mul(rows[skip(i, p)][n - 1], math::gf_inv(rows[p][n - 1]))
}

/// The coefficients that clear the last column of the rows other than `p` with row `p`.
spec fn reduced_coeffs(rows: Seq<Seq<u8>>, n: nat, p: int) -> Seq<Seq<u8>> {
    Seq::new(
        (rows.len() - 1) as nat,
        |i: int|
            linear::sum(
                linear::unit(rows.len(), skip(i, p)),
                linear::scaled(
                    elimination_factor(rows, n, p, i),
                    linear::unit(rows.len(), p),
                ),
            ),
    )
}

proof fn lemma_reduced_row(rows: Seq<Seq<u8>>, n: nat, p: int, i: int)
    requires
        linear::has_width(rows, n),
        0 < n,
        0 <= p < rows.len(),
        rows[p][n - 1] != 0,
        0 <= i < rows.len() - 1,
    ensures
        linear::combination(reduced_coeffs(rows, n, p)[i], rows, n)[n - 1] == 0,
{
    let k = rows.len();
    let f = elimination_factor(rows, n, p, i);
    let s = skip(i, p);
    linear::lemma_combination_sum(
        linear::unit(k, s),
        linear::scaled(f, linear::unit(k, p)),
        rows,
        n,
    );
    linear::lemma_combination_scaled(f, linear::unit(k, p), rows, n);
    linear::lemma_combination_unit(rows, n, s);
    linear::lemma_combination_unit(rows, n, p);
    assert(rows[s].len() == n && rows[p].len() == n);
    let (a, c) = (rows[s][n - 1], rows[p][n - 1]);
    tables::lemma_inverse(c);
    math::lemma_mul_associates(a, math::gf_inv(c), c);
    math::lemma_mul_units(a);
    math::lemma_add_laws(a, a, 0);
}

/// A combination that vanishes on all columns but the last, where every row
/// vanishes, is zero.
proof fn lemma_zero_from_columns(coeffs: Seq<u8>, rows: Seq<Seq<u8>>, n: nat)
    requires
        coeffs.len() == rows.len(),
        linear::has_width(rows, n),
        0 < n,
        forall|r: int| 0 <= r < rows.len() ==> #[trigger] rows[r][n - 1] == 0,
        linear::combination(coeffs, linear::columns(rows, 0, n - 1), (n - 1) as nat)
            == linear::zeros((n - 1) as nat),
    ensures
        linear::combination(coeffs, rows, n) == linear::zeros(n),
{
    let c = linear::combination(coeffs, rows, n);
    linear::lemma_combination_len(coeffs, rows, n);
    linear::lemma_combination_columns(coeffs, rows, n, 0, n - 1);
    linear::lemma_combination_vanishes(coeffs, rows, n, n - 1);
    assert forall|j: int| 0 <= j < n implies c[j] == 0 by {
        if j < n - 1 {
            assert(c.subrange(0, n - 1)[j] == c[j]);
        }
    }
    assert(c =~= linear::zeros(n));
}

/// Independent vectors in the span of `rows` are no more than there are rows.
pub proof fn lemma_independent_bound(vectors: Seq<Seq<u8>>, rows: Seq<Seq<u8>>, n: nat)
    requires
        linear::has_width(rows, n),
        linear::spans(rows, vectors, n),
        independent(vectors, n),
    ensures
        vectors.len() <= rows.len(),
{
    if vectors.len() > rows.len() {
        let k = rows.len();
        let inner = Seq::new(
            vectors.len(),
            |i: int|
                choose|a: Seq<u8>|
                    a.len() == k && #[trigger] linear::combination(a, rows, n) == vectors[i],
        );
        assert forall|i: int| 0 <= i < inner.len() implies (#[trigger] inner[i]).len() == k
            && linear::combination(inner[i], rows, n) == vectors[i] by {
            assert(linear::in_span(vectors[i], rows, n));
        }
        assert(linear::product(inner, rows, n) =~= vectors);
        let outer = lemma_dependent(inner, k);
        linear::lemma_combination_product(outer, inner, rows, n);
        linear::lemma_combination_zero(rows, n);
        assert(linear::combination(outer, vectors, n) == linear::zeros(n));
        assert(false);
    }
}

/// A matrix has one rank.
pub proof fn lemma_rank_unique(rows: Seq<Seq<u8>>, n: nat, r: nat, s: nat)
    requires
        linear::has_width(rows, n),
        has_rank(rows, n, r),
        has_rank(rows, n, s),
    ensures
        r == s,
{
    let a = choose|basis: Seq<Seq<u8>>| #[trigger] is_basis(basis, rows, n) && basis.len() == r;
    let b = choose|basis: Seq<Seq<u8>>| #[trigger] is_basis(basis, rows, n) && basis.len() == s;
    linear::lemma_same_span_transitive(a, rows, b, n);
    lemma_independent_bound(a, b, n);
    lemma_independent_bound(b, a, n);
}

/// The rank is at most the number of rows and the number of columns.
pub proof fn lemma_rank_bound(rows: Seq<Seq<u8>>, n: nat, r: nat)
    requires
        linear::has_width(rows, n),
        has_rank(rows, n, r),
    ensures
        r <= rows.len(),
        r <= n,
{
    let a = choose|basis: Seq<Seq<u8>>| #[trigger] is_basis(basis, rows, n) && basis.len() == r;
    lemma_independent_bound(a, rows, n);
    if a.len() > n {
        let coeffs = lemma_dependent(a, n);
        assert(linear::combination(coeffs, a, n) == linear::zeros(n));
        assert(false);
    }
}

/// Linearly independent rows have full rank.
pub proof fn lemma_independent_rank(rows: Seq<Seq<u8>>, n: nat)
    requires
        linear::has_width(rows, n),
        independent(rows, n),
    ensures
        has_rank(rows, n, rows.len()),
{
    linear::lemma_same_span_reflexive(rows, n);
    assert(is_basis(rows, rows, n));
}

/// The pivot rows of a reduced matrix are a basis of its row space.
pub proof fn lemma_rref_rank(rows: Seq<Seq<u8>>, n: nat, pivots: Seq<usize>)
    requires
        linear::has_width(rows, n),
        echelon::is_rref(rows, n, pivots),
    ensures
        is_basis(rows.take(pivots.len() as int), rows, n),
        has_rank(rows, n, pivots.len()),
{
    let k = pivots.len();
    let basis = rows.take(k as int);
    assert forall|coeffs: Seq<u8>|
        coeffs.len() == basis.len() && #[trigger] linear::combination(coeffs, basis, n)
            == linear::zeros(n) implies coeffs == linear::zeros(basis.len()) by {
        assert forall|i: int| 0 <= i < k implies coeffs[i] == 0 by {
            let p = pivots[i] as int;
            assert(echelon::leads(rows[i], p));
            assert forall|r: int| 0 <= r < basis.len() && r != i implies #[trigger] basis[r][p]
                == 0 by {
                assert(rows[r][p] == 0);
            }
            linear::lemma_combination_at(coeffs, basis, n, i, p);
            math::lemma_mul_units(coeffs[i]);
        }
        assert(coeffs =~= linear::zeros(basis.len()));
    }
    assert forall|i: int| 0 <= i < rows.len() implies linear::in_span(
        #[trigger] rows[i],
        basis,
        n,
    ) by {
        if i < k {
            linear::lemma_span_of_row(basis, n, i);
            assert(basis[i] == rows[i]);
        } else {
            linear::lemma_combination_zero(basis, n);
            assert(rows[i].len() == n);
            assert forall|j: int| 0 <= j < n implies rows[i][j] == 0 by {}
            assert(rows[i] =~= linear::zeros(n));
            assert(linear::combination(linear::zeros(basis.len()), basis, n) == rows[i]);
        }
    }
    assert forall|i: int| 0 <= i < basis.len() implies linear::in_span(
        #[trigger] basis[i],
        rows,
        n,
    ) by {
        linear::lemma_span_of_row(rows, n, i);
        assert(basis[i] == rows[i]);
    }
    assert(is_basis(basis, rows, n));
}

/// Lists of vectors with the same span have the same rank.
pub proof fn lemma_rank_of_span(a: Seq<Seq<u8>>, b: Seq<Seq<u8>>, n: nat, r: nat)
    requires
        linear::has_width(a, n),
        linear::has_width(b, n),
        linear::same_span(a, b, n),
        has_rank(a, n, r),
    ensures
        has_rank(b, n, r),
{
    let basis = choose|basis: Seq<Seq<u8>>| #[trigger] is_basis(basis, a, n) && basis.len() == r;
    linear::lemma_same_span_transitive(basis, a, b, n);
    assert(is_basis(basis, b, n));
}

/// Every pivot of a reduced matrix is a pivot of any other with the same row space.
proof fn lemma_pivot_shared(
    a: Seq<Seq<u8>>,
    p: Seq<usize>,
    b: Seq<Seq<u8>>,
    q: Seq<usize>,
    n: nat,
    j: int,
)
    requires
        linear::has_width(a, n),
        linear::has_width(b, n),
        echelon::is_rref(a, n, p),
        echelon::is_rref(b, n, q),
        linear::spans(a, b, n),
        0 <= j < q.len(),
    ensures
        exists|i: int| 0 <= i < p.len() && p[i] == q[j],
{
    let c = q[j] as int;
    if forall|i: int| 0 <= i < p.len() ==> p[i] != q[j] {
        assert(linear::in_span(b[j], a, n));
        let coeffs = choose|x: Seq<u8>|
            x.len() == a.len() && #[trigger] linear::combination(x, a, n) == b[j];
        assert(echelon::leads(b[j], c));
        assert forall|r: int| 0 <= r < a.len() implies coeffs[r] == 0 || #[trigger] a[r][c]
            == 0 by {
            if r < p.len() {
                assert(echelon::leads(a[r], p[r] as int));
                if p[r] < c {
                    lemma_rref_coefficient(a, n, p, coeffs, r);
                }
            }
        }
        linear::lemma_combination_vanishes(coeffs, a, n, c);
    }
}

/// The coefficient of a pivot row can be read off at its pivot.
pub proof fn lemma_rref_coefficient(
    rows: Seq<Seq<u8>>,
    n: nat,
    pivots: Seq<usize>,
    coeffs: Seq<u8>,
    i: int,
)
    requires
        linear::has_width(rows, n),
        echelon::is_rref(rows, n, pivots),
        coeffs.len() == rows.len(),
        0 <= i < pivots.len(),
    ensures
        linear::combination(coeffs, rows, n)[pivots[i] as int] == coeffs[i],
{
    let p = pivots[i] as int;
    assert(echelon::leads(rows[i], p));
    linear::lemma_combination_at(coeffs, rows, n, i, p);
    math::lemma_mul_units(coeffs[i]);
}

/// Reduced row echelon form is unique: of the matrices with the same row space
/// and number of rows, one is reduced.  In particular, reducing a reduced
/// matrix gives it back.
pub proof fn lemma_rref_unique(
    a: Seq<Seq<u8>>,
    p: Seq<usize>,
    b: Seq<Seq<u8>>,
    q: Seq<usize>,
    n: nat,
)
    requires
        linear::has_width(a, n),
        linear::has_width(b, n),
        a.len() == b.len(),
        echelon::is_rref(a, n, p),
        echelon::is_rref(b, n, q),
        linear::same_span(a, b, n),
    ensures
        a == b,
        p == q,
{
    lemma_pivots_equal(a, p, b, q, n);
    assert forall|i: int| 0 <= i < a.len() implies a[i] == b[i] by {
        assert(a[i].len() == n && b[i].len() == n);
        if i < p.len() {
            assert(linear::in_span(b[i], a, n));
            let coeffs = choose|x: Seq<u8>|
                x.len() == a.len() && #[trigger] linear::combination(x, a, n) == b[i];
            assert(echelon::leads(b[i], q[i] as int));
            assert forall|k: int| 0 <= k < p.len() implies coeffs[k] == (if k == i {
                1u8
            } else {
                0u8
            }) by {
                lemma_rref_coefficient(a, n, p, coeffs, k);
                if k != i {
                    assert(b[i][q[k] as int] == 0);
                }
            }
            assert forall|j: int| 0 <= j < n implies a[i][j] == b[i][j] by {
                assert forall|r: int| 0 <= r < a.len() && r != i implies coeffs[r] == 0
                    || #[trigger] a[r][j] == 0 by {}
                linear::lemma_combination_at(coeffs, a, n, i, j);
                math::lemma_mul_units(a[i][j]);
                math::lemma_mul_commutes(1, a[i][j]);
            }
        } else {
            assert forall|j: int| 0 <= j < n implies a[i][j] == b[i][j] by {
                assert(a[i][j] == 0);
                assert(b[i][j] == 0);
            }
        }
        assert(a[i] =~= b[i]);
    }
    assert(a =~= b);
}

proof fn lemma_pivots_equal(
    a: Seq<Seq<u8>>,
    p: Seq<usize>,
    b: Seq<Seq<u8>>,
    q: Seq<usize>,
    n: nat,
)
    requires
        linear::has_width(a, n),
        linear::has_width(b, n),
        echelon::is_rref(a, n, p),
        echelon::is_rref(b, n, q),
        linear::same_span(a, b, n),
    ensures
        p == q,
{
    assert forall|x: usize| #[trigger] q.contains(x) implies p.contains(x) by {
        let j = choose|j: int| 0 <= j < q.len() && q[j] == x;
        lemma_pivot_shared(a, p, b, q, n, j);
    }
    assert forall|x: usize| #[trigger] p.contains(x) implies q.contains(x) by {
        let j = choose|j: int| 0 <= j < p.len() && p[j] == x;
        lemma_pivot_shared(b, q, a, p, n, j);
    }
    lemma_increasing_equal(p, q, p.len() as int);
}

/// Strictly increasing sequences with the same members are equal.
proof fn lemma_increasing_equal(p: Seq<usize>, q: Seq<usize>, n: int)
    requires
        echelon::increasing(p),
        echelon::increasing(q),
        forall|x: usize| #[trigger] p.contains(x) ==> q.contains(x),
        forall|x: usize| #[trigger] q.contains(x) ==> p.contains(x),
        0 <= n <= p.len(),
    ensures
        n <= q.len(),
        forall|i: int| 0 <= i < n ==> p[i] == q[i],
        n == p.len() ==> p == q,
    decreases n,
{
    if n > 0 {
        lemma_increasing_equal(p, q, n - 1);
        let last = n - 1;
        assert(p.contains(p[last]));
        let i = choose|i: int| 0 <= i < q.len() && q[i] == p[last];
        if i < last {
            assert(p[i] < p[last]);
        }
        if q[last] != p[last] {
            assert(q.contains(q[last]));
            let k = choose|k: int| 0 <= k < p.len() && p[k] == q[last];
            assert(q[last] < q[i]);
            if k < last {
                assert(q[k] < q[last]);
            } else if k > last {
                assert(p[last] < p[k]);
            }
        }
    }
    if n == p.len() {
        if q.len() > n {
            assert(q.contains(q[n]));
            let k = choose|k: int| 0 <= k < p.len() && p[k] == q[n];
            assert(q[k] < q[n]);
        }
        assert(p =~= q);
    }
}

} // verus!
