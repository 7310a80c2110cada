//! Vectors and matrices over GF(2^8) as sequences of bytes: linear
//! combinations, spans, and how they behave.
use crate::field::math;
use vstd::prelude::*;

verus! {

/// The zero vector of length `n`.
pub open spec fn zeros(n: nat) -> Seq<u8> {
    Seq::new(n, |i: int| 0u8)
}

/// The vector of length `n` with a one at `i` and zeros elsewhere.
pub open spec fn unit(n: nat, i: int) -> Seq<u8> {
    Seq::new(
        n,
        |j: int|
            if j == i {
                1u8
            } else {
                0u8
            },
    )
}

/// The element-wise sum of two vectors.
pub open spec fn sum(a: Seq<u8>, b: Seq<u8>) -> Seq<u8> {
    Seq::new(a.len(), |i: int| a[i] ^ b[i])
}

/// The multiple of a vector by a scalar.
pub open spec fn scaled(c: u8, v: Seq<u8>) -> Seq<u8> {
    Seq::new(v.len(), |i: int| math::gf_mul(c, v[i]))
}

/// Every row has length `n`.
pub open spec fn has_width(rows: Seq<Seq<u8>>, n: nat) -> bool {
    forall|i: int| 0 <= i < rows.len() ==> (#[trigger] rows[i]).len() == n
}

/// The linear combination of vectors of length `n` with the given coefficients.
pub open spec fn combination(coeffs: Seq<u8>, rows: Seq<Seq<u8>>, n: nat) -> Seq<u8>
    decreases coeffs.len(),
{
    if coeffs.len() == 0 {
        zeros(n)
    } else {
        sum(
            combination(coeffs.drop_last(), rows.drop_last(), n),
            scaled(coeffs.last(), rows.last()),
        )
    }
}

/// `v` is a linear combination of `rows`.
pub open spec fn in_span(v: Seq<u8>, rows: Seq<Seq<u8>>, n: nat) -> bool {
    exists|coeffs: Seq<u8>|
        coeffs.len() == rows.len() && #[trigger] combination(coeffs, rows, n) == v
}

/// Every one of `others` is a linear combination of `rows`.
pub open spec fn spans(rows: Seq<Seq<u8>>, others: Seq<Seq<u8>>, n: nat) -> bool {
    forall|i: int| 0 <= i < others.len() ==> in_span(#[trigger] others[i], rows, n)
}

/// Two lists of vectors have the same linear combinations.
pub open spec fn same_span(a: Seq<Seq<u8>>, b: Seq<Seq<u8>>, n: nat) -> bool {
    spans(a, b, n) && spans(b, a, n)
}

/// The columns `from..to` of every row.
pub open spec fn columns(rows: Seq<Seq<u8>>, from: int, to: int) -> Seq<Seq<u8>> {
    Seq::new(rows.len(), |i: int| rows[i].subrange(from, to))
}

pub proof fn lemma_combination_len(coeffs: Seq<u8>, rows: Seq<Seq<u8>>, n: nat)
    ensures
        combination(coeffs, rows, n).len() == n,
    decreases coeffs.len(),
{
    if coeffs.len() > 0 {
        lemma_combination_len(coeffs.drop_last(), rows.drop_last(), n);
    }
}

/// Where every term but the one of row `i` vanishes, a combination is that term.
pub proof fn lemma_combination_at(
    coeffs: Seq<u8>,
    rows: Seq<Seq<u8>>,
    n: nat,
    i: int,
    j: int,
)
    requires
        coeffs.len() == rows.len(),
        has_width(rows, n),
        0 <= j < n,
        0 <= i < rows.len(),
        forall|r: int|
            0 <= r < rows.len() && r != i ==> coeffs[r] == 0 || #[trigger] rows[r][j] == 0,
    ensures
        combination(coeffs, rows, n)[j] == math::gf_mul(coeffs[i], rows[i][j]),
    decreases rows.len(),
{
    let (cs, rs) = (coeffs.drop_last(), rows.drop_last());
    let last = rows.len() - 1;
    lemma_combination_len(cs, rs, n);
    assert(rows[last].len() == n);
    let (x, y) = (combination(cs, rs, n)[j], math::gf_mul(coeffs[last], rows[last][j]));
    math::lemma_mul_units(coeffs[last]);
    math::lemma_mul_units(rows[last][j]);
    math::lemma_mul_commutes(coeffs[last], rows[last][j]);
    math::lemma_add_laws(x, y, 0);
    math::lemma_add_laws(y, x, 0);
    assert forall|r: int| 0 <= r < rs.len() implies rs[r][j] == rows[r][j] by {}
    if i == last {
        lemma_combination_vanishes(cs, rs, n, j);
    } else {
        lemma_combination_at(cs, rs, n, i, j);
        assert(coeffs[last] == 0 || rows[last][j] == 0);
    }
}

/// Where every term vanishes, a combination is zero.
pub proof fn lemma_combination_vanishes(coeffs: Seq<u8>, rows: Seq<Seq<u8>>, n: nat, j: int)
    requires
        coeffs.len() == rows.len(),
        has_width(rows, n),
        0 <= j < n,
        forall|r: int| 0 <= r < rows.len() ==> coeffs[r] == 0 || #[trigger] rows[r][j] == 0,
    ensures
        combination(coeffs, rows, n)[j] == 0,
    decreases rows.len(),
{
    if rows.len() > 0 {
        let (cs, rs) = (coeffs.drop_last(), rows.drop_last());
        let last = rows.len() - 1;
        lemma_combination_len(cs, rs, n);
        assert(rows[last].len() == n);
        assert forall|r: int| 0 <= r < rs.len() implies rs[r][j] == rows[r][j] by {}
        lemma_combination_vanishes(cs, rs, n, j);
        assert(coeffs[last] == 0 || rows[last][j] == 0);
        math::lemma_mul_units(coeffs[last]);
        math::lemma_mul_units(rows[last][j]);
        math::lemma_mul_commutes(coeffs[last], rows[last][j]);
        math::lemma_add_laws(0, 0, 0);
    }
}

/// A combination with zero coefficients is zero.
pub proof fn lemma_combination_zero(rows: Seq<Seq<u8>>, n: nat)
    requires
        has_width(rows, n),
    ensures
        combination(zeros(rows.len()), rows, n) == zeros(n),
{
    let c = combination(zeros(rows.len()), rows, n);
    lemma_combination_len(zeros(rows.len()), rows, n);
    assert forall|j: int| 0 <= j < n implies c[j] == 0 by {
        lemma_combination_vanishes(zeros(rows.len()), rows, n, j);
    }
    assert(c =~= zeros(n));
}

/// A combination with a unit vector of coefficients picks one row.
pub proof fn lemma_combination_unit(rows: Seq<Seq<u8>>, n: nat, i: int)
    requires
        has_width(rows, n),
        0 <= i < rows.len(),
    ensures
        combination(unit(rows.len(), i), rows, n) == rows[i],
{
    let c = combination(unit(rows.len(), i), rows, n);
    lemma_combination_len(unit(rows.len(), i), rows, n);
    assert forall|j: int| 0 <= j < n implies c[j] == rows[i][j] by {
        lemma_combination_at(unit(rows.len(), i), rows, n, i, j);
        math::lemma_mul_units(rows[i][j]);
        math::lemma_mul_commutes(1, rows[i][j]);
    }
    assert(c =~= rows[i]);
}

/// Combinations add by adding coefficients.
pub proof fn lemma_combination_sum(a: Seq<u8>, b: Seq<u8>, rows: Seq<Seq<u8>>, n: nat)
    requires
        a.len() == rows.len(),
        b.len() == rows.len(),
        has_width(rows, n),
    ensures
        combination(sum(a, b), rows, n) == sum(combination(a, rows, n), combination(b, rows, n)),
    decreases rows.len(),
{
    if rows.len() == 0 {
        math::lemma_add_laws(0, 0, 0);
        assert(sum(zeros(n), zeros(n)) =~= zeros(n));
    } else {
        let (a0, b0, r0) = (a.drop_last(), b.drop_last(), rows.drop_last());
        lemma_combination_sum(a0, b0, r0, n);
        assert(sum(a, b).drop_last() =~= sum(a0, b0));
        let (ca, cb) = (combination(a0, r0, n), combination(b0, r0, n));
        lemma_combination_len(a0, r0, n);
        lemma_combination_len(b0, r0, n);
        lemma_combination_len(sum(a0, b0), r0, n);
        let last = rows.len() - 1;
        assert(rows[last].len() == n);
        let l = combination(sum(a, b), rows, n);
        let r = sum(combination(a, rows, n), combination(b, rows, n));
        assert forall|j: int| 0 <= j < n implies l[j] == r[j] by {
            let v = rows[last][j];
            math::lemma_mul_distributes(v, a[last], b[last]);
            math::lemma_mul_commutes(v, a[last]);
            math::lemma_mul_commutes(v, b[last]);
            math::lemma_mul_commutes(v, a[last] ^ b[last]);
            math::lemma_add_exchange(ca[j], cb[j], math::gf_mul(a[last], v), math::gf_mul(b[last], v));
        }
        assert(l =~= r);
    }
}

/// Combinations scale by scaling coefficients.
pub proof fn lemma_combination_scaled(c: u8, a: Seq<u8>, rows: Seq<Seq<u8>>, n: nat)
    requires
        a.len() == rows.len(),
        has_width(rows, n),
    ensures
        combination(scaled(c, a), rows, n) == scaled(c, combination(a, rows, n)),
    decreases rows.len(),
{
    if rows.len() == 0 {
        math::lemma_mul_units(c);
        assert(scaled(c, zeros(n)) =~= zeros(n));
    } else {
        let (a0, r0) = (a.drop_last(), rows.drop_last());
        lemma_combination_scaled(c, a0, r0, n);
        assert(scaled(c, a).drop_last() =~= scaled(c, a0));
        let ca = combination(a0, r0, n);
        lemma_combination_len(a0, r0, n);
        lemma_combination_len(scaled(c, a0), r0, n);
        let last = rows.len() - 1;
        assert(rows[last].len() == n);
        let l = combination(scaled(c, a), rows, n);
        let r = scaled(c, combination(a, rows, n));
        assert forall|j: int| 0 <= j < n implies l[j] == r[j] by {
            let v = rows[last][j];
            math::lemma_mul_distributes(c, ca[j], math::gf_mul(a[last], v));
            math::lemma_mul_associates(c, a[last], v);
        }
        assert(l =~= r);
    }
}

/// The rows that combine `rows` with each row of `coeffs`.
pub open spec fn product(coeffs: Seq<Seq<u8>>, rows: Seq<Seq<u8>>, n: nat) -> Seq<Seq<u8>> {
    Seq::new(coeffs.len(), |i: int| combination(coeffs[i], rows, n))
}

/// A combination of combinations is a combination.
pub proof fn lemma_combination_product(
    outer: Seq<u8>,
    inner: Seq<Seq<u8>>,
    rows: Seq<Seq<u8>>,
    n: nat,
)
    requires
        outer.len() == inner.len(),
        has_width(inner, rows.len()),
        has_width(rows, n),
    ensures
        combination(outer, product(inner, rows, n), n) == combination(
            combination(outer, inner, rows.len()),
            rows,
            n,
        ),
    decreases outer.len(),
{
    let k = rows.len();
    if outer.len() == 0 {
        lemma_combination_zero(rows, n);
    } else {
        let (o, m) = (outer.drop_last(), inner.drop_last());
        lemma_combination_product(o, m, rows, n);
        assert(product(inner, rows, n).drop_last() =~= product(m, rows, n));
        let last = inner.len() - 1;
        assert(inner[last].len() == k);
        lemma_combination_len(o, m, k);
        lemma_combination_sum(
            combination(o, m, k),
            scaled(outer[last], inner[last]),
            rows,
            n,
        );
        lemma_combination_scaled(outer[last], inner[last], rows, n);
    }
}

/// Cutting columns commutes with combining.
pub proof fn lemma_combination_columns(
    coeffs: Seq<u8>,
    rows: Seq<Seq<u8>>,
    n: nat,
    from: int,
    to: int,
)
    requires
        coeffs.len() == rows.len(),
        has_width(rows, n),
        0 <= from <= to <= n,
    ensures
        combination(coeffs, columns(rows, from, to), (to - from) as nat) == combination(
            coeffs,
            rows,
            n,
        ).subrange(from, to),
    decreases rows.len(),
{
    lemma_combination_len(coeffs, rows, n);
    if rows.len() > 0 {
        let (cs, rs) = (coeffs.drop_last(), rows.drop_last());
        lemma_combination_columns(cs, rs, n, from, to);
        assert(columns(rows, from, to).drop_last() =~= columns(rs, from, to));
        lemma_combination_len(cs, rs, n);
        assert(rows[rows.len() - 1].len() == n);
    }
    assert(combination(coeffs, columns(rows, from, to), (to - from) as nat) =~= combination(
        coeffs,
        rows,
        n,
    ).subrange(from, to));
}

/// Every row is in the span of its list.
pub proof fn lemma_span_of_row(rows: Seq<Seq<u8>>, n: nat, i: int)
    requires
        has_width(rows, n),
        0 <= i < rows.len(),
    ensures
        in_span(rows[i], rows, n),
{
    lemma_combination_unit(rows, n, i);
    assert(combination(unit(rows.len(), i), rows, n) == rows[i]);
}

/// The span is closed under sums with multiples.
pub proof fn lemma_span_closed(v: Seq<u8>, c: u8, w: Seq<u8>, rows: Seq<Seq<u8>>, n: nat)
    requires
        has_width(rows, n),
        in_span(v, rows, n),
        in_span(w, rows, n),
    ensures
        in_span(sum(v, scaled(c, w)), rows, n),
        in_span(scaled(c, w), rows, n),
{
    let a = choose|a: Seq<u8>| a.len() == rows.len() && #[trigger] combination(a, rows, n) == v;
    let b = choose|b: Seq<u8>| b.len() == rows.len() && #[trigger] combination(b, rows, n) == w;
    lemma_combination_scaled(c, b, rows, n);
    lemma_combination_sum(a, scaled(c, b), rows, n);
    assert(combination(sum(a, scaled(c, b)), rows, n) == sum(v, scaled(c, w)));
    assert(combination(scaled(c, b), rows, n) == scaled(c, w));
}

/// What is spanned by spanned vectors is spanned.
pub proof fn lemma_span_transitive(
    v: Seq<u8>,
    middle: Seq<Seq<u8>>,
    rows: Seq<Seq<u8>>,
    n: nat,
)
    requires
        has_width(rows, n),
        spans(rows, middle, n),
        in_span(v, middle, n),
    ensures
        in_span(v, rows, n),
{
    let outer = choose|a: Seq<u8>|
        a.len() == middle.len() && #[trigger] combination(a, middle, n) == v;
    let inner = Seq::new(
        middle.len(),
        |i: int|
            choose|a: Seq<u8>|
                a.len() == rows.len() && #[trigger] combination(a, rows, n) == middle[i],
    );
    assert forall|i: int| 0 <= i < middle.len() implies (#[trigger] inner[i]).len() == rows.len()
        && combination(inner[i], rows, n) == middle[i] by {
        assert(in_span(middle[i], rows, n));
    }
    assert(product(inner, rows, n) =~= middle);
    lemma_combination_product(outer, inner, rows, n);
    lemma_combination_len(outer, inner, rows.len());
    assert(combination(combination(outer, inner, rows.len()), rows, n) == v);
}

/// Having the same span is transitive.
pub proof fn lemma_same_span_transitive(
    a: Seq<Seq<u8>>,
    b: Seq<Seq<u8>>,
    c: Seq<Seq<u8>>,
    n: nat,
)
    requires
        has_width(a, n),
        has_width(b, n),
        has_width(c, n),
        same_span(a, b, n),
        same_span(b, c, n),
    ensures
        same_span(a, c, n),
{
    assert forall|i: int| 0 <= i < c.len() implies in_span(#[trigger] c[i], a, n) by {
        lemma_span_transitive(c[i], b, a, n);
    }
    assert forall|i: int| 0 <= i < a.len() implies in_span(#[trigger] a[i], c, n) by {
        lemma_span_transitive(a[i], b, c, n);
    }
}

pub proof fn lemma_same_span_reflexive(a: Seq<Seq<u8>>, n: nat)
    requires
        has_width(a, n),
    ensures
        same_span(a, a, n),
{
    assert forall|i: int| 0 <= i < a.len() implies in_span(#[trigger] a[i], a, n) by {
        lemma_span_of_row(a, n, i);
    }
}

} // verus!
