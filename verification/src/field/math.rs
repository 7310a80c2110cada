//! The arithmetic of GF(2^8) as spec functions on bytes, and its laws.
use vstd::prelude::*;

verus! {

/// Multiplication by the polynomial `x`, reduced by x^8 + x^4 + x^3 + x + 1.
pub open spec fn xtime(a: u8) -> u8 {
    (a << 1) ^ (if a & 0x80 == 0x80 {
        0x1bu8
    } else {
        0u8
    })
}

/// `a` if bit `i` of `b` is set, and zero otherwise.
pub open spec fn select(a: u8, b: u8, i: u8) -> u8 {
    if (b >> i) & 1 == 1 {
        a
    } else {
        0u8
    }
}

/// The product of two field elements: the sum of `a * x^i` over the set bits `i` of `b`.
#[verifier::opaque]
pub open spec fn gf_mul(a: u8, b: u8) -> u8 {
    let a1 = xtime(a);
    let a2 = xtime(a1);
    let a3 = xtime(a2);
    let a4 = xtime(a3);
    let a5 = xtime(a4);
    let a6 = xtime(a5);
    let a7 = xtime(a6);
    select(a, b, 0) ^ select(a1, b, 1) ^ select(a2, b, 2) ^ select(a3, b, 3) ^ select(a4, b, 4)
        ^ select(a5, b, 5) ^ select(a6, b, 6) ^ select(a7, b, 7)
}

/// Three times `a`: the sum of `a` and `a * x`.
pub open spec fn triple(a: u8) -> u8 {
    xtime(a) ^ a
}

pub proof fn lemma_triple(a: u8)
    ensures
        gf_mul(3, a) == triple(a),
{
    assert(gf_mul(3, a) == triple(a)) by (bit_vector);
}

/// Multiplication is commutative.
pub proof fn lemma_mul_commutes(a: u8, b: u8)
    ensures
        gf_mul(a, b) == gf_mul(b, a),
{
    assert(gf_mul(a, b) == gf_mul(b, a)) by (bit_vector);
}

/// Multiplication distributes over addition.
pub proof fn lemma_mul_distributes(a: u8, b: u8, c: u8)
    ensures
        gf_mul(a, b ^ c) == gf_mul(a, b) ^ gf_mul(a, c),
{
    assert(gf_mul(a, b ^ c) == gf_mul(a, b) ^ gf_mul(a, c)) by (bit_vector);
}

proof fn lemma_mul_xtime(a: u8, b: u8)
    ensures
        gf_mul(a, xtime(b)) == xtime(gf_mul(a, b)),
{
    assert(gf_mul(a, xtime(b)) == xtime(gf_mul(a, b))) by (bit_vector);
}

/// Zero absorbs and one is neutral in a product.
pub proof fn lemma_mul_units(a: u8)
    ensures
        gf_mul(a, 0) == 0,
        gf_mul(a, 1) == a,
{
    assert(gf_mul(a, 0) == 0 && gf_mul(a, 1) == a) by (bit_vector);
}

/// `a` times the part of `b` that bit `i` of `c` selects.
proof fn lemma_mul_select(a: u8, b: u8, c: u8, i: u8)
    ensures
        gf_mul(a, select(b, c, i)) == select(gf_mul(a, b), c, i),
{
    lemma_mul_units(a);
}

/// Multiplication is associative.
pub proof fn lemma_mul_associates(a: u8, b: u8, c: u8)
    ensures
        gf_mul(gf_mul(a, b), c) == gf_mul(a, gf_mul(b, c)),
{
    reveal(gf_mul);
    let b1 = xtime(b);
    let b2 = xtime(b1);
    let b3 = xtime(b2);
    let b4 = xtime(b3);
    let b5 = xtime(b4);
    let b6 = xtime(b5);
    let b7 = xtime(b6);
    lemma_mul_xtime(a, b);
    lemma_mul_xtime(a, b1);
    lemma_mul_xtime(a, b2);
    lemma_mul_xtime(a, b3);
    lemma_mul_xtime(a, b4);
    lemma_mul_xtime(a, b5);
    lemma_mul_xtime(a, b6);
    lemma_mul_select(a, b, c, 0);
    lemma_mul_select(a, b1, c, 1);
    lemma_mul_select(a, b2, c, 2);
    lemma_mul_select(a, b3, c, 3);
    lemma_mul_select(a, b4, c, 4);
    lemma_mul_select(a, b5, c, 5);
    lemma_mul_select(a, b6, c, 6);
    lemma_mul_select(a, b7, c, 7);
    let s1 = select(b, c, 0) ^ select(b1, c, 1);
    let s2 = s1 ^ select(b2, c, 2);
    let s3 = s2 ^ select(b3, c, 3);
    let s4 = s3 ^ select(b4, c, 4);
    let s5 = s4 ^ select(b5, c, 5);
    let s6 = s5 ^ select(b6, c, 6);
    lemma_mul_distributes(a, select(b, c, 0), select(b1, c, 1));
    lemma_mul_distributes(a, s1, select(b2, c, 2));
    lemma_mul_distributes(a, s2, select(b3, c, 3));
    lemma_mul_distributes(a, s3, select(b4, c, 4));
    lemma_mul_distributes(a, s4, select(b5, c, 5));
    lemma_mul_distributes(a, s5, select(b6, c, 6));
    lemma_mul_distributes(a, s6, select(b7, c, 7));
}

/// The multiplicative inverse of `a`: the element whose product with `a` is one.
pub open spec fn gf_inv(a: u8) -> u8 {
    choose|b: u8| gf_mul(a, b) == 1
}

/// An element has at most one inverse.
pub proof fn lemma_inverse_unique(a: u8, b: u8)
    requires
        gf_mul(a, b) == 1,
    ensures
        gf_inv(a) == b,
{
    let c = gf_inv(a);
    assert(gf_mul(a, c) == 1);
    lemma_mul_associates(c, a, b);
    lemma_mul_commutes(a, c);
    lemma_mul_units(c);
    lemma_mul_units(b);
    lemma_mul_commutes(1, b);
}

/// Addition is commutative and associative, zero is neutral, and every element
/// is its own negative.
pub proof fn lemma_add_laws(a: u8, b: u8, c: u8)
    ensures
        a ^ b == b ^ a,
        (a ^ b) ^ c == a ^ (b ^ c),
        a ^ 0 == a,
        0 ^ a == a,
        a ^ a == 0,
        (a ^ b) ^ b == a,
{
    assert(a ^ b == b ^ a && (a ^ b) ^ c == a ^ (b ^ c) && a ^ 0 == a && 0 ^ a == a && a ^ a == 0
        && (a ^ b) ^ b == a) by (bit_vector);
}

/// The inner two of four summands may trade places.
pub proof fn lemma_add_exchange(a: u8, b: u8, c: u8, d: u8)
    ensures
        (a ^ b) ^ (c ^ d) == (a ^ c) ^ (b ^ d),
{
    assert((a ^ b) ^ (c ^ d) == (a ^ c) ^ (b ^ d)) by (bit_vector);
}

} // verus!
