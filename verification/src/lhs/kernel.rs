//! The basis of the gadget kernel reaches the whole kernel.
use super::gadget;
use super::params;
use crate::lattice::integers;
use vstd::arithmetic::div_mod::*;
use vstd::arithmetic::mul::*;
use vstd::arithmetic::power2::{lemma_pow2_unfold, pow2};
use vstd::prelude::*;

verus! {

/// The coefficients that take a vector apart along the rows `2 * e_i - e_(i+1)`,
/// from position `t` on.
spec fn carry(u: Seq<int>, t: int) -> int
    decreases u.len() - t,
{
    if t >= u.len() {
        0
    } else {
        2 * carry(u, t + 1) - u[t]
    }
}

proof fn lemma_carry(u: Seq<int>, k: nat, t: int)
    requires
        u.len() == k,
        0 <= t <= k,
    ensures
        pow2(t as nat) * carry(u, t) == integers::dot(gadget::powers(k).take(t), u.take(t))
            - integers::dot(gadget::powers(k), u),
    decreases k - t,
{
    let p = gadget::powers(k);
    if t == k {
        assert(p.take(t) =~= p);
        assert(u.take(t) =~= u);
        lemma_mul_basics(pow2(t as nat) as int);
    } else {
        lemma_carry(u, k, t + 1);
        integers::lemma_dot_step(p, u, t);
        lemma_pow2_unfold((t + 1) as nat);
        let (w, c, x) = (pow2(t as nat) as int, carry(u, t + 1), u[t]);
        assert(w * (2 * c - x) == (2 * w) * c - w * x) by (nonlinear_arith);
    }
}

proof fn lemma_band(z: Seq<int>, column: Seq<int>, j: int)
    requires
        z.len() == column.len(),
        forall|i: int|
            0 <= i < z.len() ==> #[trigger] column[i] == (if i == j {
                2int
            } else if i == j - 1 {
                -1int
            } else {
                0int
            }),
    ensures
        integers::dot(z, column) == (if 0 <= j < z.len() {
            2 * z[j]
        } else {
            0
        }) - (if 0 <= j - 1 < z.len() {
            z[j - 1]
        } else {
            0
        }),
    decreases z.len(),
{
    if z.len() > 0 {
        let (y, c) = (z.drop_last(), column.drop_last());
        assert forall|i: int| 0 <= i < y.len() implies #[trigger] c[i] == (if i == j {
            2int
        } else if i == j - 1 {
            -1int
        } else {
            0int
        }) by {
            assert(c[i] == column[i]);
        }
        lemma_band(y, c, j);
        let n = z.len() - 1;
        let (x, e) = (z[n], column[n]);
        assert(integers::dot(z, column) == integers::dot(y, c) + x * e);
        assert(x * e == (if n == j {
            2 * x
        } else if n == j - 1 {
            -x
        } else {
            0
        })) by (nonlinear_arith)
            requires
                e == (if n == j {
                    2int
                } else if n == j - 1 {
                    -1int
                } else {
                    0int
                }),
        ;
    }
}

/// For a modulus other than a power of two, every vector that the weights of a
/// block map to zero modulo `q` is a combination of the rows of the kernel basis:
/// no offset in the kernel is out of the sampler's reach.
pub proof fn lemma_kernel_spanned(q: u32, v: Seq<int>)
    requires
        q >= 2,
        q != pow2(params::gadget_bits(q as nat)),
        v.len() == params::gadget_bits(q as nat),
        integers::dot(gadget::powers(v.len()), v) % q as int == 0,
    ensures
        exists|z: Seq<int>|
            z.len() == v.len() && v == #[trigger] integers::combination(
                z,
                gadget::kernel_basis(q as nat).rows,
                v.len(),
            ),
{
    let k = v.len();
    let p = gadget::powers(k);
    let rows = gadget::kernel_basis(q as nat).rows;
    let last = gadget::bits(q as int, k);
    let c = integers::dot(p, v) / q as int;
    let u = integers::sum(v, integers::scaled(-c, last));
    params::lemma_gadget_bits(q);
    gadget::lemma_bits_value(q as int, k);
    lemma_small_mod(q as nat, pow2(k));
    integers::lemma_dot_linear(p, v, -c, last);
    lemma_fundamental_div_mod(integers::dot(p, v), q as int);
    assert(q as int * c + (-c) * q as int == 0) by (nonlinear_arith);
    assert(integers::dot(p, u) == 0);
    lemma_carry(u, k, 0);
    vstd::arithmetic::power2::lemma2_to64();
    assert(integers::dot(p.take(0), u.take(0)) == 0);
    assert(pow2(0) * carry(u, 0) == carry(u, 0)) by {
        lemma_mul_basics(carry(u, 0));
    }
    assert(carry(u, 0) == 0);
    let z = Seq::new(
        k,
        |i: int|
            if i < k - 1 {
                carry(u, i + 1)
            } else {
                c
            },
    );
    let reached = integers::combination(z, rows, k);
    assert forall|j: int| 0 <= j < k implies reached[j] == v[j] by {
        let column = integers::column(rows, j);
        let band = column.drop_last();
        assert forall|i: int| 0 <= i < band.len() implies #[trigger] band[i] == (if i == j {
            2int
        } else if i == j - 1 {
            -1int
        } else {
            0int
        }) by {
            assert(band[i] == rows[i][j]);
        }
        lemma_band(z.drop_last(), band, j);
        assert(column.last() == last[j]);
        assert(u[j] == 2 * carry(u, j + 1) - carry(u, j));
        assert(u[j] == v[j] + (-c) * last[j]);
        assert((-c) * last[j] == -(c * last[j])) by (nonlinear_arith);
    }
    assert(reached =~= v);
}

} // verus!
