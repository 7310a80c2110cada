//! Gadget matrix and its bit-decomposition preimage.
//!
//! The gadget matrix `G` of `n` rows and `n * k` columns over `Z/QZ` is
//! block-diagonal: row `i` holds `[1, 2, 4, .., 2^(k-1)]` in block `i`, where `k`
//! is the number of bits of an element of `Z/QZ`.  It admits a trivial short
//! preimage: the bits of the entries of any target `u`, concatenated, satisfy
//! `G * w = u`.
//!
//! This module exposes [`gadget_preimage`] (bits of `u`) and [`gadget_apply`]
//! (reassembly `G * w`), the entry lookup [`gadget_entry`] used to materialise
//! `G` inside key generation, and the basis [`gadget_kernel_basis`] of the
//! integer vectors that one block maps to zero.
use super::params::{self, LhsParams};
use crate::error::Error;
use crate::lattice::integers::{self, MatrixView};
use crate::lattice::signed;
use crate::lattice::vector;
use crate::lattice::{ZMatrix, Zq, ZqVec};
use vstd::arithmetic::div_mod::*;
use vstd::arithmetic::mul::*;
use vstd::arithmetic::power2::{lemma_pow2_pos, lemma_pow2_unfold, pow2};
use vstd::prelude::*;

verus! {

/// The weights of a block: the first `k` powers of two.
pub open spec fn powers(k: nat) -> Seq<int> {
    Seq::new(k, |t: int| pow2(t as nat) as int)
}

/// The `k` lowest binary digits of `v`, the least significant first.
pub open spec fn bits(v: int, k: nat) -> Seq<int> {
    Seq::new(k, |t: int| (v / pow2(t as nat) as int) % 2)
}

/// The element at `index`, or zero from the end on.
pub open spec fn at_or_zero(w: Seq<int>, index: int) -> int {
    if 0 <= index < w.len() {
        w[index]
    } else {
        0
    }
}

/// Block `i` of a vector that is made of blocks of length `k`.
pub open spec fn block(w: Seq<int>, k: nat, i: int) -> Seq<int> {
    Seq::new(k, |t: int| at_or_zero(w, i * k + t))
}

/// The bits of the elements of `u`, `k` each.
pub open spec fn preimage(u: Seq<int>, k: nat) -> Seq<int> {
    Seq::new(u.len() * k, |t: int| bits(u[t / k as int], k)[t % k as int])
}

/// The entry in row `i` and column `j` of the gadget matrix over `Z/qZ`.
pub open spec fn entry(q: nat, i: int, j: int) -> int {
    let k = params::gadget_bits(q) as int;
    if j / k == i {
        pow2((j % k) as nat) as int % q as int
    } else {
        0
    }
}

/// Row `i` of the gadget matrix with `n` blocks over `Z/qZ`.
pub open spec fn row(q: nat, n: nat, i: int) -> Seq<int> {
    Seq::new(n * params::gadget_bits(q), |j: int| entry(q, i, j))
}

/// The product of the gadget matrix with `n` blocks and an integer vector.
pub open spec fn applied(q: nat, n: nat, w: Seq<int>) -> Seq<int> {
    let k = params::gadget_bits(q);
    Seq::new(n, |i: int| integers::dot(powers(k), block(w, k, i)) % q as int)
}

/// Row `i` of the basis of the gadget kernel: `2 * e_i - e_(i+1)`, and for the
/// last row the bits of `q`.
pub open spec fn kernel_row(q: nat, i: int) -> Seq<int> {
    let k = params::gadget_bits(q);
    if i < k - 1 {
        Seq::new(
            k,
            |t: int|
                if t == i {
                    2int
                } else if t == i + 1 {
                    -1int
                } else {
                    0int
                },
        )
    } else {
        bits(q as int, k)
    }
}

/// The basis of the gadget kernel.
pub open spec fn kernel_basis(q: nat) -> MatrixView {
    let k = params::gadget_bits(q);
    MatrixView { rows: Seq::new(k, |i: int| kernel_row(q, i)), cols: k }
}

/// Where position `i * k + t` stands: at `t` in block `i`.
pub proof fn lemma_block_index(n: nat, k: nat, i: int, t: int)
    requires
        0 <= i < n,
        0 <= t < k,
    ensures
        0 <= i * k + t < n * k,
        (i * k + t) / k as int == i,
        (i * k + t) % k as int == t,
{
    integers::lemma_row_bounds(n, k, i);
    lemma_fundamental_div_mod_converse(i * k + t, k as int, i, t);
}

/// The weighted bits of a number are its remainder by the next power of two.
pub proof fn lemma_bits_value(v: int, k: nat)
    requires
        v >= 0,
    ensures
        integers::dot(powers(k), bits(v, k)) == v % pow2(k) as int,
    decreases k,
{
    if k == 0 {
        vstd::arithmetic::power2::lemma2_to64();
        assert(v % 1 == 0);
    } else {
        let m = (k - 1) as nat;
        lemma_bits_value(v, m);
        assert(powers(k).drop_last() =~= powers(m));
        assert(bits(v, k).drop_last() =~= bits(v, m));
        lemma_pow2_pos(m);
        lemma_pow2_unfold(k);
        lemma_mod_breakdown(v, pow2(m) as int, 2);
        lemma_mul_is_commutative(pow2(m) as int, 2);
    }
}

/// The gadget matrix maps the bits of a vector over `Z/qZ` to that vector.
pub proof fn lemma_preimage_applied(q: u32, u: Seq<int>)
    requires
        q >= 2,
        forall|i: int| 0 <= i < u.len() ==> 0 <= #[trigger] u[i] < q,
    ensures
        applied(q as nat, u.len(), preimage(u, params::gadget_bits(q as nat))) == u,
{
    let k = params::gadget_bits(q as nat);
    let w = preimage(u, k);
    params::lemma_gadget_bits(q);
    assert forall|i: int| 0 <= i < u.len() implies applied(q as nat, u.len(), w)[i] == u[i] by {
        lemma_preimage_block(u, k, i);
        lemma_bits_value(u[i], k);
        lemma_small_mod(u[i] as nat, pow2(k));
        lemma_small_mod(u[i] as nat, q as nat);
    }
    assert(applied(q as nat, u.len(), w) =~= u);
}

/// Block `i` of the bits of a vector holds the bits of element `i`.
pub proof fn lemma_preimage_block(u: Seq<int>, k: nat, i: int)
    requires
        0 <= i < u.len(),
    ensures
        block(preimage(u, k), k, i) == bits(u[i], k),
{
    assert forall|t: int| 0 <= t < k implies block(preimage(u, k), k, i)[t] == bits(
        u[i],
        k,
    )[t] by {
        lemma_block_index(u.len(), k, i, t);
    }
    assert(block(preimage(u, k), k, i) =~= bits(u[i], k));
}

/// A row of the gadget matrix picks its block: the product is that of the
/// weights with the block, modulo `q`.
pub proof fn lemma_row_applied(q: u32, n: nat, i: int, w: Seq<int>)
    requires
        q >= 2,
        0 <= i < n,
        w.len() == n * params::gadget_bits(q as nat),
    ensures
        integers::dot(row(q as nat, n, i), w) % q as int == applied(q as nat, n, w)[i],
{
    let k = params::gadget_bits(q as nat);
    params::lemma_gadget_bits(q);
    let g = row(q as nat, n, i);
    let (start, end) = (i * k, i * k + k);
    integers::lemma_row_bounds(n, k, i);
    let (g0, g1, g2) = (g.subrange(0, start), g.subrange(start, end), g.skip(end));
    let (w0, w1, w2) = (w.subrange(0, start), w.subrange(start, end), w.skip(end));
    assert(g =~= g0 + (g1 + g2));
    assert(w =~= w0 + (w1 + w2));
    integers::lemma_dot_concat(g0, g1 + g2, w0, w1 + w2);
    integers::lemma_dot_concat(g1, g2, w1, w2);
    assert forall|j: int| 0 <= j < n * k && !(start <= j < end) implies #[trigger] g[j] == 0 by {
        if j / k as int == i {
            lemma_fundamental_div_mod(j, k as int);
            lemma_mul_is_commutative(i, k as int);
        }
    }
    assert forall|j: int| 0 <= j < g0.len() implies g0[j] == 0 by {
        assert(g[j] == 0);
    }
    assert forall|j: int| 0 <= j < g2.len() implies g2[j] == 0 by {
        assert(g[end + j] == 0);
    }
    integers::lemma_dot_zeros(w0, g0);
    integers::lemma_dot_zeros(w2, g2);
    assert(w1 =~= block(w, k, i));
    integers::lemma_reduced_congruent(w1, q as int);
    assert forall|t: int| 0 <= t < k implies #[trigger] g1[t] % q as int == powers(k)[t]
        % q as int by {
        lemma_block_index(n, k, i, t);
        lemma_mod_twice(pow2(t as nat) as int, q as int);
    }
    integers::lemma_dot_congruent(g1, powers(k), w1, w1, q as int);
}

/// The gadget matrix maps the rows of the kernel basis to zero, modulo `q`.
pub proof fn lemma_kernel_row(q: u32, i: int)
    requires
        q >= 2,
        0 <= i < params::gadget_bits(q as nat),
    ensures
        kernel_row(q as nat, i).len() == params::gadget_bits(q as nat),
        integers::dot(powers(params::gadget_bits(q as nat)), kernel_row(q as nat, i)) % q as int
            == 0,
{
    let k = params::gadget_bits(q as nat);
    let p = powers(k);
    params::lemma_gadget_bits(q);
    lemma_small_mod(0nat, q as nat);
    if i < k - 1 {
        let r = kernel_row(q as nat, i);
        let (p0, p1, p2) = (p.take(i), p.subrange(i, i + 2), p.skip(i + 2));
        let (r0, r1, r2) = (r.take(i), r.subrange(i, i + 2), r.skip(i + 2));
        assert(p =~= p0 + (p1 + p2));
        assert(r =~= r0 + (r1 + r2));
        integers::lemma_dot_concat(p0, p1 + p2, r0, r1 + r2);
        integers::lemma_dot_concat(p1, p2, r1, r2);
        integers::lemma_dot_zeros(p0, r0);
        integers::lemma_dot_zeros(p2, r2);
        lemma_pow2_unfold((i + 1) as nat);
        assert(p1[1] == 2 * p1[0]);
        reveal_with_fuel(integers::dot, 3);
        assert(p1.drop_last().last() == p1[0]);
        assert(r1.drop_last().last() == 2);
    } else {
        lemma_bits_value(q as int, k);
        lemma_mod_self_0(q as int);
        if q as int == pow2(k) {
        } else {
            lemma_small_mod(q as nat, pow2(k));
        }
    }
}

/// The power of two at `exponent`, reduced.
fn power_of_two<const Q: u32>(exponent: usize) -> (r: Zq<Q>)
    requires
        Q > 0,
        exponent < 32,
    ensures
        r@ == pow2(exponent as nat) as int % Q as int,
{
    let shift: u64 = exponent as u64;
    proof {
        vstd::bits::lemma_u64_pow2_no_overflow(shift as nat);
        vstd::bits::lemma_u64_shl_is_mul(1, shift);
    }
    reduce_u64(1u64 << shift)
}

/// Reduce `v` modulo `Q`.
pub fn reduce_u64<const Q: u32>(v: u64) -> (r: Zq<Q>)
    requires
        Q > 0,
    ensures
        r@ == v as int % Q as int,
{
    let r: u32 = (v % (Q as u64)) as u32;
    proof {
        lemma_small_mod(r as nat, Q as nat);
    }
    Zq::new(r)
}

/// The bit-decomposition preimage of `u` under the gadget matrix.  Bits are
/// ordered low-order first within each coordinate block, and blocks are
/// concatenated in the same order as the entries of `u`.
#[must_use]
pub fn gadget_preimage<const Q: u32>(u: &ZqVec<Q>) -> (w: Vec<i64>)
    requires
        Q >= 2,
        u@.len() * params::gadget_bits(Q as nat) <= usize::MAX,
    ensures
        signed::ints_of(w@) == preimage(u@, params::gadget_bits(Q as nat)),
        forall|i: int| 0 <= i < u@.len() ==> 0 <= #[trigger] u@[i] < Q,
{
    let k: usize = LhsParams::<Q>::k_gadget();
    let ghost kn = k as nat;
    let entries = u.entries();
    assert(entries@.len() == vector::values_of(entries@).len());
    let mut w: Vec<i64> = Vec::new();
    let mut i: usize = 0;
    assert(0 * k == 0);
    while i < entries.len()
        invariant
            kn == k,
            1 <= k <= 32,
            i <= entries@.len(),
            vector::values_of(entries@) == u@,
            Q >= 2,
            forall|s: int| 0 <= s < i ==> 0 <= #[trigger] u@[s] < Q,
            w@.len() == i * k,
            forall|t: int| 0 <= t < w@.len() ==> #[trigger] w@[t] == preimage(u@, kn)[t],
        decreases entries@.len() - i,
    {
        let v: u32 = entries[i].value();
        assert(v == u@[i as int]);
        let mut j: usize = 0;
        while j < k
            invariant
                kn == k,
                1 <= k <= 32,
                i < u@.len(),
                j <= k,
                v == u@[i as int],
                w@.len() == i * k + j,
                forall|t: int| 0 <= t < w@.len() ==> #[trigger] w@[t] == preimage(u@, kn)[t],
            decreases k - j,
        {
            let shift: u32 = j as u32;
            proof {
                vstd::bits::lemma_u32_shr_is_div(v, shift);
                lemma_block_index(u@.len(), kn, i as int, j as int);
            }
            let bit: u32 = (v >> shift) & 1;
            let shifted: u32 = v >> shift;
            assert(shifted & 1 == shifted % 2) by (bit_vector);
            w.push(bit as i64);
            j += 1;
        }
        assert(i * k + k == (i + 1) * k) by (nonlinear_arith);
        i += 1;
    }
    assert(signed::ints_of(w@) =~= preimage(u@, kn));
    w
}

/// Apply the gadget matrix with `n` blocks: `G * w` modulo `Q`.
///
/// A shorter slice than `n * k_gadget` counts as followed by zeros, and a longer
/// one is read only up to there.
pub fn gadget_apply<const Q: u32>(w: &[i64], n: usize) -> (r: ZqVec<Q>)
    requires
        Q >= 2,
        n * params::gadget_bits(Q as nat) <= usize::MAX,
    ensures
        r@ == applied(Q as nat, n as nat, signed::ints_of(w@)),
{
    let k: usize = LhsParams::<Q>::k_gadget();
    let ghost kn = k as nat;
    let ghost ws = signed::ints_of(w@);
    let ghost q = Q as int;
    let mut entries: Vec<Zq<Q>> = Vec::with_capacity(n);
    let mut i: usize = 0;
    while i < n
        invariant
            Q >= 2,
            q == Q as int,
            kn == k,
            k == params::gadget_bits(Q as nat),
            1 <= k <= 32,
            n * k <= usize::MAX,
            i <= n,
            ws == signed::ints_of(w@),
            entries@.len() == i,
            forall|t: int|
                0 <= t < i ==> (#[trigger] entries@[t])@ == integers::dot(
                    powers(kn),
                    block(ws, kn, t),
                ) % q,
        decreases n - i,
    {
        let ghost b = block(ws, kn, i as int);
        let ghost p = powers(kn);
        let mut acc: Zq<Q> = Zq::zero();
        let mut j: usize = 0;
        proof {
            lemma_small_mod(0nat, q as nat);
            assert(p.take(0).len() == 0);
        }
        while j < k
            invariant
                Q >= 2,
                q == Q as int,
                kn == k,
                1 <= k <= 32,
                i < n,
                n * k <= usize::MAX,
                j <= k,
                ws == signed::ints_of(w@),
                p == powers(kn),
                b == block(ws, kn, i as int),
                acc@ == integers::dot(p.take(j as int), b.take(j as int)) % q,
            decreases k - j,
        {
            proof {
                lemma_block_index(n as nat, kn, i as int, j as int);
                integers::lemma_row_bounds(n as nat, kn, i as int);
            }
            let index: usize = i * k + j;
            let w_ij: i64 = if index < w.len() {
                w[index]
            } else {
                0
            };
            let coefficient: Zq<Q> = power_of_two(j);
            let value: Zq<Q> = signed::residue(w_ij);
            proof {
                integers::lemma_dot_step(p, b, j as int);
                let d = integers::dot(p.take(j as int), b.take(j as int));
                let x = p[j as int] * b[j as int];
                lemma_mod_twice(d, q);
                lemma_mod_twice(x, q);
                lemma_mul_mod_noop(p[j as int], b[j as int], q);
                integers::lemma_add_congruent(d % q, d, x % q, x, q);
            }
            acc = acc + coefficient * value;
            j += 1;
        }
        proof {
            assert(p.take(j as int) =~= p);
            assert(b.take(j as int) =~= b);
        }
        entries.push(acc);
        i += 1;
    }
    let r = ZqVec::new(entries);
    assert(r@ =~= applied(Q as nat, n as nat, ws));
    r
}

/// The `(i, j)` entry of the gadget matrix: `0` when the column falls outside
/// the `i`-th block.
pub fn gadget_entry<const Q: u32>(i: usize, j: usize) -> (r: Zq<Q>)
    requires
        Q >= 2,
    ensures
        r@ == entry(Q as nat, i as int, j as int),
{
    let k: usize = LhsParams::<Q>::k_gadget();
    if j / k == i {
        power_of_two(j % k)
    } else {
        Zq::zero()
    }
}

/// The basis of the integer vectors that a block of the gadget matrix maps to
/// zero modulo `Q`, one per row.
pub fn gadget_kernel_basis<const Q: u32>() -> (r: Result<ZMatrix, Error>)
    requires
        Q >= 2,
    ensures
        r matches Ok(basis) && basis@ == kernel_basis(Q as nat),
{
    let k: usize = LhsParams::<Q>::k_gadget();
    let ghost q = Q as nat;
    let ghost kn = k as nat;
    let mut data: Vec<i64> = Vec::new();
    let mut i: usize = 0;
    assert(0 * k == 0);
    while i < k
        invariant
            q == Q as nat,
            kn == k,
            k == params::gadget_bits(q),
            1 <= k <= 32,
            i <= k,
            data@.len() == i * k,
            forall|a: int, b: int|
                0 <= a < i && 0 <= b < k ==> #[trigger] kernel_row(q, a)[b] == data@[a * kn + b],
        decreases k - i,
    {
        let mut j: usize = 0;
        while j < k
            invariant
                q == Q as nat,
                kn == k,
                k == params::gadget_bits(q),
                1 <= k <= 32,
                i < k,
                j <= k,
                data@.len() == i * k + j,
                forall|a: int, b: int|
                    0 <= a < i && 0 <= b < k ==> #[trigger] kernel_row(q, a)[b] == data@[a * kn
                        + b],
                forall|b: int|
                    0 <= b < j ==> #[trigger] kernel_row(q, i as int)[b] == data@[i * kn + b],
            decreases k - j,
        {
            let ghost before = data@;
            let value: i64 = if i + 1 < k {
                if j == i {
                    2
                } else if j == i + 1 {
                    -1
                } else {
                    0
                }
            } else {
                let shift: u32 = j as u32;
                proof {
                    vstd::bits::lemma_u32_shr_is_div(Q, shift);
                }
                let shifted: u32 = Q >> shift;
                assert(shifted & 1 == shifted % 2) by (bit_vector);
                (shifted & 1) as i64
            };
            data.push(value);
            proof {
                assert forall|a: int, b: int| 0 <= a < i && 0 <= b < k implies #[trigger]
                    kernel_row(q, a)[b] == data@[a * kn + b] by {
                    lemma_block_index(i as nat, kn, a, b);
                    assert(kernel_row(q, a)[b] == before[a * kn + b]);
                }
            }
            j += 1;
        }
        assert(i * k + k == (i + 1) * k) by (nonlinear_arith);
        i += 1;
    }
    assert(k * k <= 32 * 32) by (nonlinear_arith)
        requires
            0 <= k <= 32,
    ;
    proof {
        let values = signed::ints_of(data@);
        let rows = integers::rows_of(values, kn, kn);
        assert forall|a: int| 0 <= a < k implies #[trigger] rows[a] == kernel_row(q, a) by {
            integers::lemma_row_bounds(kn, kn, a);
            assert forall|b: int| 0 <= b < k implies rows[a][b] == kernel_row(q, a)[b] by {
                integers::lemma_row_index(values, kn, kn, a, b);
            }
            assert(rows[a] =~= kernel_row(q, a));
        }
        assert(rows =~= kernel_basis(q).rows);
    }
    ZMatrix::new(k, k, data)
}

} // verus!
