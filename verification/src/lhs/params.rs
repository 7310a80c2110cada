//! Scheme parameters for the linearly homomorphic signature.
//!
//! [`LhsParams`] packages the dimensional constants, the Gaussian width used by
//! the preimage sampler, and the verification norm bound that must be known by
//! every KeyGen/Sign/Verify caller.  The modulus `Q` is a const generic and the
//! gadget width `k_gadget` derives from it: the number of bits of `Q - 1`.
use crate::error::Error;
use vstd::arithmetic::power2::{lemma_pow2_pos, lemma_pow2_unfold, pow2};
use vstd::prelude::*;

verus! {

/// Parameters for the linearly homomorphic signature scheme over `Z/QZ`.
///
/// The full matrix width `m` is `m0 + n * k_gadget` where `k_gadget` is the
/// number of bits needed to represent an element of `Z/QZ`.  `sigma_g` is the
/// width of the Gaussian from which a sampler draws a short preimage of each
/// per-piece target, as the bits of an IEEE 754 double.
#[derive(Debug, PartialEq, Eq)]
#[must_use]
pub struct LhsParams<const Q: u32> {
    pub(crate) n: usize,
    pub(crate) m0: usize,
    pub(crate) k_pieces: usize,
    pub(crate) sig_norm_bound_sq: u128,
    pub(crate) sigma_g: u64,
}

/// The dimensions, the norm bound and the Gaussian width.
pub struct ParamsView {
    pub n: nat,
    pub m0: nat,
    pub k_pieces: nat,
    pub sig_norm_bound_sq: nat,
    pub sigma_g: u64,
}

impl ParamsView {
    /// The width of the gadget block for modulus `q`.
    pub open spec fn gadget_width(self, q: nat) -> nat {
        self.n * gadget_bits(q)
    }

    /// The length of a signature for modulus `q`.
    pub open spec fn m(self, q: nat) -> nat {
        self.m0 + self.gadget_width(q)
    }

    /// The dimensions are positive, and the width is a positive number.
    pub open spec fn valid(self) -> bool {
        self.n > 0 && self.m0 > 0 && self.k_pieces > 0 && positive_finite(self.sigma_g)
    }
}

/// The number of binary digits of `x`.
pub open spec fn bit_length(x: nat) -> nat
    decreases x,
{
    if x == 0 {
        0
    } else {
        bit_length(x / 2) + 1
    }
}

/// The number of bits of an element of `Z/qZ`.
pub open spec fn gadget_bits(q: nat) -> nat {
    bit_length((q - 1) as nat)
}

/// The bits of a double that is finite and greater than zero: sign bit clear,
/// exponent not all ones, not zero.
pub open spec fn positive_finite(bits: u64) -> bool {
    0 < bits < 0x7FF0_0000_0000_0000
}

/// `x` lies between the powers of two at its bit length.
pub proof fn lemma_bit_length(x: nat)
    ensures
        x < pow2(bit_length(x)),
        x > 0 ==> bit_length(x) > 0 && pow2((bit_length(x) - 1) as nat) <= x,
    decreases x,
{
    if x == 0 {
        lemma_pow2_pos(0);
    } else {
        lemma_bit_length(x / 2);
        lemma_pow2_unfold(bit_length(x));
        if x / 2 > 0 {
            lemma_pow2_unfold(bit_length(x / 2));
        } else {
            vstd::arithmetic::power2::lemma2_to64();
        }
    }
}

/// The bit length of a number below a power of two is at most its exponent.
pub proof fn lemma_bit_length_bound(x: nat, k: nat)
    requires
        x < pow2(k),
    ensures
        bit_length(x) <= k,
    decreases k,
{
    if k == 0 {
        vstd::arithmetic::power2::lemma2_to64();
    } else if x > 0 {
        lemma_pow2_unfold(k);
        lemma_bit_length_bound(x / 2, (k - 1) as nat);
    }
}

/// The number of bits of an element of `Z/qZ` for a 32-bit modulus.
pub proof fn lemma_gadget_bits(q: u32)
    requires
        q >= 2,
    ensures
        1 <= gadget_bits(q as nat) <= 32,
        pow2((gadget_bits(q as nat) - 1) as nat) < q,
        q <= pow2(gadget_bits(q as nat)),
{
    vstd::arithmetic::power2::lemma2_to64();
    lemma_bit_length((q - 1) as nat);
    lemma_bit_length_bound((q - 1) as nat, 32);
}

impl<const Q: u32> View for LhsParams<Q> {
    type V = ParamsView;

    open(crate) spec fn view(&self) -> ParamsView {
        ParamsView {
            n: self.n as nat,
            m0: self.m0 as nat,
            k_pieces: self.k_pieces as nat,
            sig_norm_bound_sq: self.sig_norm_bound_sq as nat,
            sigma_g: self.sigma_g,
        }
    }
}

impl<const Q: u32> Clone for LhsParams<Q> {
    fn clone(&self) -> (r: Self)
        ensures
            r@ == self@,
    {
        proof {
            use_type_invariant(self);
        }
        Self {
            n: self.n,
            m0: self.m0,
            k_pieces: self.k_pieces,
            sig_norm_bound_sq: self.sig_norm_bound_sq,
            sigma_g: self.sigma_g,
        }
    }
}

impl<const Q: u32> LhsParams<Q> {
    #[verifier::type_invariant]
    pub(crate) open(crate) spec fn consistent(&self) -> bool {
        Q >= 2 && self@.valid()
    }

    /// Build a parameter set.  `sigma_g` is the bits of the Gaussian width as an
    /// IEEE 754 double.
    ///
    /// Fails with [`Error::DimensionMismatch`] if any of `n`, `m0`, `k_pieces`
    /// is zero, if `Q < 2`, or if the Gaussian width is not a finite positive
    /// number.
    pub fn new(
        n: usize,
        m0: usize,
        k_pieces: usize,
        sig_norm_bound_sq: u128,
        sigma_g: u64,
    ) -> (r: Result<Self, Error>)
        ensures
            ({
                let view = ParamsView {
                    n: n as nat,
                    m0: m0 as nat,
                    k_pieces: k_pieces as nat,
                    sig_norm_bound_sq: sig_norm_bound_sq as nat,
                    sigma_g,
                };
                if Q >= 2 && view.valid() {
                    r matches Ok(params) && params@ == view
                } else {
                    r == Err::<Self, Error>(Error::DimensionMismatch { expected: 1, actual: 0 })
                }
            }),
    {
        if Q >= 2 && n > 0 && m0 > 0 && k_pieces > 0 && sigma_g > 0 && sigma_g
            < 0x7FF0_0000_0000_0000 {
            Ok(Self { n, m0, k_pieces, sig_norm_bound_sq, sigma_g })
        } else {
            Err(Error::DimensionMismatch { expected: 1, actual: 0 })
        }
    }

    /// Number of rows of the public matrix `A` (security dimension).
    #[must_use]
    pub fn n(&self) -> (r: usize)
        ensures
            r == self@.n,
            Q >= 2,
            self@.valid(),
    {
        proof {
            use_type_invariant(self);
        }
        self.n
    }

    /// Width of the primary block `A_0` in `A = [A_0 | G - A_0 R]`.
    #[must_use]
    pub fn m0(&self) -> (r: usize)
        ensures
            r == self@.m0,
    {
        self.m0
    }

    /// Number of piece indices signed at setup time.
    #[must_use]
    pub fn k_pieces(&self) -> (r: usize)
        ensures
            r == self@.k_pieces,
    {
        self.k_pieces
    }

    /// Squared verification norm bound.  A signature is accepted only when its
    /// squared norm is at most this.
    #[must_use]
    pub fn sig_norm_bound_sq(&self) -> (r: u128)
        ensures
            r == self@.sig_norm_bound_sq,
    {
        self.sig_norm_bound_sq
    }

    /// Gaussian width for the preimage sampler, as the bits of an IEEE 754
    /// double.
    #[must_use]
    pub fn sigma_g(&self) -> (r: u64)
        ensures
            r == self@.sigma_g,
    {
        self.sigma_g
    }

    /// Gadget width per ambient coordinate: the number of bits needed to
    /// represent an element of `Z/QZ`.
    #[must_use]
    pub fn k_gadget() -> (r: usize)
        requires
            Q >= 2,
        ensures
            r == gadget_bits(Q as nat),
            1 <= r <= 32,
    {
        proof {
            lemma_gadget_bits(Q);
        }
        let mut rest: u32 = Q - 1;
        let mut bits: usize = 0;
        while rest > 0
            invariant
                bits + bit_length(rest as nat) == gadget_bits(Q as nat),
                gadget_bits(Q as nat) <= 32,
            decreases rest,
        {
            rest = rest / 2;
            bits += 1;
        }
        bits
    }

    /// Total gadget-block width `n * k_gadget`.
    #[must_use]
    pub fn gadget_width(&self) -> (r: usize)
        requires
            self@.gadget_width(Q as nat) <= usize::MAX,
        ensures
            r == self@.gadget_width(Q as nat),
    {
        proof {
            use_type_invariant(self);
        }
        self.n * Self::k_gadget()
    }

    /// Signature dimension `m = m0 + n * k_gadget`.
    #[must_use]
    pub fn m(&self) -> (r: usize)
        requires
            self@.m(Q as nat) <= usize::MAX,
        ensures
            r == self@.m(Q as nat),
    {
        self.m0 + self.gadget_width()
    }
}

} // verus!
