//! Fused multiply-accumulate over GF(2^8).
//!
//! [`mac`] computes `acc[i] + scalar * v[i]` element-wise, where `+` is XOR
//! and `*` is GF(2^8) multiplication.  This is the inner kernel of every RLNC
//! operation: source encoding, recoding, and the row-reduction step of
//! Gaussian elimination.
//!
//! For a fixed `scalar`, two 16-byte *half-nibble* tables are computed once
//! per call: `low[i] = scalar * i` and `high[i] = scalar * (i << 4)`.  Every
//! byte `b` is the sum of `b & 0x0F` and `(b >> 4) << 4`, and multiplication
//! distributes over XOR, so `scalar * b = low[b & 0x0F] XOR high[b >> 4]`.
use super::element::{self, Gf256};
use super::math;
use crate::error::Error;
use crate::vector::linear;
use vstd::prelude::*;

verus! {

/// Compute `acc + scalar * v` element-wise over GF(2^8), returning a fresh
/// vector, or [`Error::DimensionMismatch`] when the lengths differ.
pub fn mac(acc: &[Gf256], v: &[Gf256], scalar: Gf256) -> (r: Result<Vec<Gf256>, Error>)
    ensures
        acc@.len() != v@.len() ==> r == Err::<Vec<Gf256>, Error>(
            Error::DimensionMismatch { expected: acc@.len() as usize, actual: v@.len() as usize },
        ),
        acc@.len() == v@.len() ==> (r matches Ok(result) && element::bytes_of(result@) == linear::sum(
            element::bytes_of(acc@),
            linear::scaled(scalar@, element::bytes_of(v@)),
        )),
{
    if acc.len() == v.len() {
        let (low, high) = half_nibble_tables(scalar);
        let mut result: Vec<Gf256> = Vec::with_capacity(acc.len());
        let mut i: usize = 0;
        while i < acc.len()
            invariant
                i <= acc@.len(),
                acc@.len() == v@.len(),
                result@.len() == i,
                forall|k: u8| k < 16 ==> #[trigger] low[k as int] == math::gf_mul(scalar@, k),
                forall|k: u8|
                    k < 16 ==> #[trigger] high[k as int] == math::gf_mul(scalar@, k << 4),
                forall|j: int|
                    0 <= j < i ==> (#[trigger] result@[j])@ == acc@[j]@ ^ math::gf_mul(
                        scalar@,
                        v@[j]@,
                    ),
            decreases acc@.len() - i,
        {
            let bv: u8 = v[i].value();
            assert(bv & 0x0F < 16 && bv >> 4 < 16) by (bit_vector);
            let lo: u8 = low[(bv & 0x0F) as usize];
            let hi: u8 = high[(bv >> 4) as usize];
            proof {
                lemma_half_nibbles(scalar@, bv);
                math::lemma_add_laws(acc@[i as int]@, lo, hi);
            }
            result.push(Gf256::new(acc[i].value() ^ lo ^ hi));
            i += 1;
        }
        assert(element::bytes_of(result@) =~= linear::sum(
            element::bytes_of(acc@),
            linear::scaled(scalar@, element::bytes_of(v@)),
        ));
        Ok(result)
    } else {
        Err(Error::DimensionMismatch { expected: acc.len(), actual: v.len() })
    }
}

/// Compute the 16-byte half-nibble multiplication tables for `scalar`.
pub fn half_nibble_tables(scalar: Gf256) -> (r: ([u8; 16], [u8; 16]))
    ensures
        forall|k: u8| k < 16 ==> #[trigger] r.0[k as int] == math::gf_mul(scalar@, k),
        forall|k: u8| k < 16 ==> #[trigger] r.1[k as int] == math::gf_mul(scalar@, k << 4),
{
    let mut low: [u8; 16] = [0u8; 16];
    let mut high: [u8; 16] = [0u8; 16];
    let mut i: u8 = 0;
    while i < 16
        invariant
            i <= 16,
            forall|k: u8| k < i ==> #[trigger] low[k as int] == math::gf_mul(scalar@, k),
            forall|k: u8| k < i ==> #[trigger] high[k as int] == math::gf_mul(scalar@, k << 4),
        decreases 16 - i,
    {
        low[i as usize] = (scalar * Gf256::new(i)).value();
        high[i as usize] = (scalar * Gf256::new(i << 4)).value();
        i += 1;
    }
    (low, high)
}

/// The product with any byte is the sum of the products with its two nibbles.
pub proof fn lemma_half_nibbles(scalar: u8, b: u8)
    ensures
        math::gf_mul(scalar, b) == math::gf_mul(scalar, b & 0x0F) ^ math::gf_mul(
            scalar,
            (b >> 4) << 4,
        ),
{
    assert((b & 0x0F) ^ ((b >> 4) << 4) == b) by (bit_vector);
    math::lemma_mul_distributes(scalar, b & 0x0F, (b >> 4) << 4);
}

} // verus!
