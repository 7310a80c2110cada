//! Immutable vectors over GF(2^8).
//!
//! [`GfVec`] is the fundamental building block for coding vectors and data
//! pieces.  All operations return new vectors; nothing is mutated.
use super::linear;
use crate::error::Error;
use crate::field::element;
use crate::field::math;
use crate::field::Gf256;
use vstd::prelude::*;

verus! {

/// An immutable vector of GF(2^8) elements.  Its view is the sequence of its bytes.
///
/// Used for coding vectors (the coefficients that describe how a coded piece
/// was formed) and for data pieces (the payload bytes interpreted as field
/// elements).
#[derive(Debug, PartialEq, Eq)]
#[must_use]
pub struct GfVec {
    pub(crate) elements: Vec<Gf256>,
}

impl View for GfVec {
    type V = Seq<u8>;

    open(crate) spec fn view(&self) -> Seq<u8> {
        element::bytes_of(self.elements@)
    }
}

impl Clone for GfVec {
    fn clone(&self) -> (r: Self)
        ensures
            r@ == self@,
    {
        let elements = self.elements.clone();
        assert(element::bytes_of(elements@) =~= element::bytes_of(self.elements@));
        Self { elements }
    }
}

/// The views of a sequence of vectors.
pub open spec fn views_of(vecs: Seq<GfVec>) -> Seq<Seq<u8>> {
    Seq::new(vecs.len(), |i: int| vecs[i]@)
}

/// The views of a sequence of borrowed vectors.
pub open spec fn views_of_refs(vecs: Seq<&GfVec>) -> Seq<Seq<u8>> {
    Seq::new(vecs.len(), |i: int| vecs[i]@)
}

/// The length of the first row, or zero without rows.
pub open spec fn first_width(rows: Seq<Seq<u8>>) -> nat {
    if rows.len() == 0 {
        0
    } else {
        rows[0].len()
    }
}

/// Row `i` is the first one whose length is not that of row zero.
pub open spec fn first_odd_row(rows: Seq<Seq<u8>>, i: int) -> bool {
    &&& 0 <= i < rows.len()
    &&& rows[i].len() != first_width(rows)
    &&& forall|k: int| 0 <= k < i ==> (#[trigger] rows[k]).len() == first_width(rows)
}

/// `r` is the linear combination of `rows`, or the error for a number of
/// coefficients other than the number of rows, or for the first row whose length
/// is not that of row zero.
pub open spec fn combined(
    coeffs: Seq<u8>,
    rows: Seq<Seq<u8>>,
    r: Result<GfVec, Error>,
) -> bool {
    let n = first_width(rows);
    if coeffs.len() != rows.len() {
        r == Err::<GfVec, Error>(
            Error::DimensionMismatch {
                expected: coeffs.len() as usize,
                actual: rows.len() as usize,
            },
        )
    } else if linear::has_width(rows, n) {
        r matches Ok(v) && v@ == linear::combination(coeffs, rows, n)
    } else {
        exists|i: int| #[trigger]
            first_odd_row(rows, i) && r == Err::<GfVec, Error>(
                Error::DimensionMismatch { expected: n as usize, actual: rows[i].len() as usize },
            )
    }
}

/// A copy of a list of vectors.
pub fn clone_vecs(vecs: &Vec<GfVec>) -> (r: Vec<GfVec>)
    ensures
        views_of(r@) == views_of(vecs@),
{
    let mut copy: Vec<GfVec> = Vec::with_capacity(vecs.len());
    let mut i: usize = 0;
    while i < vecs.len()
        invariant
            i <= vecs@.len(),
            copy@.len() == i,
            forall|k: int| 0 <= k < i ==> (#[trigger] copy@[k])@ == vecs@[k]@,
        decreases vecs@.len() - i,
    {
        copy.push(vecs[i].clone());
        i += 1;
    }
    assert(views_of(copy@) =~= views_of(vecs@));
    copy
}

impl GfVec {
    /// Create a vector from field elements.
    pub fn new(elements: Vec<Gf256>) -> (r: Self)
        ensures
            r@ == element::bytes_of(elements@),
    {
        Self { elements }
    }

    /// Create a zero vector of the given length.
    pub fn zeros(len: usize) -> (r: Self)
        ensures
            r@ == linear::zeros(len as nat),
    {
        let mut elements: Vec<Gf256> = Vec::with_capacity(len);
        let mut i: usize = 0;
        while i < len
            invariant
                i <= len,
                elements@.len() == i,
                forall|k: int| 0 <= k < i ==> (#[trigger] elements@[k])@ == 0,
            decreases len - i,
        {
            elements.push(Gf256::zero());
            i += 1;
        }
        assert(element::bytes_of(elements@) =~= linear::zeros(len as nat));
        Self { elements }
    }

    /// Create a vector from raw bytes, interpreting each byte as a GF(2^8) element.
    pub fn from_bytes(data: &[u8]) -> (r: Self)
        ensures
            r@ == data@,
    {
        let mut elements: Vec<Gf256> = Vec::with_capacity(data.len());
        let mut i: usize = 0;
        while i < data.len()
            invariant
                i <= data@.len(),
                elements@.len() == i,
                forall|k: int| 0 <= k < i ==> (#[trigger] elements@[k])@ == data@[k],
            decreases data@.len() - i,
        {
            elements.push(Gf256::new(data[i]));
            i += 1;
        }
        assert(element::bytes_of(elements@) =~= data@);
        Self { elements }
    }

    /// Convert back to raw bytes.
    #[must_use]
    pub fn to_bytes(&self) -> (r: Vec<u8>)
        ensures
            r@ == self@,
    {
        let mut bytes: Vec<u8> = Vec::with_capacity(self.elements.len());
        let mut i: usize = 0;
        while i < self.elements.len()
            invariant
                i <= self.elements@.len(),
                bytes@.len() == i,
                forall|k: int| 0 <= k < i ==> #[trigger] bytes@[k] == self.elements@[k]@,
            decreases self.elements@.len() - i,
        {
            bytes.push(self.elements[i].value());
            i += 1;
        }
        assert(bytes@ =~= self@);
        bytes
    }

    /// The number of elements in this vector.
    #[must_use]
    pub fn len(&self) -> (r: usize)
        ensures
            r == self@.len(),
    {
        self.elements.len()
    }

    /// Whether this vector has zero length.
    #[must_use]
    pub fn is_empty(&self) -> (r: bool)
        ensures
            r == (self@.len() == 0),
    {
        self.elements.len() == 0
    }

    /// A borrowed slice of the elements.
    pub fn elements(&self) -> (r: &[Gf256])
        ensures
            element::bytes_of(r@) == self@,
    {
        self.elements.as_slice()
    }

    /// The element at the given index.
    #[must_use]
    pub fn get(&self, index: usize) -> (r: Option<Gf256>)
        ensures
            index >= self@.len() ==> r is None,
            index < self@.len() ==> (r matches Some(e) && e@ == self@[index as int]),
    {
        if index < self.elements.len() {
            Some(self.elements[index])
        } else {
            None
        }
    }

    /// Element-wise addition (XOR) of two vectors, or
    /// [`Error::DimensionMismatch`] if lengths differ.
    pub fn add(&self, other: &Self) -> (r: Result<Self, Error>)
        ensures
            self@.len() != other@.len() ==> r == Err::<Self, Error>(
                Error::DimensionMismatch {
                    expected: self@.len() as usize,
                    actual: other@.len() as usize,
                },
            ),
            self@.len() == other@.len() ==> (r matches Ok(v) && v@ == linear::sum(self@, other@)),
    {
        if self.len() == other.len() {
            let mut elements: Vec<Gf256> = Vec::with_capacity(self.len());
            let mut i: usize = 0;
            while i < self.elements.len()
                invariant
                    i <= self.elements@.len(),
                    self.elements@.len() == other.elements@.len(),
                    elements@.len() == i,
                    forall|k: int|
                        0 <= k < i ==> (#[trigger] elements@[k])@ == self.elements@[k]@
                            ^ other.elements@[k]@,
                decreases self.elements@.len() - i,
            {
                elements.push(self.elements[i] + other.elements[i]);
                i += 1;
            }
            assert(element::bytes_of(elements@) =~= linear::sum(self@, other@));
            Ok(Self { elements })
        } else {
            Err(Error::DimensionMismatch { expected: self.len(), actual: other.len() })
        }
    }

    /// Multiply every element by a scalar.
    pub fn scale(&self, scalar: Gf256) -> (r: Self)
        ensures
            r@ == linear::scaled(scalar@, self@),
    {
        let mut elements: Vec<Gf256> = Vec::with_capacity(self.len());
        let mut i: usize = 0;
        while i < self.elements.len()
            invariant
                i <= self.elements@.len(),
                elements@.len() == i,
                forall|k: int|
                    0 <= k < i ==> (#[trigger] elements@[k])@ == math::gf_mul(
                        scalar@,
                        self.elements@[k]@,
                    ),
            decreases self.elements@.len() - i,
        {
            proof {
                math::lemma_mul_commutes(self.elements@[i as int]@, scalar@);
            }
            elements.push(self.elements[i] * scalar);
            i += 1;
        }
        assert(element::bytes_of(elements@) =~= linear::scaled(scalar@, self@));
        Self { elements }
    }

    /// Fused multiply-accumulate: `self + scalar * other` in a single pass, or
    /// [`Error::DimensionMismatch`] if lengths differ.
    pub fn mac(&self, other: &Self, scalar: Gf256) -> (r: Result<Self, Error>)
        ensures
            self@.len() != other@.len() ==> r == Err::<Self, Error>(
                Error::DimensionMismatch {
                    expected: self@.len() as usize,
                    actual: other@.len() as usize,
                },
            ),
            self@.len() == other@.len() ==> (r matches Ok(v) && v@ == linear::sum(
                self@,
                linear::scaled(scalar@, other@),
            )),
    {
        match crate::field::mac(self.elements.as_slice(), other.elements.as_slice(), scalar) {
            Ok(elements) => Ok(Self::new(elements)),
            Err(e) => Err(e),
        }
    }

    /// Compute the linear combination `sum(coeffs[i] * vecs[i])`.
    ///
    /// All vectors must have the same length, and the number of coefficients
    /// must equal the number of vectors; otherwise the first inconsistency is
    /// reported as [`Error::DimensionMismatch`].
    pub fn linear_combine(coeffs: &[Gf256], vecs: &[&Self]) -> (r: Result<Self, Error>)
        ensures
            combined(element::bytes_of(coeffs@), views_of_refs(vecs@), r),
    {
        if coeffs.len() != vecs.len() {
            return Err(Error::DimensionMismatch { expected: coeffs.len(), actual: vecs.len() });
        }
        let ghost rows = views_of_refs(vecs@);
        let ghost cs = element::bytes_of(coeffs@);
        let dim: usize = if vecs.len() == 0 {
            0
        } else {
            vecs[0].len()
        };
        let mut i: usize = 0;
        while i < vecs.len()
            invariant
                i <= vecs@.len(),
                coeffs@.len() == vecs@.len(),
                rows == views_of_refs(vecs@),
                dim == first_width(rows),
                forall|k: int| 0 <= k < i ==> (#[trigger] rows[k]).len() == dim,
            decreases vecs@.len() - i,
        {
            assert(rows[i as int] == vecs@[i as int]@);
            if vecs[i].len() != dim {
                assert(first_odd_row(rows, i as int));
                return Err(Error::DimensionMismatch { expected: dim, actual: vecs[i].len() });
            }
            i += 1;
        }
        let mut acc = Self::zeros(dim);
        let mut i: usize = 0;
        assert(cs.take(0).len() == 0);
        while i < vecs.len()
            invariant
                i <= vecs@.len(),
                coeffs@.len() == vecs@.len(),
                rows == views_of_refs(vecs@),
                cs == element::bytes_of(coeffs@),
                linear::has_width(rows, dim as nat),
                acc@ == linear::combination(cs.take(i as int), rows.take(i as int), dim as nat),
            decreases vecs@.len() - i,
        {
            proof {
                linear::lemma_combination_len(cs.take(i as int), rows.take(i as int), dim as nat);
                assert(rows[i as int] == vecs@[i as int]@);
                assert(cs.take(i + 1).drop_last() =~= cs.take(i as int));
                assert(rows.take(i + 1).drop_last() =~= rows.take(i as int));
            }
            match acc.mac(vecs[i], coeffs[i]) {
                Ok(next) => {
                    acc = next;
                },
                Err(e) => {
                    return Err(e);
                },
            }
            i += 1;
        }
        assert(cs.take(i as int) =~= cs);
        assert(rows.take(i as int) =~= rows);
        Ok(acc)
    }

    /// Create a new vector with the element at `index` replaced, or `None` if
    /// `index` is out of bounds.
    #[must_use]
    pub fn with_element_at(&self, index: usize, value: Gf256) -> (r: Option<Self>)
        ensures
            index >= self@.len() ==> r is None,
            index < self@.len() ==> (r matches Some(v) && v@ == self@.update(index as int, value@)),
    {
        if index >= self.len() {
            None
        } else {
            let mut elements = self.elements.clone();
            elements.set(index, value);
            assert(element::bytes_of(elements@) =~= self@.update(index as int, value@));
            Some(Self { elements })
        }
    }
}

} // verus!
