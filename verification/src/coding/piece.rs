//! Coded pieces and original data representation.
//!
//! A [`CodedPiece`] pairs a [`CodingVector`] (the GF(2^8) coefficients
//! describing how this piece was formed) with the coded data payload.
//! [`OriginalData`] splits raw bytes into fixed-size pieces with padding for
//! the encoder.
use crate::error::Error;
use crate::vector::gf_vec;
use crate::vector::linear;
use crate::vector::GfVec;
use vstd::prelude::*;
use vstd::slice::slice_subrange;

verus! {

/// Boundary marker appended to the original data before zero-padding.
///
/// The decoder scans backwards from the end to find this marker and strip the
/// padding.
pub const BOUNDARY_MARKER: u8 = 0x81;

/// A coding vector: the GF(2^8) coefficients that describe how a coded piece
/// was formed as a linear combination of original pieces.  Its view is the
/// sequence of their bytes.
///
/// For an encoding of k original pieces, the coding vector has k elements.
/// Element i is the coefficient of original piece i.
#[derive(Debug, PartialEq, Eq)]
#[must_use]
pub struct CodingVector {
    pub(crate) inner: GfVec,
}

impl View for CodingVector {
    type V = Seq<u8>;

    open(crate) spec fn view(&self) -> Seq<u8> {
        self.inner@
    }
}

impl Clone for CodingVector {
    fn clone(&self) -> (r: Self)
        ensures
            r@ == self@,
    {
        Self { inner: self.inner.clone() }
    }
}

impl CodingVector {
    /// Create a coding vector from a [`GfVec`].
    pub fn new(inner: GfVec) -> (r: Self)
        ensures
            r@ == inner@,
    {
        Self { inner }
    }

    /// Create a coding vector from raw bytes.
    pub fn from_bytes(data: &[u8]) -> (r: Self)
        ensures
            r@ == data@,
    {
        Self { inner: GfVec::from_bytes(data) }
    }

    /// The number of coefficients (equal to the piece count).
    #[must_use]
    pub fn len(&self) -> (r: usize)
        ensures
            r == self@.len(),
    {
        self.inner.len()
    }

    /// Whether this coding vector is empty.
    #[must_use]
    pub fn is_empty(&self) -> (r: bool)
        ensures
            r == (self@.len() == 0),
    {
        self.inner.is_empty()
    }

    /// A borrowed reference to the underlying vector.
    pub fn as_vec(&self) -> (r: &GfVec)
        ensures
            r@ == self@,
    {
        &self.inner
    }

    /// Consume into the underlying vector.
    pub fn into_vec(self) -> (r: GfVec)
        ensures
            r@ == self@,
    {
        self.inner
    }
}

/// A coded piece: a coding vector paired with the coded data.
#[derive(Debug, PartialEq, Eq)]
#[must_use]
pub struct CodedPiece {
    pub(crate) coding_vector: CodingVector,
    pub(crate) data: GfVec,
}

/// The coefficients and the payload of a coded piece.
#[verifier::ext_equal]
pub struct PieceView {
    pub coeffs: Seq<u8>,
    pub data: Seq<u8>,
}

impl PieceView {
    /// The bytes of the piece: the coefficients, then the payload.
    pub open spec fn row(self) -> Seq<u8> {
        self.coeffs + self.data
    }
}

impl View for CodedPiece {
    type V = PieceView;

    open(crate) spec fn view(&self) -> PieceView {
        PieceView { coeffs: self.coding_vector@, data: self.data@ }
    }
}

impl Clone for CodedPiece {
    fn clone(&self) -> (r: Self)
        ensures
            r@ == self@,
    {
        Self { coding_vector: self.coding_vector.clone(), data: self.data.clone() }
    }
}

impl CodedPiece {
    /// Create a coded piece from a coding vector and data.
    pub fn new(coding_vector: CodingVector, data: GfVec) -> (r: Self)
        ensures
            r@ == (PieceView { coeffs: coding_vector@, data: data@ }),
    {
        Self { coding_vector, data }
    }

    /// The coding vector (coefficients).
    pub fn coding_vector(&self) -> (r: &CodingVector)
        ensures
            r@ == self@.coeffs,
    {
        &self.coding_vector
    }

    /// The coded data payload.
    pub fn data(&self) -> (r: &GfVec)
        ensures
            r@ == self@.data,
    {
        &self.data
    }

    /// Serialize to bytes: coding vector bytes followed by data bytes.
    #[must_use]
    pub fn to_bytes(&self) -> (r: Vec<u8>)
        ensures
            r@ == self@.row(),
    {
        let mut bytes = self.coding_vector.as_vec().to_bytes();
        let mut data = self.data.to_bytes();
        bytes.append(&mut data);
        bytes
    }

    /// Deserialize from bytes, given the piece count (coding vector length).
    ///
    /// The first `piece_count` bytes are the coding vector; the rest is the
    /// data payload.  Fails with [`Error::PieceSizeMismatch`] if there are
    /// fewer bytes than that.
    pub fn from_bytes(bytes: &[u8], piece_count: usize) -> (r: Result<Self, Error>)
        ensures
            bytes@.len() < piece_count ==> r == Err::<Self, Error>(
                Error::PieceSizeMismatch {
                    expected: piece_count,
                    actual: bytes@.len() as usize,
                },
            ),
            bytes@.len() >= piece_count ==> (r matches Ok(piece) && piece@ == (PieceView {
                coeffs: bytes@.take(piece_count as int),
                data: bytes@.skip(piece_count as int),
            })),
    {
        if bytes.len() < piece_count {
            Err(Error::PieceSizeMismatch { expected: piece_count, actual: bytes.len() })
        } else {
            let (cv_bytes, data_bytes) = bytes.split_at(piece_count);
            Ok(
                Self {
                    coding_vector: CodingVector::from_bytes(cv_bytes),
                    data: GfVec::from_bytes(data_bytes),
                },
            )
        }
    }
}

/// The original data split into k pieces, padded for encoding.
///
/// Padding adds a boundary marker (0x81) followed by zeros so that the total
/// data length is divisible by the piece count.  The decoder uses the marker
/// to find and strip the padding.
#[derive(Debug)]
#[must_use]
pub struct OriginalData {
    pub(crate) pieces: Vec<GfVec>,
    pub(crate) piece_count: usize,
    pub(crate) piece_byte_len: usize,
    pub(crate) original_len: usize,
}

/// The pieces, their common length, and the length before padding.
#[verifier::ext_equal]
pub struct OriginalView {
    pub pieces: Seq<Seq<u8>>,
    pub piece_byte_len: nat,
    pub original_len: nat,
}

impl OriginalView {
    /// There is a piece, and the pieces have the common length.
    pub open spec fn well_formed(self) -> bool {
        self.pieces.len() >= 1 && linear::has_width(self.pieces, self.piece_byte_len)
    }
}

/// The data, the boundary marker, and `zero_count` zeros.
pub open spec fn padded(data: Seq<u8>, zero_count: nat) -> Seq<u8> {
    data.push(BOUNDARY_MARKER) + linear::zeros(zero_count)
}

/// The concatenation of pieces.
pub open spec fn joined(pieces: Seq<Seq<u8>>) -> Seq<u8>
    decreases pieces.len(),
{
    if pieces.len() == 0 {
        Seq::empty()
    } else {
        joined(pieces.drop_last()) + pieces.last()
    }
}

/// The length of each of `count` equal pieces that hold `len` bytes and the marker.
pub open spec fn piece_len(len: nat, count: nat) -> nat {
    (len + count) / count
}

impl View for OriginalData {
    type V = OriginalView;

    open(crate) spec fn view(&self) -> OriginalView {
        OriginalView {
            pieces: gf_vec::views_of(self.pieces@),
            piece_byte_len: self.piece_byte_len as nat,
            original_len: self.original_len as nat,
        }
    }
}

impl Clone for OriginalData {
    fn clone(&self) -> (r: Self)
        ensures
            r@ == self@,
    {
        proof {
            use_type_invariant(self);
        }
        Self {
            pieces: gf_vec::clone_vecs(&self.pieces),
            piece_count: self.piece_count,
            piece_byte_len: self.piece_byte_len,
            original_len: self.original_len,
        }
    }
}

impl OriginalData {
    #[verifier::type_invariant]
    pub(crate) open(crate) spec fn consistent(&self) -> bool {
        self.pieces@.len() == self.piece_count && self@.well_formed()
    }

    /// Split raw data into `piece_count` equal-sized pieces.
    ///
    /// Appends a 0x81 boundary marker and zero-pads so that the total length is
    /// divisible by `piece_count`.  Fails with [`Error::EmptyData`] if `data`
    /// is empty, and else with [`Error::InvalidPieceCount`] if `piece_count` is
    /// zero.
    pub fn from_bytes(data: &[u8], piece_count: usize) -> (r: Result<Self, Error>)
        requires
            data@.len() + piece_count <= usize::MAX,
        ensures
            data@.len() == 0 ==> r == Err::<Self, Error>(Error::EmptyData),
            data@.len() > 0 && piece_count == 0 ==> r == Err::<Self, Error>(
                Error::InvalidPieceCount,
            ),
            data@.len() > 0 && piece_count > 0 ==> (r matches Ok(original) && {
                &&& original@.well_formed()
                &&& original@.pieces.len() == piece_count
                &&& original@.piece_byte_len == piece_len(data@.len(), piece_count as nat)
                &&& original@.original_len == data@.len()
                &&& joined(original@.pieces).len() == piece_count * original@.piece_byte_len
                &&& is_padding_of(joined(original@.pieces), data@)
            }),
    {
        if data.len() == 0 {
            return Err(Error::EmptyData);
        }
        if piece_count == 0 {
            return Err(Error::InvalidPieceCount);
        }
        let original_len: usize = data.len();
        let mut bytes: Vec<u8> = Vec::new();
        bytes.extend_from_slice(data);
        bytes.push(BOUNDARY_MARKER);
        let remainder: usize = bytes.len() % piece_count;
        let padding_needed: usize = if remainder == 0 {
            0
        } else {
            piece_count - remainder
        };
        assert(bytes@ =~= padded(data@, 0));
        let mut zero_count: usize = 0;
        while zero_count < padding_needed
            invariant
                zero_count <= padding_needed,
                bytes@ == padded(data@, zero_count as nat),
            decreases padding_needed - zero_count,
        {
            bytes.push(0);
            zero_count += 1;
            assert(bytes@ =~= padded(data@, zero_count as nat));
        }
        let total: usize = bytes.len();
        let piece_byte_len: usize = total / piece_count;
        proof {
            lemma_padded_len(
                original_len as nat,
                piece_count as nat,
                bytes@.len(),
                piece_byte_len as nat,
            );
        }
        let mut pieces: Vec<GfVec> = Vec::with_capacity(piece_count);
        let mut i: usize = 0;
        let mut pos: usize = 0;
        assert(joined(gf_vec::views_of(pieces@)) =~= bytes@.take(0));
        while i < piece_count
            invariant
                i <= piece_count,
                pos == i * piece_byte_len,
                bytes@.len() == total,
                total == piece_count * piece_byte_len,
                pieces@.len() == i,
                linear::has_width(gf_vec::views_of(pieces@), piece_byte_len as nat),
                joined(gf_vec::views_of(pieces@)) == bytes@.take(pos as int),
            decreases piece_count - i,
        {
            assert(pos + piece_byte_len == (i + 1) * piece_byte_len) by (nonlinear_arith)
                requires
                    pos == i * piece_byte_len,
            ;
            assert((i + 1) * piece_byte_len <= piece_count * piece_byte_len) by (nonlinear_arith)
                requires
                    i + 1 <= piece_count,
            ;
            let ghost before = gf_vec::views_of(pieces@);
            let piece = GfVec::from_bytes(
                slice_subrange(bytes.as_slice(), pos, pos + piece_byte_len),
            );
            pieces.push(piece);
            proof {
                let after = gf_vec::views_of(pieces@);
                assert(after.drop_last() =~= before);
                assert(joined(after) =~= bytes@.take(pos + piece_byte_len));
                assert forall|k: int| 0 <= k < after.len() implies (#[trigger] after[k]).len()
                    == piece_byte_len by {
                    if k < before.len() {
                        assert(before[k].len() == piece_byte_len);
                    }
                }
            }
            i += 1;
            pos += piece_byte_len;
        }
        assert(bytes@.take(pos as int) =~= bytes@);
        Ok(Self { pieces, piece_count, piece_byte_len, original_len })
    }

    /// The number of pieces.
    #[must_use]
    pub fn piece_count(&self) -> (r: usize)
        ensures
            r == self@.pieces.len(),
    {
        proof {
            use_type_invariant(self);
        }
        self.piece_count
    }

    /// The byte length of each piece.
    #[must_use]
    pub fn piece_byte_len(&self) -> (r: usize)
        ensures
            r == self@.piece_byte_len,
    {
        self.piece_byte_len
    }

    /// The original (unpadded) data length.
    #[must_use]
    pub fn original_len(&self) -> (r: usize)
        ensures
            r == self@.original_len,
    {
        self.original_len
    }

    /// A borrowed reference to the piece at the given index.
    #[must_use]
    pub fn piece(&self, index: usize) -> (r: Option<&GfVec>)
        ensures
            index >= self@.pieces.len() ==> r is None,
            index < self@.pieces.len() ==> (r matches Some(v) && v@ == self@.pieces[index as int]),
    {
        if index < self.pieces.len() {
            Some(&self.pieces[index])
        } else {
            None
        }
    }

    /// A borrowed slice of all pieces.
    pub fn pieces(&self) -> (r: &[GfVec])
        ensures
            gf_vec::views_of(r@) == self@.pieces,
            self@.well_formed(),
    {
        proof {
            use_type_invariant(self);
        }
        self.pieces.as_slice()
    }

    /// Reconstruct the original data from decoded pieces.
    ///
    /// Concatenates the pieces, locates the boundary marker, and returns the
    /// bytes before it, or [`Error::InvalidPadding`] if the pieces are not some
    /// data, a boundary marker and zeros.
    pub fn reconstruct(pieces: &[GfVec]) -> (r: Result<Vec<u8>, Error>)
        ensures
            reconstructed(gf_vec::views_of(pieces@), r),
    {
        let ghost rows = gf_vec::views_of(pieces@);
        let bytes = concatenate(pieces);
        let mut pos: usize = bytes.len();
        while pos > 0
            invariant
                pos <= bytes@.len(),
                bytes@ == joined(rows),
                rows == gf_vec::views_of(pieces@),
                forall|k: int| pos <= k < bytes@.len() ==> #[trigger] bytes@[k] == 0,
            decreases pos,
        {
            if bytes[pos - 1] == BOUNDARY_MARKER {
                let mut data: Vec<u8> = Vec::new();
                data.extend_from_slice(slice_subrange(bytes.as_slice(), 0, pos - 1));
                assert(bytes@ =~= padded(data@, (bytes@.len() - pos) as nat));
                return Ok(data);
            }
            if bytes[pos - 1] != 0 {
                proof {
                    assert forall|data: Seq<u8>| !#[trigger] is_padding_of(bytes@, data) by {
                        if is_padding_of(bytes@, data) {
                            let z = (bytes@.len() - data.len() - 1) as nat;
                            assert(padded(data, z)[data.len() as int] == BOUNDARY_MARKER);
                            if data.len() < pos - 1 {
                                assert(padded(data, z)[pos - 1] == 0);
                            } else if data.len() >= pos {
                                assert(bytes@[data.len() as int] == 0);
                            }
                        }
                    }
                }
                return Err(Error::InvalidPadding);
            }
            pos -= 1;
        }
        proof {
            assert forall|data: Seq<u8>| !#[trigger] is_padding_of(bytes@, data) by {
                if is_padding_of(bytes@, data) {
                    let z = (bytes@.len() - data.len() - 1) as nat;
                    assert(padded(data, z)[data.len() as int] == BOUNDARY_MARKER);
                    assert(bytes@[data.len() as int] == 0);
                }
            }
        }
        Err(Error::InvalidPadding)
    }
}

/// The bytes of the pieces, one after the other.
pub fn concatenate(pieces: &[GfVec]) -> (r: Vec<u8>)
    ensures
        r@ == joined(gf_vec::views_of(pieces@)),
{
    let ghost rows = gf_vec::views_of(pieces@);
    let mut bytes: Vec<u8> = Vec::new();
    let mut i: usize = 0;
    assert(rows.take(0) =~= Seq::empty());
    while i < pieces.len()
        invariant
            i <= pieces@.len(),
            rows == gf_vec::views_of(pieces@),
            bytes@ == joined(rows.take(i as int)),
        decreases pieces@.len() - i,
    {
        let mut piece = pieces[i].to_bytes();
        bytes.append(&mut piece);
        assert(rows.take(i + 1).drop_last() =~= rows.take(i as int));
        i += 1;
    }
    assert(rows.take(i as int) =~= rows);
    bytes
}

/// `bytes` is `data`, a boundary marker and zeros.
pub open spec fn is_padding_of(bytes: Seq<u8>, data: Seq<u8>) -> bool {
    data.len() < bytes.len() && bytes == padded(data, (bytes.len() - data.len() - 1) as nat)
}

/// `r` is the data whose padding the pieces are, or the error if they are not the
/// padding of any data.
pub open spec fn reconstructed(pieces: Seq<Seq<u8>>, r: Result<Vec<u8>, Error>) -> bool {
    match r {
        Ok(data) => is_padding_of(joined(pieces), data@),
        Err(e) => e == Error::InvalidPadding && forall|data: Seq<u8>|
            !#[trigger] is_padding_of(joined(pieces), data),
    }
}

/// Padding to a multiple of `count` gives `count` pieces of [`piece_len`].
proof fn lemma_padded_len(len: nat, count: nat, total: nat, piece: nat)
    requires
        count > 0,
        total == len + 1 + (if (len + 1) % count == 0 {
            0
        } else {
            count - (len + 1) % count
        }),
        piece == total / count,
    ensures
        total == count * piece,
        piece == piece_len(len, count),
{
    let m = (len + 1) / count;
    let r = (len + 1) % count;
    assert(len + 1 == count * m + r && 0 <= r < count) by {
        vstd::arithmetic::div_mod::lemma_fundamental_div_mod((len + 1) as int, count as int);
    }
    if r == 0 {
        vstd::arithmetic::div_mod::lemma_fundamental_div_mod_converse(
            (len + count) as int,
            count as int,
            m as int,
            count - 1,
        );
        vstd::arithmetic::div_mod::lemma_fundamental_div_mod_converse(
            total as int,
            count as int,
            m as int,
            0,
        );
    } else {
        assert(total == count * (m + 1)) by (nonlinear_arith)
            requires
                total == count * m + r + (count - r),
        ;
        vstd::arithmetic::div_mod::lemma_fundamental_div_mod_converse(
            total as int,
            count as int,
            (m + 1) as int,
            0,
        );
        assert(len + count == count * (m + 1) + (r - 1)) by (nonlinear_arith)
            requires
                len + 1 == count * m + r,
        ;
        vstd::arithmetic::div_mod::lemma_fundamental_div_mod_converse(
            (len + count) as int,
            count as int,
            (m + 1) as int,
            r - 1,
        );
    }
}

/// Padding can be undone in one way only.
pub proof fn lemma_padding_unique(bytes: Seq<u8>, a: Seq<u8>, b: Seq<u8>)
    requires
        is_padding_of(bytes, a),
        is_padding_of(bytes, b),
    ensures
        a == b,
{
    assert(bytes[a.len() as int] == BOUNDARY_MARKER);
    assert(bytes[b.len() as int] == BOUNDARY_MARKER);
    if a.len() < b.len() {
        assert(bytes[b.len() as int] == 0);
    } else if b.len() < a.len() {
        assert(bytes[a.len() as int] == 0);
    }
    assert forall|i: int| 0 <= i < a.len() implies a[i] == b[i] by {
        assert(bytes[i] == a[i]);
        assert(bytes[i] == b[i]);
    }
    assert(a =~= b);
}

/// Reconstructing from the pieces that data was split into gives the data.
pub proof fn lemma_split_reconstruct(
    pieces: Seq<Seq<u8>>,
    data: Seq<u8>,
    r: Result<Vec<u8>, Error>,
)
    requires
        is_padding_of(joined(pieces), data),
        reconstructed(pieces, r),
    ensures
        r matches Ok(d) && d@ == data,
{
    if let Ok(d) = r {
        lemma_padding_unique(joined(pieces), d@, data);
    }
}

/// Reading back the bytes of a coded piece gives the piece.
pub proof fn lemma_piece_bytes_roundtrip(piece: PieceView)
    ensures
        piece.row().take(piece.coeffs.len() as int) == piece.coeffs,
        piece.row().skip(piece.coeffs.len() as int) == piece.data,
{
    assert(piece.row().take(piece.coeffs.len() as int) =~= piece.coeffs);
    assert(piece.row().skip(piece.coeffs.len() as int) =~= piece.data);
}

/// The concatenation of pieces of one length.
proof fn lemma_joined_len(pieces: Seq<Seq<u8>>, width: nat)
    requires
        linear::has_width(pieces, width),
    ensures
        joined(pieces).len() == pieces.len() * width,
    decreases pieces.len(),
{
    if pieces.len() > 0 {
        let rest = pieces.drop_last();
        assert forall|i: int| 0 <= i < rest.len() implies (#[trigger] rest[i]).len() == width by {
            assert(pieces[i].len() == width);
        }
        lemma_joined_len(rest, width);
        assert(pieces[pieces.len() - 1].len() == width);
        assert((pieces.len() - 1) * width + width == pieces.len() * width) by (nonlinear_arith);
    } else {
        assert(pieces.len() * width == 0) by (nonlinear_arith)
            requires
                pieces.len() == 0,
        ;
    }
}

/// As many pieces of one length are told apart by their concatenation.
pub proof fn lemma_joined_apart(a: Seq<Seq<u8>>, b: Seq<Seq<u8>>, width: nat)
    requires
        linear::has_width(a, width),
        linear::has_width(b, width),
        a.len() == b.len(),
        joined(a) == joined(b),
    ensures
        a == b,
    decreases a.len(),
{
    if a.len() > 0 {
        let (x, y) = (a.drop_last(), b.drop_last());
        assert forall|i: int| 0 <= i < x.len() implies (#[trigger] x[i]).len() == width by {
            assert(a[i].len() == width);
        }
        assert forall|i: int| 0 <= i < y.len() implies (#[trigger] y[i]).len() == width by {
            assert(b[i].len() == width);
        }
        lemma_joined_len(x, width);
        lemma_joined_len(y, width);
        let n = joined(x).len() as int;
        assert(joined(a).take(n) =~= joined(x));
        assert(joined(b).take(n) =~= joined(y));
        assert(joined(a).skip(n) =~= a.last());
        assert(joined(b).skip(n) =~= b.last());
        lemma_joined_apart(x, y, width);
        assert(a =~= x.push(a.last()));
        assert(b =~= y.push(b.last()));
    } else {
        assert(a =~= b);
    }
}

} // verus!
