//! BLAKE3 keyed-hash [`Authenticator`].
//!
//! The source and verifier share a 32-byte key.  Each emitted piece carries a
//! 32-byte tag: the keyed hash of the commitment, the coding vector and the
//! data.  Verification recomputes the tag and compares it in constant time.
//!
//! This authenticator is **not homomorphic**: a recoder cannot produce a valid
//! tag for a recoded piece without the shared key.  That makes it suitable for:
//!
//! - Source-signed-only deployments (no recoding).
//! - Permissioned networks where every relay holds the key and can
//!   independently tag the pieces it emits.
use super::Authenticator;
use crate::coding::piece::{self, CodedPiece, OriginalData, OriginalView, PieceView};
use crate::error::Error;
use crate::hash;
use vstd::array::array_as_slice;
use vstd::prelude::*;

verus! {

/// A commitment to an [`OriginalData`] generation: a BLAKE3 hash of the
/// concatenated source piece bytes.
#[derive(Clone, Copy, Debug, PartialEq, Eq)]
#[must_use]
pub struct Commitment(pub(crate) [u8; 32]);

impl View for Commitment {
    type V = Seq<u8>;

    open(crate) spec fn view(&self) -> Seq<u8> {
        self.0@
    }
}

impl From<[u8; 32]> for Commitment {
    fn from(bytes: [u8; 32]) -> (r: Self)
        ensures
            r@ == bytes@,
    {
        Commitment(bytes)
    }
}

impl vstd::std_specs::convert::FromSpecImpl<[u8; 32]> for Commitment {
    open spec fn obeys_from_spec() -> bool {
        true
    }

    open(crate) spec fn from_spec(bytes: [u8; 32]) -> Self {
        Commitment(bytes)
    }
}

impl From<Commitment> for [u8; 32] {
    fn from(c: Commitment) -> (r: Self)
        ensures
            r@ == c@,
    {
        c.0
    }
}

impl vstd::std_specs::convert::FromSpecImpl<Commitment> for [u8; 32] {
    open spec fn obeys_from_spec() -> bool {
        true
    }

    open(crate) spec fn from_spec(c: Commitment) -> Self {
        c.0
    }
}

impl Commitment {
    /// Borrow the commitment bytes.
    #[must_use]
    pub fn as_bytes(&self) -> (r: &[u8; 32])
        ensures
            r@ == self@,
    {
        &self.0
    }
}

/// An authentication tag on a [`CodedPiece`]: a 32-byte BLAKE3 keyed-hash
/// output.
#[derive(Clone, Copy, Debug)]
#[must_use]
pub struct Tag(pub(crate) [u8; 32]);

impl View for Tag {
    type V = Seq<u8>;

    open(crate) spec fn view(&self) -> Seq<u8> {
        self.0@
    }
}

impl From<[u8; 32]> for Tag {
    fn from(bytes: [u8; 32]) -> (r: Self)
        ensures
            r@ == bytes@,
    {
        Tag(bytes)
    }
}

impl vstd::std_specs::convert::FromSpecImpl<[u8; 32]> for Tag {
    open spec fn obeys_from_spec() -> bool {
        true
    }

    open(crate) spec fn from_spec(bytes: [u8; 32]) -> Self {
        Tag(bytes)
    }
}

impl From<Tag> for [u8; 32] {
    fn from(t: Tag) -> (r: Self)
        ensures
            r@ == t@,
    {
        t.0
    }
}

impl vstd::std_specs::convert::FromSpecImpl<Tag> for [u8; 32] {
    open spec fn obeys_from_spec() -> bool {
        true
    }

    open(crate) spec fn from_spec(t: Tag) -> Self {
        t.0
    }
}

impl Tag {
    /// Borrow the tag bytes.
    #[must_use]
    pub fn as_bytes(&self) -> (r: &[u8; 32])
        ensures
            r@ == self@,
    {
        &self.0
    }
}

impl PartialEq for Tag {
    /// Constant-time equality.
    fn eq(&self, other: &Self) -> (r: bool) {
        hash::digests_equal(&self.0, &other.0)
    }
}

impl vstd::std_specs::cmp::PartialEqSpecImpl for Tag {
    open spec fn obeys_eq_spec() -> bool {
        true
    }

    open spec fn eq_spec(&self, other: &Self) -> bool {
        self@ == other@
    }
}

impl Eq for Tag {

}

/// An [`Authenticator`] using BLAKE3 keyed-hash as a per-piece MAC.  Its view is
/// the key.
#[derive(Debug)]
#[must_use]
pub struct KeyedHashAuthenticator {
    pub(crate) key: [u8; 32],
}

impl Clone for KeyedHashAuthenticator {
    fn clone(&self) -> (r: Self)
        ensures
            r == *self,
    {
        Self { key: self.key }
    }
}

impl View for KeyedHashAuthenticator {
    type V = Seq<u8>;

    open(crate) spec fn view(&self) -> Seq<u8> {
        self.key@
    }
}

impl KeyedHashAuthenticator {
    /// Construct from a 32-byte shared key.
    pub fn new(key: [u8; 32]) -> (r: Self)
        ensures
            r@ == key@,
    {
        Self { key }
    }

    /// The bytes of the tag of a piece under a commitment.
    pub open spec fn expected_tag(&self, commitment: Commitment, piece: PieceView) -> Seq<u8> {
        hash::blake3_keyed_hash(self@, commitment@ + piece.row())
    }
}

impl Authenticator for KeyedHashAuthenticator {
    type Commitment = Commitment;

    type Tag = Tag;

    open spec fn commits(&self, original: OriginalView, commitment: Commitment) -> bool {
        commitment@ == hash::blake3_hash(piece::joined(original.pieces))
    }

    open spec fn can_tag(&self, commitment: Commitment, piece: PieceView) -> bool {
        true
    }

    open spec fn tags(&self, commitment: Commitment, piece: PieceView, tag: Tag) -> bool {
        tag@ == self.expected_tag(commitment, piece)
    }

    open spec fn accepts(&self, commitment: Commitment, piece: PieceView, tag: Tag) -> bool {
        tag@ == self.expected_tag(commitment, piece)
    }

    fn commit(&self, original: &OriginalData) -> (commitment: Commitment) {
        let bytes = piece::concatenate(original.pieces());
        Commitment(hash::hash(bytes.as_slice()))
    }

    fn tag(&self, commitment: &Commitment, piece: &CodedPiece) -> (tag: Tag) {
        let mut payload: Vec<u8> = Vec::new();
        payload.extend_from_slice(array_as_slice(commitment.as_bytes()));
        let mut bytes = piece.to_bytes();
        payload.append(&mut bytes);
        assert(payload@ =~= commitment@ + piece@.row());
        Tag(hash::keyed_hash(&self.key, payload.as_slice()))
    }

    fn verify(&self, commitment: &Commitment, piece: &CodedPiece, tag: &Tag) -> (r: Result<
        (),
        Error,
    >) {
        let expected = self.tag(commitment, piece);
        if expected == *tag {
            Ok(())
        } else {
            Err(Error::AuthenticatorRejected)
        }
    }
}

/// A tag made with the key is accepted with the key.
pub proof fn lemma_tag_accepted(
    auth: KeyedHashAuthenticator,
    commitment: Commitment,
    piece: PieceView,
    tag: Tag,
)
    requires
        auth.tags(commitment, piece, tag),
    ensures
        auth.accepts(commitment, piece, tag),
{
}

/// The two byte strings differ, and one hashes to `a` under the key and the other to
/// `b`.
pub open spec fn hashed_apart(
    key: Seq<u8>,
    x: Seq<u8>,
    y: Seq<u8>,
    a: Seq<u8>,
    b: Seq<u8>,
) -> bool {
    &&& x != y
    &&& a == hash::blake3_keyed_hash(key, x)
    &&& b == hash::blake3_keyed_hash(key, y)
}

/// A tag is the keyed hash of the commitment, all coefficients and all of the payload.
pub proof fn lemma_tag_covers(
    auth: KeyedHashAuthenticator,
    commitment: Commitment,
    piece: PieceView,
    tag: Tag,
)
    requires
        auth.tags(commitment, piece, tag),
    ensures
        tag@ == hash::blake3_keyed_hash(auth@, commitment@ + piece.coeffs + piece.data),
{
    assert(commitment@ + piece.row() =~= commitment@ + piece.coeffs + piece.data);
}

/// A tag binds the commitment and every byte of the piece: the tags of two pieces that
/// differ in a coefficient or in a byte of the payload, or of one piece under two
/// commitments, are keyed hashes of different byte strings.  So one tag is accepted for
/// both only if the hash collides.
pub proof fn lemma_tag_binds(
    auth: KeyedHashAuthenticator,
    commitment: Commitment,
    piece: PieceView,
    tag: Tag,
    other_commitment: Commitment,
    other: PieceView,
    other_tag: Tag,
)
    requires
        auth.accepts(commitment, piece, tag),
        auth.accepts(other_commitment, other, other_tag),
        commitment@ != other_commitment@ || piece.coeffs + piece.data != other.coeffs + other.data,
    ensures
        exists|x: Seq<u8>, y: Seq<u8>| #[trigger]
            hashed_apart(auth@, x, y, tag@, other_tag@),
{
    let (c, d) = (commitment@, other_commitment@);
    let (x, y) = (c + piece.row(), d + other.row());
    assert(c.len() == 32 && d.len() == 32);
    assert(x.take(32) =~= c && x.skip(32) =~= piece.row());
    assert(y.take(32) =~= d && y.skip(32) =~= other.row());
    assert(hashed_apart(auth@, x, y, tag@, other_tag@));
}

/// Bytes tell pieces of the same dimensions apart, so that a tag binds the whole piece.
pub proof fn lemma_piece_bytes_apart(a: PieceView, b: PieceView)
    requires
        a.coeffs.len() == b.coeffs.len(),
        a.coeffs + a.data == b.coeffs + b.data,
    ensures
        a == b,
{
    let (x, y) = (a.coeffs + a.data, b.coeffs + b.data);
    let n = a.coeffs.len() as int;
    assert(x.take(n) =~= a.coeffs && x.skip(n) =~= a.data);
    assert(y.take(n) =~= b.coeffs && y.skip(n) =~= b.data);
}

/// A piece has one tag under a commitment: no other is accepted.
pub proof fn lemma_one_tag(
    auth: KeyedHashAuthenticator,
    commitment: Commitment,
    piece: PieceView,
    tag: Tag,
    other: Tag,
)
    requires
        auth.tags(commitment, piece, tag),
    ensures
        auth.accepts(commitment, piece, other) <==> other@ == tag@,
{
}

/// A commitment binds every byte of the generation: those of two generations of the
/// same dimensions that differ in a byte are hashes of different byte strings.
pub proof fn lemma_commitment_binds(
    auth: KeyedHashAuthenticator,
    original: OriginalView,
    commitment: Commitment,
    other: OriginalView,
    other_commitment: Commitment,
)
    requires
        original.well_formed(),
        other.well_formed(),
        original.pieces.len() == other.pieces.len(),
        original.piece_byte_len == other.piece_byte_len,
        original.pieces != other.pieces,
        auth.commits(original, commitment),
        auth.commits(other, other_commitment),
    ensures
        exists|x: Seq<u8>, y: Seq<u8>|
            x != y && commitment@ == #[trigger] hash::blake3_hash(x) && other_commitment@
                == #[trigger] hash::blake3_hash(y),
{
    let (x, y) = (piece::joined(original.pieces), piece::joined(other.pieces));
    if x == y {
        piece::lemma_joined_apart(original.pieces, other.pieces, original.piece_byte_len);
    }
}

} // verus!
