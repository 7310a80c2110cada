//! The authentication interface.
use crate::coding::piece::{CodedPiece, OriginalData, OriginalView, PieceView};
use crate::error::Error;
use vstd::prelude::*;

verus! {

/// Authenticates coded pieces against a per-generation commitment.
///
/// A source commits to an [`OriginalData`] and tags each [`CodedPiece`] it
/// emits; verifiers check `(commitment, piece, tag)` tuples.
pub trait Authenticator: Sized {
    /// A commitment to a generation of original data.
    type Commitment;

    /// An authentication tag attached to an emitted piece.
    type Tag;

    /// `commitment` is what committing to `original` gives.
    spec fn commits(&self, original: OriginalView, commitment: Self::Commitment) -> bool;

    /// A piece can be tagged: the arithmetic of its tag stays in range.
    spec fn can_tag(&self, commitment: Self::Commitment, piece: PieceView) -> bool;

    /// `tag` is what tagging `piece` gives.
    spec fn tags(
        &self,
        commitment: Self::Commitment,
        piece: PieceView,
        tag: Self::Tag,
    ) -> bool;

    /// `piece` passes verification with `tag`.
    spec fn accepts(
        &self,
        commitment: Self::Commitment,
        piece: PieceView,
        tag: Self::Tag,
    ) -> bool;

    /// Commit to a fresh generation of original data.
    fn commit(&self, original: &OriginalData) -> (commitment: Self::Commitment)
        ensures
            self.commits(original@, commitment),
    ;

    /// Produce an authentication tag for a coded piece derived from the
    /// committed generation.
    fn tag(&self, commitment: &Self::Commitment, piece: &CodedPiece) -> (tag: Self::Tag)
        requires
            self.can_tag(*commitment, piece@),
        ensures
            self.tags(*commitment, piece@, tag),
    ;

    /// Verify that `piece` was produced from the generation committed to by
    /// `commitment` and carries a valid `tag`; otherwise it is an
    /// [`Error::AuthenticatorRejected`].
    fn verify(&self, commitment: &Self::Commitment, piece: &CodedPiece, tag: &Self::Tag) -> (r:
        Result<(), Error>)
        ensures
            r == (if self.accepts(*commitment, piece@, *tag) {
                Ok::<(), Error>(())
            } else {
                Err::<(), Error>(Error::AuthenticatorRejected)
            }),
    ;
}

} // verus!
