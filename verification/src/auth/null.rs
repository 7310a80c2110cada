//! A no-op [`Authenticator`] that accepts every piece.
//!
//! Use only when pollution is not part of the threat model.
use super::Authenticator;
use crate::coding::piece::{CodedPiece, OriginalData, OriginalView, PieceView};
use crate::error::Error;
use vstd::prelude::*;

verus! {

/// An authenticator that performs no verification.
///
/// Commitments and tags are both the unit type, so wire overhead is zero when
/// this impl is used.  Useful for tests and for trusted networks where
/// pollution is not a concern.
#[derive(Clone, Copy, Debug, Default, PartialEq, Eq)]
#[must_use]
pub struct NullAuthenticator;

impl Authenticator for NullAuthenticator {
    type Commitment = ();

    type Tag = ();

    open spec fn commits(&self, original: OriginalView, commitment: ()) -> bool {
        true
    }

    open spec fn can_tag(&self, commitment: (), piece: PieceView) -> bool {
        true
    }

    open spec fn tags(&self, commitment: (), piece: PieceView, tag: ()) -> bool {
        true
    }

    open spec fn accepts(&self, commitment: (), piece: PieceView, tag: ()) -> bool {
        true
    }

    fn commit(&self, _original: &OriginalData) -> (commitment: ()) {
    }

    fn tag(&self, _commitment: &(), _piece: &CodedPiece) -> (tag: ()) {
    }

    fn verify(&self, _commitment: &(), _piece: &CodedPiece, _tag: &()) -> (r: Result<(), Error>) {
        Ok(())
    }
}

} // verus!
