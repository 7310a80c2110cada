//! Piece authentication for pollution-resistant RLNC gossip.
//!
//! A recoding network is vulnerable to *pollution*: a byzantine relay can
//! inject coded pieces whose `(coding_vector, data)` pair does not correspond
//! to any linear combination of the source pieces.  Such pieces enter
//! downstream decoders and contaminate the reconstructed data.
//!
//! The [`Authenticator`] trait abstracts the defense layer.  A source commits
//! to a generation of `OriginalData` and tags each coded piece it emits.
//! Verifiers reject pieces whose tag does not match the commitment.
//!
//! - [`NullAuthenticator`]: no verification.  Use only when pollution is not
//!   part of the threat model (testing, trusted network).
//! - [`KeyedHashAuthenticator`]: BLAKE3 keyed-hash per piece.  Suitable for
//!   permissioned networks where source and verifier share a key.  Not
//!   homomorphic: recoders cannot tag recoded pieces without the key.
//!
//! For public-network gossip with recoding, the lattice authenticator in
//! [`crate::lhs`] is linearly homomorphic.

pub mod authenticator;
pub mod keyed_hash;
pub mod null;

pub use authenticator::Authenticator;
pub use keyed_hash::{
    Commitment as KeyedHashCommitment, KeyedHashAuthenticator, Tag as KeyedHashTag,
};
pub use null::NullAuthenticator;
