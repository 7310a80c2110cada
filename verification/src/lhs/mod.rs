//! Linearly homomorphic signatures over `Z/QZ`.
//!
//! This module implements a lattice-based signature scheme whose signatures
//! compose under linear combinations over `Z/QZ`.  A recoding gossip relay can
//! therefore emit fresh authenticated pieces *without the secret key*, which is
//! the property RLNC needs from any authenticator that tolerates on-the-fly
//! linear mixing.
//!
//! # Construction
//!
//! Gadget-based trapdoor.  The public matrix is `A = [A_0 | G - A_0*R]` where `G`
//! is the gadget matrix and `R` is a secret matrix with entries in `{-1, 0, 1}`.
//! A signature on `h` is
//!
//! ```text
//! sigma = [R*w ; w]    where w is a short preimage of h under G.
//! ```
//!
//! `w` is the bits of `h` plus an offset in the gadget kernel that a sampler
//! chooses.  Correctness follows from
//! `A*sigma = A_0*R*w + (G - A_0*R)*w = G*w = h` modulo `Q`.  Linear homomorphism:
//! `c*sigma_1 + sigma_2` signs `c*h_1 + h_2` (combined over `Z` with
//! balanced-signed lifts of the coefficients).
//!
//! # Public surface
//!
//! - [`LhsParams`]: dimensional constants and norm bound.
//! - [`keygen`]: sample a fresh keypair.
//! - [`PublicKey`] / [`SecretKey`]: key types.
//! - [`sign`] / [`combine`]: produce and compose signatures.
//! - [`verify`]: check `A*sigma = target` modulo `Q` and the norm bound.
//! - [`LatticeHomomorphicAuthenticator`]: the scheme as an authenticator.
//!
//! What the hashes bind is proved in [`binding`], what an accepted signature
//! vouches for in [`soundness`], and that the kernel basis reaches the whole
//! kernel in [`kernel`].

pub mod authenticator;
pub mod binding;
pub mod gadget;
pub mod kernel;
pub mod keys;
pub mod params;
pub mod sign;
pub mod soundness;
pub mod verify;

pub use authenticator::{Commitment, LatticeHomomorphicAuthenticator};
pub use keys::{keygen, PublicKey, SecretKey};
pub use params::LhsParams;
pub use sign::{combine, sign, Signature};
pub use verify::verify;
