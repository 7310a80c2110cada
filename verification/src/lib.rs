//! Random Linear Network Coding over GF(2^8).
//!
//! This crate implements the three core operations of RLNC:
//!
//! - **Encoding**: split data into k pieces and generate coded pieces as random
//!   linear combinations over GF(2^8).
//! - **Decoding**: given k linearly independent coded pieces, reconstruct the
//!   original data via Gaussian elimination.
//! - **Recoding**: generate new coded pieces from existing coded pieces without
//!   decoding, enabling multi-hop distribution.
//!
//! The pure linear algebra core (finite field arithmetic, vector operations,
//! Gaussian elimination) lives in [`field`] and [`vector`].  The effectful
//! operations (random coefficient generation, streaming) use the `Io` and
//! `Stream` effect types of `comp_cat_rs`, which [`effect`] describes.
//!
//! On top of the coding layer, [`gossip`] broadcasts authenticated pieces between
//! peers ([`auth`] holds the authenticators, [`transport`] an in-memory network),
//! and [`lhs`] provides an authenticator whose tags survive recoding: linearly
//! homomorphic signatures over the integer lattices of [`lattice`].
//!
//! What holds of the library as a whole is proved in [`coding::recovery`] (any
//! coded pieces with independent coefficients give the data back),
//! [`dissemination`] (what relays keep and receivers recover), [`answers`] (which
//! answer of the random source went into which piece, over the records of
//! [`journal`]) and [`lhs`] (which signatures verify).

pub mod field;
pub mod vector;

pub mod answers;
pub mod auth;
pub mod bytes;
pub mod coding;
pub mod dissemination;
pub mod effect;
pub mod error;
pub mod gossip;
pub mod hash;
pub mod inbox;
pub mod journal;
pub mod lattice;
pub mod lhs;
pub mod relay;
pub mod text;
pub mod transport;
