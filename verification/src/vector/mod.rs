//! Linear algebra over GF(2^8).
//!
//! Provides immutable vectors ([`GfVec`]), matrices ([`GfMatrix`]), and
//! Gaussian elimination ([`gauss`]).

pub mod dimension;
pub mod echelon;
pub mod gauss;
pub mod gf_vec;
pub mod linear;
pub mod matrix;

pub use gf_vec::GfVec;
pub use matrix::GfMatrix;
