//! Integer-lattice primitives for lattice-based cryptography.
//!
//! This module provides the algebraic building blocks for schemes over `Z/qZ`:
//!
//! - [`Zq`]: modular integers with `Add` / `Sub` / `Mul` / `Neg`.
//! - [`ZqVec`]: vectors with linear combinations and squared L2 norm (in the
//!   balanced signed-representative interpretation).
//! - [`ZqMatrix`]: row-major matrices with matrix-vector multiplication.
//! - [`ZVec`] / [`ZMatrix`]: integer counterparts without modular reduction,
//!   with `reduce_mod` projections into `Z/qZ`.

pub mod draw;
pub mod gaussian;
pub mod integers;
pub mod matrix;
pub mod signed;
pub mod vector;
pub mod zq;

pub use matrix::ZqMatrix;
pub use signed::{ZMatrix, ZVec};
pub use vector::ZqVec;
pub use zq::Zq;
