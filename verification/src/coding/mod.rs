//! Random Linear Network Coding operations.
//!
//! - [`piece`]: original data, coding vectors and coded pieces.
//! - [`encode`]: coded pieces from original data.
//! - [`decode`]: original data from coded pieces.
//! - [`recode`]: coded pieces from coded pieces.
//! - [`recovery`]: why decoding gives back what was encoded.

pub mod decode;
pub mod encode;
pub mod piece;
pub mod recode;
pub mod recovery;
