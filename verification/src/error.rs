//! Single project-wide error type.
//!
//! Every fallible operation in this crate returns [`Error`].
use crate::text;
use vstd::prelude::*;
use vstd::string::*;

verus! {

/// The error type for all RLNC operations.
#[derive(Debug, PartialEq, Eq)]
pub enum Error {
    /// The input data slice was empty.
    EmptyData,
    /// The requested piece count was zero.
    InvalidPieceCount,
    /// A coded piece had a different byte length than expected.
    PieceSizeMismatch {
        /// The expected piece byte length.
        expected: usize,
        /// The actual piece byte length.
        actual: usize,
    },
    /// A coding vector had a different length than the piece count.
    CodingVectorLengthMismatch {
        /// The expected length (piece count).
        expected: usize,
        /// The actual length.
        actual: usize,
    },
    /// Not enough linearly independent pieces to decode.
    InsufficientPieces {
        /// The number of pieces needed.
        needed: usize,
        /// The number of useful pieces received.
        received: usize,
    },
    /// Division by zero in GF(2^8).
    DivisionByZero,
    /// The boundary marker was not found or padding was invalid.
    InvalidPadding,
    /// Two operands had incompatible dimensions.
    DimensionMismatch {
        /// The expected dimension.
        expected: usize,
        /// The actual dimension.
        actual: usize,
    },
    /// The random byte source returned an error.
    RandomGenerationFailed(String),
    /// An authenticator rejected a piece: its tag did not match the
    /// expected value for the given commitment.
    AuthenticatorRejected,
    /// The transport could not deliver a piece.
    TransportFailed(String),
}

impl Error {
    /// The text that [`Error::message`] gives for this error.
    pub open spec fn text(&self) -> Seq<char> {
        match self {
            Error::EmptyData => "input data is empty"@,
            Error::InvalidPieceCount => "piece count must be at least 1"@,
            Error::PieceSizeMismatch { expected, actual } => text::expected_got(
                "piece size mismatch: expected "@,
                *expected as nat,
                ", got "@,
                *actual as nat,
            ),
            Error::CodingVectorLengthMismatch { expected, actual } => text::expected_got(
                "coding vector length mismatch: expected "@,
                *expected as nat,
                ", got "@,
                *actual as nat,
            ),
            Error::InsufficientPieces { needed, received } => text::expected_got(
                "insufficient pieces: need "@,
                *needed as nat,
                ", received "@,
                *received as nat,
            ),
            Error::DivisionByZero => "division by zero in GF(2^8)"@,
            Error::InvalidPadding => "boundary marker not found or padding is invalid"@,
            Error::DimensionMismatch { expected, actual } => text::expected_got(
                "dimension mismatch: expected "@,
                *expected as nat,
                ", got "@,
                *actual as nat,
            ),
            Error::RandomGenerationFailed(reason) => "random generation failed: "@ + reason@,
            Error::AuthenticatorRejected => "authenticator rejected the piece"@,
            Error::TransportFailed(reason) => "transport failed: "@ + reason@,
        }
    }

    /// The human-readable description of this error.
    pub fn message(&self) -> (message: String)
        ensures
            message@ == self.text(),
    {
        match self {
            Error::EmptyData => String::from_str("input data is empty"),
            Error::InvalidPieceCount => String::from_str("piece count must be at least 1"),
            Error::PieceSizeMismatch { expected, actual } => text::two_numbers(
                "piece size mismatch: expected ",
                *expected,
                ", got ",
                *actual,
            ),
            Error::CodingVectorLengthMismatch { expected, actual } => text::two_numbers(
                "coding vector length mismatch: expected ",
                *expected,
                ", got ",
                *actual,
            ),
            Error::InsufficientPieces { needed, received } => text::two_numbers(
                "insufficient pieces: need ",
                *needed,
                ", received ",
                *received,
            ),
            Error::DivisionByZero => String::from_str("division by zero in GF(2^8)"),
            Error::InvalidPadding => String::from_str(
                "boundary marker not found or padding is invalid",
            ),
            Error::DimensionMismatch { expected, actual } => text::two_numbers(
                "dimension mismatch: expected ",
                *expected,
                ", got ",
                *actual,
            ),
            Error::RandomGenerationFailed(reason) => String::from_str(
                "random generation failed: ",
            ).concat(reason.as_str()),
            Error::AuthenticatorRejected => String::from_str("authenticator rejected the piece"),
            Error::TransportFailed(reason) => String::from_str("transport failed: ").concat(
                reason.as_str(),
            ),
        }
    }
}

} // verus!
