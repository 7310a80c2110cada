//! Reading fixed-width integers from the answers of a random source.
use crate::bytes;
use crate::error::Error;
use crate::text;
use vstd::prelude::*;
use vstd::string::*;

verus! {

/// The failure of random generation with the given reason.
pub open spec fn is_failure(e: Error, reason: Seq<char>) -> bool {
    e matches Error::RandomGenerationFailed(text) && text@ == reason
}

/// The failure for an answer of other than the expected number of bytes.
pub open spec fn is_short_read(e: Error, expected: nat, got: nat) -> bool {
    is_failure(e, text::expected_got("short read: expected "@, expected, " bytes, got "@, got))
}

/// `failure` reports the error `cause` of the random source: a failure of random
/// generation as it is, and any other error as one with its text.
pub open spec fn is_reported(failure: Error, cause: Error) -> bool {
    if cause is RandomGenerationFailed {
        failure == cause
    } else {
        is_failure(failure, cause.text())
    }
}

/// Report an error of the random source as [`Error::RandomGenerationFailed`].
pub fn report(cause: Error) -> (failure: Error)
    ensures
        failure is RandomGenerationFailed,
        is_reported(failure, cause),
{
    match cause {
        Error::RandomGenerationFailed(reason) => Error::RandomGenerationFailed(reason),
        other => Error::RandomGenerationFailed(other.message()),
    }
}

fn short_read(expected: usize, got: usize) -> (e: Error)
    ensures
        is_short_read(e, expected as nat, got as nat),
{
    Error::RandomGenerationFailed(
        text::two_numbers("short read: expected ", expected, " bytes, got ", got),
    )
}

/// Reads a `u32` from exactly four bytes.
pub fn read_u32(answer: &Vec<u8>) -> (r: Result<u32, Error>)
    ensures
        answer@.len() == 4 ==> (r matches Ok(x) && x as nat == bytes::le_value(answer@)),
        answer@.len() != 4 ==> (r matches Err(e) && is_short_read(e, 4, answer@.len())),
{
    if answer.len() == 4 {
        assert(answer@.subrange(0, 4) =~= answer@);
        Ok(bytes::read_le_u32(answer.as_slice(), 0))
    } else {
        Err(short_read(4, answer.len()))
    }
}

/// `r` is the value of eight bytes from the random source, or the error of the
/// source or of an answer of another length.
pub open spec fn read_from_draw(draw: Result<Vec<u8>, Error>, r: Result<u64, Error>) -> bool {
    match draw {
        Ok(answer) => if answer@.len() == 8 {
            r matches Ok(x) && x as nat == bytes::le_value(answer@)
        } else {
            r matches Err(e) && is_short_read(e, 8, answer@.len())
        },
        Err(e) => r == Err::<u64, Error>(e),
    }
}

/// Reads a `u64` from an answer of the random source.
pub fn read_u64_draw(draw: Result<Vec<u8>, Error>) -> (r: Result<u64, Error>)
    ensures
        read_from_draw(draw, r),
{
    match draw {
        Ok(answer) => if answer.len() == 8 {
            assert(answer@.subrange(0, 8) =~= answer@);
            Ok(bytes::read_le_u64(answer.as_slice(), 0))
        } else {
            Err(short_read(8, answer.len()))
        },
        Err(e) => Err(e),
    }
}

/// Asks the random source for eight bytes and reads a `u64` from them.
pub fn read_u64<F>(rng: &F) -> (r: Result<u64, Error>) where
    F: Fn(usize) -> Result<Vec<u8>, Error>,

    requires
        rng.requires((8usize,)),
    ensures
        exists|draw: Result<Vec<u8>, Error>| #[trigger]
            rng.ensures((8usize,), draw) && read_from_draw(draw, r),
{
    let draw = rng(8);
    read_u64_draw(draw)
}

} // verus!
