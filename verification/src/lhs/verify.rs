//! Verification of signatures.
//!
//! The verifier accepts an integer vector `sigma` as a signature on `target` iff
//! both of the following hold:
//!
//! 1. its squared norm is at most the bound of the parameters (shortness);
//! 2. `A * sigma = target` modulo `Q` (algebraic correctness).
//!
//! Dropping (1) admits solutions that are algebraically correct but arbitrarily
//! long, with no hardness backing; dropping (2) admits any short vector
//! unrelated to `target`.  Both checks are therefore necessary.
//!
//! The norm check is evaluated in the `Z` interpretation of `sigma`; the
//! algebraic check reduces it entrywise modulo `Q` before applying `A`.  Any
//! mismatch (including dimension mismatches) is an
//! [`Error::AuthenticatorRejected`] so callers can treat the verifier as a
//! single boolean oracle.
use super::keys::{PublicKey, PublicKeyView};
use super::sign::Signature;
use crate::error::Error;
use crate::lattice::integers;
use crate::lattice::ZqVec;
use vstd::prelude::*;

verus! {

/// `sigma` passes verification as a signature on `target`.
pub open spec fn accepted(
    q: nat,
    public: PublicKeyView,
    sigma: Seq<int>,
    target: Seq<int>,
) -> bool {
    &&& sigma.len() == public.params.m(q)
    &&& target.len() == public.params.n
    &&& integers::squared_norm(sigma) <= public.params.sig_norm_bound_sq
    &&& integers::reduced(integers::apply(public.a.rows, sigma), q as int) == target
}

/// Verify that `sig` is a valid signature on `target` under `pk`.
///
/// Returns `Ok(())` when the signature passes both the norm bound and the
/// algebraic identity; otherwise, or when a length is wrong, it returns
/// [`Error::AuthenticatorRejected`].
pub fn verify<const Q: u32>(pk: &PublicKey<Q>, sig: &Signature, target: &ZqVec<Q>) -> (r: Result<
    (),
    Error,
>)
    ensures
        r == (if accepted(Q as nat, pk@, sig@, target@) {
            Ok::<(), Error>(())
        } else {
            Err::<(), Error>(Error::AuthenticatorRejected)
        }),
{
    if check_dimensions(sig, target, pk) && check_norm_bound(sig, pk)
        && check_algebraic_identity(pk, sig, target) {
        Ok(())
    } else {
        Err(Error::AuthenticatorRejected)
    }
}

fn check_dimensions<const Q: u32>(sig: &Signature, target: &ZqVec<Q>, pk: &PublicKey<Q>) -> (r:
    bool)
    ensures
        r == (sig@.len() == pk@.params.m(Q as nat) && target@.len() == pk@.params.n),
{
    let columns: usize = pk.a().cols();
    sig.len() == pk.params().m() && target.len() == pk.params().n()
}

fn check_norm_bound<const Q: u32>(sig: &Signature, pk: &PublicKey<Q>) -> (r: bool)
    ensures
        r == (integers::squared_norm(sig@) <= pk@.params.sig_norm_bound_sq),
{
    sig.sigma().norm_within(pk.params().sig_norm_bound_sq())
}

fn check_algebraic_identity<const Q: u32>(
    pk: &PublicKey<Q>,
    sig: &Signature,
    target: &ZqVec<Q>,
) -> (r: bool)
    requires
        sig@.len() == pk@.params.m(Q as nat),
    ensures
        r == (integers::reduced(integers::apply(pk@.a.rows, sig@), Q as int) == target@),
{
    let a = pk.a();
    let sigma_zq: ZqVec<Q> = sig.sigma().reduce_mod();
    proof {
        let q = Q as int;
        let rows = pk@.a.rows;
        integers::lemma_reduced_congruent(sig@, q);
        let (x, y) = (
            integers::reduced(integers::apply(rows, sigma_zq@), q),
            integers::reduced(integers::apply(rows, sig@), q),
        );
        assert forall|i: int| 0 <= i < rows.len() implies x[i] == y[i] by {
            integers::lemma_reduced_congruent(rows[i], q);
            integers::lemma_dot_congruent(rows[i], rows[i], sigma_zq@, sig@, q);
        }
        assert(x =~= y);
    }
    match a.mul_vec(&sigma_zq) {
        Ok(computed) => computed.same(target),
        Err(_) => false,
    }
}

} // verus!
