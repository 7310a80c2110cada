use rlnc_cat_rs::error::Error;
use rlnc_cat_rs::lattice::{ZVec, Zq, ZqVec};
use rlnc_cat_rs::lhs::authenticator::derive_hash_targets;
use rlnc_cat_rs::lhs::{combine, keygen, sign, verify, LhsParams, PublicKey, SecretKey, Signature};
use std::sync::atomic::{AtomicUsize, Ordering};
use std::sync::Arc;

fn counter_rng() -> impl Fn(usize) -> Result<Vec<u8>, Error> + Send + Sync + 'static {
    let counter = Arc::new(AtomicUsize::new(0));
    move |n: usize| -> Result<Vec<u8>, Error> {
        let i = counter.fetch_add(1, Ordering::Relaxed);
        #[allow(clippy::cast_possible_truncation)]
        Ok((0..n)
            .map(|j| ((i.wrapping_mul(0x9E37_79B9) + j) & 0xFF) as u8)
            .collect())
    }
}

fn unreachable_params<const Q: u32>() -> LhsParams<Q> {
    LhsParams::<Q>::new(1, 1, 1, 1, 3.0f64.to_bits())
        .ok()
        .unwrap_or_else(unreachable_params)
}

/// The hash targets of a key.
fn hash_targets(pk: &PublicKey<97>) -> Vec<ZqVec<97>> {
    derive_hash_targets(b"verify", pk.params().k_pieces(), pk.params().n()).unwrap_or_default()
}

/// Sign target `i` with the bits of the target as they are.
fn sign_index(pk: &PublicKey<97>, sk: &SecretKey<97>, i: usize) -> Result<Signature, Error> {
    let keep = |center: Vec<i64>, _width: u64| Ok(ZVec::zeros(center.len()));
    sign(pk, sk, &hash_targets(pk)[i], &keep)
}

#[test]
fn fresh_signature_verifies_against_its_target() {
    let params = LhsParams::<97>::new(2, 2, 3, 10_000, 3.0f64.to_bits())
        .ok()
        .unwrap_or_else(unreachable_params);
    let keys = keygen(params, &counter_rng()).ok();
    let ok = keys.is_some_and(|(pk, sk)| {
        (0..pk.params().k_pieces()).all(|i| {
            sign_index(&pk, &sk, i)
                .ok()
                .is_some_and(|sig| verify(&pk, &sig, &hash_targets(&pk)[i]).is_ok())
        })
    });
    assert!(ok);
}

#[test]
fn verify_combined_signature_verifies_against_combined_target() {
    let params = LhsParams::<97>::new(2, 2, 3, 10_000, 3.0f64.to_bits())
        .ok()
        .unwrap_or_else(unreachable_params);
    let keys = keygen(params, &counter_rng()).ok();
    let ok = keys.is_some_and(|(pk, sk)| {
        let sigs: Option<Vec<Signature>> = (0..pk.params().k_pieces())
            .map(|i| sign_index(&pk, &sk, i).ok())
            .collect();
        sigs.is_some_and(|sigs| {
            let coeffs = vec![Zq::<97>::new(2), Zq::<97>::new(3), Zq::<97>::new(1)];
            let pairs: Vec<(Zq<97>, Signature)> =
                coeffs.iter().copied().zip(sigs).collect();
            let combined = combine(&pairs).ok();
            let target =
                ZqVec::<97>::linear_combine(&coeffs, &hash_targets(&pk)).ok();
            combined
                .and_then(|sig| target.map(|t| verify(&pk, &sig, &t)))
                .is_some_and(|r| r.is_ok())
        })
    });
    assert!(ok);
}

#[test]
fn wrong_target_is_rejected() {
    let params = LhsParams::<97>::new(2, 2, 1, 10_000, 3.0f64.to_bits())
        .ok()
        .unwrap_or_else(unreachable_params);
    let keys = keygen(params, &counter_rng()).ok();
    let rejected = keys.is_some_and(|(pk, sk)| {
        sign_index(&pk, &sk, 0).ok().is_some_and(|sig| {
            let wrong = ZqVec::<97>::new(vec![Zq::new(1), Zq::new(1)]);
            verify(&pk, &sig, &wrong).is_err()
        })
    });
    assert!(rejected);
}

#[test]
fn tampered_signature_is_rejected() {
    let params = LhsParams::<97>::new(2, 2, 1, 10_000, 3.0f64.to_bits())
        .ok()
        .unwrap_or_else(unreachable_params);
    let keys = keygen(params, &counter_rng()).ok();
    let rejected = keys.is_some_and(|(pk, sk)| {
        sign_index(&pk, &sk, 0).ok().is_some_and(|sig| {
            // Add 1 to entry 0: norm grows slightly, algebra breaks.
            let tampered_entries: Vec<i64> = sig
                .sigma()
                .entries()
                .iter()
                .enumerate()
                .map(|(i, &x)| if i == 0 { x + 1 } else { x })
                .collect();
            let tampered = Signature::new(ZVec::new(tampered_entries));
            verify(&pk, &tampered, &hash_targets(&pk)[0]).is_err()
        })
    });
    assert!(rejected);
}

#[test]
fn algebraically_valid_but_norm_excessive_is_rejected() {
    // σ' = σ + 2Q·e_0 preserves A·σ' ≡ A·σ (mod Q) but bloats norm
    // beyond the bound.  Isolates the norm check as the reason for
    // rejection (algebra still passes).
    let params = LhsParams::<97>::new(2, 2, 1, 10_000, 3.0f64.to_bits())
        .ok()
        .unwrap_or_else(unreachable_params);
    let keys = keygen(params, &counter_rng()).ok();
    let rejected = keys.is_some_and(|(pk, sk)| {
        sign_index(&pk, &sk, 0).ok().is_some_and(|sig| {
            let bloated_entries: Vec<i64> = sig
                .sigma()
                .entries()
                .iter()
                .enumerate()
                .map(|(i, &x)| if i == 0 { x + 2 * 97 } else { x })
                .collect();
            let bloated = Signature::new(ZVec::new(bloated_entries));
            verify(&pk, &bloated, &hash_targets(&pk)[0]).is_err()
        })
    });
    assert!(rejected);
}

#[test]
fn short_signature_is_rejected() {
    let params = LhsParams::<97>::new(2, 2, 1, 10_000, 3.0f64.to_bits())
        .ok()
        .unwrap_or_else(unreachable_params);
    let keys = keygen(params, &counter_rng()).ok();
    let rejected = keys.is_some_and(|(pk, _)| {
        let short = Signature::new(ZVec::new(vec![0_i64; 3]));
        verify(&pk, &short, &hash_targets(&pk)[0]).is_err()
    });
    assert!(rejected);
}

#[test]
fn wrong_target_length_is_rejected() {
    let params = LhsParams::<97>::new(2, 2, 1, 10_000, 3.0f64.to_bits())
        .ok()
        .unwrap_or_else(unreachable_params);
    let keys = keygen(params, &counter_rng()).ok();
    let rejected = keys.is_some_and(|(pk, sk)| {
        sign_index(&pk, &sk, 0).ok().is_some_and(|sig| {
            let wrong = ZqVec::<97>::zeros(5);
            verify(&pk, &sig, &wrong).is_err()
        })
    });
    assert!(rejected);
}
