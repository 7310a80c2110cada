use rlnc_cat_rs::error::Error;
use rlnc_cat_rs::lattice::{ZVec, ZqMatrix, ZqVec};
use rlnc_cat_rs::lhs::gadget::gadget_apply;
use rlnc_cat_rs::lhs::keys::sample_ternary;
use rlnc_cat_rs::lhs::{keygen, LhsParams, PublicKey};
use std::sync::atomic::{AtomicUsize, Ordering};
use std::sync::Arc;

fn counter_rng() -> impl Fn(usize) -> Result<Vec<u8>, Error> + Send + Sync + 'static {
    let counter = Arc::new(AtomicUsize::new(0));
    move |n: usize| -> Result<Vec<u8>, Error> {
        let i = counter.fetch_add(1, Ordering::Relaxed);
        #[allow(clippy::cast_possible_truncation)]
        Ok((0..n)
            .map(|j| ((i.wrapping_mul(0x9E37_79B9) + j) & 0xFF) as u8)
            .collect())
    }
}

#[test]
fn keygen_dimensions_match_params() {
    let params = LhsParams::<97>::new(2, 2, 3, 10_000, 3.0f64.to_bits())
        .ok()
        .unwrap_or_else(unreachable_params);
    let keys = keygen(params.clone(), &counter_rng()).ok();
    assert_eq!(keys.as_ref().map(|(pk, _)| pk.a().rows()), Some(2));
    assert_eq!(
        keys.as_ref().map(|(pk, _)| pk.a().cols()),
        Some(params.m()),
    );
    assert_eq!(
        keys.as_ref().map(|(_, sk)| sk.r().rows()),
        Some(params.m0()),
    );
    assert_eq!(
        keys.as_ref().map(|(_, sk)| sk.r().cols()),
        Some(params.gadget_width()),
    );
}

#[test]
fn keygen_secret_has_gadget_kernel_context() {
    // k × k basis cached in the secret key lets `sign` skip the
    // Gram-Schmidt cost on every invocation.
    let params = LhsParams::<97>::new(2, 2, 3, 10_000, 3.0f64.to_bits())
        .ok()
        .unwrap_or_else(unreachable_params);
    let keys = keygen(params, &counter_rng()).ok();
    let k = LhsParams::<97>::k_gadget();
    let shape = keys.map(|(_, sk)| {
        let basis = sk.gadget_kernel();
        (basis.rows(), basis.cols())
    });
    assert_eq!(shape, Some((k, k)));
}

#[test]
fn keygen_trapdoor_identity_holds() {
    // A · [R·w ; w] = G · w  for every w.  Verify with a random
    // bit vector `w` and confirm the left side reduces to G·w
    // in Zq.
    let params = LhsParams::<97>::new(2, 2, 1, 10_000, 3.0f64.to_bits())
        .ok()
        .unwrap_or_else(unreachable_params);
    let keys = keygen(params.clone(), &counter_rng()).ok();
    let ok = keys.is_some_and(|(pk, sk)| {
        let g_width = params.gadget_width();
        let w: Vec<i64> = (0..g_width).map(|j| i64::from(u8::from(j % 2 == 0))).collect();
        let w_zvec = ZVec::new(w.clone());
        let r_w = sk.r().mul_vec(&w_zvec).ok();
        r_w.is_some_and(|r_w| {
            let sigma_entries: Vec<i64> =
                r_w.entries().iter().copied().chain(w.iter().copied()).collect();
            let sigma_zq: ZqVec<97> = ZVec::new(sigma_entries).reduce_mod();
            let a_sigma = pk.a().mul_vec(&sigma_zq).ok();
            let g_w = gadget_apply::<97>(&w, params.n());
            a_sigma == Some(g_w)
        })
    });
    assert!(ok);
}

#[test]
fn sample_ternary_entries_are_in_range() {
    let t = sample_ternary(200, &counter_rng()).ok();
    let ok = t.is_some_and(|v| {
        v.len() == 200 && v.iter().all(|&x| (-1..=1).contains(&x))
    });
    assert!(ok);
}

#[test]
fn public_key_construction_rejects_mismatched_shape() {
    let params = LhsParams::<97>::new(2, 2, 3, 10_000, 3.0f64.to_bits())
        .ok()
        .unwrap_or_else(unreachable_params);
    let a = ZqMatrix::<97>::zeros(1, params.m());
    assert!(PublicKey::new(a, params).is_err());
}

fn unreachable_params<const Q: u32>() -> LhsParams<Q> {
    LhsParams::<Q>::new(1, 1, 1, 1, 1.0f64.to_bits())
        .ok()
        .unwrap_or_else(unreachable_params)
}
