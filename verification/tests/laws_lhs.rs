use rlnc_cat_rs::auth::Authenticator;
use rlnc_cat_rs::coding::piece::{CodedPiece, CodingVector};
use rlnc_cat_rs::error::Error;
use rlnc_cat_rs::lattice::gaussian::sample_step;
use rlnc_cat_rs::lattice::{ZMatrix, ZVec, Zq, ZqMatrix, ZqVec};
use rlnc_cat_rs::lhs::gadget::{gadget_apply, gadget_kernel_basis, gadget_preimage};
use rlnc_cat_rs::lhs::keys::{keys_from, push_ternary};
use rlnc_cat_rs::lhs::{
    combine, keygen, sign, verify, LatticeHomomorphicAuthenticator, LhsParams, PublicKey,
    SecretKey, Signature,
};
use rlnc_cat_rs::vector::GfVec;
use std::sync::atomic::{AtomicUsize, Ordering};

const METADATA: &[u8] = b"laws";

fn counter_rng() -> impl Fn(usize) -> Result<Vec<u8>, Error> {
    let counter = AtomicUsize::new(0);
    move |n| {
        let i = counter.fetch_add(1, Ordering::Relaxed);
        Ok((0..n).map(|j| ((i.wrapping_mul(0x9E37_79B9) + j) & 0xFF) as u8).collect())
    }
}

fn keys(bound: u128) -> (PublicKey<97>, SecretKey<97>) {
    let params = LhsParams::new(2, 3, 4, bound, 3.0f64.to_bits()).unwrap();
    keygen(params, &counter_rng()).unwrap()
}

/// Alternating small coefficients, whatever the center.
fn wobble(center: Vec<i64>, _width: u64) -> Result<ZVec, Error> {
    Ok(ZVec::new((0..center.len()).map(|i| (i % 3) as i64 - 1).collect()))
}

fn auth(bound: u128) -> LatticeHomomorphicAuthenticator<97> {
    let (pk, sk) = keys(bound);
    LatticeHomomorphicAuthenticator::new(pk, &sk, METADATA, &wobble).unwrap()
}

fn piece(coeffs: &[u8]) -> CodedPiece {
    CodedPiece::new(CodingVector::from_bytes(coeffs), GfVec::zeros(1))
}

#[test]
fn bits_of_a_target_apply_to_the_target() {
    let u = ZqVec::<97>::new(vec![Zq::new(5), Zq::new(96)]);
    let w = gadget_preimage(&u);
    assert_eq!(w, vec![1, 0, 1, 0, 0, 0, 0, 0, 0, 0, 0, 0, 1, 1]);
    assert_eq!(gadget_apply::<97>(&w, 2), u);
}

#[test]
fn the_kernel_basis_maps_to_zero() {
    let basis = gadget_kernel_basis::<97>().unwrap();
    assert_eq!((basis.rows(), basis.cols()), (7, 7));
    assert_eq!(basis.row(0), Some(&[2, -1, 0, 0, 0, 0, 0][..]));
    assert_eq!(basis.row(6), Some(&[1, 0, 0, 0, 0, 1, 1][..]));
    for i in 0..7 {
        assert_eq!(gadget_apply::<97>(basis.row(i).unwrap(), 1), ZqVec::zeros(1));
    }
    let even = gadget_kernel_basis::<8>().unwrap();
    assert_eq!(even.row(2), Some(&[0, 0, 0][..]));
}

#[test]
fn assembled_keys_satisfy_the_trapdoor_identity() {
    let params = LhsParams::<5>::new(1, 1, 1, 100, 1.0f64.to_bits()).unwrap();
    let a_0 = ZqMatrix::new(1, 1, vec![Zq::new(3)]).unwrap();
    let r = ZMatrix::new(1, 3, vec![1, -1, 0]).unwrap();
    let (pk, sk) = keys_from(params, a_0, r).unwrap();
    // A = [3 | 1 - 3, 2 + 3, 4] modulo 5.
    let a: Vec<u32> = (0..4).map(|j| pk.a().entry(0, j).unwrap().value()).collect();
    assert_eq!(a, vec![3, 3, 0, 4]);
    for w in [[1i64, 0, 0], [0, 1, 0], [4, -3, 2], [-7, 9, 11]] {
        let mut sigma = sk.r().mul_vec(&ZVec::new(w.to_vec())).unwrap().entries().to_vec();
        sigma.extend(w);
        let left = pk.a().mul_vec(&ZVec::new(sigma).reduce_mod()).unwrap();
        assert_eq!(left, gadget_apply::<5>(&w, 1));
    }
}

#[test]
fn ternary_values_split_the_bytes_in_thirds() {
    let mut out = vec![9];
    push_ternary(&mut out, &vec![0, 84, 85, 169, 170, 254, 255]);
    assert_eq!(out, vec![9, -1, -1, 0, 0, 1, 1]);
}

#[test]
fn signatures_sign_whatever_the_sampler_gives() {
    let (pk, sk) = keys(1_000_000);
    let target = ZqVec::<97>::new(vec![Zq::new(42), Zq::new(91)]);
    let keep = |center: Vec<i64>, _: u64| Ok(ZVec::zeros(center.len()));
    let plain = sign(&pk, &sk, &target, &keep).unwrap();
    // Without an offset, the lower part is the bits of the target.
    assert_eq!(&plain.sigma().entries()[3..], &gadget_preimage(&target)[..]);
    let moved = sign(&pk, &sk, &target, &wobble).unwrap();
    assert_ne!(plain, moved);
    for sig in [plain, moved] {
        assert_eq!(sig.len(), pk.params().m());
        assert!(verify(&pk, &sig, &target).is_ok());
    }
}

#[test]
fn the_sampler_is_handed_the_negated_bits_and_the_width() {
    let (pk, sk) = keys(1_000_000);
    let target = ZqVec::<97>::new(vec![Zq::new(5), Zq::new(0)]);
    let seen = std::sync::Mutex::new(Vec::new());
    let record = |center: Vec<i64>, width: u64| {
        seen.lock().unwrap().push((center.clone(), width));
        Ok(ZVec::zeros(center.len()))
    };
    sign(&pk, &sk, &target, &record).unwrap();
    let width = 3.0f64.to_bits();
    let expected =
        vec![(vec![-1, 0, -1, 0, 0, 0, 0], width), (vec![0, 0, 0, 0, 0, 0, 0], width)];
    assert_eq!(*seen.lock().unwrap(), expected);
    let fail = |_: Vec<i64>, _: u64| Err(Error::EmptyData);
    assert_eq!(sign(&pk, &sk, &target, &fail).err(), Some(Error::EmptyData));
    let long = ZqVec::<97>::zeros(3);
    assert_eq!(
        sign(&pk, &sk, &long, &wobble).err(),
        Some(Error::DimensionMismatch { expected: 2, actual: 3 })
    );
}

#[test]
fn combinations_sign_combinations() {
    let (pk, sk) = keys(1_000_000_000);
    let targets = [
        ZqVec::<97>::new(vec![Zq::new(1), Zq::new(2)]),
        ZqVec::<97>::new(vec![Zq::new(90), Zq::new(45)]),
    ];
    let coeffs = [Zq::<97>::new(96), Zq::<97>::new(40)];
    let pairs: Vec<(Zq<97>, Signature)> = targets
        .iter()
        .zip(coeffs)
        .map(|(t, c)| (c, sign(&pk, &sk, t, &wobble).unwrap()))
        .collect();
    let combined = combine(&pairs).unwrap();
    let target = ZqVec::linear_combine(&coeffs, &targets).unwrap();
    assert!(verify(&pk, &combined, &target).is_ok());
    // The coefficient 96 lifts to -1.
    let (a, b) = (pairs[0].1.sigma().entries(), pairs[1].1.sigma().entries());
    assert_eq!(combined.sigma().entries()[0], 40 * b[0] - a[0]);
    assert_eq!(combine::<97>(&[]).map(|s| s.is_empty()), Ok(true));
}

#[test]
fn verification_bounds_the_norm_exactly() {
    let sigma = |entries: Vec<i64>| Signature::new(ZVec::new(entries));
    let (pk, _) = keys(9);
    let m = pk.params().m();
    let target = ZqVec::<97>::zeros(2);
    assert!(verify(&pk, &sigma(vec![0; m]), &target).is_ok());
    assert_eq!(
        verify(&pk, &sigma(vec![0; m - 1]), &target),
        Err(Error::AuthenticatorRejected)
    );
    let mut multiple = vec![0; m];
    multiple[0] = 97;
    assert_eq!(verify(&pk, &sigma(multiple), &target), Err(Error::AuthenticatorRejected));
    let extreme = ZVec::new(vec![i64::MIN; 5]);
    assert_eq!(extreme.squared_l2_norm(), u128::MAX);
    assert!(!extreme.norm_within(u128::MAX));
    assert!(ZVec::new(vec![3, -4]).norm_within(25));
    assert!(!ZVec::new(vec![3, -4]).norm_within(24));
}

#[test]
fn tags_of_genuine_signatures_are_accepted() {
    let auth = auth(10_000_000_000);
    let c = *auth.commitment();
    for coeffs in [[1u8, 2, 3, 4], [255, 0, 17, 96], [97, 98, 99, 100], [0, 0, 0, 0]] {
        let p = piece(&coeffs);
        let tag = auth.tag(&c, &p);
        assert_eq!(auth.verify(&c, &p, &tag), Ok(()));
        assert_eq!(
            auth.verify(&[0u8; 32].into(), &p, &tag),
            Err(Error::AuthenticatorRejected)
        );
    }
    let odd = piece(&[1, 2, 3]);
    assert!(auth.tag(&c, &odd).is_empty());
}

#[test]
fn a_long_tag_is_rejected() {
    let auth = auth(10);
    let c = *auth.commitment();
    let p = piece(&[1, 2, 3, 4]);
    let tag = auth.tag(&c, &p);
    assert_eq!(auth.verify(&c, &p, &tag), Err(Error::AuthenticatorRejected));
}

#[test]
fn rebuilding_gives_the_same_artifacts() {
    let auth = auth(10_000_000_000);
    let rebuilt = LatticeHomomorphicAuthenticator::from_public_artifacts(
        auth.public_key().clone(),
        METADATA,
        auth.signed_originals().to_vec(),
    )
    .unwrap();
    assert_eq!(rebuilt.hash_targets(), auth.hash_targets());
    assert!(rebuilt.commitment() == auth.commitment());
    let p = piece(&[9, 8, 7, 6]);
    let c = *auth.commitment();
    assert_eq!(rebuilt.tag(&c, &p), auth.tag(&c, &p));
    assert_eq!(
        LatticeHomomorphicAuthenticator::from_public_artifacts(
            auth.public_key().clone(),
            METADATA,
            Vec::new(),
        )
        .err(),
        Some(Error::DimensionMismatch { expected: 4, actual: 0 })
    );
}

#[test]
fn targets_and_commitment_hash_the_documented_bytes() {
    let auth = auth(10_000_000_000);
    for (index, target) in auth.hash_targets().iter().enumerate() {
        let mut payload = b"lhs-v1.target".to_vec();
        payload.extend((index as u64).to_le_bytes());
        payload.extend(0u64.to_le_bytes());
        payload.extend(METADATA);
        let threshold = u32::MAX - u32::MAX % 97;
        let expected: Vec<u32> = blake3::hash(&payload)
            .as_bytes()
            .chunks_exact(4)
            .map(|c| u32::from_le_bytes(c.try_into().unwrap()))
            .filter(|&x| x < threshold)
            .map(|x| x % 97)
            .take(2)
            .collect();
        let got: Vec<u32> = target.entries().iter().map(|z| z.value()).collect();
        assert_eq!(got, expected);
    }
    let a = auth.public_key().a();
    let mut payload = b"lhs-v1.commit".to_vec();
    for i in 0..a.rows() {
        for j in 0..a.cols() {
            payload.extend(a.entry(i, j).unwrap().value().to_le_bytes());
        }
    }
    payload.extend((METADATA.len() as u64).to_le_bytes());
    payload.extend(METADATA);
    for sig in auth.signed_originals() {
        for x in sig.sigma().entries() {
            payload.extend(x.to_le_bytes());
        }
    }
    assert_eq!(auth.commitment().as_bytes(), blake3::hash(&payload).as_bytes());
}

#[test]
fn rejection_keeps_what_the_decision_keeps() {
    let counter = AtomicUsize::new(0);
    let rng = |n: usize| {
        let i = counter.fetch_add(1, Ordering::Relaxed) as u64;
        Ok(i.to_le_bytes()[..n].to_vec())
    };
    // Proposals 0, 2, 4, .. from [-5, 4], tosses 1, 3, 5, ..
    let decide = |x: i64, toss: u64| x == -1 && toss == 5;
    assert_eq!(sample_step(&rng, -5, 10, &decide, 128), Ok(-1));
    assert_eq!(counter.load(Ordering::Relaxed), 6);
    let never = |_: i64, _: u64| false;
    assert_eq!(
        sample_step(&rng, 0, 10, &never, 3),
        Err(Error::RandomGenerationFailed("discrete Gaussian rejection exhausted".to_string()))
    );
    assert_eq!(counter.load(Ordering::Relaxed), 12);
}

#[test]
fn decimal_rendering() {
    assert_eq!(Zq::<97>::new(98).to_decimal(), "1");
    assert_eq!(Zq::<4000000007>::new(4000000006).to_decimal(), "4000000006");
}
