use rlnc_cat_rs::auth::Authenticator;
use rlnc_cat_rs::coding::piece::{CodedPiece, CodingVector};
use rlnc_cat_rs::error::Error;
use rlnc_cat_rs::lattice::gaussian::{sample_step, RETRY_BUDGET};
use rlnc_cat_rs::lattice::{ZVec, ZqVec};
use rlnc_cat_rs::lhs::{keygen, Commitment, LatticeHomomorphicAuthenticator, LhsParams, SecretKey};
use rlnc_cat_rs::vector::GfVec;
use std::sync::atomic::{AtomicUsize, Ordering};
use std::sync::Arc;

/// Orthogonalize the rows of the kernel basis.
fn gram_schmidt(rows: &[Vec<f64>]) -> Vec<Vec<f64>> {
    rows.iter().fold(Vec::new(), |mut gs: Vec<Vec<f64>>, row| {
        let orth = gs.iter().fold(row.clone(), |acc, g| {
            let ip: f64 = acc.iter().zip(g).map(|(a, b)| a * b).sum();
            let ns: f64 = g.iter().map(|x| x * x).sum();
            acc.iter().zip(g).map(|(a, b)| a - ip / ns * b).collect()
        });
        gs.push(orth);
        gs
    })
}

fn discrete_gaussian<F>(sigma: f64, center: f64, rng: &F) -> Result<i64, Error>
where
    F: Fn(usize) -> Result<Vec<u8>, Error>,
{
    let low = (center - 12.0 * sigma).floor() as i64;
    let high = (center + 12.0 * sigma).ceil() as i64;
    let decide = |x: i64, toss: u64| {
        let u = (toss >> 11) as f64 / ((1u64 << 53) as f64);
        let delta = x as f64 - center;
        u < (-delta * delta / (2.0 * sigma * sigma)).exp()
    };
    sample_step(rng, low, (high - low + 1) as u64, &decide, RETRY_BUDGET)
}

/// Klein's algorithm on the kernel basis of a secret key.
fn klein<const Q: u32, F>(
    sk: &SecretKey<Q>,
    rng: F,
) -> impl Fn(Vec<i64>, u64) -> Result<ZVec, Error>
where
    F: Fn(usize) -> Result<Vec<u8>, Error>,
{
    let basis = sk.gadget_kernel();
    let rows: Vec<Vec<f64>> = (0..basis.rows())
        .map(|i| basis.row(i).unwrap_or(&[]).iter().map(|&x| x as f64).collect())
        .collect();
    let gs = gram_schmidt(&rows);
    move |center, width| {
        let sigma = f64::from_bits(width);
        let mut t: Vec<f64> = center.iter().map(|&x| x as f64).collect();
        let mut zs = vec![0i64; rows.len()];
        for i in (0..rows.len()).rev() {
            let ns: f64 = gs[i].iter().map(|x| x * x).sum();
            let ip: f64 = t.iter().zip(&gs[i]).map(|(a, b)| a * b).sum();
            let z = discrete_gaussian(sigma / ns.sqrt(), ip / ns, &rng)?;
            t = t.iter().zip(&rows[i]).map(|(a, b)| a - z as f64 * b).collect();
            zs[i] = z;
        }
        Ok(ZVec::new(zs))
    }
}

const DEFAULT_METADATA: &[u8] = b"lhs-auth-test-default-metadata";

fn counter_rng(seed: usize) -> impl Fn(usize) -> Result<Vec<u8>, Error> + Send + Sync + 'static {
    let counter = Arc::new(AtomicUsize::new(seed));
    move |n: usize| -> Result<Vec<u8>, Error> {
        let i = counter.fetch_add(1, Ordering::Relaxed);
        #[allow(clippy::cast_possible_truncation)]
        Ok((0..n)
            .map(|j| ((i.wrapping_mul(0x9E37_79B9) + j) & 0xFF) as u8)
            .collect())
    }
}

fn unreachable_params<const Q: u32>() -> LhsParams<Q> {
    LhsParams::<Q>::new(1, 1, 1, 1, 3.0f64.to_bits())
        .ok()
        .unwrap_or_else(unreachable_params)
}

fn sample_auth_with_seed_and_metadata(
    seed: usize,
    metadata: &[u8],
) -> Option<LatticeHomomorphicAuthenticator<97>> {
    let params = LhsParams::<97>::new(2, 2, 4, 100_000_000, 3.0f64.to_bits())
        .ok()
        .unwrap_or_else(unreachable_params);
    let keys = keygen(params, &counter_rng(seed)).ok();
    keys.and_then(|(pk, sk)| {
        let sampler = klein(&sk, counter_rng(seed + 1));
        LatticeHomomorphicAuthenticator::new(pk, &sk, metadata, &sampler).ok()
    })
}

fn sample_auth_with_seed(seed: usize) -> Option<LatticeHomomorphicAuthenticator<97>> {
    sample_auth_with_seed_and_metadata(seed, DEFAULT_METADATA)
}

fn sample_auth() -> Option<LatticeHomomorphicAuthenticator<97>> {
    sample_auth_with_seed(0)
}

fn sample_piece<const Q: u32>(
    auth: &LatticeHomomorphicAuthenticator<Q>,
    coding_bytes: &[u8],
) -> CodedPiece {
    CodedPiece::new(
        CodingVector::from_bytes(coding_bytes),
        GfVec::from_bytes(&vec![0u8; auth.signed_originals().len()]),
    )
}

#[test]
fn new_produces_k_signed_originals() {
    let auth = sample_auth();
    assert_eq!(auth.map(|a| a.signed_originals().len()), Some(4));
}

#[test]
fn new_derives_k_hash_targets_with_length_n() {
    let auth = sample_auth();
    let shapes: Option<Vec<usize>> =
        auth.map(|a| a.hash_targets().iter().map(ZqVec::len).collect());
    assert_eq!(shapes, Some(vec![2, 2, 2, 2]));
}

#[test]
fn commitment_is_deterministic_for_fixed_artifacts() {
    let auth = sample_auth();
    let recloned = auth.as_ref().map(|a| {
        LatticeHomomorphicAuthenticator::from_public_artifacts(
            a.public_key().clone(),
            DEFAULT_METADATA,
            a.signed_originals().to_vec(),
        )
        .ok()
    });
    let eq = auth.and_then(|a| {
        recloned
            .flatten()
            .map(|r| r.commitment() == a.commitment())
    });
    assert_eq!(eq, Some(true));
}

#[test]
fn from_public_artifacts_rejects_wrong_count() {
    let auth = sample_auth();
    let built = auth.map(|a| {
        LatticeHomomorphicAuthenticator::from_public_artifacts(
            a.public_key().clone(),
            DEFAULT_METADATA,
            a.signed_originals().iter().take(2).cloned().collect(),
        )
    });
    assert!(built.is_some_and(|r| r.is_err()));
}

#[test]
fn fresh_tag_verifies() {
    let auth = sample_auth();
    let ok = auth.is_some_and(|a| {
        let piece = sample_piece(&a, &[1, 2, 3, 4]);
        let commitment = *a.commitment();
        let tag = a.tag(&commitment, &piece);
        a.verify(&commitment, &piece, &tag).is_ok()
    });
    assert!(ok);
}

#[test]
fn tag_on_standard_basis_matches_signed_original() {
    // cv = e_i (a single 1, rest 0) lifts to [0, ..., 1, ..., 0] in Zq;
    // the combined signature is exactly signed_originals[i].
    let auth = sample_auth();
    let ok = auth.is_some_and(|a| {
        (0..a.signed_originals().len()).all(|i| {
            let cv: Vec<u8> = (0..a.signed_originals().len())
                .map(|j| u8::from(j == i))
                .collect();
            let piece = sample_piece(&a, &cv);
            let commitment = *a.commitment();
            let tag = a.tag(&commitment, &piece);
            tag == a.signed_originals()[i]
        })
    });
    assert!(ok);
}

#[test]
fn wrong_commitment_rejects_tag() {
    let auth = sample_auth();
    let rejected = auth.is_some_and(|a| {
        let piece = sample_piece(&a, &[1, 0, 0, 0]);
        let commitment = *a.commitment();
        let tag = a.tag(&commitment, &piece);
        let bogus = Commitment::from([0xFF; 32]);
        a.verify(&bogus, &piece, &tag).is_err()
    });
    assert!(rejected);
}

#[test]
fn tag_from_foreign_generation_rejects() {
    // Two independent authenticators (distinct RNG seeds) have
    // independent signed_originals, so a tag produced by one fails
    // verification by the other even though the metadata-derived
    // hash_targets are identical: the verifier's public key `A_B`
    // doesn't satisfy `A_B · σ_A ≡ target (mod Q)`.
    let auth_a = sample_auth_with_seed(0);
    let auth_b = sample_auth_with_seed(10_000);
    let rejected = auth_a.zip(auth_b).is_some_and(|(a, b)| {
        let piece = sample_piece(&a, &[1, 2, 3, 4]);
        let commitment_a = *a.commitment();
        let tag_a = a.tag(&commitment_a, &piece);
        let commitment_b = *b.commitment();
        b.verify(&commitment_b, &piece, &tag_a).is_err()
    });
    assert!(rejected);
}

#[test]
fn wrong_coding_vector_length_rejects() {
    let auth = sample_auth();
    let rejected = auth.is_some_and(|a| {
        let piece = sample_piece(&a, &[1, 2, 3]);
        let commitment = *a.commitment();
        let tag = a.tag(&commitment, &piece);
        a.verify(&commitment, &piece, &tag).is_err()
    });
    assert!(rejected);
}

#[test]
fn mismatched_tag_and_coding_vector_rejects() {
    // Tag was generated for cv_a, but the wire piece carries cv_b.
    // derive_target(cv_b) mismatches A·tag, so verify rejects.
    let auth = sample_auth();
    let rejected = auth.is_some_and(|a| {
        let piece_a = sample_piece(&a, &[1, 0, 0, 0]);
        let piece_b = sample_piece(&a, &[0, 1, 0, 0]);
        let commitment = *a.commitment();
        let tag_a = a.tag(&commitment, &piece_a);
        a.verify(&commitment, &piece_b, &tag_a).is_err()
    });
    assert!(rejected);
}

#[test]
fn commitment_differs_across_metadata() {
    // Same RNG seed (hence same pk, sk), different metadata.  The
    // derived hash_targets differ, the signed_originals differ,
    // and the commitment bytes differ.  This is the central
    // binding property the metadata-derivation adds on top of the
    // earlier keypair-only binding.
    let auth_a = sample_auth_with_seed_and_metadata(0, b"generation-one");
    let auth_b = sample_auth_with_seed_and_metadata(0, b"generation-two");
    let distinct = auth_a.zip(auth_b).is_some_and(|(a, b)| {
        a.commitment() != b.commitment()
            && a.hash_targets() != b.hash_targets()
            && a.signed_originals() != b.signed_originals()
    });
    assert!(distinct);
}

#[test]
fn hash_targets_are_deterministic_across_constructors() {
    // `new` (signer path) and `from_public_artifacts` (relay path)
    // derive hash_targets identically when given the same metadata.
    let signer = sample_auth();
    let relay = signer.as_ref().and_then(|s| {
        LatticeHomomorphicAuthenticator::from_public_artifacts(
            s.public_key().clone(),
            DEFAULT_METADATA,
            s.signed_originals().to_vec(),
        )
        .ok()
    });
    let eq = signer.zip(relay).map(|(s, r)| s.hash_targets() == r.hash_targets());
    assert_eq!(eq, Some(true));
}

#[test]
fn relay_with_wrong_metadata_rejects_source_tags() {
    // Source and relay share (pk, σ_originals) but the relay builds
    // with different metadata.  Its derived hash_targets differ
    // from the source's, so when it tries to verify a piece the
    // derived target mismatches A · tag.
    let source = sample_auth_with_seed_and_metadata(0, b"generation-one");
    let relay = source.as_ref().and_then(|s| {
        LatticeHomomorphicAuthenticator::from_public_artifacts(
            s.public_key().clone(),
            b"generation-two",
            s.signed_originals().to_vec(),
        )
        .ok()
    });
    let rejected = source.zip(relay).is_some_and(|(s, r)| {
        let piece = sample_piece(&s, &[1, 2, 3, 4]);
        let commitment_s = *s.commitment();
        let tag_s = s.tag(&commitment_s, &piece);
        let commitment_r = *r.commitment();
        // Relay can't verify the source's tag under its own commitment.
        r.verify(&commitment_r, &piece, &tag_s).is_err()
    });
    assert!(rejected);
}
