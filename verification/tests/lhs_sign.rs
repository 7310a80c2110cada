use rlnc_cat_rs::error::Error;
use rlnc_cat_rs::lattice::gaussian::{sample_step, RETRY_BUDGET};
use rlnc_cat_rs::lattice::{ZVec, Zq, ZqVec};
use rlnc_cat_rs::lhs::{combine, keygen, sign, LhsParams, SecretKey, Signature};
use std::sync::atomic::{AtomicUsize, Ordering};
use std::sync::Arc;

/// Orthogonalize the rows of the kernel basis.
fn gram_schmidt(rows: &[Vec<f64>]) -> Vec<Vec<f64>> {
    rows.iter().fold(Vec::new(), |mut gs: Vec<Vec<f64>>, row| {
        let orth = gs.iter().fold(row.clone(), |acc, g| {
            let ip: f64 = acc.iter().zip(g).map(|(a, b)| a * b).sum();
            let ns: f64 = g.iter().map(|x| x * x).sum();
            acc.iter().zip(g).map(|(a, b)| a - ip / ns * b).collect()
        });
        gs.push(orth);
        gs
    })
}

fn discrete_gaussian<F>(sigma: f64, center: f64, rng: &F) -> Result<i64, Error>
where
    F: Fn(usize) -> Result<Vec<u8>, Error>,
{
    let low = (center - 12.0 * sigma).floor() as i64;
    let high = (center + 12.0 * sigma).ceil() as i64;
    let decide = |x: i64, toss: u64| {
        let u = (toss >> 11) as f64 / ((1u64 << 53) as f64);
        let delta = x as f64 - center;
        u < (-delta * delta / (2.0 * sigma * sigma)).exp()
    };
    sample_step(rng, low, (high - low + 1) as u64, &decide, RETRY_BUDGET)
}

/// Klein's algorithm on the kernel basis of a secret key.
fn klein<const Q: u32, F>(
    sk: &SecretKey<Q>,
    rng: F,
) -> impl Fn(Vec<i64>, u64) -> Result<ZVec, Error>
where
    F: Fn(usize) -> Result<Vec<u8>, Error>,
{
    let basis = sk.gadget_kernel();
    let rows: Vec<Vec<f64>> = (0..basis.rows())
        .map(|i| basis.row(i).unwrap_or(&[]).iter().map(|&x| x as f64).collect())
        .collect();
    let gs = gram_schmidt(&rows);
    move |center, width| {
        let sigma = f64::from_bits(width);
        let mut t: Vec<f64> = center.iter().map(|&x| x as f64).collect();
        let mut zs = vec![0i64; rows.len()];
        for i in (0..rows.len()).rev() {
            let ns: f64 = gs[i].iter().map(|x| x * x).sum();
            let ip: f64 = t.iter().zip(&gs[i]).map(|(a, b)| a * b).sum();
            let z = discrete_gaussian(sigma / ns.sqrt(), ip / ns, &rng)?;
            t = t.iter().zip(&rows[i]).map(|(a, b)| a - z as f64 * b).collect();
            zs[i] = z;
        }
        Ok(ZVec::new(zs))
    }
}

fn counter_rng() -> impl Fn(usize) -> Result<Vec<u8>, Error> + Send + Sync + 'static {
    counter_rng_with_seed(0)
}

fn counter_rng_with_seed(
    seed: usize,
) -> impl Fn(usize) -> Result<Vec<u8>, Error> + Send + Sync + 'static {
    let counter = Arc::new(AtomicUsize::new(seed));
    move |n: usize| -> Result<Vec<u8>, Error> {
        let i = counter.fetch_add(1, Ordering::Relaxed);
        #[allow(clippy::cast_possible_truncation)]
        Ok((0..n)
            .map(|j| ((i.wrapping_mul(0x9E37_79B9) + j) & 0xFF) as u8)
            .collect())
    }
}

fn unreachable_params<const Q: u32>() -> LhsParams<Q> {
    LhsParams::<Q>::new(1, 1, 1, 1, 1.0f64.to_bits())
        .ok()
        .unwrap_or_else(unreachable_params)
}

/// Deterministic length-2 target derived from an index; every index
/// yields a distinct vector so sign/combine tests can operate on
/// independent targets without pulling in an RNG.
fn fresh_target<const Q: u32>(i: usize) -> ZqVec<Q> {
    let seed = u32::try_from(i).unwrap_or(0);
    ZqVec::new(vec![Zq::new(seed.wrapping_add(1)), Zq::new(seed.wrapping_mul(3).wrapping_add(7))])
}

#[test]
fn sign_produces_signature_verifying_against_target() {
    let params = LhsParams::<97>::new(2, 2, 3, 10_000_000, 3.0f64.to_bits())
        .ok()
        .unwrap_or_else(unreachable_params);
    let keys = keygen(params.clone(), &counter_rng()).ok();
    let all_ok = keys.is_some_and(|(pk, sk)| {
        (0..params.k_pieces()).all(|i| {
            let target = fresh_target::<97>(i);
            sign(&pk, &sk, &target, &klein(&sk, counter_rng())).ok().is_some_and(|sig| {
                let sigma_zq: ZqVec<97> = sig.sigma().reduce_mod();
                pk.a().mul_vec(&sigma_zq).ok() == Some(target)
            })
        })
    });
    assert!(all_ok);
}

#[test]
fn sign_rejects_wrong_target_length() {
    let params = LhsParams::<97>::new(2, 2, 2, 10_000_000, 3.0f64.to_bits())
        .ok()
        .unwrap_or_else(unreachable_params);
    let keys = keygen(params, &counter_rng()).ok();
    let errored = keys.is_some_and(|(pk, sk)| {
        let bad = ZqVec::<97>::new(vec![Zq::new(1), Zq::new(2), Zq::new(3)]);
        sign(&pk, &sk, &bad, &klein(&sk, counter_rng())).is_err()
    });
    assert!(errored);
}

#[test]
fn sign_produces_signature_with_length_m() {
    let params = LhsParams::<97>::new(2, 2, 1, 10_000_000, 3.0f64.to_bits())
        .ok()
        .unwrap_or_else(unreachable_params);
    let keys = keygen(params.clone(), &counter_rng()).ok();
    let target = fresh_target::<97>(0);
    let len = keys.and_then(|(pk, sk)| {
        sign(&pk, &sk, &target, &klein(&sk, counter_rng())).ok().map(|sig| sig.len())
    });
    assert_eq!(len, Some(params.m()));
}

fn blake3_rng(seed: u64) -> impl Fn(usize) -> Result<Vec<u8>, Error> + Send + Sync + 'static {
    let counter = Arc::new(AtomicUsize::new(0));
    move |n: usize| -> Result<Vec<u8>, Error> {
        let i = counter.fetch_add(1, Ordering::Relaxed);
        let mut payload = Vec::with_capacity(24);
        payload.extend_from_slice(&seed.to_le_bytes());
        payload.extend_from_slice(&u64::try_from(i).unwrap_or(u64::MAX).to_le_bytes());
        payload.extend_from_slice(&u64::try_from(n).unwrap_or(u64::MAX).to_le_bytes());
        let hash = blake3::hash(&payload);
        let bytes = hash.as_bytes();
        Ok((0..n).map(|j| bytes[j % 32]).collect())
    }
}

#[test]
fn sign_is_randomized_across_rng_seeds() {
    // Same (pk, sk, target) with distinct RNG streams should yield
    // distinct σ: the Klein offset over the gadget kernel is the
    // source of randomness.  If this ever collides, the Klein
    // sampler is effectively deterministic and the BFKW09
    // distribution guarantee is broken.  Uses a BLAKE3-based
    // counter RNG so the seed diffuses into every byte rather
    // than only shifting the counter's starting position.
    let params = LhsParams::<97>::new(2, 2, 1, 10_000_000, 3.0f64.to_bits())
        .ok()
        .unwrap_or_else(unreachable_params);
    let keys = keygen(params, &counter_rng()).ok();
    let target = fresh_target::<97>(0);
    let differ = keys.is_some_and(|(pk, sk)| {
        let sig_a = sign(&pk, &sk, &target, &klein(&sk, blake3_rng(0xA1))).ok();
        let sig_b = sign(&pk, &sk, &target, &klein(&sk, blake3_rng(0xB2))).ok();
        sig_a.zip(sig_b).is_some_and(|(a, b)| a != b)
    });
    assert!(differ);
}

#[test]
fn combine_singleton_is_scaling_over_z() {
    let params = LhsParams::<97>::new(2, 2, 1, 10_000_000, 3.0f64.to_bits())
        .ok()
        .unwrap_or_else(unreachable_params);
    let keys = keygen(params, &counter_rng()).ok();
    let target = fresh_target::<97>(0);
    let ok = keys.is_some_and(|(pk, sk)| {
        sign(&pk, &sk, &target, &klein(&sk, counter_rng())).ok().is_some_and(|sig| {
            let c = Zq::<97>::new(3);
            let combined = combine(&[(c, sig.clone())]).ok();
            let scaled: Vec<i64> = sig
                .sigma()
                .entries()
                .iter()
                .map(|&x| c.signed_repr() * x)
                .collect();
            combined.map(|s| s.sigma().entries().to_vec()) == Some(scaled)
        })
    });
    assert!(ok);
}

#[test]
fn combine_uses_balanced_signed_lift() {
    // Coefficient 95 in Zq<97> should lift to -2, not 95.
    let params = LhsParams::<97>::new(2, 2, 1, 10_000_000, 3.0f64.to_bits())
        .ok()
        .unwrap_or_else(unreachable_params);
    let keys = keygen(params, &counter_rng()).ok();
    let target = fresh_target::<97>(0);
    let ok = keys.is_some_and(|(pk, sk)| {
        sign(&pk, &sk, &target, &klein(&sk, counter_rng())).ok().is_some_and(|sig| {
            let c = Zq::<97>::new(95);
            let combined = combine(&[(c, sig.clone())]).ok();
            let scaled: Vec<i64> = sig
                .sigma()
                .entries()
                .iter()
                .map(|&x| (-2_i64) * x)
                .collect();
            combined.map(|s| s.sigma().entries().to_vec()) == Some(scaled)
        })
    });
    assert!(ok);
}

#[test]
fn combine_is_linear_over_signatures() {
    let params = LhsParams::<97>::new(2, 2, 2, 10_000_000, 3.0f64.to_bits())
        .ok()
        .unwrap_or_else(unreachable_params);
    let keys = keygen(params, &counter_rng()).ok();
    let t0 = fresh_target::<97>(0);
    let t1 = fresh_target::<97>(1);
    let ok = keys.is_some_and(|(pk, sk)| {
        sign(&pk, &sk, &t0, &klein(&sk, counter_rng())).ok().is_some_and(|s0| {
            sign(&pk, &sk, &t1, &klein(&sk, counter_rng())).ok().is_some_and(|s1| {
                let c0 = Zq::<97>::new(2);
                let c1 = Zq::<97>::new(95);
                let combined = combine(&[(c0, s0.clone()), (c1, s1.clone())]).ok();
                let manual: Vec<i64> = (0..s0.len())
                    .map(|j| {
                        c0.signed_repr() * s0.sigma().entries()[j]
                            + c1.signed_repr() * s1.sigma().entries()[j]
                    })
                    .collect();
                combined.map(|s| s.sigma().entries().to_vec()) == Some(manual)
            })
        })
    });
    assert!(ok);
}

#[test]
fn sign_combined_signature_verifies_against_combined_target() {
    // A · (c0·σ0 + c1·σ1) ≡ c0·h0 + c1·h1 (mod Q).
    let params = LhsParams::<97>::new(2, 2, 2, 10_000_000, 3.0f64.to_bits())
        .ok()
        .unwrap_or_else(unreachable_params);
    let keys = keygen(params, &counter_rng()).ok();
    let t0 = fresh_target::<97>(0);
    let t1 = fresh_target::<97>(1);
    let ok = keys.is_some_and(|(pk, sk)| {
        sign(&pk, &sk, &t0, &klein(&sk, counter_rng())).ok().is_some_and(|s0| {
            sign(&pk, &sk, &t1, &klein(&sk, counter_rng())).ok().is_some_and(|s1| {
                let c0 = Zq::<97>::new(3);
                let c1 = Zq::<97>::new(5);
                combine(&[(c0, s0), (c1, s1)]).ok().is_some_and(|sig| {
                    let sigma_zq: ZqVec<97> = sig.sigma().reduce_mod();
                    let lhs = pk.a().mul_vec(&sigma_zq).ok();
                    let rhs = ZqVec::linear_combine(
                        &[c0, c1],
                        &[t0.clone(), t1.clone()],
                    )
                    .ok();
                    lhs == rhs
                })
            })
        })
    });
    assert!(ok);
}

#[test]
fn combine_propagates_length_mismatch() {
    let long = Signature::new(ZVec::new(vec![1, 2, 3]));
    let short = Signature::new(ZVec::new(vec![1]));
    assert!(
        combine::<97>(&[(Zq::new(1), long), (Zq::new(1), short)]).is_err()
    );
}

#[test]
fn signature_norm_reports_sum_of_squares() {
    let sig = Signature::new(ZVec::new(vec![3, -4, 0]));
    assert_eq!(sig.squared_l2_norm(), 9 + 16);
}

#[test]
fn signature_empirical_variance_scales_with_sigma_g() {
    // BFKW09 statistical-closeness check: σ = R·z + w₀ where w₀ is
    // deterministic and z ~ D_{Λ⊥(G), σ_g}, so Var(σ[0]) across RNG
    // seeds scales with σ_g².  Doubling σ_g should at minimum
    // double the empirical variance (expected: ≈ 4× the variance).
    let collect_entry0 = |sigma_g: f64| -> Option<Vec<f64>> {
        LhsParams::<97>::new(2, 2, 1, 100_000_000, sigma_g.to_bits())
            .ok()
            .and_then(|params| keygen(params, &counter_rng()).ok())
            .and_then(|(pk, sk)| {
                let target = fresh_target::<97>(0);
                (0..300)
                    .map(|seed| {
                        sign(&pk, &sk, &target, &klein(&sk, blake3_rng(seed))).ok().map(|s| {
                            #[allow(clippy::cast_precision_loss)]
                            let v = s.sigma().entries()[0] as f64;
                            v
                        })
                    })
                    .collect::<Option<Vec<f64>>>()
            })
    };
    let sample_variance = |data: &[f64]| {
        #[allow(clippy::cast_precision_loss)]
        let n = data.len() as f64;
        let mean = data.iter().sum::<f64>() / n;
        data.iter().map(|x| (x - mean).powi(2)).sum::<f64>() / n
    };
    let ok = collect_entry0(3.0)
        .zip(collect_entry0(6.0))
        .is_some_and(|(a, b)| {
            let va = sample_variance(&a);
            let vb = sample_variance(&b);
            vb > 2.0 * va
        });
    assert!(ok);
}
