use rlnc_cat_rs::error::Error;
use rlnc_cat_rs::lattice::gaussian::{sample_step, RETRY_BUDGET};
use std::sync::atomic::{AtomicUsize, Ordering};
use std::sync::Arc;

const TAIL_SIGMAS: f64 = 12.0;

/// A discrete Gaussian on top of the rejection loop.
fn discrete_gaussian<F>(sigma: f64, center: f64, rng: &F) -> Result<i64, Error>
where
    F: Fn(usize) -> Result<Vec<u8>, Error>,
{
    let tail = TAIL_SIGMAS * sigma;
    let low = (center - tail).floor() as i64;
    let high = (center + tail).ceil() as i64;
    let denom = 2.0 * sigma * sigma;
    let decide = |x: i64, toss: u64| {
        let u = (toss >> 11) as f64 / ((1u64 << 53) as f64);
        let delta = x as f64 - center;
        u < (-delta * delta / denom).exp()
    };
    sample_step(rng, low, (high - low + 1) as u64, &decide, RETRY_BUDGET)
}

fn counter_rng() -> impl Fn(usize) -> Result<Vec<u8>, Error> + Send + Sync + 'static {
    let counter = Arc::new(AtomicUsize::new(0));
    move |n: usize| -> Result<Vec<u8>, Error> {
        let i = counter.fetch_add(1, Ordering::Relaxed);
        #[allow(clippy::cast_possible_truncation)]
        Ok((0..n).map(|j| ((i.wrapping_mul(0x9E37_79B9) + j) & 0xFF) as u8).collect())
    }
}

#[test]
fn output_lies_in_tail_cutoff() {
    let rng = counter_rng();
    let sigma = 3.0;
    let center = 7.0;
    let bound = TAIL_SIGMAS * sigma;
    #[allow(clippy::cast_possible_truncation)]
    let low = (center - bound).floor() as i64;
    #[allow(clippy::cast_possible_truncation)]
    let high = (center + bound).ceil() as i64;
    (0..50)
        .map(|_| discrete_gaussian(sigma, center, &rng))
        .collect::<Result<Vec<_>, _>>()
        .ok()
        .into_iter()
        .flatten()
        .for_each(|x| assert!(x >= low && x <= high));
}

#[test]
fn empirical_mean_is_near_center() {
    let rng = counter_rng();
    let sigma = 4.0;
    let center = 2.0;
    let samples: Vec<i64> = (0..4000)
        .filter_map(|_| discrete_gaussian(sigma, center, &rng).ok())
        .collect();
    assert!(samples.len() > 3500);
    #[allow(clippy::cast_precision_loss)]
    let mean = samples.iter().map(|&x| x as f64).sum::<f64>() / samples.len() as f64;
    // Loose tolerance: rejection sampler + 4k samples, mean in [center ± 0.5].
    assert!((mean - center).abs() < 0.5, "mean = {mean}, center = {center}");
}

#[test]
fn empirical_variance_is_near_sigma_squared() {
    let rng = counter_rng();
    let sigma = 5.0;
    let samples: Vec<i64> = (0..4000)
        .filter_map(|_| discrete_gaussian(sigma, 0.0, &rng).ok())
        .collect();
    assert!(samples.len() > 3500);
    #[allow(clippy::cast_precision_loss)]
    let n = samples.len() as f64;
    #[allow(clippy::cast_precision_loss)]
    let mean = samples.iter().map(|&x| x as f64).sum::<f64>() / n;
    #[allow(clippy::cast_precision_loss)]
    let var = samples
        .iter()
        .map(|&x| {
            let d = x as f64 - mean;
            d * d
        })
        .sum::<f64>()
        / n;
    // Should be near sigma² = 25.  Wide tolerance.
    assert!(var > 15.0 && var < 40.0, "variance = {var}");
}

#[test]
fn determinism_with_identical_rng_streams() {
    let a = discrete_gaussian(3.0, 0.0, &counter_rng()).ok();
    let b = discrete_gaussian(3.0, 0.0, &counter_rng()).ok();
    assert_eq!(a, b);
}
