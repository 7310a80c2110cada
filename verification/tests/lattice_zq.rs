use rlnc_cat_rs::error::Error;
use rlnc_cat_rs::lattice::Zq;
use std::sync::atomic::{AtomicUsize, Ordering};
use std::sync::Arc;

const Q_TEST: u32 = 97;

#[test]
fn new_reduces_mod_q() {
    assert_eq!(Zq::<Q_TEST>::new(100).value(), 3);
    assert_eq!(Zq::<Q_TEST>::new(0).value(), 0);
}

#[test]
fn add_wraps_mod_q() {
    let a = Zq::<Q_TEST>::new(50);
    let b = Zq::<Q_TEST>::new(80);
    assert_eq!((a + b).value(), (50 + 80) % Q_TEST);
}

#[test]
fn sub_does_not_underflow() {
    let a = Zq::<Q_TEST>::new(10);
    let b = Zq::<Q_TEST>::new(30);
    assert_eq!((a - b).value(), 77);
}

#[test]
fn mul_reduces() {
    let a = Zq::<Q_TEST>::new(50);
    let b = Zq::<Q_TEST>::new(80);
    assert_eq!((a * b).value(), u32::try_from(50u64 * 80 % u64::from(Q_TEST)).ok().unwrap_or(0));
}

#[test]
fn neg_zero_is_zero() {
    assert_eq!((-Zq::<Q_TEST>::zero()).value(), 0);
}

#[test]
fn neg_is_additive_inverse() {
    let x = Zq::<Q_TEST>::new(42);
    assert_eq!((x + (-x)).value(), 0);
}

#[test]
fn signed_repr_balances() {
    assert_eq!(Zq::<Q_TEST>::new(0).signed_repr(), 0);
    assert_eq!(Zq::<Q_TEST>::new(48).signed_repr(), 48);
    assert_eq!(Zq::<Q_TEST>::new(49).signed_repr(), -48);
    assert_eq!(Zq::<Q_TEST>::new(96).signed_repr(), -1);
}

#[test]
fn sample_is_deterministic_with_constant_rng() {
    let rng = |n: usize| -> Result<Vec<u8>, Error> { Ok(vec![0xA5u8; n]) };
    let a = Zq::<Q_TEST>::sample(&rng).ok();
    let b = Zq::<Q_TEST>::sample(&rng).ok();
    assert_eq!(a, b);
    assert!(a.is_some_and(|z| z.value() < Q_TEST));
}

#[test]
fn sample_covers_range() {
    let counter = Arc::new(AtomicUsize::new(0));
    let c = Arc::clone(&counter);
    let rng = move |n: usize| -> Result<Vec<u8>, Error> {
        let i = c.fetch_add(1, Ordering::Relaxed);
        #[allow(clippy::cast_possible_truncation)]
        Ok((0..n).map(|j| ((i + j) & 0xFF) as u8).collect())
    };
    (0..100)
        .map(|_| Zq::<Q_TEST>::sample(&rng))
        .collect::<Result<Vec<_>, _>>()
        .ok()
        .into_iter()
        .flatten()
        .for_each(|z| assert!(z.value() < Q_TEST));
}

#[test]
fn distributive_law_holds() {
    let a = Zq::<Q_TEST>::new(7);
    let b = Zq::<Q_TEST>::new(11);
    let c = Zq::<Q_TEST>::new(13);
    assert_eq!((a * (b + c)).value(), (a * b + a * c).value());
}
