use rlnc_cat_rs::error::Error;
use rlnc_cat_rs::lattice::{Zq, ZqVec};

const Q: u32 = 97;

#[test]
fn zeros_has_zero_norm() {
    assert_eq!(ZqVec::<Q>::zeros(5).squared_l2_norm(), 0);
}

#[test]
fn basis_vector_norm_is_one() {
    let e1 = ZqVec::<Q>::new(vec![Zq::zero(), Zq::one(), Zq::zero()]);
    assert_eq!(e1.squared_l2_norm(), 1);
}

#[test]
fn signed_repr_used_for_norm() {
    // Value Q-1 is signed_repr -1, so norm contribution is 1.
    let v = ZqVec::<Q>::new(vec![Zq::new(Q - 1)]);
    assert_eq!(v.squared_l2_norm(), 1);
}

#[test]
fn linear_combine_empty_is_empty() {
    let out = ZqVec::<Q>::linear_combine(&[], &[]).ok();
    assert_eq!(out, Some(ZqVec::zeros(0)));
}

#[test]
fn linear_combine_single_is_scale() {
    let v = ZqVec::<Q>::new(vec![Zq::new(3), Zq::new(5)]);
    let out = ZqVec::<Q>::linear_combine(&[Zq::new(7)], std::slice::from_ref(&v)).ok();
    let expected = ZqVec::<Q>::new(vec![Zq::new(21), Zq::new(35)]);
    assert_eq!(out, Some(expected));
}

#[test]
fn linear_combine_two_combines() {
    let v1 = ZqVec::<Q>::new(vec![Zq::new(1), Zq::new(2)]);
    let v2 = ZqVec::<Q>::new(vec![Zq::new(3), Zq::new(4)]);
    let out = ZqVec::<Q>::linear_combine(&[Zq::new(2), Zq::new(3)], &[v1, v2]).ok();
    let expected = ZqVec::<Q>::new(vec![Zq::new(11), Zq::new(16)]);
    assert_eq!(out, Some(expected));
}

#[test]
fn linear_combine_length_mismatch_errors() {
    let v1 = ZqVec::<Q>::new(vec![Zq::new(1), Zq::new(2)]);
    let v2 = ZqVec::<Q>::new(vec![Zq::new(1)]);
    let out = ZqVec::<Q>::linear_combine(&[Zq::new(1), Zq::new(1)], &[v1, v2]);
    assert!(out.is_err());
}

#[test]
fn linear_combine_scalar_count_mismatch_errors() {
    let v = ZqVec::<Q>::new(vec![Zq::new(1), Zq::new(2)]);
    let out = ZqVec::<Q>::linear_combine(&[Zq::new(1), Zq::new(2)], &[v]);
    assert!(out.is_err());
}

#[test]
fn vector_add_is_pointwise() {
    let v1 = ZqVec::<Q>::new(vec![Zq::new(1), Zq::new(2)]);
    let v2 = ZqVec::<Q>::new(vec![Zq::new(3), Zq::new(4)]);
    let out = v1.add(&v2).ok();
    assert_eq!(
        out,
        Some(ZqVec::new(vec![Zq::new(4), Zq::new(6)])),
    );
}

#[test]
fn vector_scale_multiplies_each_entry() {
    let v = ZqVec::<Q>::new(vec![Zq::new(1), Zq::new(2), Zq::new(3)]);
    let out = v.scale(Zq::new(4));
    assert_eq!(
        out,
        ZqVec::new(vec![Zq::new(4), Zq::new(8), Zq::new(12)]),
    );
}

#[test]
fn sample_produces_correct_length() {
    let rng = |n: usize| -> Result<Vec<u8>, Error> { Ok(vec![0x42u8; n]) };
    let v = ZqVec::<Q>::sample(7, &rng).ok();
    assert_eq!(v.map(|x| x.len()), Some(7));
}
