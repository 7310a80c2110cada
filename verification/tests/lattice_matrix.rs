use rlnc_cat_rs::error::Error;
use rlnc_cat_rs::lattice::{Zq, ZqMatrix, ZqVec};

const Q: u32 = 97;

fn identity(n: usize) -> ZqMatrix<Q> {
    let data: Vec<Zq<Q>> = (0..n * n)
        .map(|k| {
            if k / n == k % n {
                Zq::one()
            } else {
                Zq::zero()
            }
        })
        .collect();
    ZqMatrix::new(n, n, data).ok().unwrap_or_else(|| ZqMatrix::zeros(0, 0))
}

#[test]
fn new_rejects_wrong_data_length() {
    let bad = ZqMatrix::<Q>::new(2, 3, vec![Zq::zero(); 5]);
    assert!(bad.is_err());
}

#[test]
fn zero_matrix_kills_any_vector() {
    let a = ZqMatrix::<Q>::zeros(3, 4);
    let v = ZqVec::<Q>::new((0..4).map(|i| Zq::new(i + 1)).collect());
    let result = a.mul_vec(&v).ok();
    assert_eq!(result, Some(ZqVec::<Q>::zeros(3)));
}

#[test]
fn identity_matrix_fixes_vector() {
    let a = identity(3);
    let v = ZqVec::<Q>::new(vec![Zq::new(5), Zq::new(7), Zq::new(11)]);
    let result = a.mul_vec(&v).ok();
    assert_eq!(result, Some(v));
}

#[test]
fn mul_vec_dim_mismatch_errors() {
    let a = ZqMatrix::<Q>::zeros(3, 4);
    let v = ZqVec::<Q>::zeros(3);
    assert!(a.mul_vec(&v).is_err());
}

#[test]
fn entry_lookup_is_row_major() {
    let data = vec![
        Zq::new(1),
        Zq::new(2),
        Zq::new(3),
        Zq::new(4),
        Zq::new(5),
        Zq::new(6),
    ];
    let a = ZqMatrix::<Q>::new(2, 3, data)
        .ok()
        .unwrap_or_else(|| ZqMatrix::zeros(0, 0));
    assert_eq!(a.entry(0, 0), Some(Zq::new(1)));
    assert_eq!(a.entry(0, 2), Some(Zq::new(3)));
    assert_eq!(a.entry(1, 2), Some(Zq::new(6)));
    assert_eq!(a.entry(2, 0), None);
    assert_eq!(a.entry(0, 3), None);
}

#[test]
fn mul_vec_computes_dot_products() {
    // A = [[1, 2], [3, 4]], v = [5, 6].
    // A v = [1*5 + 2*6, 3*5 + 4*6] = [17, 39].
    let data = vec![Zq::new(1), Zq::new(2), Zq::new(3), Zq::new(4)];
    let a = ZqMatrix::<Q>::new(2, 2, data)
        .ok()
        .unwrap_or_else(|| ZqMatrix::zeros(0, 0));
    let v = ZqVec::<Q>::new(vec![Zq::new(5), Zq::new(6)]);
    let result = a.mul_vec(&v).ok();
    assert_eq!(
        result,
        Some(ZqVec::new(vec![Zq::new(17), Zq::new(39)])),
    );
}

#[test]
fn sample_produces_correct_dims() {
    let rng = |n: usize| -> Result<Vec<u8>, Error> { Ok(vec![0x42u8; n]) };
    let m = ZqMatrix::<Q>::sample(3, 5, &rng).ok();
    assert_eq!(m.as_ref().map(ZqMatrix::rows), Some(3));
    assert_eq!(m.as_ref().map(ZqMatrix::cols), Some(5));
}
