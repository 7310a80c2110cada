use rlnc_cat_rs::lattice::{ZMatrix, ZVec, Zq, ZqMatrix, ZqVec};

#[test]
fn squared_l2_norm_counts_signed_squares() {
    let v = ZVec::new(vec![3, -4, 0]);
    assert_eq!(v.squared_l2_norm(), 9 + 16);
}

#[test]
fn signed_add_is_pointwise() {
    let a = ZVec::new(vec![1, 2, 3]);
    let b = ZVec::new(vec![10, 20, 30]);
    assert_eq!(
        a.add(&b).ok(),
        Some(ZVec::new(vec![11, 22, 33])),
    );
}

#[test]
fn sub_is_pointwise() {
    let a = ZVec::new(vec![10, 20, 30]);
    let b = ZVec::new(vec![1, 2, 3]);
    assert_eq!(
        a.sub(&b).ok(),
        Some(ZVec::new(vec![9, 18, 27])),
    );
}

#[test]
fn signed_scale_multiplies_each_entry() {
    let v = ZVec::new(vec![1, -2, 3]);
    assert_eq!(v.scale(-5), ZVec::new(vec![-5, 10, -15]));
}

#[test]
fn linear_combine_computes_sum_of_scaled_vecs() {
    let v1 = ZVec::new(vec![1, 2]);
    let v2 = ZVec::new(vec![10, 20]);
    let out = ZVec::linear_combine(&[3, -1], &[v1, v2]).ok();
    assert_eq!(out, Some(ZVec::new(vec![3 - 10, 6 - 20])));
}

#[test]
fn linear_combine_mismatch_errors() {
    let v1 = ZVec::new(vec![1, 2]);
    let v2 = ZVec::new(vec![10]);
    assert!(ZVec::linear_combine(&[1, 1], &[v1, v2]).is_err());
}

#[test]
fn reduce_mod_handles_negatives() {
    let v = ZVec::new(vec![-1, -2, 50]);
    let reduced: ZqVec<7> = v.reduce_mod();
    assert_eq!(reduced.entries()[0], Zq::new(6));
    assert_eq!(reduced.entries()[1], Zq::new(5));
    assert_eq!(reduced.entries()[2], Zq::new(1));
}

#[test]
fn zmatrix_mul_vec_matches_hand_calculation() {
    let m = ZMatrix::new(2, 2, vec![1, 2, 3, 4])
        .ok()
        .unwrap_or_else(|| ZMatrix::zeros(0, 0));
    let v = ZVec::new(vec![5, 6]);
    let out = m.mul_vec(&v).ok();
    assert_eq!(out, Some(ZVec::new(vec![17, 39])));
}

#[test]
fn zmatrix_row_borrow_covers_full_row() {
    let m = ZMatrix::new(2, 3, vec![1, 2, 3, 4, 5, 6])
        .ok()
        .unwrap_or_else(|| ZMatrix::zeros(0, 0));
    assert_eq!(m.row(1), Some(&[4i64, 5, 6][..]));
    assert_eq!(m.row(2), None);
}

#[test]
fn zmatrix_reduce_mod_dims_preserved() {
    let m = ZMatrix::new(2, 3, vec![-1, 0, 7, 8, -2, 100])
        .ok()
        .unwrap_or_else(|| ZMatrix::zeros(0, 0));
    let reduced: ZqMatrix<5> = m.reduce_mod();
    assert_eq!(reduced.rows(), 2);
    assert_eq!(reduced.cols(), 3);
    assert_eq!(reduced.entry(0, 0), Some(Zq::new(4))); // -1 mod 5 = 4
    assert_eq!(reduced.entry(1, 2), Some(Zq::new(0))); // 100 mod 5 = 0
}
