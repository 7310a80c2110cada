use rlnc_cat_rs::field::Gf256;
use rlnc_cat_rs::vector::gauss::{rank, reduced_row_echelon_form};
use rlnc_cat_rs::vector::{GfMatrix, GfVec};

#[test]
fn identity_is_already_rref() {
    let m = GfMatrix::new(vec![
        GfVec::from_bytes(&[1, 0]),
        GfVec::from_bytes(&[0, 1]),
    ])
    .unwrap_or(GfMatrix::empty(0));
    let (rref, pivots) =
        reduced_row_echelon_form(&m).unwrap_or((GfMatrix::empty(0), vec![]));
    assert_eq!(rref, m);
    assert_eq!(pivots, vec![0, 1]);
}

#[test]
fn rref_swaps_rows_when_needed() {
    let m = GfMatrix::new(vec![
        GfVec::from_bytes(&[0, 1]),
        GfVec::from_bytes(&[1, 0]),
    ])
    .unwrap_or(GfMatrix::empty(0));
    let (rref, pivots) =
        reduced_row_echelon_form(&m).unwrap_or((GfMatrix::empty(0), vec![]));
    assert_eq!(pivots, vec![0, 1]);
    assert_eq!(rref.get(0, 0), Some(Gf256::one()));
    assert_eq!(rref.get(0, 1), Some(Gf256::zero()));
    assert_eq!(rref.get(1, 0), Some(Gf256::zero()));
    assert_eq!(rref.get(1, 1), Some(Gf256::one()));
}

#[test]
fn rref_eliminates_correctly() {
    // [2, 3]   ->   [1, 0]
    // [1, 1]        [0, 1]
    // (in GF(2^8))
    let m = GfMatrix::new(vec![
        GfVec::from_bytes(&[2, 3]),
        GfVec::from_bytes(&[1, 1]),
    ])
    .unwrap_or(GfMatrix::empty(0));
    let (rref, pivots) =
        reduced_row_echelon_form(&m).unwrap_or((GfMatrix::empty(0), vec![]));
    assert_eq!(pivots.len(), 2);
    assert_eq!(rref.get(0, 0), Some(Gf256::one()));
    assert_eq!(rref.get(1, 1), Some(Gf256::one()));
    assert_eq!(rref.get(0, 1), Some(Gf256::zero()));
    assert_eq!(rref.get(1, 0), Some(Gf256::zero()));
}

#[test]
fn rank_of_identity() {
    let m = GfMatrix::new(vec![
        GfVec::from_bytes(&[1, 0, 0]),
        GfVec::from_bytes(&[0, 1, 0]),
        GfVec::from_bytes(&[0, 0, 1]),
    ])
    .unwrap_or(GfMatrix::empty(0));
    assert_eq!(rank(&m).unwrap_or(0), 3);
}

#[test]
fn rank_of_dependent_rows() {
    let m = GfMatrix::new(vec![
        GfVec::from_bytes(&[1, 2]),
        GfVec::from_bytes(&[2, 4]),
    ])
    .unwrap_or(GfMatrix::empty(0));
    assert_eq!(rank(&m).unwrap_or(0), 1);
}

#[test]
fn rref_is_idempotent() {
    let m = GfMatrix::new(vec![
        GfVec::from_bytes(&[5, 3, 7]),
        GfVec::from_bytes(&[2, 8, 1]),
        GfVec::from_bytes(&[9, 4, 6]),
    ])
    .unwrap_or(GfMatrix::empty(0));
    let (rref1, pivots1) =
        reduced_row_echelon_form(&m).unwrap_or((GfMatrix::empty(0), vec![]));
    let (rref2, pivots2) =
        reduced_row_echelon_form(&rref1).unwrap_or((GfMatrix::empty(0), vec![]));
    assert_eq!(rref1, rref2);
    assert_eq!(pivots1, pivots2);
}

#[test]
fn rref_augmented_matrix() {
    // Solve x + 2y = 5, 3x + 4y = 6 over GF(2^8)
    let m = GfMatrix::new(vec![
        GfVec::from_bytes(&[1, 2, 5]),
        GfVec::from_bytes(&[3, 4, 6]),
    ])
    .unwrap_or(GfMatrix::empty(0));
    let (rref, pivots) =
        reduced_row_echelon_form(&m).unwrap_or((GfMatrix::empty(0), vec![]));
    assert_eq!(pivots, vec![0, 1]);
    assert_eq!(rref.get(0, 0), Some(Gf256::one()));
    assert_eq!(rref.get(0, 1), Some(Gf256::zero()));
    assert_eq!(rref.get(1, 0), Some(Gf256::zero()));
    assert_eq!(rref.get(1, 1), Some(Gf256::one()));
    let x = rref.get(0, 2).unwrap_or(Gf256::zero());
    let y = rref.get(1, 2).unwrap_or(Gf256::zero());
    assert_eq!(x + Gf256::new(2) * y, Gf256::new(5));
    assert_eq!(Gf256::new(3) * x + Gf256::new(4) * y, Gf256::new(6));
}
