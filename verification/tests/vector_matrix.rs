use rlnc_cat_rs::field::Gf256;
use rlnc_cat_rs::vector::{GfMatrix, GfVec};

fn identity_2x2() -> GfMatrix {
    GfMatrix::new(vec![
        GfVec::from_bytes(&[1, 0]),
        GfVec::from_bytes(&[0, 1]),
    ])
    .unwrap_or(GfMatrix::empty(0))
}

#[test]
fn new_validates_row_lengths() {
    let bad = GfMatrix::new(vec![
        GfVec::from_bytes(&[1, 2]),
        GfVec::from_bytes(&[3, 4, 5]),
    ]);
    assert!(bad.is_err());
}

#[test]
fn append_row_validates_length() {
    let m = identity_2x2();
    assert!(m.append_row(GfVec::from_bytes(&[1, 2, 3])).is_err());
    assert!(m.append_row(GfVec::from_bytes(&[1, 2])).is_ok());
}

#[test]
fn swap_rows_works() {
    let m = GfMatrix::new(vec![
        GfVec::from_bytes(&[1, 0]),
        GfVec::from_bytes(&[0, 2]),
    ])
    .unwrap_or(GfMatrix::empty(0));
    let swapped = m.with_rows_swapped(0, 1);
    assert!(swapped.is_some());
    let s = swapped.unwrap_or(GfMatrix::empty(0));
    assert_eq!(s.get(0, 0), Some(Gf256::zero()));
    assert_eq!(s.get(0, 1), Some(Gf256::new(2)));
    assert_eq!(s.get(1, 0), Some(Gf256::one()));
}

#[test]
fn split_at_col_works() {
    let m = GfMatrix::new(vec![
        GfVec::from_bytes(&[1, 2, 3, 4]),
        GfVec::from_bytes(&[5, 6, 7, 8]),
    ])
    .unwrap_or(GfMatrix::empty(0));
    let split = m.split_at_col(2);
    assert!(split.is_ok());
    let (left, right) = split.unwrap_or((GfMatrix::empty(0), GfMatrix::empty(0)));
    assert_eq!(left.col_count(), 2);
    assert_eq!(right.col_count(), 2);
    assert_eq!(left.get(0, 0), Some(Gf256::new(1)));
    assert_eq!(right.get(0, 0), Some(Gf256::new(3)));
}
