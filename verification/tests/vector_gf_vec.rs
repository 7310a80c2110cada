use rlnc_cat_rs::field::Gf256;
use rlnc_cat_rs::vector::GfVec;

#[test]
fn from_bytes_roundtrip() {
    let data = vec![0, 1, 2, 255, 128];
    let v = GfVec::from_bytes(&data);
    assert_eq!(v.to_bytes(), data);
}

#[test]
fn add_is_xor() {
    let a = GfVec::from_bytes(&[0x53, 0xCA]);
    let b = GfVec::from_bytes(&[0x11, 0x22]);
    let sum = a.add(&b);
    assert!(sum.is_ok());
    assert_eq!(sum.unwrap_or(GfVec::zeros(0)).to_bytes(), vec![0x42, 0xE8]);
}

#[test]
fn add_dimension_mismatch() {
    let a = GfVec::from_bytes(&[1, 2]);
    let b = GfVec::from_bytes(&[1, 2, 3]);
    assert!(a.add(&b).is_err());
}

#[test]
fn scale_by_zero_is_zero() {
    let v = GfVec::from_bytes(&[0x53, 0xCA, 0xFF]);
    let scaled = v.scale(Gf256::zero());
    assert_eq!(scaled, GfVec::zeros(3));
}

#[test]
fn scale_by_one_is_identity() {
    let v = GfVec::from_bytes(&[0x53, 0xCA, 0xFF]);
    let scaled = v.scale(Gf256::one());
    assert_eq!(scaled, v);
}

#[test]
fn linear_combine_single_vector() {
    let v = GfVec::from_bytes(&[1, 2, 3]);
    let scalar = Gf256::new(5);
    let result = GfVec::linear_combine(&[scalar], &[&v]);
    assert!(result.is_ok());
    assert_eq!(result.unwrap_or(GfVec::zeros(0)), v.scale(scalar));
}

#[test]
fn linear_combine_empty() {
    let result = GfVec::linear_combine(&[], &[]);
    assert!(result.is_ok());
    assert_eq!(result.unwrap_or(GfVec::from_bytes(&[1])), GfVec::zeros(0));
}

#[test]
fn mac_matches_scale_then_add() {
    let acc = GfVec::from_bytes(&[0x10, 0x20, 0x30, 0x40, 0x50, 0x60, 0x70, 0x80]);
    let v = GfVec::from_bytes(&[0x01, 0x02, 0x03, 0x04, 0x05, 0x06, 0x07, 0x08]);
    let scalar = Gf256::new(0x1B);

    let via_mac = acc.mac(&v, scalar).ok();
    let via_scale_add = acc.add(&v.scale(scalar)).ok();

    assert_eq!(via_mac, via_scale_add);
}

#[test]
fn mac_rejects_dimension_mismatch() {
    let a = GfVec::from_bytes(&[1, 2, 3]);
    let b = GfVec::from_bytes(&[4, 5]);
    assert!(a.mac(&b, Gf256::one()).is_err());
}

#[test]
fn mac_by_zero_equals_acc() {
    let acc = GfVec::from_bytes(&[0x11, 0x22, 0x33, 0x44]);
    let v = GfVec::from_bytes(&[0xAA, 0xBB, 0xCC, 0xDD]);
    let result = acc.mac(&v, Gf256::zero()).ok();
    assert_eq!(result, Some(acc));
}
