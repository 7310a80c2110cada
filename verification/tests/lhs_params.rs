use rlnc_cat_rs::lhs::LhsParams;

#[test]
fn k_gadget_is_bit_length_of_q_minus_one() {
    assert_eq!(LhsParams::<97>::k_gadget(), 7);
    assert_eq!(LhsParams::<128>::k_gadget(), 7);
    assert_eq!(LhsParams::<129>::k_gadget(), 8);
    assert_eq!(LhsParams::<2>::k_gadget(), 1);
    assert_eq!(LhsParams::<3>::k_gadget(), 2);
}

#[test]
fn m_combines_primary_and_gadget_blocks() {
    let p = LhsParams::<97>::new(2, 4, 3, 10_000, 3.0f64.to_bits()).ok();
    assert_eq!(p.as_ref().map(LhsParams::m), Some(4 + 2 * 7));
    assert_eq!(p.as_ref().map(LhsParams::gadget_width), Some(14));
}

#[test]
fn rejects_zero_dimensions() {
    assert!(LhsParams::<97>::new(0, 1, 1, 1, 3.0f64.to_bits()).is_err());
    assert!(LhsParams::<97>::new(1, 0, 1, 1, 3.0f64.to_bits()).is_err());
    assert!(LhsParams::<97>::new(1, 1, 0, 1, 3.0f64.to_bits()).is_err());
}

#[test]
fn rejects_trivial_modulus() {
    assert!(LhsParams::<1>::new(1, 1, 1, 1, 3.0f64.to_bits()).is_err());
}

#[test]
fn rejects_nonpositive_sigma_g() {
    assert!(LhsParams::<97>::new(1, 1, 1, 1, 0.0f64.to_bits()).is_err());
    assert!(LhsParams::<97>::new(1, 1, 1, 1, (-1.0f64).to_bits()).is_err());
    assert!(LhsParams::<97>::new(1, 1, 1, 1, f64::NAN.to_bits()).is_err());
    assert!(LhsParams::<97>::new(1, 1, 1, 1, f64::INFINITY.to_bits()).is_err());
}

#[test]
fn accessors_return_stored_values() {
    let p = LhsParams::<97>::new(5, 7, 11, 9_999, 4.5f64.to_bits()).ok();
    assert_eq!(p.as_ref().map(LhsParams::n), Some(5));
    assert_eq!(p.as_ref().map(LhsParams::m0), Some(7));
    assert_eq!(p.as_ref().map(LhsParams::k_pieces), Some(11));
    assert_eq!(p.as_ref().map(LhsParams::sig_norm_bound_sq), Some(9_999));
    assert_eq!(p.as_ref().map(LhsParams::sigma_g), Some(4.5f64.to_bits()));
}
