use rlnc_cat_rs::lattice::{Zq, ZqVec};
use rlnc_cat_rs::lhs::gadget::{gadget_apply, gadget_entry, gadget_preimage};
use rlnc_cat_rs::lhs::LhsParams;

#[test]
fn preimage_then_apply_is_identity_on_small_targets() {
    // All targets in Zq^2 for Q = 7 are tested.
    (0u32..7).for_each(|a| {
        (0u32..7).for_each(|b| {
            let u = ZqVec::<7>::new(vec![Zq::new(a), Zq::new(b)]);
            let w = gadget_preimage(&u);
            let back = gadget_apply::<7>(&w, 2);
            assert_eq!(back, u);
        });
    });
}

#[test]
fn preimage_has_bit_entries_only() {
    let u = ZqVec::<97>::new(vec![Zq::new(42), Zq::new(96)]);
    let w = gadget_preimage(&u);
    w.iter().for_each(|&b| assert!(b == 0 || b == 1));
}

#[test]
fn preimage_length_is_n_times_k_gadget() {
    let u = ZqVec::<97>::new(vec![Zq::new(0), Zq::new(0), Zq::new(0)]);
    let w = gadget_preimage(&u);
    assert_eq!(w.len(), 3 * LhsParams::<97>::k_gadget());
}

#[test]
fn gadget_entry_is_power_of_two_inside_block_and_zero_outside() {
    let k = LhsParams::<97>::k_gadget();
    // Row 0, first block (cols 0..k): entries are 1, 2, 4, ..., 64.
    (0..k).for_each(|j| {
        let expected = u32::try_from(1u64 << j).ok().unwrap_or(0) % 97;
        assert_eq!(gadget_entry::<97>(0, j), Zq::new(expected));
    });
    // Row 0, second block (cols k..2k): all zero.
    (k..2 * k).for_each(|j| {
        assert_eq!(gadget_entry::<97>(0, j), Zq::zero());
    });
    // Row 1, second block: non-zero powers of 2.
    (k..2 * k).for_each(|j| {
        let bit = j - k;
        let expected = u32::try_from(1u64 << bit).ok().unwrap_or(0) % 97;
        assert_eq!(gadget_entry::<97>(1, j), Zq::new(expected));
    });
}

#[test]
fn apply_on_zero_is_zero() {
    let out = gadget_apply::<97>(&[0i64; 14], 2);
    assert_eq!(out, ZqVec::zeros(2));
}
