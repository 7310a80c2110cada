use rlnc_cat_rs::field::{half_nibble_tables, mac, Gf256};

#[test]
fn mac_matches_elementwise_definition() {
    (0u16..256).for_each(|scalar_byte| {
        let scalar = Gf256::new(scalar_byte as u8);
        (0usize..=256).step_by(37).for_each(|half| {
            let acc: Vec<Gf256> = (0..half).map(|i| Gf256::new((i * 31 + 7) as u8)).collect();
            let v: Vec<Gf256> = (0..half).map(|i| Gf256::new((i * 17 + 3) as u8)).collect();
            let expected: Vec<Gf256> =
                acc.iter().zip(v.iter()).map(|(&a, &b)| a + scalar * b).collect();
            assert_eq!(mac(&acc, &v, scalar).ok(), Some(expected));
        });
    });
}

#[test]
fn half_nibble_tables_recover_product() {
    (0u16..256).for_each(|scalar_byte| {
        let scalar = Gf256::new(scalar_byte as u8);
        let (low, high) = half_nibble_tables(scalar);
        (0u16..256).for_each(|v| {
            let v_byte = v as u8;
            let expected = (scalar * Gf256::new(v_byte)).value();
            let got = low[(v_byte & 0x0F) as usize] ^ high[(v_byte >> 4) as usize];
            assert_eq!(expected, got);
        });
    });
}

#[test]
fn dimension_mismatch_errors() {
    let acc = [Gf256::new(1), Gf256::new(2)];
    let v = [Gf256::new(1)];
    assert!(mac(&acc, &v, Gf256::one()).is_err());
}

#[test]
fn empty_inputs_return_empty_output() {
    let acc: [Gf256; 0] = [];
    let v: [Gf256; 0] = [];
    assert_eq!(mac(&acc, &v, Gf256::new(0x42)).ok(), Some(Vec::new()));
}

#[test]
fn scaling_by_zero_equals_acc() {
    let acc: Vec<Gf256> = (0u8..64).map(Gf256::new).collect();
    let v: Vec<Gf256> = (0u8..64).map(|i| Gf256::new(i.wrapping_mul(5))).collect();
    assert_eq!(mac(&acc, &v, Gf256::zero()).ok(), Some(acc));
}

#[test]
fn scaling_by_one_equals_xor() {
    let acc: Vec<Gf256> = (0u8..64).map(Gf256::new).collect();
    let v: Vec<Gf256> = (0u8..64).map(|i| Gf256::new(i.wrapping_mul(7))).collect();
    let expected: Vec<Gf256> = acc.iter().zip(v.iter()).map(|(&a, &b)| a + b).collect();
    assert_eq!(mac(&acc, &v, Gf256::one()).ok(), Some(expected));
}

#[test]
#[allow(clippy::cast_possible_truncation)]
fn handles_sizes_through_boundary() {
    // Exercise every length in 0..=33 so the loop behavior over
    // partial-chunk remainders is thoroughly tested.
    (0usize..=33).for_each(|len| {
        let acc: Vec<Gf256> = (0..len).map(|i| Gf256::new((i & 0xFF) as u8)).collect();
        let v: Vec<Gf256> = (0..len)
            .map(|i| Gf256::new(((i * 13) & 0xFF) as u8))
            .collect();
        let s = Gf256::new(0xA7);
        let got = mac(&acc, &v, s).ok();
        let expected: Vec<Gf256> = acc.iter().zip(v.iter()).map(|(&a, &b)| a + s * b).collect();
        assert_eq!(got, Some(expected), "len={len}");
    });
}
