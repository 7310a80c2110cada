use rlnc_cat_rs::field::Gf256;

#[test]
fn additive_identity() {
    (0u16..256).for_each(|x| {
        let a = Gf256::new(x as u8);
        assert_eq!(a + Gf256::zero(), a);
    });
}

#[test]
fn multiplicative_identity() {
    (0u16..256).for_each(|x| {
        let a = Gf256::new(x as u8);
        assert_eq!(a * Gf256::one(), a);
    });
}

#[test]
fn additive_inverse_is_self() {
    // In characteristic 2, a + a = 0
    (0u16..256).for_each(|x| {
        let a = Gf256::new(x as u8);
        assert_eq!(a + a, Gf256::zero());
    });
}

#[test]
fn multiplicative_inverse_roundtrip() {
    (1u16..256).for_each(|x| {
        let a = Gf256::new(x as u8);
        let a_inv = a.inv();
        assert!(a_inv.is_ok());
        assert_eq!(a * a_inv.unwrap_or(Gf256::zero()), Gf256::one());
    });
}

#[test]
fn zero_has_no_inverse() {
    assert!(Gf256::zero().inv().is_err());
}

#[test]
fn checked_div_by_zero_fails() {
    let a = Gf256::new(42);
    assert!(a.checked_div(Gf256::zero()).is_err());
}

#[test]
fn checked_div_roundtrip() {
    (1u16..256).for_each(|x| {
        (1u16..256).for_each(|y| {
            let a = Gf256::new(x as u8);
            let b = Gf256::new(y as u8);
            let q = a.checked_div(b);
            assert!(q.is_ok());
            assert_eq!(q.unwrap_or(Gf256::zero()) * b, a);
        });
    });
}

#[test]
fn sub_equals_add() {
    (0u16..256).for_each(|x| {
        (0u16..256).for_each(|y| {
            let a = Gf256::new(x as u8);
            let b = Gf256::new(y as u8);
            assert_eq!(a - b, a + b);
        });
    });
}

#[test]
fn negation_is_identity() {
    (0u16..256).for_each(|x| {
        let a = Gf256::new(x as u8);
        assert_eq!(-a, a);
    });
}
