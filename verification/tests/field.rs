use constraint::field::{
    Scalar, MODULUS_LIMB_0, MODULUS_LIMB_1, MODULUS_LIMB_2, MODULUS_LIMB_3,
};
use constraint::polynomial::DensePolynomial;

#[test]
fn limbs_below_the_modulus_make_an_element() {
    let below = [MODULUS_LIMB_0 - 1, MODULUS_LIMB_1, MODULUS_LIMB_2, MODULUS_LIMB_3];
    let s = Scalar::from_limbs(below).unwrap();
    assert_eq!(s.limbs(), below);
    assert_eq!(Scalar::from_limbs([9, 0, 0, 0]), Some(Scalar::from_u64(9)));
    assert_eq!(Scalar::from_limbs([u64::MAX, u64::MAX, u64::MAX, MODULUS_LIMB_3 - 1]).unwrap().limbs()[3], MODULUS_LIMB_3 - 1);
}

#[test]
fn limbs_from_the_modulus_on_make_none() {
    let modulus = [MODULUS_LIMB_0, MODULUS_LIMB_1, MODULUS_LIMB_2, MODULUS_LIMB_3];
    assert_eq!(Scalar::from_limbs(modulus), None);
    assert_eq!(Scalar::from_limbs([0, MODULUS_LIMB_1 + 1, MODULUS_LIMB_2, MODULUS_LIMB_3]), None);
    assert_eq!(Scalar::from_limbs([0, 0, MODULUS_LIMB_2 + 1, MODULUS_LIMB_3]), None);
    assert_eq!(Scalar::from_limbs([0, 0, 0, MODULUS_LIMB_3 + 1]), None);
    assert_eq!(Scalar::from_limbs([u64::MAX; 4]), None);
}

#[test]
fn zero_one_and_small_numbers() {
    assert_eq!(Scalar::zero().limbs(), [0, 0, 0, 0]);
    assert_eq!(Scalar::one().limbs(), [1, 0, 0, 0]);
    assert_eq!(Scalar::from_u64(u64::MAX).limbs(), [u64::MAX, 0, 0, 0]);
    assert!(Scalar::zero().is_zero());
    assert!(!Scalar::one().is_zero());
    assert!(Scalar::from_u64(4).eq_scalar(&Scalar::from_u64(4)));
    assert!(!Scalar::from_u64(4).eq_scalar(&Scalar::from_u64(5)));
}

#[test]
fn polynomial_drops_high_zeros_and_evaluates() {
    // 1 + 2x + 3x^2 at x = 2 is 17.
    let poly = DensePolynomial::from_coefficients_vec(vec![
        Scalar::from_u64(1),
        Scalar::from_u64(2),
        Scalar::from_u64(3),
        Scalar::zero(),
        Scalar::zero(),
    ]);
    assert_eq!(poly.coeffs.len(), 3);
    assert_eq!(poly.degree(), 2);
    assert_eq!(poly.evaluate(&Scalar::from_u64(2)), Scalar::from_u64(17));
    assert_eq!(poly.evaluate(&Scalar::zero()), Scalar::from_u64(1));
    let zero = DensePolynomial::from_coefficients_vec(vec![Scalar::zero(); 3]);
    assert!(zero.coeffs.is_empty());
}
