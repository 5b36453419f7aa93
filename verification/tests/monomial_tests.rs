use calcucalc::Monomial;

use std::f64::consts::{E, PI};

fn mb(c: f64, e: f64) -> Monomial {
    Monomial { c: c.to_bits(), e: e.to_bits() }
}

#[test]
fn test_monomial_identity() {
    assert_eq!(mb(1_f64, 2_f64), Monomial { c: (1_f64).to_bits(), e: (2_f64).to_bits() });
    assert_ne!(mb(1_f64, 2_f64), mb(0_f64, 1_f64));
    assert_ne!(mb(2_f64, 2_f64), mb(3_f64, 3_f64));
    assert_eq!(mb(PI, 0_f64), mb(PI, 0_f64));
    assert_ne!(mb(E, 0_f64), mb(1_f64, 2_f64));
}

#[test]
fn test_monomial_fields_access() {
    let m0 = &mb(1_f64, 0_f64);
    assert_eq!(m0.c, (1_f64).to_bits());
    assert_eq!(m0.e, (0_f64).to_bits());

    let m1 = &mb(-34.2_f64, 389651.6516_f64);
    assert_eq!(m1.c, (-34.2_f64).to_bits());
    assert_eq!(m1.e, (389651.6516_f64).to_bits());

    let m2 = &mb(-4_f64, 0_f64);
    assert_eq!(m2.c, (-4_f64).to_bits());
    assert_eq!(m2.e, (0_f64).to_bits());

    let m3 = &mb(241346513.3452231_f64, -3954398000.8481_f64);
    assert_eq!(m3.c, (241346513.3452231_f64).to_bits());
    assert_eq!(m3.e, (-3954398000.8481_f64).to_bits());

    assert_eq!(mb(1_f64, 2_f64).c, (1_f64).to_bits());
    assert_eq!(mb(1_f64, 2_f64).e, (2_f64).to_bits());
    assert_eq!(mb(PI, 0_f64).c, (3.14159265358979323846_f64).to_bits());
    assert_eq!(mb(PI, 0_f64).e, (0_f64).to_bits());
    assert_eq!(mb(E, 0_f64).c, (2.71828182845904523536_f64).to_bits());
    assert_eq!(mb(E, 0_f64).e, (0_f64).to_bits());
}

#[test]
fn test_values_for_monomial() {
    let m1 = mb(1_f64, 1_f64);
    assert_eq!(m1.value((2_f64).to_bits()), (2_f64).to_bits());
    assert_eq!(m1.value((3_f64).to_bits()), (3_f64).to_bits());
    assert_eq!(m1.value((4_f64).to_bits()), (4_f64).to_bits());
    assert_eq!(m1.value((5_f64).to_bits()), (5_f64).to_bits());

    let m2 = mb(2_f64, 2_f64);
    assert_eq!(m2.value((2_f64).to_bits()), (8_f64).to_bits());
    assert_eq!(m2.value((3_f64).to_bits()), (18_f64).to_bits());
    assert_eq!(m2.value((4_f64).to_bits()), (32_f64).to_bits());
    assert_eq!(m2.value((5_f64).to_bits()), (50_f64).to_bits());

    let m3 = mb(0.5, -1.0);
    assert_eq!(m3.value((2.0_f64).to_bits()), (0.25_f64).to_bits());
    assert_eq!(m3.value((3.0_f64).to_bits()), (0.16666666666666666_f64).to_bits());
    assert_eq!(m3.value((4.0_f64).to_bits()), (0.125_f64).to_bits());
    assert_eq!(m3.value((5.0_f64).to_bits()), (0.1_f64).to_bits());
    assert_eq!(m3.value((0.5_f64).to_bits()), (1.0_f64).to_bits());
    assert_eq!(m3.value((0.25_f64).to_bits()), (2.0_f64).to_bits());
    assert_eq!(m3.value((0.125_f64).to_bits()), (4.0_f64).to_bits());
    assert_eq!(m3.value((0.0625_f64).to_bits()), (8.0_f64).to_bits());
    assert_eq!(m3.value((0.03125_f64).to_bits()), (16.0_f64).to_bits());
    assert_eq!(m3.value((0.015625_f64).to_bits()), (32.0_f64).to_bits());
    assert_eq!(m3.value((-1.0_f64).to_bits()), (-0.5_f64).to_bits());
    assert_eq!(m3.value((-2.0_f64).to_bits()), (-0.25_f64).to_bits());
    assert_eq!(m3.value((-3.0_f64).to_bits()), (-0.16666666666666666_f64).to_bits());
    assert_eq!(m3.value((-4.0_f64).to_bits()), (-0.125_f64).to_bits());
}

#[test]
fn test_add_monomial_of_same_power() {
    let m1 = mb(1_f64, 1_f64);
    let m2 = mb(2_f64, 1_f64);
    let m3 = mb(3_f64, 1_f64);
    assert_eq!(m3, m1.add_monomial_of_same_power(m2).unwrap());

    let m4 = mb(45_f64, 250_f64);
    let m5 = mb(57_f64, 250_f64);
    let m6 = mb(102_f64, 250_f64);
    assert_eq!(m6, m4.add_monomial_of_same_power(m5).unwrap());

    let m7 = mb(1_f64, -11_f64);
    let m8 = mb(2_f64, -11_f64);
    let m9 = mb(3_f64, -11_f64);
    assert_eq!(m9, m7.add_monomial_of_same_power(m8).unwrap());

    let m10 = mb(1_f64, 0_f64);
    let m11 = mb(2_f64, 0_f64);
    let m12 = mb(3_f64, 0_f64);
    assert_eq!(m12, m10.add_monomial_of_same_power(m11).unwrap());
}

#[test]
fn test_error_on_adding_monomial_of_different_power0() {
    let m1 = mb(1_f64, 1_f64);
    let m2 = mb(2_f64, 2_f64);
    let err = m1.add_monomial_of_same_power(m2).unwrap_err();
    assert_eq!(err.message(), "Cannot add monomials with different powers of x.");
}

#[test]
fn test_error_on_adding_monomial_of_different_power1() {
    let m3 = mb(1_f64, 0_f64);
    let m4 = mb(2_f64, 1_f64);
    assert!(m3.add_monomial_of_same_power(m4).is_err());
}

#[test]
fn test_error_on_adding_monomial_of_different_power2() {
    let m5 = mb(1_f64, -1_f64);
    let m6 = mb(2_f64, 0_f64);
    assert!(m5.add_monomial_of_same_power(m6).is_err());
}

#[test]
fn test_error_on_adding_monomial_of_different_power3() {
    let m7 = mb(1_f64, -1_f64);
    let m8 = mb(2_f64, 1_f64);
    assert!(m7.add_monomial_of_same_power(m8).is_err());
}

#[test]
fn test_multiply_monomial() {
    let m1 = mb(2_f64, 1_f64);
    let m2 = mb(3_f64, 2_f64);
    let m3 = mb(6_f64, 3_f64);
    assert_eq!(m3, m1.multiply_monomial(m2));

    let m4 = mb(45_f64, 250_f64);
    let m5 = mb(57_f64, 250_f64);
    let m6 = mb(2565_f64, 500_f64);
    assert_eq!(m6, m4.multiply_monomial(m5));

    let m7 = mb(1_f64, -11_f64);
    let m8 = mb(2_f64, -11_f64);
    let m9 = mb(2_f64, -22_f64);
    assert_eq!(m9, m7.multiply_monomial(m8));

    let m10 = mb(1_f64, 0_f64);
    let m11 = mb(2_f64, 0_f64);
    let m12 = mb(2_f64, 0_f64);
    assert_eq!(m12, m10.multiply_monomial(m11));

    let m13 = mb(1_f64, 0_f64);
    let m14 = mb(0_f64, 500_f64);
    let m15 = mb(0_f64, 500_f64);
    assert_eq!(m15, m13.multiply_monomial(m14));

    let m16 = mb(0_f64, 0_f64);
    let m17 = mb(0_f64, 0_f64);
    let m18 = mb(0_f64, 0_f64);
    assert_eq!(m18, m16.multiply_monomial(m17));
}

#[test]
fn test_monomial_nth_derivative() {
    let m = mb(1.0, PI);
    let d2 = m.nth_derivative(2);
    assert_eq!(d2, mb(6.728011747499565, 1.1415926535897931));
    assert_eq!(m.nth_derivative(0), m);
    let d1 = m.derivative();
    assert_eq!(d1, mb(PI, PI - 1.0));
}

#[test]
fn test_monomial_default() {
    assert_eq!(Monomial::default(), mb(0_f64, 0_f64));
    assert_eq!(Monomial::new((0_f64).to_bits(), (0_f64).to_bits()), Monomial::default());
}
