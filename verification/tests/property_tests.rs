use calcucalc::math_helpers::is_equal_within_tolerance_to;
use calcucalc::polynomial::{concavity_from_values, trend_from_values};
use calcucalc::{Monomial, Polynomial};

fn qm(c: f64, e: f64) -> Monomial {
    Monomial { c: c.to_bits(), e: e.to_bits() }
}

fn qv(terms: &[(f64, f64)]) -> Polynomial {
    let mut v = Vec::new();
    for &(c, e) in terms {
        v.push(qm(c, e));
    }
    Polynomial(v)
}

#[test]
fn test_simplify_idempotent() {
    let p = qv(&[(1.0, 2.0), (-5.0, 0.0), (2.0, 2.0), (2.0, 1.0), (0.0, 1.0), (3.0, 0.0)]);
    let once = p.simplified();
    let twice = once.clone().simplified();
    assert_eq!(once, twice);

    let empty = Polynomial::new();
    assert_eq!(empty.simplified(), Polynomial::new().simplified());
}

#[test]
fn test_add_commutative() {
    let a = qv(&[(1.0, 2.0), (2.0, 1.0)]);
    let b = qv(&[(3.0, 2.0), (4.0, 0.0)]);
    let ab = a.clone().add_polynomial(b.clone()).simplified();
    let ba = b.add_polynomial(a).simplified();
    assert_eq!(ab, ba);
}

#[test]
fn test_multiply_commutative() {
    let a = qv(&[(1.0, 2.0), (2.0, 1.0)]);
    let b = qv(&[(4.0, 1.0), (3.0, 2.0)]);
    let ab = a.clone().multiply_polynomial(b.clone()).simplified();
    let ba = b.multiply_polynomial(a).simplified();
    assert_eq!(ab, ba);
}

#[test]
fn test_canonical_form() {
    let p = qv(&[
        (1.0, 2.0),
        (-5.0, 0.0),
        (2.0, 2.0),
        (2.0, 1.0),
        (0.0, 7.0),
        (3.0, 0.0),
        (500.0, 0.453),
        (-500.0, 0.453),
    ]);
    let s = p.simplified();
    assert_eq!(s, qv(&[(3.0, 2.0), (2.0, 1.0), (-2.0, 0.0)]));
    for i in 0..s.0.len() {
        let ci = f64::from_bits(s.0[i].c);
        assert!(ci != 0.0);
        for j in 0..s.0.len() {
            if i < j {
                let ei = f64::from_bits(s.0[i].e);
                let ej = f64::from_bits(s.0[j].e);
                assert!(ei > ej);
            }
        }
    }
}

#[test]
fn test_derivative_linear() {
    let a = qv(&[(1.0, 3.0), (2.0, 1.0)]);
    let b = qv(&[(4.0, 3.0), (-1.0, 0.0)]);
    let sum_then_derive = a.clone().add_polynomial(b.clone()).derivative();
    let derive_then_sum = a.derivative().add_polynomial(b.derivative());
    assert_eq!(sum_then_derive, derive_then_sum);
}

#[test]
fn test_tolerance_equal_reflexive() {
    let p = qv(&[(1.0, 2.0), (-5.0, 0.0), (2.0, 2.0)]);
    assert!(p.clone().is_equal_within_tolerance_to(p.clone()));

    let nudged = qv(&[(3.0 + 1e-11, 2.0 + 1e-11), (-5.0 - 1e-11, 1e-11)]);
    assert!(p.is_equal_within_tolerance_to(nudged));

    let empty = Polynomial::new();
    assert!(empty.clone().is_equal_within_tolerance_to(empty));
}

#[test]
fn test_simplify_scenario() {
    let p = qv(&[(1.0, 1.0), (2.0, 1.0)]);
    assert_eq!(p.simplified(), qv(&[(3.0, 1.0)]));
}

#[test]
fn test_derivative_scenario() {
    let p = qv(&[(1.0, 2.0), (2.0, 1.0), (3.0, 0.0)]);
    assert_eq!(p.derivative(), qv(&[(2.0, 1.0), (2.0, 0.0)]));
}

#[test]
fn test_multiply_scenario() {
    let p = qv(&[(1.0, 2.0), (2.0, 1.0)]);
    let q = qv(&[(4.0, 1.0), (3.0, 2.0)]);
    assert_eq!(p.multiply_polynomial(q), qv(&[(3.0, 4.0), (10.0, 3.0), (8.0, 2.0)]));
}

#[test]
fn test_value_scenario() {
    let p = qv(&[(1.0, 2.0), (3.0, 1.0), (2.0, 0.0)]);
    assert_eq!(p.value((2.0_f64).to_bits()), (12.0_f64).to_bits());
}

#[test]
fn test_mismatch_scenario() {
    let m1 = qm(1.0, 1.0);
    let m2 = qm(2.0, 2.0);
    assert!(m1.add_monomial_of_same_power(m2).is_err());
}

#[test]
fn test_trend_scenario() {
    let p = qv(&[(1.0, 2.0), (-2.0, 1.0), (1.0, 0.0)]);
    let up = p.trend_over_interval((2.0_f64).to_bits(), (6.0_f64).to_bits());
    let also_up = p.trend_over_interval((6.0_f64).to_bits(), (2.0_f64).to_bits());
    assert_eq!(up, "increasing");
    assert_eq!(up, also_up);
}

#[test]
fn test_sort_keeps_equal_exponents() {
    let p = qv(&[(3.0, -2.0), (3.0, 0.0), (3.0, 0.5), (3.0, 25.4), (4.0, 0.0), (3.0, 12.0)]);
    let sorted = p.sort_by_exponent();
    assert_eq!(
        sorted,
        qv(&[(3.0, 25.4), (3.0, 12.0), (3.0, 0.5), (3.0, 0.0), (4.0, 0.0), (3.0, -2.0)]),
    );
}

#[test]
fn test_eliminate_zero_coefficients() {
    let p = qv(&[(1.0, 2.0), (0.0, 1.0), (-0.0, 5.0), (1e-30, 3.0)]);
    assert_eq!(p.eliminate_zero_coefficients(), qv(&[(1.0, 2.0), (1e-30, 3.0)]));
}

#[test]
fn test_combine_keeps_first_position() {
    let p = qv(&[(1.0, 0.0), (5.0, 3.0), (2.0, 0.0)]);
    assert_eq!(p.simplify_by_combining_alike_powers(), qv(&[(3.0, 0.0), (5.0, 3.0)]));
}

#[test]
fn test_value_of_empty_polynomial() {
    let p = Polynomial::new();
    assert_eq!(p.value((17.5_f64).to_bits()), (0.0_f64).to_bits());
}

#[test]
fn test_value_undefined_point() {
    let p = qv(&[(1.0, 0.5)]);
    let v = p.value((-4.0_f64).to_bits());
    assert!(f64::from_bits(v).is_nan());
}

#[test]
fn test_helper_is_equal_within_tolerance() {
    let a = (0.1_f64 + 0.2_f64).to_bits();
    let b = (0.3_f64).to_bits();
    assert!(is_equal_within_tolerance_to(&a, &b));

    let c = (1.0_f64).to_bits();
    let d = (2.0_f64).to_bits();
    assert!(!is_equal_within_tolerance_to(&c, &d));

    let e = (5.0_f64).to_bits();
    assert!(is_equal_within_tolerance_to(&e, &e));
}

#[test]
fn test_nth_derivative_zero_is_copy() {
    let p = qv(&[(1.0, 1.0), (2.0, 1.0), (0.0, 3.0)]);
    assert_eq!(p.nth_derivative(0), p);
}

#[test]
fn test_add_with_empty() {
    let p = qv(&[(2.0, 1.0), (1.0, 2.0), (0.0, 5.0)]);
    assert_eq!(p.add_polynomial(Polynomial::new()), qv(&[(1.0, 2.0), (2.0, 1.0)]));
}

#[test]
fn test_multiply_with_empty() {
    let p = qv(&[(2.0, 1.0), (1.0, 2.0)]);
    assert_eq!(p.multiply_polynomial(Polynomial::new()), Polynomial::new());
}

#[test]
fn test_trend_from_values_classification() {
    let nan = f64::NAN.to_bits();
    let one = (1.0_f64).to_bits();
    let two = (2.0_f64).to_bits();
    assert_eq!(trend_from_values(one, two), "increasing");
    assert_eq!(trend_from_values(two, one), "decreasing");
    assert_eq!(trend_from_values(one, one), "constant");
    assert_eq!(trend_from_values((0.0_f64).to_bits(), (-0.0_f64).to_bits()), "constant");
    assert_eq!(trend_from_values(nan, one), "undefined");
    assert_eq!(trend_from_values(f64::INFINITY.to_bits(), one), "decreasing");
    assert_eq!(trend_from_values(f64::NEG_INFINITY.to_bits(), one), "increasing");
    assert_eq!(trend_from_values((-3.0_f64).to_bits(), (-7.5_f64).to_bits()), "decreasing");
}

#[test]
fn test_concavity_from_values_classification() {
    let pos = (3.5_f64).to_bits();
    let neg = (-0.25_f64).to_bits();
    let zero = (0.0_f64).to_bits();
    assert_eq!(concavity_from_values(pos, pos), "concave up");
    assert_eq!(concavity_from_values(neg, neg), "concave down");
    assert_eq!(concavity_from_values(pos, neg), "undefined");
    assert_eq!(concavity_from_values(zero, pos), "undefined");
    assert_eq!(concavity_from_values(f64::NAN.to_bits(), pos), "undefined");
}

#[test]
fn test_tolerance_reflexive_nan_coefficient() {
    let p = Polynomial(vec![Monomial { c: f64::NAN.to_bits(), e: (1.0_f64).to_bits() }]);
    assert!(p.clone().is_equal_within_tolerance_to(p));
}

#[test]
fn test_polynomial_default() {
    assert_eq!(Polynomial::default(), Polynomial(vec![]));
    assert_eq!(Polynomial::default().0.len(), 0);
}
