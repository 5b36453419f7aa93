use calcucalc::{Monomial, Polynomial};

fn pm(c: f64, e: f64) -> Monomial {
    Monomial { c: c.to_bits(), e: e.to_bits() }
}

fn pv(terms: &[(f64, f64)]) -> Polynomial {
    let mut v = Vec::new();
    for &(c, e) in terms {
        v.push(pm(c, e));
    }
    Polynomial(v)
}

#[test]
fn test_polynomial_identity() {
    let p_1_1 = pv(&[(1_f64, 1_f64)]);

    let p2 = &p_1_1;
    assert_eq!(p_1_1, *p2);

    let p3 = &p_1_1;
    let p4 = pv(&[(1_f64, 0_f64)]);
    assert_ne!(*p3, p4);

    let p5 = &p_1_1;
    let p6 = pv(&[(0_f64, 1_f64)]);
    assert_ne!(*p5, p6);

    let p7 = &p_1_1;
    let p8 = pv(&[(0_f64, 0_f64)]);
    assert_ne!(*p7, p8);

    let p9 = &p_1_1;
    let p10 = pv(&[(1_f64, 1_f64), (1_f64, 1_f64)]);
    assert_ne!(*p9, p10);
}

#[test]
fn test_new_polynomial() {
    let p1 = Polynomial::new();
    let p2 = Polynomial(vec![]);
    assert_eq!(p1, p2);
    assert_eq!(p1.0, p2.0);

    assert_eq!(p1.0.len(), 0);
    assert_eq!(p2.0.len(), 0);

    assert_eq!(24, std::mem::size_of_val(&p1));
    assert_eq!(24, std::mem::size_of_val(&p2));
}

#[test]
fn test_value_polynomial() {
    let p1 = pv(&[(1_f64, 2_f64), (2_f64, 1_f64)]);
    assert_eq!(p1.value((2.0_f64).to_bits()), (8.0_f64).to_bits());
    assert_eq!(p1.value((3.0_f64).to_bits()), (15.0_f64).to_bits());
}

#[test]
fn test_simplified() {
    let p1 = pv(&[(1_f64, 1_f64), (2_f64, 1_f64)]);
    let p2 = pv(&[(3_f64, 1_f64)]);
    assert_eq!(p2, p1.simplified());

    let p3 = pv(&[(1_f64, 1_f64), (2_f64, 1_f64), (3_f64, 1_f64)]);
    let p4 = pv(&[(6_f64, 1_f64)]);
    assert_eq!(p4, p3.simplified());

    let p5 = pv(&[(-1_f64, 1_f64), (-2_f64, 1_f64), (-3_f64, 1_f64), (4_f64, 1_f64)]);
    let p6 = pv(&[(-2_f64, 1_f64)]);
    assert_eq!(p6, p5.simplified());

    let p7 = pv(&[(1_f64, 1_f64), (2_f64, 1_f64), (3_f64, 1_f64), (4_f64, 1_f64), (5_f64, 1_f64)]);
    let p8 = pv(&[(15_f64, 1_f64)]);
    assert_eq!(p8, p7.simplified());

    let p9 = pv(&[
        (1_f64, 1_f64),
        (2_f64, 1_f64),
        (3_f64, 1_f64),
        (4_f64, 1_f64),
        (5_f64, 1_f64),
        (6_f64, 1_f64),
    ]);
    let p10 = pv(&[(21_f64, 1_f64)]);
    assert_eq!(p10, p9.simplified());

    let p11 = pv(&[
        (1_f64, 1_f64),
        (2_f64, 1_f64),
        (3_f64, 1_f64),
        (4_f64, 1_f64),
        (5_f64, 1_f64),
        (6_f64, 1_f64),
        (7_f64, 1_f64),
    ]);
    let p12 = pv(&[(28_f64, 1_f64)]);
    assert_eq!(p12, p11.simplified());

    let p13 = pv(&[
        (1_f64, -16_f64),
        (-2_f64, -1_f64),
        (3_f64, 1_f64),
        (-344_f64, -50_f64),
        (5_f64, 30_f64),
        (-5_f64, 30_f64),
        (7_f64, 1_f64),
        (8_f64, 1_f64),
    ]);
    let p14 = pv(&[
        (0_f64, 30_f64),
        (18_f64, 1_f64),
        (-2_f64, -1_f64),
        (1_f64, -16_f64),
        (-344_f64, -50_f64),
    ]);
    assert_eq!(p14.simplified(), p13.simplified());

    let p15 = pv(&[
        (1_f64, -10_f64),
        (2_f64, 31_f64),
        (3_f64, 14_f64),
        (4_f64, 94_f64),
        (5_f64, 15_f64),
        (6_f64, 0_f64),
        (7_f64, 0_f64),
        (8_f64, 31_f64),
        (9_f64, 0_f64),
    ]);
    let p16 = pv(&[
        (4_f64, 94_f64),
        (10_f64, 31_f64),
        (5_f64, 15_f64),
        (3_f64, 14_f64),
        (22_f64, 0_f64),
        (1_f64, -10_f64),
    ]);
    assert_eq!(p15.simplified(), p16.simplify_by_combining_alike_powers());

    let p17 = pv(&[
        (1.5_f64, -10_f64),
        (2_f64, 0.5_f64),
        (3_f64, 0.5_f64),
        (4_f64, 94_f64),
        (5_f64, -0.5_f64),
        (6_f64, 0_f64),
        (7_f64, 0_f64),
        (8_f64, -0.5_f64),
        (9_f64, 0_f64),
    ]);
    let p18 = pv(&[
        (4_f64, 94_f64),
        (5_f64, 0.5_f64),
        (22_f64, 0_f64),
        (13_f64, -0.5_f64),
        (1.5_f64, -10_f64),
    ]);
    assert_eq!(p17.simplified(), p18);

    let p19 = pv(&[
        (-1.5_f64, -10_f64),
        (2_f64, 0.5_f64),
        (-3_f64, 0.5_f64),
        (-4_f64, 94_f64),
        (-5_f64, -0.5_f64),
        (6_f64, 0_f64),
        (7_f64, -0_f64),
        (8_f64, -0.5_f64),
        (9_f64, 0_f64),
    ]);
    let p20 = pv(&[
        (-4_f64, 94_f64),
        (-1_f64, 0.5_f64),
        (22_f64, 0_f64),
        (3_f64, -0.5_f64),
        (-1.5_f64, -10_f64),
    ]);
    assert_eq!(p19.simplified(), p20);
}

#[test]
fn test_add_polynomial() {
    let p1 = pv(&[(1_f64, 1_f64)]);
    let p2 = pv(&[(2_f64, 1_f64)]);
    let p3 = pv(&[(3_f64, 1_f64)]);
    assert_eq!(p3, p1.add_polynomial(p2));

    let p4 = pv(&[(-1.5_f64, -1.8_f64), (2_f64, 1_f64)]);
    let p5 = pv(&[(3_f64, 1_f64), (1_f64, -1.8_f64)]);
    let p6 = pv(&[(5_f64, 1_f64), (-0.5, -1.8_f64)]);
    assert_eq!(p6, p4.add_polynomial(p5));

    let p7 = pv(&[(1_f64, 1_f64), (2_f64, -1_f64), (3_f64, 0.5_f64)]);
    let p8 = pv(&[(4_f64, 1_f64), (5_f64, -1_f64), (6_f64, 0.5_f64)]);
    let p9 = pv(&[(5_f64, 1_f64), (9_f64, 0.5_f64), (7_f64, -1_f64)]);
    assert_eq!(p9, p7.add_polynomial(p8));
}

#[test]
fn test_multiply_polynomial() {
    let p1 = pv(&[(1_f64, 1_f64)]);
    let p2 = pv(&[(2_f64, 1_f64)]);
    let p3 = pv(&[(2_f64, 2_f64)]);
    assert_eq!(p3, p1.multiply_polynomial(p2));

    let p4 = pv(&[(-1.5_f64, -1.8_f64), (2_f64, 1_f64)]);
    let p5 = pv(&[(3_f64, 1_f64), (1_f64, -1.8_f64)]);
    let p6 = pv(&[(6_f64, 2_f64), (-2.5_f64, -0.8_f64), (-1.5_f64, -3.6_f64)]);
    assert_eq!(p6, p4.multiply_polynomial(p5));
}

#[test]
fn test_derivative() {
    let p1 = pv(&[(1_f64, 1_f64)]);
    assert_eq!(pv(&[(1_f64, 0_f64)]), p1.derivative());

    let p2 = pv(&[(1_f64, 1.5_f64), (3_f64, 1_f64), (2_f64, 0_f64), (-0.7_f64, -3_f64)]);
    assert!(
        pv(&[(1.5_f64, 0.5_f64), (3_f64, 0_f64), (2.1_f64, -4_f64)]).is_equal_within_tolerance_to(
            p2.derivative(),
        )
    );

    let p3 = pv(&[(4_f64, -1.5_f64)]);
    assert_eq!(pv(&[(-6_f64, -2.5_f64)]), p3.derivative());
}

#[test]
fn test_is_equal_within_tolerance_to() {
    let p1 = pv(&[(1_f64, 1_f64)]);
    let p2 = pv(&[(1_f64, 1_f64)]);
    assert!(p1.is_equal_within_tolerance_to(p2));

    let p3 = pv(&[(1_f64, 1_f64)]);
    let p4 = pv(&[(1_f64, 0_f64)]);
    assert!(!p3.is_equal_within_tolerance_to(p4));

    let p5 = pv(&[(-246_f64, 0.45_f64)]);
    let p6 = pv(&[(-246_f64, 0.45_f64)]);
    assert!(p5.is_equal_within_tolerance_to(p6));

    let p7 = pv(&[(1_f64, 1_f64)]);
    let p8 = pv(&[(1.00000000001_f64, 1.00000000001_f64)]);
    assert!(p7.is_equal_within_tolerance_to(p8));

    let p9 = pv(&[(1_f64, 1_f64)]);
    let p10 = pv(&[(0.99999999999_f64, 0.99999999999_f64)]);
    assert!(p9.is_equal_within_tolerance_to(p10));
}

#[test]
fn test_nth_derivative() {
    let p1 = pv(&[(1_f64, 4_f64), (-6_f64, 3_f64), (2_f64, 2_f64), (3_f64, 1_f64)]);
    assert_eq!(p1.nth_derivative(3), pv(&[(24.0, 1.0), (-36.0, 0.0)]));

    let p2 = pv(&[(540.354, 64.3), (0.9, 64.0), (0.0, 63.0), (0.0, 5.0)]);
    assert_eq!(
        p2.nth_derivative(15),
        pv(&[(1.2200689110119749e29, 49.3), (1.8773901659652704e26, 49.0)]),
    );
    assert_eq!(
        p2.nth_derivative(64),
        pv(&[(2.66837419180906e92, 0.29999999999999716), (1.1419823896729576e89, 0.0)]),
    );

    let p3 = pv(&[(-540.354, -64.3), (0.9, -64.0), (0.0, 63.0), (0.0, 5.0)]);
    assert_eq!(
        p3.nth_derivative(15),
        pv(&[(-5.140628626036299e27, -79.0), (3.288681130950845e30, -79.3)]),
    );
}

#[test]
fn test_trend_over_interval() {
    let p1 = pv(&[(1.0, 2.0), (-2.0, 1.0), (1.0, 0.0)]);

    assert_eq!(p1.trend_over_interval((0.0_f64).to_bits(), (-1.0_f64).to_bits()), "decreasing");
    assert_eq!(p1.trend_over_interval((-1.0_f64).to_bits(), (0.0_f64).to_bits()), "decreasing");

    assert_eq!(p1.trend_over_interval((2.0_f64).to_bits(), (6.0_f64).to_bits()), "increasing");
    assert_eq!(p1.trend_over_interval((6.0_f64).to_bits(), (2.0_f64).to_bits()), "increasing");

    let p2 = pv(&[(-5.0, 3.0), (5.0, 2.2), (-2.0, -1.0), (1.0, 0.0)]);
    assert_eq!(p2.trend_over_interval((0.0_f64).to_bits(), (1.0_f64).to_bits()), "increasing");
    assert_eq!(p2.trend_over_interval((1.0_f64).to_bits(), (0.0_f64).to_bits()), "increasing");

    assert_eq!(p2.trend_over_interval((1.0_f64).to_bits(), (6.0_f64).to_bits()), "decreasing");
    assert_eq!(p2.trend_over_interval((1.0_f64).to_bits(), (6.0_f64).to_bits()), "decreasing");

    let p3 = pv(&[(6581.0, 162.0), (-2166.0019, 1.000014), (1.0, 0.0)]);
    assert_eq!(p3.trend_over_interval((0.0_f64).to_bits(), (1.0_f64).to_bits()), "increasing");
    assert_eq!(p3.trend_over_interval((1.0_f64).to_bits(), (0.0_f64).to_bits()), "increasing");

    assert_eq!(p3.trend_over_interval((1.0_f64).to_bits(), (6.0_f64).to_bits()), "increasing");
    assert_eq!(p3.trend_over_interval((6.0_f64).to_bits(), (1.0_f64).to_bits()), "increasing");

    assert_eq!(p3.trend_over_interval((-1.0_f64).to_bits(), (1.0_f64).to_bits()), "undefined");
    assert_eq!(p3.trend_over_interval((1.0_f64).to_bits(), (1.0_f64).to_bits()), "constant");
}

#[test]
fn test_interval_concave_up_down_both_or_neither() {
    let p1 = pv(&[(11.0, 3.0), (1.0, 2.0), (-2.0, 1.0), (1.0, 0.0)]);
    assert_eq!(
        p1.concavity_over_interval((0.0_f64).to_bits(), (1.0_f64).to_bits()),
        "concave up",
    );
    assert_eq!(
        p1.concavity_over_interval((1.0_f64).to_bits(), (2.0_f64).to_bits()),
        "concave up",
    );
    assert_eq!(
        p1.concavity_over_interval((-2.0_f64).to_bits(), (-0.25_f64).to_bits()),
        "concave down",
    );
    assert_eq!(
        p1.concavity_over_interval((-1.0_f64).to_bits(), (0.5_f64).to_bits()),
        "undefined",
    );
}
