use bspline::BSpline;
use bspline::ConstructionError;
use bspline::EvaluationError;
use bspline::Interpolate;
use bspline::Scalar;

/// A thin wrapper giving `f32` the two curve capabilities.
#[derive(Clone, Copy, Debug, PartialEq)]
struct F32(f32);

impl Scalar for F32 {
    fn le_spec(a: Self, b: Self) -> bool {
        a.0 <= b.0
    }

    fn lt_spec(a: Self, b: Self) -> bool {
        a.0 < b.0
    }

    fn sub_spec(a: Self, b: Self) -> Self {
        F32(a.0 - b.0)
    }

    fn div_spec(a: Self, b: Self) -> Self {
        F32(a.0 / b.0)
    }

    fn finite_spec(a: Self) -> bool {
        a.0.is_finite()
    }

    fn comparable_spec(a: Self) -> bool {
        !a.0.is_nan()
    }

    fn zero_spec() -> Self {
        F32(0.0)
    }

    fn one_spec() -> Self {
        F32(1.0)
    }

    fn le(&self, other: &Self) -> bool {
        self.0 <= other.0
    }

    fn lt(&self, other: &Self) -> bool {
        self.0 < other.0
    }

    fn sub(&self, other: &Self) -> Self {
        F32(self.0 - other.0)
    }

    fn div(&self, other: &Self) -> Self {
        F32(self.0 / other.0)
    }

    fn is_finite(&self) -> bool {
        self.0.is_finite()
    }

    fn is_comparable(&self) -> bool {
        !self.0.is_nan()
    }

    fn lemma_le_trans(_: Self, _: Self, _: Self) {}

    fn lemma_le_total(_: Self, _: Self) {}

    fn lemma_lt_iff(_: Self, _: Self) {}

    fn lemma_finite_comparable(_: Self) {}

    fn lemma_zero_one() {}

    fn lemma_sub_same(_: Self) {}

    fn lemma_sub_zero(_: Self) {}

    fn lemma_sub_pos(_: Self, _: Self) {}

    fn lemma_div_one(_: Self) {}

    fn lemma_div_zero(_: Self) {}

    fn lemma_div_self(_: Self) {}
}

impl Interpolate<F32> for F32 {
    fn interp_spec(a: Self, b: Self, t: F32) -> Self {
        F32(a.0 * (1.0 - t.0) + b.0 * t.0)
    }

    fn interpolate(&self, other: &Self, t: F32) -> Self {
        F32(self.0 * (1.0 - t.0) + other.0 * t.0)
    }

    fn lemma_interp_zero(_: Self, _: Self) {}

    fn lemma_interp_one(_: Self, _: Self) {}
}

/// A thin wrapper giving `f64` the two curve capabilities.
#[derive(Clone, Copy, Debug, PartialEq)]
struct F64(f64);

impl Scalar for F64 {
    fn le_spec(a: Self, b: Self) -> bool {
        a.0 <= b.0
    }

    fn lt_spec(a: Self, b: Self) -> bool {
        a.0 < b.0
    }

    fn sub_spec(a: Self, b: Self) -> Self {
        F64(a.0 - b.0)
    }

    fn div_spec(a: Self, b: Self) -> Self {
        F64(a.0 / b.0)
    }

    fn finite_spec(a: Self) -> bool {
        a.0.is_finite()
    }

    fn comparable_spec(a: Self) -> bool {
        !a.0.is_nan()
    }

    fn zero_spec() -> Self {
        F64(0.0)
    }

    fn one_spec() -> Self {
        F64(1.0)
    }

    fn le(&self, other: &Self) -> bool {
        self.0 <= other.0
    }

    fn lt(&self, other: &Self) -> bool {
        self.0 < other.0
    }

    fn sub(&self, other: &Self) -> Self {
        F64(self.0 - other.0)
    }

    fn div(&self, other: &Self) -> Self {
        F64(self.0 / other.0)
    }

    fn is_finite(&self) -> bool {
        self.0.is_finite()
    }

    fn is_comparable(&self) -> bool {
        !self.0.is_nan()
    }

    fn lemma_le_trans(_: Self, _: Self, _: Self) {}

    fn lemma_le_total(_: Self, _: Self) {}

    fn lemma_lt_iff(_: Self, _: Self) {}

    fn lemma_finite_comparable(_: Self) {}

    fn lemma_zero_one() {}

    fn lemma_sub_same(_: Self) {}

    fn lemma_sub_zero(_: Self) {}

    fn lemma_sub_pos(_: Self, _: Self) {}

    fn lemma_div_one(_: Self) {}

    fn lemma_div_zero(_: Self) {}

    fn lemma_div_self(_: Self) {}
}

impl Interpolate<F64> for F64 {
    fn interp_spec(a: Self, b: Self, t: F64) -> Self {
        F64(a.0 * (1.0 - t.0) + b.0 * t.0)
    }

    fn interpolate(&self, other: &Self, t: F64) -> Self {
        F64(self.0 * (1.0 - t.0) + other.0 * t.0)
    }

    fn lemma_interp_zero(_: Self, _: Self) {}

    fn lemma_interp_one(_: Self, _: Self) {}
}

fn wrap32(values: &[f32]) -> Vec<F32> {
    values.iter().map(|&v| F32(v)).collect()
}

fn wrap64(values: &[f64]) -> Vec<F64> {
    values.iter().map(|&v| F64(v)).collect()
}

/// Check that the bspline returns the values we expect it to at various t values.
fn check_bspline<T, F>(spline: &BSpline<T, F>, expect: &Vec<(F, T)>) -> bool
where
    T: Interpolate<F> + Copy + PartialEq,
    F: Scalar,
{
    expect
        .iter()
        .fold(true, |ac, &(t, x)| ac && spline.point(t).unwrap() == x)
}

#[test]
fn linear_bspline() {
    let expect: Vec<(F32, F32)> = vec![
        (F32(0.0), F32(0.0)),
        (F32(0.2), F32(0.2)),
        (F32(0.4), F32(0.4)),
        (F32(0.6), F32(0.6)),
        (F32(0.8), F32(0.8)),
        (F32(1.0), F32(1.0)),
    ];
    let points = wrap32(&[0.0, 1.0]);
    let knots = wrap32(&[0.0, 0.0, 1.0, 1.0]);
    let degree = 1;
    let spline = BSpline::new(degree, points, knots).unwrap();
    assert!(check_bspline(&spline, &expect));
}

#[test]
fn quadratic_bspline() {
    let expect: Vec<(F32, F32)> = vec![
        (F32(0.0), F32(0.0)),
        (F32(0.5), F32(0.125)),
        (F32(1.0), F32(0.5)),
        (F32(1.4), F32(0.74)),
        (F32(1.5), F32(0.75)),
        (F32(1.6), F32(0.74)),
        (F32(2.0), F32(0.5)),
        (F32(2.5), F32(0.125)),
        (F32(3.0), F32(0.0)),
    ];
    let points = wrap32(&[0.0, 0.0, 1.0, 0.0, 0.0]);
    let knots = wrap32(&[0.0, 0.0, 0.0, 1.0, 2.0, 3.0, 3.0, 3.0]);
    let degree = 2;
    let spline = BSpline::new(degree, points, knots).unwrap();
    assert!(check_bspline(&spline, &expect));
}

#[test]
fn cubic_bspline() {
    let expect: Vec<(F32, F32)> = vec![
        (F32(-2.0), F32(0.0)),
        (F32(-1.5), F32(0.125)),
        (F32(-1.0), F32(1.0)),
        (F32(-0.6), F32(2.488)),
        (F32(0.0), F32(4.0)),
        (F32(0.5), F32(2.875)),
        (F32(1.5), F32(0.12500001)),
        (F32(2.0), F32(0.0)),
    ];
    let points = wrap32(&[0.0, 0.0, 0.0, 6.0, 0.0, 0.0, 0.0]);
    let knots = wrap32(&[-2.0, -2.0, -2.0, -2.0, -1.0, 0.0, 1.0, 2.0, 2.0, 2.0, 2.0]);
    let degree = 3;
    let spline = BSpline::new(degree, points, knots).unwrap();
    assert!(check_bspline(&spline, &expect));
}

#[test]
fn quartic_bspline() {
    let expect: Vec<(F32, F32)> = vec![
        (F32(0.0), F32(0.0)),
        (F32(0.4), F32(0.0010666668)),
        (F32(1.0), F32(0.041666668)),
        (F32(1.5), F32(0.19791667)),
        (F32(2.0), F32(0.4583333)),
        (F32(2.5), F32(0.5989583)),
        (F32(3.0), F32(0.4583333)),
        (F32(3.2), F32(0.35206667)),
        (F32(4.1), F32(0.02733751)),
        (F32(4.5), F32(0.002604167)),
        (F32(5.0), F32(0.0)),
    ];
    let points = wrap32(&[0.0, 0.0, 0.0, 0.0, 1.0, 0.0, 0.0, 0.0, 0.0]);
    let knots = wrap32(&[
        0.0, 0.0, 0.0, 0.0, 0.0, 1.0, 2.0, 3.0, 4.0, 5.0, 5.0, 5.0, 5.0, 5.0,
    ]);
    let degree = 4;
    let spline = BSpline::new(degree, points, knots).unwrap();
    assert!(check_bspline(&spline, &expect));
}

#[test]
fn quartic_bspline_f64() {
    let expect: Vec<(F64, F64)> = vec![
        (F64(0.0), F64(0.0)),
        (F64(0.4), F64(0.001066666666666667)),
        (F64(1.0), F64(0.041666666666666664)),
        (F64(1.5), F64(0.19791666666666666)),
        (F64(2.0), F64(0.45833333333333337)),
        (F64(2.5), F64(0.5989583333333334)),
        (F64(3.0), F64(0.4583333333333333)),
        (F64(3.2), F64(0.3520666666666666)),
        (F64(4.1), F64(0.027337500000000046)),
        (F64(4.5), F64(0.002604166666666666)),
        (F64(5.0), F64(0.0)),
    ];
    let points = wrap64(&[0.0, 0.0, 0.0, 0.0, 1.0, 0.0, 0.0, 0.0, 0.0]);
    let knots = wrap64(&[
        0.0, 0.0, 0.0, 0.0, 0.0, 1.0, 2.0, 3.0, 4.0, 5.0, 5.0, 5.0, 5.0, 5.0,
    ]);
    let degree = 4;
    let spline = BSpline::new(degree, points, knots).unwrap();
    assert!(check_bspline(&spline, &expect));
}

#[test]
fn fixed_scenarios() {
    let linear = BSpline::new(1, wrap32(&[0.0, 1.0]), wrap32(&[0.0, 0.0, 1.0, 1.0])).unwrap();
    assert_eq!(linear.point(F32(0.5)).unwrap(), F32(0.5));

    let quadratic = BSpline::new(
        2,
        wrap32(&[0.0, 0.0, 1.0, 0.0, 0.0]),
        wrap32(&[0.0, 0.0, 0.0, 1.0, 2.0, 3.0, 3.0, 3.0]),
    )
    .unwrap();
    assert_eq!(quadratic.point(F32(1.5)).unwrap(), F32(0.75));

    let cubic = BSpline::new(
        3,
        wrap32(&[0.0, 0.0, 0.0, 6.0, 0.0, 0.0, 0.0]),
        wrap32(&[-2.0, -2.0, -2.0, -2.0, -1.0, 0.0, 1.0, 2.0, 2.0, 2.0, 2.0]),
    )
    .unwrap();
    assert_eq!(cubic.point(F32(0.0)).unwrap(), F32(4.0));

    let quartic = BSpline::new(
        4,
        wrap32(&[0.0, 0.0, 0.0, 0.0, 1.0, 0.0, 0.0, 0.0, 0.0]),
        wrap32(&[
            0.0, 0.0, 0.0, 0.0, 0.0, 1.0, 2.0, 3.0, 4.0, 5.0, 5.0, 5.0, 5.0, 5.0,
        ]),
    )
    .unwrap();
    let r = quartic.point(F32(2.5)).unwrap();
    assert!((r.0 - 0.598958).abs() < 1e-6);
}

#[test]
fn endpoint_reproduction() {
    // Clamped curves reproduce their first and last control points exactly at
    // the two ends of the knot domain.
    let curve = BSpline::new(
        2,
        wrap32(&[1.0, 2.0, 3.0]),
        wrap32(&[0.0, 0.0, 0.0, 1.0, 1.0, 1.0]),
    )
    .unwrap();
    let (lo, hi) = curve.knot_domain();
    assert_eq!(curve.point(lo).unwrap(), F32(1.0));
    assert_eq!(curve.point(hi).unwrap(), F32(3.0));

    let cubic = BSpline::new(
        3,
        wrap32(&[0.5, 0.0, 0.0, 6.0, 0.0, 0.0, -0.25]),
        wrap32(&[-2.0, -2.0, -2.0, -2.0, -1.0, 0.0, 1.0, 2.0, 2.0, 2.0, 2.0]),
    )
    .unwrap();
    let (lo, hi) = cubic.knot_domain();
    assert_eq!(cubic.point(lo).unwrap(), F32(0.5));
    assert_eq!(cubic.point(hi).unwrap(), F32(-0.25));
}

#[test]
fn linear_exactness() {
    // Degree 1 with knots [0, 0, 1, 1] is exactly p0 * (1 - t) + p1 * t.
    let p0 = 3.0f32;
    let p1 = -5.0f32;
    let curve = BSpline::new(1, wrap32(&[p0, p1]), wrap32(&[0.0, 0.0, 1.0, 1.0])).unwrap();
    for i in 0..=10 {
        let t = i as f32 / 10.0;
        assert_eq!(curve.point(F32(t)).unwrap(), F32(p0 * (1.0 - t) + p1 * t));
    }
}

#[test]
fn domain_stable() {
    // knot_domain never changes after construction, whatever else is called.
    let curve = BSpline::new(
        2,
        wrap32(&[0.0, 1.0, 0.0]),
        wrap32(&[0.0, 0.0, 0.0, 2.0, 2.0, 2.0]),
    )
    .unwrap();
    let before = curve.knot_domain();
    let _ = curve.point(F32(0.5));
    let _ = curve.point(F32(3.0));
    let _ = curve.control_points();
    let _ = curve.knots();
    let after = curve.knot_domain();
    assert_eq!(before, after);
    assert_eq!(before, (F32(0.0), F32(2.0)));
}

#[test]
fn idempotent_evaluation() {
    // Repeated evaluation at the same parameter is bit-identical.
    let curve = BSpline::new(
        3,
        wrap32(&[0.0, 0.0, 0.0, 6.0, 0.0, 0.0, 0.0]),
        wrap32(&[-2.0, -2.0, -2.0, -2.0, -1.0, 0.0, 1.0, 2.0, 2.0, 2.0, 2.0]),
    )
    .unwrap();
    for &t in &[-2.0f32, -0.7, 0.0, 0.3, 1.9, 2.0] {
        let first = curve.point(F32(t)).unwrap();
        let second = curve.point(F32(t)).unwrap();
        assert_eq!(first.0.to_bits(), second.0.to_bits());
    }
}

#[test]
fn construction_rejects_invalid_shapes() {
    // Too few control points: the strict bound requires degree + 1 points,
    // so exactly degree many is rejected.
    let r = BSpline::new(1, wrap32(&[0.0]), wrap32(&[0.0, 0.0, 1.0]));
    assert_eq!(r.unwrap_err(), ConstructionError::InvalidControlPointCount);
    let r = BSpline::new(2, wrap32(&[0.0, 1.0]), wrap32(&[0.0, 0.0, 1.0, 1.0, 2.0]));
    assert_eq!(r.unwrap_err(), ConstructionError::InvalidControlPointCount);

    // Wrong knot count, reported with both the received and expected length.
    let r = BSpline::new(1, wrap32(&[0.0, 1.0]), wrap32(&[0.0, 0.0, 1.0]));
    assert_eq!(
        r.unwrap_err(),
        ConstructionError::InvalidKnotCount {
            got: 3,
            expected: 4
        }
    );

    // A knot that cannot be ordered.
    let r = BSpline::new(1, wrap32(&[0.0, 1.0]), wrap32(&[0.0, f32::NAN, 1.0, 1.0]));
    assert_eq!(r.unwrap_err(), ConstructionError::InvalidKnotValue);
}

#[test]
fn out_of_domain_is_rejected() {
    let curve = BSpline::new(1, wrap32(&[0.0, 1.0]), wrap32(&[0.0, 0.0, 1.0, 1.0])).unwrap();
    assert_eq!(
        curve.point(F32(-0.5)).unwrap_err(),
        EvaluationError::ParameterOutOfDomain
    );
    assert_eq!(
        curve.point(F32(1.5)).unwrap_err(),
        EvaluationError::ParameterOutOfDomain
    );
    assert_eq!(
        curve.point(F32(f32::NAN)).unwrap_err(),
        EvaluationError::ParameterOutOfDomain
    );
    // The curve stays valid and reusable after a failed call.
    assert_eq!(curve.point(F32(0.5)).unwrap(), F32(0.5));
}

#[test]
fn degenerate_knot_span_is_rejected() {
    // All knots equal: every span is empty and the blend factor is 0/0.
    let curve = BSpline::new(1, wrap32(&[0.0, 1.0]), wrap32(&[0.0, 0.0, 0.0, 0.0])).unwrap();
    assert_eq!(
        curve.point(F32(0.0)).unwrap_err(),
        EvaluationError::DegenerateKnotSpan
    );
}

#[test]
fn unsorted_knots_are_sorted() {
    let curve = BSpline::new(1, wrap32(&[0.0, 1.0]), wrap32(&[1.0, 0.0, 1.0, 0.0])).unwrap();
    let knots: Vec<f32> = curve.knots().iter().map(|k| k.0).collect();
    assert_eq!(knots, vec![0.0, 0.0, 1.0, 1.0]);
    assert_eq!(curve.knot_domain(), (F32(0.0), F32(1.0)));
}

#[test]
fn accessors_expose_stored_data() {
    let points = wrap32(&[0.0, 2.0, 4.0]);
    let knots = wrap32(&[0.0, 0.0, 0.0, 1.0, 1.0, 1.0]);
    let curve = BSpline::new(2, points.clone(), knots.clone()).unwrap();
    assert_eq!(curve.control_points().as_slice(), points.as_slice());
    assert_eq!(curve.knots().as_slice(), knots.as_slice());
}
