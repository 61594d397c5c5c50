//! B-spline curve construction, validation and evaluation.

use crate::interpolate::Interpolate;
use crate::scalar::Scalar;
use vstd::prelude::*;

verus! {

/// Why a curve could not be constructed.
#[derive(Clone, Copy, Debug, PartialEq, Eq, Structural)]
pub enum ConstructionError {
    /// Fewer control points than the degree requires (`points.len() <= degree`).
    InvalidControlPointCount,
    /// The knot vector does not have exactly `points.len() + degree + 1` knots;
    /// carries the received and the expected count.
    InvalidKnotCount { got: usize, expected: usize },
    /// A knot value could not be placed in the order (a float NaN, say).
    InvalidKnotValue,
}

/// Why a point could not be evaluated.
#[derive(Clone, Copy, Debug, PartialEq, Eq, Structural)]
pub enum EvaluationError {
    /// The parameter lies outside the closed interval returned by
    /// `knot_domain`.
    ParameterOutOfDomain,
    /// A blend factor came out non-finite: the knot vector has repeated knots
    /// colliding with the query point without adequate span width.
    DegenerateKnotSpan,
}

/// The mathematical content of a curve: its degree, control points and knots.
pub struct CurveModel<T, F> {
    /// Polynomial degree of each curve segment.
    pub degree: nat,
    /// Control points, in order along the curve.
    pub control_points: Seq<T>,
    /// The knot vector.
    pub knots: Seq<F>,
}

/// Pairwise non-decreasing under the scalar order.
pub open spec fn sorted_le<F: Scalar>(s: Seq<F>) -> bool {
    forall|i: int, j: int| 0 <= i < j < s.len() ==> F::le_spec(s[i], s[j])
}

/// Every element can be placed in the scalar order.
pub open spec fn all_comparable<F: Scalar>(s: Seq<F>) -> bool {
    forall|i: int| 0 <= i < s.len() ==> F::comparable_spec(s[i])
}

/// The invariants every constructed curve has: strictly more control points
/// than the degree, exactly `points + degree + 1` knots, and a sorted knot
/// vector of comparable values.
pub open spec fn curve_wf<T, F: Scalar>(m: CurveModel<T, F>) -> bool {
    &&& m.control_points.len() > m.degree
    &&& m.knots.len() == m.control_points.len() + m.degree + 1
    &&& sorted_le(m.knots)
    &&& all_comparable(m.knots)
}

/// The closed parameter interval over which the curve is defined.
pub open spec fn spec_domain<T, F: Scalar>(m: CurveModel<T, F>) -> (F, F) {
    (m.knots[m.degree as int], m.knots[m.knots.len() - 1 - m.degree])
}

/// Whether `t` lies within the closed knot domain.
pub open spec fn in_domain<T, F: Scalar>(m: CurveModel<T, F>, t: F) -> bool {
    &&& F::le_spec(spec_domain(m).0, t)
    &&& F::le_spec(t, spec_domain(m).1)
}

/// `x` is the first index whose knot exceeds `t`.
pub open spec fn is_first_exceeding<F: Scalar>(knots: Seq<F>, t: F, x: int) -> bool {
    &&& 0 <= x < knots.len()
    &&& F::lt_spec(t, knots[x])
    &&& forall|j: int| 0 <= j < x ==> !F::lt_spec(t, knots[j])
}

/// Some knot exceeds `t`.
pub open spec fn has_exceeding<F: Scalar>(knots: Seq<F>, t: F) -> bool {
    exists|j: int| 0 <= j < knots.len() && F::lt_spec(t, knots[j])
}

/// The index of the knot span containing `t`, after the clamping policy at
/// the curve ends: a search result of zero clamps up to `degree`, one at or
/// beyond `knots.len() - degree - 1` (including "no knot exceeds `t`") clamps
/// down to `knots.len() - degree - 1`.
pub open spec fn span_index<T, F: Scalar>(m: CurveModel<T, F>, t: F) -> int {
    let last = m.knots.len() - m.degree - 1;
    if !has_exceeding(m.knots, t) {
        last
    } else {
        let x = choose|x: int| is_first_exceeding(m.knots, t, x);
        if x == 0 {
            m.degree as int
        } else if x >= last {
            last
        } else {
            x
        }
    }
}

/// The blend factor used by de Boor's recurrence at level `k` (1-based),
/// position `j`, for knot span `i`: with `idx = j + k + i - degree`, the
/// factor is `(t - knots[idx-1]) / (knots[idx + degree - k] - knots[idx-1])`.
pub open spec fn alpha_spec<T, F: Scalar>(m: CurveModel<T, F>, i: int, t: F, k: int, j: int) -> F {
    let idx = j + k + i - m.degree;
    F::div_spec(
        F::sub_spec(t, m.knots[idx - 1]),
        F::sub_spec(m.knots[idx + m.degree - k], m.knots[idx - 1]),
    )
}

/// Row `k` of de Boor's triangle for knot span `i`: row 0 holds the
/// `degree + 1` control points seeding the span, and each later row blends
/// adjacent entries of the row below with [`alpha_spec`].  The curve point is
/// the single entry of row `degree`.
pub open spec fn de_boor_row<T: Interpolate<F> + Copy, F: Scalar>(
    m: CurveModel<T, F>,
    i: int,
    t: F,
    k: nat,
) -> Seq<T>
    decreases k,
{
    if k == 0 {
        Seq::new(m.degree + 1, |j: int| m.control_points[j + i - m.degree - 1])
    } else {
        let prev = de_boor_row(m, i, t, (k - 1) as nat);
        Seq::new(
            (m.degree + 1 - k) as nat,
            |j: int| T::interp_spec(prev[j], prev[j + 1], alpha_spec(m, i, t, k as int, j)),
        )
    }
}

/// All blend factors of the triangle for knot span `i` are finite.
pub open spec fn alphas_finite<T, F: Scalar>(m: CurveModel<T, F>, i: int, t: F) -> bool {
    forall|k: int, j: int|
        1 <= k <= m.degree && 0 <= j <= m.degree - k ==> F::finite_spec(
            #[trigger] alpha_spec(m, i, t, k, j),
        )
}

/// What evaluation at `t` returns: the parameter must lie in the knot domain,
/// every blend factor of the selected span must be finite, and the point is
/// then the top of de Boor's triangle.
pub open spec fn point_spec<T: Interpolate<F> + Copy, F: Scalar>(
    m: CurveModel<T, F>,
    t: F,
) -> Result<T, EvaluationError> {
    if !in_domain(m, t) {
        Err(EvaluationError::ParameterOutOfDomain)
    } else {
        let i = span_index(m, t);
        if !alphas_finite(m, i, t) {
            Err(EvaluationError::DegenerateKnotSpan)
        } else {
            Ok(de_boor_row(m, i, t, m.degree)[0])
        }
    }
}

/// A linear curve with two control points `p0, p1` and knots built from the
/// scalar identities as `[0, 0, 1, 1]` evaluates, anywhere in its domain, to
/// exactly one blend of `p0` and `p1` with weight `t` — the straight segment
/// `p0 * (1 - t) + p1 * t` wherever blending has that form.
pub proof fn lemma_linear_exactness<T: Interpolate<F> + Copy, F: Scalar>(m: CurveModel<T, F>, t: F)
    requires
        m.degree == 1,
        m.control_points.len() == 2,
        m.knots == seq![F::zero_spec(), F::zero_spec(), F::one_spec(), F::one_spec()],
        F::le_spec(F::zero_spec(), t),
        F::le_spec(t, F::one_spec()),
        F::finite_spec(t),
    ensures
        point_spec(m, t) == Result::<T, EvaluationError>::Ok(
            T::interp_spec(m.control_points[0], m.control_points[1], t),
        ),
{
    let z = F::zero_spec();
    let o = F::one_spec();
    F::lemma_zero_one();
    F::lemma_finite_comparable(z);
    F::lemma_finite_comparable(o);
    F::lemma_finite_comparable(t);
    F::lemma_le_total(z, z);
    F::lemma_le_total(o, o);
    F::lemma_lt_iff(z, o);
    assert(m.knots.len() == 4);
    assert(m.knots[0] == z && m.knots[1] == z && m.knots[2] == o && m.knots[3] == o);
    assert(sorted_le(m.knots)) by {
        assert forall|i: int, j: int| 0 <= i < j < 4 implies F::le_spec(m.knots[i], m.knots[j]) by {
            assert(m.knots[i] == z || m.knots[i] == o);
            assert(m.knots[j] == z || m.knots[j] == o);
        }
    }
    assert(in_domain(m, t));
    // No knot before index 2 exceeds t, since 0 <= t.
    F::lemma_lt_iff(t, z);
    assert(!F::lt_spec(t, z));
    F::lemma_lt_iff(t, o);
    let last = m.knots.len() - m.degree - 1;
    assert(last == 2);
    if F::lt_spec(t, o) {
        assert(is_first_exceeding(m.knots, t, 2));
        let w = choose|w: int| is_first_exceeding(m.knots, t, w);
        assert(is_first_exceeding(m.knots, t, w));
        assert(w == 2);
        assert(span_index(m, t) == 2);
    } else {
        assert(forall|j: int| 0 <= j < 4 ==> !F::lt_spec(t, m.knots[j]));
        assert(!has_exceeding(m.knots, t));
        assert(span_index(m, t) == 2);
    }
    // The single blend factor is (t - 0) / (1 - 0) == t.
    F::lemma_sub_zero(t);
    F::lemma_sub_zero(o);
    F::lemma_div_one(t);
    assert(alpha_spec(m, 2, t, 1, 0) == t);
    assert(alphas_finite(m, 2, t)) by {
        assert forall|k: int, j: int| 1 <= k <= m.degree && 0 <= j <= m.degree - k implies F::finite_spec(
            #[trigger] alpha_spec(m, 2, t, k, j),
        ) by {
            assert(k == 1 && j == 0);
        }
    }
    assert(de_boor_row(m, 2, t, 0)[0] == m.control_points[0]);
    assert(de_boor_row(m, 2, t, 0)[1] == m.control_points[1]);
    assert(de_boor_row(m, 2, t, 1)[0] == T::interp_spec(
        m.control_points[0],
        m.control_points[1],
        t,
    ));
}

/// Helper for the lower endpoint: while every blend factor at position 0 is
/// zero, the leftmost entry of de Boor's triangle stays the first seeded
/// control point.
proof fn lemma_row_head_fixed<T: Interpolate<F> + Copy, F: Scalar>(
    m: CurveModel<T, F>,
    i: int,
    t: F,
    k: nat,
)
    requires
        curve_wf(m),
        m.degree + 1 <= i <= m.control_points.len(),
        k <= m.degree,
        forall|kk: int|
            1 <= kk <= k ==> #[trigger] alpha_spec(m, i, t, kk, 0) == F::zero_spec(),
    ensures
        de_boor_row(m, i, t, k)[0] == m.control_points[i - m.degree - 1],
    decreases k,
{
    if k == 0 {
    } else {
        lemma_row_head_fixed(m, i, t, (k - 1) as nat);
        let prev = de_boor_row(m, i, t, (k - 1) as nat);
        T::lemma_interp_zero(prev[0], prev[1]);
        assert(alpha_spec(m, i, t, k as int, 0) == F::zero_spec());
        assert(de_boor_row(m, i, t, k)[0] == T::interp_spec(
            prev[0],
            prev[1],
            alpha_spec(m, i, t, k as int, 0),
        ));
    }
}

/// Helper for the upper endpoint: while every blend factor is one, each row
/// of de Boor's triangle shifts one step right over the seeded control
/// points.
proof fn lemma_row_shift<T: Interpolate<F> + Copy, F: Scalar>(
    m: CurveModel<T, F>,
    i: int,
    t: F,
    k: nat,
)
    requires
        curve_wf(m),
        m.degree + 1 <= i <= m.control_points.len(),
        k <= m.degree,
        forall|kk: int, jj: int|
            1 <= kk <= k && 0 <= jj <= m.degree - kk ==> #[trigger] alpha_spec(m, i, t, kk, jj)
                == F::one_spec(),
    ensures
        forall|j: int|
            0 <= j < m.degree + 1 - k ==> #[trigger] de_boor_row(m, i, t, k)[j]
                == m.control_points[j + k + i - m.degree - 1],
    decreases k,
{
    if k == 0 {
    } else {
        lemma_row_shift(m, i, t, (k - 1) as nat);
        let prev = de_boor_row(m, i, t, (k - 1) as nat);
        assert forall|j: int| 0 <= j < m.degree + 1 - k implies #[trigger] de_boor_row(
            m,
            i,
            t,
            k,
        )[j] == m.control_points[j + k + i - m.degree - 1] by {
            T::lemma_interp_one(prev[j], prev[j + 1]);
            assert(alpha_spec(m, i, t, k as int, j) == F::one_spec());
            assert(prev[j + 1] == m.control_points[j + k + i - m.degree - 1]);
        }
    }
}

/// Endpoint reproduction at the lower domain boundary: on a clamped curve —
/// the first `degree + 1` knots equal, a real step after them, all knots
/// finite with finite spans from the boundary — evaluation at
/// `knot_domain().0` returns exactly the first control point.
pub proof fn lemma_endpoint_start<T: Interpolate<F> + Copy, F: Scalar>(m: CurveModel<T, F>)
    requires
        curve_wf(m),
        forall|j: int| 0 <= j <= m.degree ==> #[trigger] m.knots[j] == m.knots[0],
        F::lt_spec(m.knots[m.degree as int], m.knots[m.degree as int + 1]),
        forall|j: int| 0 <= j < m.knots.len() ==> F::finite_spec(#[trigger] m.knots[j]),
        forall|j: int|
            m.degree < j < m.knots.len() ==> F::finite_spec(
                #[trigger] F::sub_spec(m.knots[j], m.knots[m.degree as int]),
            ),
    ensures
        point_spec(m, spec_domain(m).0) == Result::<T, EvaluationError>::Ok(m.control_points[0]),
{
    let deg = m.degree as int;
    let len = m.knots.len() as int;
    let a = m.knots[deg];
    assert(a == m.knots[0]);
    F::lemma_finite_comparable(a);
    F::lemma_le_total(a, a);
    assert(F::le_spec(m.knots[deg], m.knots[len - 1 - deg]));
    assert(in_domain(m, a));
    F::lemma_lt_iff(a, a);
    assert forall|j: int| 0 <= j < deg + 1 implies !F::lt_spec(a, m.knots[j]) by {
        assert(m.knots[j] == a);
    }
    assert(is_first_exceeding(m.knots, a, deg + 1));
    let w = choose|w: int| is_first_exceeding(m.knots, a, w);
    assert(is_first_exceeding(m.knots, a, w));
    assert(w == deg + 1);
    assert(span_index(m, a) == deg + 1);
    let i = deg + 1;
    F::lemma_zero_one();
    assert forall|kk: int, jj: int|
        1 <= kk <= m.degree && 0 <= jj <= m.degree - kk implies #[trigger] alpha_spec(
        m,
        i,
        a,
        kk,
        jj,
    ) == F::zero_spec() by {
        let idx = jj + kk + i - deg;
        assert(idx - 1 == jj + kk);
        assert(1 <= jj + kk <= deg);
        assert(m.knots[jj + kk] == a);
        F::lemma_sub_same(a);
        let hi = idx + deg - kk;
        assert(hi == jj + deg + 1);
        assert(deg < hi < len);
        // The span from the boundary to knots[hi] is positive: knots[hi]
        // strictly exceeds a through the step at degree + 1.
        F::lemma_lt_iff(a, m.knots[deg + 1]);
        if hi > deg + 1 {
            assert(F::le_spec(m.knots[deg + 1], m.knots[hi]));
            F::lemma_le_trans(a, m.knots[deg + 1], m.knots[hi]);
            if F::le_spec(m.knots[hi], a) {
                F::lemma_le_trans(m.knots[deg + 1], m.knots[hi], a);
            }
        }
        F::lemma_lt_iff(a, m.knots[hi]);
        assert(F::lt_spec(a, m.knots[hi]));
        F::lemma_sub_pos(m.knots[hi], a);
        F::lemma_div_zero(F::sub_spec(m.knots[hi], a));
    }
    assert(alphas_finite(m, i, a)) by {
        assert forall|kk: int, jj: int|
            1 <= kk <= m.degree && 0 <= jj <= m.degree - kk implies F::finite_spec(
            #[trigger] alpha_spec(m, i, a, kk, jj),
        ) by {
            assert(alpha_spec(m, i, a, kk, jj) == F::zero_spec());
        }
    }
    lemma_row_head_fixed(m, i, a, m.degree);
}

/// Endpoint reproduction at the upper domain boundary: on a curve clamped at
/// its end — the last `degree + 1` knots equal, a real step before them, all
/// knots finite with finite spans up to the boundary — evaluation at
/// `knot_domain().1` returns exactly the last control point.
pub proof fn lemma_endpoint_end<T: Interpolate<F> + Copy, F: Scalar>(m: CurveModel<T, F>)
    requires
        curve_wf(m),
        forall|j: int|
            m.knots.len() - m.degree - 1 <= j < m.knots.len() ==> #[trigger] m.knots[j]
                == m.knots[m.knots.len() - 1],
        F::lt_spec(
            m.knots[m.knots.len() - m.degree - 2],
            m.knots[m.knots.len() - m.degree - 1],
        ),
        forall|j: int| 0 <= j < m.knots.len() ==> F::finite_spec(#[trigger] m.knots[j]),
        forall|j: int|
            0 <= j < m.knots.len() - m.degree - 1 ==> F::finite_spec(
                #[trigger] F::sub_spec(m.knots[m.knots.len() - 1 - m.degree], m.knots[j]),
            ),
    ensures
        point_spec(m, spec_domain(m).1) == Result::<T, EvaluationError>::Ok(
            m.control_points[m.control_points.len() - 1],
        ),
{
    let deg = m.degree as int;
    let len = m.knots.len() as int;
    let n = len - deg - 1;
    let b = m.knots[len - 1 - deg];
    assert(b == m.knots[n]);
    assert(b == m.knots[len - 1]);
    F::lemma_finite_comparable(b);
    F::lemma_le_total(b, b);
    assert(F::le_spec(m.knots[deg], b));
    assert(in_domain(m, b));
    F::lemma_lt_iff(b, b);
    assert forall|j: int| 0 <= j < len implies !F::lt_spec(b, m.knots[j]) by {
        if j >= n {
            assert(m.knots[j] == b);
        } else {
            assert(F::le_spec(m.knots[j], m.knots[n]));
            F::lemma_lt_iff(b, m.knots[j]);
            if F::le_spec(b, m.knots[j]) && !F::le_spec(m.knots[j], b) {
                assert(false);
            }
        }
    }
    assert(!has_exceeding(m.knots, b));
    assert(span_index(m, b) == n);
    let i = n;
    F::lemma_zero_one();
    assert forall|kk: int, jj: int|
        1 <= kk <= m.degree && 0 <= jj <= m.degree - kk implies #[trigger] alpha_spec(
        m,
        i,
        b,
        kk,
        jj,
    ) == F::one_spec() by {
        let idx = jj + kk + i - deg;
        assert(1 <= idx - 1 <= n - 1);
        let c = m.knots[idx - 1];
        let hi = idx + deg - kk;
        assert(hi == jj + n);
        assert(n <= hi < len);
        assert(m.knots[hi] == b);
        // c < b: c sits at or before knots[n - 1], which is strictly below b.
        F::lemma_lt_iff(m.knots[n - 1], b);
        if idx - 1 < n - 1 {
            assert(F::le_spec(c, m.knots[n - 1]));
            F::lemma_le_trans(c, m.knots[n - 1], b);
            if F::le_spec(b, c) {
                F::lemma_le_trans(b, c, m.knots[n - 1]);
            }
        }
        F::lemma_lt_iff(c, b);
        assert(F::lt_spec(c, b));
        F::lemma_sub_pos(b, c);
        F::lemma_div_self(F::sub_spec(b, c));
    }
    assert(alphas_finite(m, i, b)) by {
        assert forall|kk: int, jj: int|
            1 <= kk <= m.degree && 0 <= jj <= m.degree - kk implies F::finite_spec(
            #[trigger] alpha_spec(m, i, b, kk, jj),
        ) by {
            assert(alpha_spec(m, i, b, kk, jj) == F::one_spec());
        }
    }
    lemma_row_shift(m, i, b, m.degree);
    assert(de_boor_row(m, i, b, m.degree)[0] == m.control_points[n - 1]);
}

/// Return the index of the first element greater than the value passed.
/// The data **must** be sorted.  If no element greater than the value
/// passed is found the function returns None.
fn upper_bounds<F: Scalar>(data: &Vec<F>, value: F) -> (r: Option<usize>)
    requires
        sorted_le(data@),
    ensures
        match r {
            Some(x) => is_first_exceeding(data@, value, x as int),
            None => !has_exceeding(data@, value),
        },
{
    let mut first: usize = 0;
    let mut count: usize = data.len();
    while count > 0
        invariant
            sorted_le(data@),
            first + count <= data.len(),
            forall|j: int| 0 <= j < first ==> !F::lt_spec(value, data@[j]),
            forall|j: int| first + count <= j < data@.len() ==> F::lt_spec(value, data@[j]),
        decreases count,
    {
        let step: usize = count / 2;
        let it: usize = first + step;
        if !value.lt(&data[it]) {
            proof {
                assert forall|j: int| 0 <= j <= it as int implies !F::lt_spec(
                    value,
                    data@[j],
                ) by {
                    if j < it as int && F::lt_spec(value, data@[j]) {
                        F::lemma_lt_iff(value, data@[j]);
                        F::lemma_lt_iff(value, data@[it as int]);
                        F::lemma_le_trans(value, data@[j], data@[it as int]);
                        if F::le_spec(data@[it as int], value) {
                            F::lemma_le_trans(data@[j], data@[it as int], value);
                        }
                    }
                }
            }
            first = it + 1;
            count = count - step - 1;
        } else {
            proof {
                assert forall|j: int| it as int <= j < data@.len() implies F::lt_spec(
                    value,
                    data@[j],
                ) by {
                    if j > it as int {
                        F::lemma_lt_iff(value, data@[it as int]);
                        F::lemma_lt_iff(value, data@[j]);
                        F::lemma_le_trans(value, data@[it as int], data@[j]);
                        if F::le_spec(data@[j], value) {
                            F::lemma_le_trans(data@[it as int], data@[j], value);
                        }
                    }
                }
            }
            count = step;
        }
    }
    if first == data.len() {
        None
    } else {
        Some(first)
    }
}

/// Swapping two entries of a sequence leaves its multiset of elements
/// unchanged.
proof fn lemma_swap_multiset<A>(s: Seq<A>, i: int, j: int)
    requires
        0 <= i < s.len(),
        0 <= j < s.len(),
        i != j,
    ensures
        s.update(i, s[j]).update(j, s[i]).to_multiset() == s.to_multiset(),
{
    broadcast use vstd::seq_lib::to_multiset_update;
    broadcast use vstd::seq_lib::to_multiset_contains;
    broadcast use vstd::multiset::group_multiset_axioms;

    let s1 = s.update(i, s[j]);
    assert(s1[j] == s[j]);
    assert(s.contains(s[i]));
    assert(s.to_multiset().count(s[i]) > 0);
    assert(s1.update(j, s[i]).to_multiset() =~= s.to_multiset());
}

/// Sort the knots ascending with insertion sort, comparing through the
/// scalar order; every element must be comparable.
fn sort_knots<F: Scalar>(v: &mut Vec<F>)
    requires
        all_comparable(old(v)@),
    ensures
        sorted_le(final(v)@),
        final(v)@.to_multiset() == old(v)@.to_multiset(),
        final(v)@.len() == old(v)@.len(),
        all_comparable(final(v)@),
        sorted_le(old(v)@) ==> final(v)@ == old(v)@,
{
    let ghost orig = v@;
    let mut i: usize = 1;
    while i < v.len()
        invariant
            1 <= i,
            v@.len() == orig.len(),
            v@.to_multiset() == orig.to_multiset(),
            all_comparable(v@),
            sorted_le(orig) ==> v@ == orig,
            forall|a: int, b: int| 0 <= a < b < i ==> F::le_spec(v@[a], v@[b]),
        decreases v@.len() - i,
    {
        let mut j: usize = i;
        while j > 0 && !v[j - 1].le(&v[j])
            invariant
                0 <= j <= i < v@.len(),
                v@.len() == orig.len(),
                v@.to_multiset() == orig.to_multiset(),
                all_comparable(v@),
                sorted_le(orig) ==> v@ == orig,
                sorted_le(orig) ==> j == i,
                forall|a: int, b: int|
                    0 <= a < b <= i && a != j && b != j ==> F::le_spec(v@[a], v@[b]),
                forall|b: int| j < b <= i ==> F::le_spec(v@[j as int], v@[b]),
            decreases j,
        {
            let x = v[j - 1];
            let y = v[j];
            proof {
                if sorted_le(orig) {
                    assert(F::le_spec(orig[j - 1], orig[j as int]));
                    assert(false);
                }
                F::lemma_le_total(v@[j - 1], v@[j as int]);
                lemma_swap_multiset(v@, j - 1, j as int);
            }
            let ghost pre = v@;
            v.set(j - 1, y);
            v.set(j, x);
            proof {
                assert(v@ == pre.update(j - 1, pre[j as int]).update(j as int, pre[j - 1]));
                assert forall|a: int, b: int|
                    0 <= a < b <= i && a != j - 1 && b != j - 1 implies F::le_spec(
                    v@[a],
                    v@[b],
                ) by {
                    if b == j {
                        assert(v@[b] == pre[j - 1]);
                        assert(F::le_spec(pre[a], pre[j - 1]));
                    } else if a == j {
                        assert(v@[a] == pre[j - 1]);
                        assert(F::le_spec(pre[j - 1], pre[b]));
                    }
                }
                assert forall|b: int| j - 1 < b <= i implies F::le_spec(v@[j - 1], #[trigger] v@[b]) by {
                    if b == j {
                        assert(v@[j - 1] == pre[j as int] && v@[b] == pre[j - 1]);
                    } else {
                        assert(v@[j - 1] == pre[j as int] && v@[b] == pre[b]);
                    }
                }
                assert forall|q: int| 0 <= q < v@.len() implies F::comparable_spec(v@[q]) by {
                    assert(v@[q] == pre[q] || v@[q] == pre[j - 1] || v@[q] == pre[j as int]);
                }
            }
            j = j - 1;
        }
        proof {
            assert forall|a: int, b: int| 0 <= a < b <= i implies F::le_spec(v@[a], v@[b]) by {
                if j > 0 {
                    if b == j {
                        if a < j - 1 {
                            F::lemma_le_trans(v@[a], v@[j - 1], v@[j as int]);
                        }
                    } else if a == j {
                    }
                }
            }
        }
        i = i + 1;
    }
}

/// Represents a B-spline curve that will use polynomials of the specified
/// degree to interpolate between the control points given the knots.  A curve
/// is immutable once constructed: no method takes it by `&mut`.
#[derive(Clone, Debug)]
pub struct BSpline<T: Interpolate<F> + Copy, F: Scalar> {
    /// Degree of the polynomial that we use to make the curve segments.
    degree: usize,
    /// Control points for the curve.
    control_points: Vec<T>,
    /// The knot vector.
    knots: Vec<F>,
}

impl<T: Interpolate<F> + Copy, F: Scalar> View for BSpline<T, F> {
    type V = CurveModel<T, F>;

    closed spec fn view(&self) -> CurveModel<T, F> {
        CurveModel {
            degree: self.degree as nat,
            control_points: self.control_points@,
            knots: self.knots@,
        }
    }
}

impl<T: Interpolate<F> + Copy, F: Scalar> BSpline<T, F> {
    /// The invariants established at construction; see [`curve_wf`].
    pub open spec fn wf(&self) -> bool {
        curve_wf(self@)
    }

    /// Create a new B-spline curve of the desired `degree` that will
    /// interpolate the `control_points` using the `knots`.  The knots should
    /// be sorted in non-decreasing order, otherwise they will be sorted for
    /// you, which may lead to undesired knots for control points.  Note that
    /// here we use the interpolating polynomial degree; if you're familiar
    /// with the convention of "B-spline curve order", the degree is
    /// `curve_order - 1`.
    ///
    /// The curve requires one more control point than the degree
    /// (`control_points.len() > degree`) and exactly
    /// `control_points.len() + degree + 1` knots, every one of which must be
    /// comparable; each violation is reported as its own error, checked in
    /// that order, and no curve value exists unless every check passed.
    pub fn new(degree: usize, control_points: Vec<T>, knots: Vec<F>) -> (r: Result<
        BSpline<T, F>,
        ConstructionError,
    >)
        requires
            control_points@.len() + degree + 1 <= usize::MAX,
        ensures
            match r {
                Ok(c) => {
                    &&& control_points@.len() > degree
                    &&& knots@.len() == control_points@.len() + degree + 1
                    &&& all_comparable(knots@)
                    &&& c.wf()
                    &&& c@.degree == degree
                    &&& c@.control_points == control_points@
                    &&& c@.knots.to_multiset() == knots@.to_multiset()
                    &&& c@.knots.len() == knots@.len()
                    &&& sorted_le(c@.knots)
                    &&& sorted_le(knots@) ==> c@.knots == knots@
                },
                Err(ConstructionError::InvalidControlPointCount) => control_points@.len()
                    <= degree,
                Err(ConstructionError::InvalidKnotCount { got, expected }) => {
                    &&& control_points@.len() > degree
                    &&& knots@.len() != control_points@.len() + degree + 1
                    &&& got == knots@.len()
                    &&& expected == control_points@.len() + degree + 1
                },
                Err(ConstructionError::InvalidKnotValue) => {
                    &&& control_points@.len() > degree
                    &&& knots@.len() == control_points@.len() + degree + 1
                    &&& !all_comparable(knots@)
                },
            },
    {
        if control_points.len() <= degree {
            return Err(ConstructionError::InvalidControlPointCount);
        }
        let expected: usize = control_points.len() + degree + 1;
        if knots.len() != expected {
            return Err(ConstructionError::InvalidKnotCount { got: knots.len(), expected });
        }
        let mut idx: usize = 0;
        while idx < knots.len()
            invariant
                idx <= knots@.len(),
                forall|q: int| 0 <= q < idx ==> F::comparable_spec(knots@[q]),
                control_points@.len() > degree,
                knots@.len() == control_points@.len() + degree + 1,
            decreases knots@.len() - idx,
        {
            if !knots[idx].is_comparable() {
                return Err(ConstructionError::InvalidKnotValue);
            }
            idx = idx + 1;
        }
        let mut knots = knots;
        sort_knots(&mut knots);
        Ok(BSpline { degree, control_points, knots })
    }

    /// Get the min and max knot domain values for finding the `t` range to
    /// compute the curve over.  The curve is only defined over the inclusive
    /// range `[min, max]`; the pair is a pure function of the curve value, so
    /// it never changes after construction.
    pub fn knot_domain(&self) -> (r: (F, F))
        requires
            self.wf(),
        ensures
            r == spec_domain(self@),
    {
        (self.knots[self.degree], self.knots[self.knots.len() - 1 - self.degree])
    }

    /// Compute a point on the curve at `t`; the parameter must be in the
    /// inclusive range of values returned by `knot_domain`, and every blend
    /// factor of the selected knot span must come out finite.  Each violation
    /// is detected and reported per call, the curve itself stays untouched
    /// and reusable.
    pub fn point(&self, t: F) -> (r: Result<T, EvaluationError>)
        requires
            self.wf(),
        ensures
            r == point_spec(self@, t),
    {
        let lo = self.knots[self.degree];
        let hi = self.knots[self.knots.len() - 1 - self.degree];
        if !(lo.le(&t) && t.le(&hi)) {
            return Err(EvaluationError::ParameterOutOfDomain);
        }
        // Find the first index with a knot value greater than the t we're
        // searching for.  We want to find i such that: knot[i] <= t < knot[i + 1].
        let last: usize = self.knots.len() - self.degree - 1;
        let ub = upper_bounds(&self.knots, t);
        let i: usize = match ub {
            None => last,
            Some(x) => if x == 0 {
                self.degree
            } else if x >= last {
                last
            } else {
                x
            },
        };
        proof {
            let m = self@;
            match ub {
                None => {
                    assert(i as int == span_index(m, t));
                }
                Some(x) => {
                    assert(F::lt_spec(t, m.knots[x as int]));
                    assert(has_exceeding(m.knots, t));
                    let w = choose|w: int| is_first_exceeding(m.knots, t, w);
                    assert(is_first_exceeding(m.knots, t, w));
                    if w < x as int {
                        assert(!F::lt_spec(t, m.knots[w]));
                        assert(false);
                    } else if w > x as int {
                        assert(!F::lt_spec(t, m.knots[x as int]));
                        assert(false);
                    }
                    assert(w == x as int);
                    // In-domain, the first exceeding index lies past the degree.
                    if x as int <= m.degree {
                        assert(F::le_spec(m.knots[m.degree as int], t));
                        if (x as int) < m.degree {
                            assert(F::le_spec(m.knots[x as int], m.knots[m.degree as int]));
                            F::lemma_le_trans(m.knots[x as int], m.knots[m.degree as int], t);
                        }
                        F::lemma_lt_iff(t, m.knots[x as int]);
                        assert(false);
                    }
                    assert(i as int == span_index(m, t));
                }
            }
            assert(m.degree + 1 <= i as int <= m.control_points.len());
        }
        self.de_boor_iterative(t, i)
    }

    /// Read-only access to the control points, in stored order.
    pub fn control_points(&self) -> (r: &Vec<T>)
        ensures
            r@ == self@.control_points,
    {
        &self.control_points
    }

    /// Read-only access to the knots, in stored order.
    pub fn knots(&self) -> (r: &Vec<F>)
        ensures
            r@ == self@.knots,
    {
        &self.knots
    }

    /// Iteratively compute de Boor's B-spline algorithm; this computes the
    /// recursive de Boor algorithm tree from the bottom up.  At each level we
    /// use the results from the previous one to compute this level and store
    /// the results in the array indices we no longer need to compute the
    /// current level (the left one used computing node j).
    fn de_boor_iterative(&self, t: F, i_start: usize) -> (r: Result<T, EvaluationError>)
        requires
            self.wf(),
            self@.degree + 1 <= i_start <= self@.control_points.len(),
        ensures
            r == (if alphas_finite(self@, i_start as int, t) {
                Result::<T, EvaluationError>::Ok(
                    de_boor_row(self@, i_start as int, t, self@.degree)[0],
                )
            } else {
                Result::<T, EvaluationError>::Err(EvaluationError::DegenerateKnotSpan)
            }),
    {
        let degree = self.degree;
        let nknots: usize = self.knots.len();
        let mut tmp: Vec<T> = Vec::new();
        let mut j: usize = 0;
        while j <= degree
            invariant
                self.wf(),
                self@.degree == degree,
                self@.degree + 1 <= i_start <= self@.control_points.len(),
                self@.knots.len() == nknots,
                j <= degree + 1,
                tmp@.len() == j,
                forall|q: int|
                    0 <= q < j ==> tmp@[q] == de_boor_row(self@, i_start as int, t, 0)[q],
            decreases degree + 1 - j,
        {
            let p: usize = i_start - degree - 1 + j;
            tmp.push(self.control_points[p]);
            j = j + 1;
        }
        let mut lvl: usize = 0;
        while lvl < degree
            invariant
                self.wf(),
                self@.degree == degree,
                self@.degree + 1 <= i_start <= self@.control_points.len(),
                self@.knots.len() == nknots,
                lvl <= degree,
                tmp@.len() == degree + 1,
                forall|q: int|
                    0 <= q <= degree - lvl ==> tmp@[q] == de_boor_row(
                        self@,
                        i_start as int,
                        t,
                        lvl as nat,
                    )[q],
                forall|k: int, jj: int|
                    1 <= k <= lvl && 0 <= jj <= degree - k ==> F::finite_spec(
                        #[trigger] alpha_spec(self@, i_start as int, t, k, jj),
                    ),
            decreases degree - lvl,
        {
            let k: usize = lvl + 1;
            let mut j2: usize = 0;
            while j2 < degree - lvl
                invariant
                    self.wf(),
                    self@.degree == degree,
                    self@.degree + 1 <= i_start <= self@.control_points.len(),
                    self@.knots.len() == nknots,
                    lvl < degree,
                    k == lvl + 1,
                    j2 <= degree - lvl,
                    tmp@.len() == degree + 1,
                    forall|q: int|
                        0 <= q < j2 ==> tmp@[q] == de_boor_row(
                            self@,
                            i_start as int,
                            t,
                            (lvl + 1) as nat,
                        )[q],
                    forall|q: int|
                        j2 <= q <= degree - lvl ==> tmp@[q] == de_boor_row(
                            self@,
                            i_start as int,
                            t,
                            lvl as nat,
                        )[q],
                    forall|kk: int, jj: int|
                        1 <= kk <= lvl && 0 <= jj <= degree - kk ==> F::finite_spec(
                            #[trigger] alpha_spec(self@, i_start as int, t, kk, jj),
                        ),
                    forall|jj: int|
                        0 <= jj < j2 ==> F::finite_spec(
                            #[trigger] alpha_spec(self@, i_start as int, t, lvl + 1, jj),
                        ),
                decreases degree - lvl - j2,
            {
                let idx: usize = i_start - degree + k + j2;
                let num = t.sub(&self.knots[idx - 1]);
                let den = self.knots[idx + degree - k].sub(&self.knots[idx - 1]);
                let alpha = num.div(&den);
                proof {
                    assert(alpha == alpha_spec(self@, i_start as int, t, k as int, j2 as int));
                }
                if !alpha.is_finite() {
                    return Err(EvaluationError::DegenerateKnotSpan);
                }
                let a = tmp[j2];
                let b = tmp[j2 + 1];
                let blended = a.interpolate(&b, alpha);
                tmp.set(j2, blended);
                proof {
                    assert(de_boor_row(self@, i_start as int, t, (lvl + 1) as nat)[j2 as int]
                        == T::interp_spec(
                        de_boor_row(self@, i_start as int, t, lvl as nat)[j2 as int],
                        de_boor_row(self@, i_start as int, t, lvl as nat)[j2 + 1],
                        alpha_spec(self@, i_start as int, t, lvl + 1, j2 as int),
                    ));
                }
                j2 = j2 + 1;
            }
            lvl = lvl + 1;
        }
        proof {
            assert(alphas_finite(self@, i_start as int, t));
            assert(tmp@[0] == de_boor_row(self@, i_start as int, t, self@.degree)[0]);
        }
        Ok(tmp[0])
    }
}

} // verus!
