//! The scalar capability that knot values and curve parameters must supply.

use vstd::prelude::*;

verus! {

/// An ordered scalar type for curve parameters and knots.
///
/// The curve evaluator needs exactly this much of a scalar: a total order on
/// the values that are comparable at all, subtraction and division, the two
/// identities, and a test for values that behave as finite numbers.  Each
/// executable method is pinned to a spec-level counterpart, and the proof
/// obligations at the end state the small algebra of facts the curve proofs
/// rely on; every implementation must establish them.
///
/// Values outside `comparable_spec` (a float's NaN, say) compare as false on
/// both sides of the order.  Values outside `finite_spec` may absorb the
/// arithmetic operations; the evaluator detects them with `is_finite` and
/// reports a degenerate knot span instead of returning garbage.
pub trait Scalar: Sized + Copy {
    /// What `a <= b` means on this type.
    spec fn le_spec(a: Self, b: Self) -> bool;

    /// What `a < b` means on this type.
    spec fn lt_spec(a: Self, b: Self) -> bool;

    /// The value of `a - b`.
    spec fn sub_spec(a: Self, b: Self) -> Self;

    /// The value of `a / b`.
    spec fn div_spec(a: Self, b: Self) -> Self;

    /// Values that behave as finite numbers under the arithmetic operations.
    spec fn finite_spec(a: Self) -> bool;

    /// Values that can be placed in the order (for floats: everything but NaN).
    spec fn comparable_spec(a: Self) -> bool;

    /// The additive identity.
    spec fn zero_spec() -> Self;

    /// The multiplicative identity.
    spec fn one_spec() -> Self;

    /// Non-strict comparison.
    fn le(&self, other: &Self) -> (r: bool)
        ensures
            r == Self::le_spec(*self, *other),
    ;

    /// Strict comparison.
    fn lt(&self, other: &Self) -> (r: bool)
        ensures
            r == Self::lt_spec(*self, *other),
    ;

    /// Subtraction.
    fn sub(&self, other: &Self) -> (r: Self)
        ensures
            r == Self::sub_spec(*self, *other),
    ;

    /// Division.
    fn div(&self, other: &Self) -> (r: Self)
        ensures
            r == Self::div_spec(*self, *other),
    ;

    /// Does this value behave as a finite number?
    fn is_finite(&self) -> (r: bool)
        ensures
            r == Self::finite_spec(*self),
    ;

    /// Can this value be placed in the order?
    fn is_comparable(&self) -> (r: bool)
        ensures
            r == Self::comparable_spec(*self),
    ;

    /// The order is transitive.
    proof fn lemma_le_trans(a: Self, b: Self, c: Self)
        requires
            Self::le_spec(a, b),
            Self::le_spec(b, c),
        ensures
            Self::le_spec(a, c),
    ;

    /// The order is total on comparable values.
    proof fn lemma_le_total(a: Self, b: Self)
        requires
            Self::comparable_spec(a),
            Self::comparable_spec(b),
        ensures
            Self::le_spec(a, b) || Self::le_spec(b, a),
    ;

    /// Strict comparison agrees with the non-strict one.
    proof fn lemma_lt_iff(a: Self, b: Self)
        ensures
            Self::lt_spec(a, b) == (Self::le_spec(a, b) && !Self::le_spec(b, a)),
    ;

    /// Finite values are comparable.
    proof fn lemma_finite_comparable(a: Self)
        requires
            Self::finite_spec(a),
        ensures
            Self::comparable_spec(a),
    ;

    /// The identities are finite and properly ordered.
    proof fn lemma_zero_one()
        ensures
            Self::finite_spec(Self::zero_spec()),
            Self::finite_spec(Self::one_spec()),
            Self::lt_spec(Self::zero_spec(), Self::one_spec()),
    ;

    /// Subtracting a finite value from itself gives the additive identity.
    proof fn lemma_sub_same(a: Self)
        requires
            Self::finite_spec(a),
        ensures
            Self::sub_spec(a, a) == Self::zero_spec(),
    ;

    /// The additive identity is neutral for subtraction.
    proof fn lemma_sub_zero(a: Self)
        requires
            Self::finite_spec(a),
        ensures
            Self::sub_spec(a, Self::zero_spec()) == a,
    ;

    /// A finite difference of ordered finite values is positive.
    proof fn lemma_sub_pos(a: Self, b: Self)
        requires
            Self::finite_spec(a),
            Self::finite_spec(b),
            Self::lt_spec(b, a),
            Self::finite_spec(Self::sub_spec(a, b)),
        ensures
            Self::lt_spec(Self::zero_spec(), Self::sub_spec(a, b)),
    ;

    /// The multiplicative identity is neutral for division.
    proof fn lemma_div_one(a: Self)
        requires
            Self::finite_spec(a),
        ensures
            Self::div_spec(a, Self::one_spec()) == a,
    ;

    /// The additive identity divided by a positive finite value stays itself.
    proof fn lemma_div_zero(b: Self)
        requires
            Self::finite_spec(b),
            Self::lt_spec(Self::zero_spec(), b),
        ensures
            Self::div_spec(Self::zero_spec(), b) == Self::zero_spec(),
    ;

    /// A positive finite value divided by itself gives the identity.
    proof fn lemma_div_self(a: Self)
        requires
            Self::finite_spec(a),
            Self::lt_spec(Self::zero_spec(), a),
        ensures
            Self::div_spec(a, a) == Self::one_spec(),
    ;
}

} // verus!
