//! The blending capability that control-point types must supply.

use crate::scalar::Scalar;
use vstd::prelude::*;

verus! {

/// The interpolate trait is used to linearly blend two values of a type with a
/// scalar weight; the curve evaluator computes every point on a curve through
/// this single operation.
///
/// `interpolate(a, b, t)` should be the appropriate linear interpolation for
/// the type, `a * (1 - t) + b * t` wherever scalar multiplication and addition
/// exist.  The executable method is pinned to the spec-level `interp_spec`,
/// and the two proof obligations state the endpoint facts every correct
/// interpolation has: a weight equal to the additive identity returns the
/// first value, one equal to the multiplicative identity returns the second.
pub trait Interpolate<F: Scalar>: Sized {
    /// The value of the blend of `a` and `b` with weight `t`.
    spec fn interp_spec(a: Self, b: Self, t: F) -> Self;

    /// Blend `self` and `other` with weight `t`.
    fn interpolate(&self, other: &Self, t: F) -> (r: Self)
        ensures
            r == Self::interp_spec(*self, *other, t),
    ;

    /// A blend with weight zero returns the first value.
    proof fn lemma_interp_zero(a: Self, b: Self)
        ensures
            Self::interp_spec(a, b, F::zero_spec()) == a,
    ;

    /// A blend with weight one returns the second value.
    proof fn lemma_interp_one(a: Self, b: Self)
        ensures
            Self::interp_spec(a, b, F::one_spec()) == b,
    ;
}

} // verus!
