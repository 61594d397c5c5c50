//! A verified library for B-spline curve construction and evaluation.
//!
//! A [`BSpline`](curve::BSpline) owns a polynomial degree, a sequence of
//! control points and a non-decreasing knot vector, and evaluates the curve at
//! a parameter value with de Boor's algorithm, computed iteratively from the
//! bottom up.  The curve is generic over the control-point type `T` (anything
//! that can be linearly blended, see [`Interpolate`](interpolate::Interpolate))
//! and over the scalar parameter type `F` (an ordered type with subtraction,
//! division and a finiteness test, see [`Scalar`](scalar::Scalar)).
//!
//! The crate also provides [`Rat`](rat::Rat), an exact fraction scalar, as a
//! fully verified instance of both capabilities.

pub mod curve;
pub mod interpolate;
pub mod rat;
pub mod scalar;

pub use curve::BSpline;
pub use curve::ConstructionError;
pub use curve::CurveModel;
pub use curve::EvaluationError;
pub use interpolate::Interpolate;
pub use rat::Rat;
pub use scalar::Scalar;
