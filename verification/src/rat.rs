//! An exact fraction scalar: a verified instance of the curve capabilities.

use crate::interpolate::Interpolate;
use crate::scalar::Scalar;
use vstd::prelude::*;

verus! {

/// An exact fraction `num / den` over 64-bit integers.
///
/// A value is *finite* when `den >= 1`, `num > i64::MIN`, and the zero and one
/// values are in their canonical shapes (`0/1` and `1/1`).  Every other bit
/// pattern — including the results of operations whose exact value would not
/// fit the 64-bit window — behaves as an undefined value: it compares as false
/// on both sides of the order and absorbs the arithmetic, much as a float NaN
/// does.  Build values with [`Rat::new`], which normalizes the sign and the
/// canonical shapes; fractions are otherwise kept unreduced.
#[derive(Clone, Copy, Debug, PartialEq, Eq, Structural)]
pub struct Rat {
    /// Numerator.
    pub num: i64,
    /// Denominator; `0` marks an undefined value.
    pub den: i64,
}

/// The undefined value.
pub open spec fn rat_nan() -> Rat {
    Rat { num: 0, den: 0 }
}

/// The canonical zero.
pub open spec fn rat_zero() -> Rat {
    Rat { num: 0, den: 1 }
}

/// The canonical one.
pub open spec fn rat_one() -> Rat {
    Rat { num: 1, den: 1 }
}

/// Which values behave as finite numbers.
pub open spec fn rat_finite(a: Rat) -> bool {
    &&& a.den >= 1
    &&& a.num > i64::MIN
    &&& (a.num == 0 ==> a.den == 1)
    &&& (a.num == a.den ==> a.den == 1)
}

/// Shape an exact numerator/denominator pair (with `d >= 1`) into a `Rat`:
/// zero and one take their canonical forms, anything outside the 64-bit
/// window becomes the undefined value.
pub open spec fn rat_norm(n: int, d: int) -> Rat {
    if d < 1 {
        rat_nan()
    } else if n == 0 {
        rat_zero()
    } else if n == d {
        rat_one()
    } else if -(i64::MAX as int) <= n <= i64::MAX as int && d <= i64::MAX as int {
        Rat { num: n as i64, den: d as i64 }
    } else {
        rat_nan()
    }
}

/// The order on fractions, by cross-multiplication; false unless both values
/// are finite.
pub open spec fn rat_le(a: Rat, b: Rat) -> bool {
    rat_finite(a) && rat_finite(b) && a.num * b.den <= b.num * a.den
}

/// The strict order on fractions.
pub open spec fn rat_lt(a: Rat, b: Rat) -> bool {
    rat_finite(a) && rat_finite(b) && a.num * b.den < b.num * a.den
}

/// The exact difference `a - b`.
pub open spec fn rat_sub(a: Rat, b: Rat) -> Rat {
    if !rat_finite(a) || !rat_finite(b) {
        rat_nan()
    } else {
        rat_norm(a.num * b.den - b.num * a.den, a.den * b.den)
    }
}

/// The exact sum `a + b`.
pub open spec fn rat_add(a: Rat, b: Rat) -> Rat {
    if !rat_finite(a) || !rat_finite(b) {
        rat_nan()
    } else {
        rat_norm(a.num * b.den + b.num * a.den, a.den * b.den)
    }
}

/// The exact product `a * b`.
pub open spec fn rat_mul(a: Rat, b: Rat) -> Rat {
    if !rat_finite(a) || !rat_finite(b) {
        rat_nan()
    } else {
        rat_norm(a.num * b.num, a.den * b.den)
    }
}

/// The exact quotient `a / b`; undefined when `b` is zero.
pub open spec fn rat_div(a: Rat, b: Rat) -> Rat {
    if !rat_finite(a) || !rat_finite(b) || b.num == 0 {
        rat_nan()
    } else if b.num > 0 {
        rat_norm(a.num * b.den, a.den * b.num)
    } else {
        rat_norm(-(a.num * b.den), -(a.den * b.num))
    }
}

/// What [`Rat::new`] builds from a raw numerator and denominator.
pub open spec fn rat_new_spec(num: int, den: int) -> Rat {
    if den == 0 {
        rat_nan()
    } else if den < 0 {
        rat_norm(-num, -den)
    } else {
        rat_norm(num, den)
    }
}

/// A product of values from the 64-bit window stays in the squared window.
proof fn lemma_mul_window(x: int, y: int, m: int)
    by (nonlinear_arith)
    requires
        0 <= m,
        -m <= x <= m,
        -m <= y <= m,
    ensures
        -(m * m) <= x * y <= m * m,
{
}

/// A product of positive values is positive.
proof fn lemma_den_product(x: int, y: int)
    by (nonlinear_arith)
    requires
        1 <= x,
        1 <= y,
    ensures
        1 <= x * y,
{
}

/// A product of a positive value and a negative value is negative.
proof fn lemma_mixed_product(x: int, y: int)
    by (nonlinear_arith)
    requires
        1 <= x,
        y <= -1,
    ensures
        x * y <= -1,
{
}

/// Exec counterpart of [`rat_norm`], on exact 128-bit parts.
fn norm_parts(n: i128, d: i128) -> (r: Rat)
    requires
        1 <= d,
    ensures
        r == rat_norm(n as int, d as int),
{
    if n == 0 {
        Rat { num: 0, den: 1 }
    } else if n == d {
        Rat { num: 1, den: 1 }
    } else if -(i64::MAX as i128) <= n && n <= i64::MAX as i128 && d <= i64::MAX as i128 {
        Rat { num: n as i64, den: d as i64 }
    } else {
        Rat { num: 0, den: 0 }
    }
}

impl Rat {
    /// Build the fraction `num / den`.
    ///
    /// The sign is moved to the numerator, zero and one take their canonical
    /// shapes, and a zero denominator gives the undefined value.  The
    /// fraction is not reduced.
    pub fn new(num: i64, den: i64) -> (r: Rat)
        ensures
            r == rat_new_spec(num as int, den as int),
    {
        if den == 0 {
            Rat { num: 0, den: 0 }
        } else if den < 0 {
            let n: i128 = -(num as i128);
            let d: i128 = -(den as i128);
            norm_parts(n, d)
        } else {
            norm_parts(num as i128, den as i128)
        }
    }

    /// The fraction `i / 1`.
    pub fn from_int(i: i64) -> (r: Rat)
        ensures
            r == rat_new_spec(i as int, 1),
    {
        Rat::new(i, 1)
    }

    /// The canonical zero.
    pub fn zero() -> (r: Rat)
        ensures
            r == rat_zero(),
    {
        Rat { num: 0, den: 1 }
    }

    /// The canonical one.
    pub fn one() -> (r: Rat)
        ensures
            r == rat_one(),
    {
        Rat { num: 1, den: 1 }
    }

    /// The exact sum `self + other`.
    pub fn add(&self, other: &Rat) -> (r: Rat)
        ensures
            r == rat_add(*self, *other),
    {
        if !self.is_finite() || !other.is_finite() {
            return Rat { num: 0, den: 0 };
        }
        let an: i128 = self.num as i128;
        let ad: i128 = self.den as i128;
        let bn: i128 = other.num as i128;
        let bd: i128 = other.den as i128;
        proof {
            lemma_mul_window(an as int, bd as int, i64::MAX as int);
            lemma_mul_window(bn as int, ad as int, i64::MAX as int);
            lemma_mul_window(ad as int, bd as int, i64::MAX as int);
            lemma_den_product(ad as int, bd as int);
        }
        let n: i128 = an * bd + bn * ad;
        let d: i128 = ad * bd;
        norm_parts(n, d)
    }

    /// The exact product `self * other`.
    pub fn mul(&self, other: &Rat) -> (r: Rat)
        ensures
            r == rat_mul(*self, *other),
    {
        if !self.is_finite() || !other.is_finite() {
            return Rat { num: 0, den: 0 };
        }
        let an: i128 = self.num as i128;
        let ad: i128 = self.den as i128;
        let bn: i128 = other.num as i128;
        let bd: i128 = other.den as i128;
        proof {
            lemma_mul_window(an as int, bn as int, i64::MAX as int);
            lemma_mul_window(ad as int, bd as int, i64::MAX as int);
            lemma_den_product(ad as int, bd as int);
        }
        let n: i128 = an * bn;
        let d: i128 = ad * bd;
        norm_parts(n, d)
    }
}

impl Scalar for Rat {
    open spec fn le_spec(a: Rat, b: Rat) -> bool {
        rat_le(a, b)
    }

    open spec fn lt_spec(a: Rat, b: Rat) -> bool {
        rat_lt(a, b)
    }

    open spec fn sub_spec(a: Rat, b: Rat) -> Rat {
        rat_sub(a, b)
    }

    open spec fn div_spec(a: Rat, b: Rat) -> Rat {
        rat_div(a, b)
    }

    open spec fn finite_spec(a: Rat) -> bool {
        rat_finite(a)
    }

    open spec fn comparable_spec(a: Rat) -> bool {
        rat_finite(a)
    }

    open spec fn zero_spec() -> Rat {
        rat_zero()
    }

    open spec fn one_spec() -> Rat {
        rat_one()
    }

    fn le(&self, other: &Rat) -> (r: bool) {
        if !self.is_finite() || !other.is_finite() {
            return false;
        }
        let an: i128 = self.num as i128;
        let ad: i128 = self.den as i128;
        let bn: i128 = other.num as i128;
        let bd: i128 = other.den as i128;
        proof {
            lemma_mul_window(an as int, bd as int, i64::MAX as int);
            lemma_mul_window(bn as int, ad as int, i64::MAX as int);
        }
        an * bd <= bn * ad
    }

    fn lt(&self, other: &Rat) -> (r: bool) {
        if !self.is_finite() || !other.is_finite() {
            return false;
        }
        let an: i128 = self.num as i128;
        let ad: i128 = self.den as i128;
        let bn: i128 = other.num as i128;
        let bd: i128 = other.den as i128;
        proof {
            lemma_mul_window(an as int, bd as int, i64::MAX as int);
            lemma_mul_window(bn as int, ad as int, i64::MAX as int);
        }
        an * bd < bn * ad
    }

    fn sub(&self, other: &Rat) -> (r: Rat) {
        if !self.is_finite() || !other.is_finite() {
            return Rat { num: 0, den: 0 };
        }
        let an: i128 = self.num as i128;
        let ad: i128 = self.den as i128;
        let bn: i128 = other.num as i128;
        let bd: i128 = other.den as i128;
        proof {
            lemma_mul_window(an as int, bd as int, i64::MAX as int);
            lemma_mul_window(bn as int, ad as int, i64::MAX as int);
            lemma_mul_window(ad as int, bd as int, i64::MAX as int);
            lemma_den_product(ad as int, bd as int);
        }
        let n: i128 = an * bd - bn * ad;
        let d: i128 = ad * bd;
        norm_parts(n, d)
    }

    fn div(&self, other: &Rat) -> (r: Rat) {
        if !self.is_finite() || !other.is_finite() {
            return Rat { num: 0, den: 0 };
        }
        if other.num == 0 {
            return Rat { num: 0, den: 0 };
        }
        let an: i128 = self.num as i128;
        let ad: i128 = self.den as i128;
        let bn: i128 = other.num as i128;
        let bd: i128 = other.den as i128;
        proof {
            lemma_mul_window(an as int, bd as int, i64::MAX as int);
            lemma_mul_window(ad as int, bn as int, i64::MAX as int);
            if other.num >= 1 {
                lemma_den_product(ad as int, bn as int);
            } else {
                lemma_mixed_product(ad as int, bn as int);
            }
        }
        let n0: i128 = an * bd;
        let d0: i128 = ad * bn;
        if d0 < 0 {
            norm_parts(-n0, -d0)
        } else {
            norm_parts(n0, d0)
        }
    }

    fn is_finite(&self) -> (r: bool) {
        self.den >= 1 && self.num > i64::MIN && (self.num != 0 || self.den == 1) && (self.num
            != self.den || self.den == 1)
    }

    fn is_comparable(&self) -> (r: bool) {
        self.is_finite()
    }

    proof fn lemma_le_trans(a: Rat, b: Rat, c: Rat) {
        assert(a.num * c.den <= c.num * a.den) by (nonlinear_arith)
            requires
                a.num * b.den <= b.num * a.den,
                b.num * c.den <= c.num * b.den,
                a.den >= 1,
                b.den >= 1,
                c.den >= 1,
        ;
    }

    proof fn lemma_le_total(a: Rat, b: Rat) {
    }

    proof fn lemma_lt_iff(a: Rat, b: Rat) {
    }

    proof fn lemma_finite_comparable(a: Rat) {
    }

    proof fn lemma_zero_one() {
    }

    proof fn lemma_sub_same(a: Rat) {
        lemma_den_product(a.den as int, a.den as int);
    }

    proof fn lemma_sub_zero(a: Rat) {
    }

    proof fn lemma_sub_pos(a: Rat, b: Rat) {
        lemma_den_product(a.den as int, b.den as int);
    }

    proof fn lemma_div_one(a: Rat) {
    }

    proof fn lemma_div_zero(b: Rat) {
    }

    proof fn lemma_div_self(a: Rat) {
        assert(a.num * a.den == a.den * a.num) by (nonlinear_arith);
        lemma_den_product(a.den as int, a.num as int);
    }
}

impl Interpolate<Rat> for Rat {
    open spec fn interp_spec(a: Rat, b: Rat, t: Rat) -> Rat {
        if t == rat_zero() {
            a
        } else if t == rat_one() {
            b
        } else {
            rat_add(rat_mul(a, rat_sub(rat_one(), t)), rat_mul(b, t))
        }
    }

    fn interpolate(&self, other: &Rat, t: Rat) -> (r: Rat) {
        if t.num == 0 && t.den == 1 {
            *self
        } else if t.num == 1 && t.den == 1 {
            *other
        } else {
            let one: Rat = Rat::one();
            let w: Rat = one.sub(&t);
            self.mul(&w).add(&other.mul(&t))
        }
    }

    proof fn lemma_interp_zero(a: Rat, b: Rat) {
    }

    proof fn lemma_interp_one(a: Rat, b: Rat) {
    }
}

} // verus!
