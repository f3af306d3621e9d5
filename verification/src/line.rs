//! The line of a given slope through a point, and its intercepts.

use vstd::prelude::*;
use crate::point::Point;
use crate::rational::{frac_eq, Rational};

verus! {

/// The numerator of the x-intercept of the line of slope `s` through `p`,
/// over the denominator `s.num`: the line `y = s·x + b` through `p` crosses
/// `y = 0` at `x = (s.num·p.x - s.den·p.y) / s.num`.
pub open spec fn xint_num<T>(p: Point<T>, s: Rational) -> int {
    s.num * p.x - s.den * p.y
}

/// The numerator of the y-intercept of the line of slope `s` through `p`,
/// over the denominator `s.den`: `b = p.y - s·p.x = (s.den·p.y - s.num·p.x) / s.den`.
pub open spec fn yint_num<T>(p: Point<T>, s: Rational) -> int {
    s.den * p.y - s.num * p.x
}

/// The x-intercept's numerator once the sign of the denominator `s.num`
/// has been moved into it.
pub open spec fn norm_xint_num<T>(p: Point<T>, s: Rational) -> int {
    if s.num > 0 {
        xint_num(p, s)
    } else {
        -xint_num(p, s)
    }
}

/// The x-intercept's denominator made positive.
pub open spec fn norm_xint_den(s: Rational) -> int {
    if s.num > 0 {
        s.num as int
    } else {
        -(s.num as int)
    }
}

/// The normalised x-intercept of the line of slope `s` through `p` is
/// representable in the key type's fields.
pub open spec fn xint_fits<T>(p: Point<T>, s: Rational) -> bool {
    &&& i64::MIN <= norm_xint_num(p, s) <= i64::MAX
    &&& norm_xint_den(s) <= i64::MAX
}

/// The y-intercept of the line of slope `s` through `p` is representable.
pub open spec fn yint_fits<T>(p: Point<T>, s: Rational) -> bool {
    i64::MIN <= yint_num(p, s) <= i64::MAX
}

/// `key` is the x-intercept of the line of slope `s` through `p`: the
/// point lies on the diagonal identified by `key`.
pub open spec fn on_diagonal<T>(p: Point<T>, s: Rational, key: Rational) -> bool {
    frac_eq(key.num as int, key.den as int, xint_num(p, s), s.num as int)
}

/// A point considered together with a line of fixed non-zero slope
/// through it, the association under which its intercepts are computed.
#[derive(Debug)]
pub struct PointOnLineWithSlope<T> {
    pub point: Point<T>,
    pub slope: Rational,
}

impl<T> PointOnLineWithSlope<T> {
    /// The slope is a well-formed, non-zero rational.
    pub open spec fn wf(self) -> bool {
        &&& self.slope.wf()
        &&& self.slope.num != 0
    }

    /// Associates `point` with the line of slope `slope` through it.
    pub fn with_slope_from_point(slope: Rational, point: Point<T>) -> (r: Self)
        requires
            slope.wf(),
            slope.num != 0,
        ensures
            r.point == point,
            r.slope == slope,
            r.wf(),
    {
        Self { slope, point }
    }

    /// The x-intercept of the line, as an exact rational with a positive
    /// denominator; fails exactly when that rational's normalised form
    /// does not fit the key type.
    pub fn x_intercept(&self) -> (r: Option<Rational>)
        requires
            self.wf(),
        ensures
            r is Some <==> xint_fits(self.point, self.slope),
            match r {
                Some(k) => {
                    &&& k.wf()
                    &&& k.num as int == norm_xint_num(self.point, self.slope)
                    &&& k.den as int == norm_xint_den(self.slope)
                    &&& on_diagonal(self.point, self.slope, k)
                },
                None => true,
            },
    {
        let px = mul_slope_coord(self.slope.num, self.point.x);
        let qy = mul_slope_coord(self.slope.den, self.point.y);
        proof {
            assert(qy >= 0) by (nonlinear_arith)
                requires
                    qy == self.slope.den as int * self.point.y as int,
                    self.slope.den > 0,
                    self.point.y >= 0,
            ;
        }
        if px < i128::MIN + qy {
            // the difference would not even fit the wide type, let alone a key
            return None;
        }
        let diff = px - qy;
        if self.slope.num > 0 {
            if diff < i64::MIN as i128 || diff > i64::MAX as i128 {
                None
            } else {
                let k = Rational { num: diff as i64, den: self.slope.num };
                proof {
                    lemma_normalised_on_diagonal(self.point, self.slope, k);
                }
                Some(k)
            }
        } else {
            if diff == i128::MIN || self.slope.num == i64::MIN {
                return None;
            }
            let nn = -diff;
            if nn < i64::MIN as i128 || nn > i64::MAX as i128 {
                None
            } else {
                let k = Rational { num: nn as i64, den: -self.slope.num };
                proof {
                    lemma_normalised_on_diagonal(self.point, self.slope, k);
                }
                Some(k)
            }
        }
    }

    /// The y-intercept of the line, as an exact rational with a positive
    /// denominator; fails exactly when its numerator does not fit the key
    /// type.
    pub fn y_intercept(&self) -> (r: Option<Rational>)
        requires
            self.wf(),
        ensures
            r is Some <==> yint_fits(self.point, self.slope),
            match r {
                Some(b) => {
                    &&& b.wf()
                    &&& b.num as int == yint_num(self.point, self.slope)
                    &&& b.den == self.slope.den
                },
                None => true,
            },
    {
        let px = mul_slope_coord(self.slope.num, self.point.x);
        let qy = mul_slope_coord(self.slope.den, self.point.y);
        if px < 0 && qy > i128::MAX + px {
            return None;
        }
        let diff = qy - px;
        proof {
            assert(qy >= 0) by (nonlinear_arith)
                requires
                    qy == self.slope.den as int * self.point.y as int,
                    self.slope.den > 0,
                    self.point.y >= 0,
            ;
        }
        if diff < i64::MIN as i128 || diff > i64::MAX as i128 {
            None
        } else {
            Some(Rational { num: diff as i64, den: self.slope.den })
        }
    }
}

/// The product of a slope component and a coordinate, exact in 128 bits.
fn mul_slope_coord(a: i64, b: usize) -> (r: i128)
    ensures
        r == a as int * b as int,
{
    proof {
        assert(i128::MIN <= a as int * b as int <= i128::MAX) by (nonlinear_arith)
            requires
                -0x8000_0000_0000_0000 <= a as int <= 0x7fff_ffff_ffff_ffff,
                0 <= b as int <= 0xffff_ffff_ffff_ffff,
        ;
    }
    (a as i128) * (b as i128)
}

/// The normalised intercept names the same rational value as the raw one,
/// whichever sign the slope's numerator has.
proof fn lemma_normalised_on_diagonal<T>(p: Point<T>, s: Rational, k: Rational)
    requires
        s.num != 0,
        k.num as int == norm_xint_num(p, s),
        k.den as int == norm_xint_den(s),
    ensures
        on_diagonal(p, s, k),
{
    if s.num > 0 {
        assert(k.num as int * s.num as int == xint_num(p, s) * k.den as int);
    } else {
        assert((-xint_num(p, s)) * s.num as int == xint_num(p, s) * (-(s.num as int)))
            by (nonlinear_arith);
    }
}

} // verus!
