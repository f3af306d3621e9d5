//! Exact rational numbers used as grouping keys.
//!
//! Two points lie on the same diagonal exactly when their x-intercepts are
//! equal as rational values, so the key type must compare exactly; binary
//! floating point would falsely split or merge groups.

use vstd::prelude::*;

verus! {

/// `an / ad` and `bn / bd` are the same rational value.
///
/// Cross-multiplication; meaningful only for non-zero denominators.
pub open spec fn frac_eq(an: int, ad: int, bn: int, bd: int) -> bool {
    an * bd == bn * ad
}

/// `an / ad` is strictly below `bn / bd`, for positive denominators.
pub open spec fn frac_lt(an: int, ad: int, bn: int, bd: int) -> bool {
    an * bd < bn * ad
}

/// Equality of rational values is transitive as long as the middle
/// denominator is non-zero.
pub proof fn lemma_frac_eq_trans(an: int, ad: int, bn: int, bd: int, cn: int, cd: int)
    requires
        bd != 0,
        frac_eq(an, ad, bn, bd),
        frac_eq(bn, bd, cn, cd),
    ensures
        frac_eq(an, ad, cn, cd),
{
    assert((an * cd) * bd == (cn * ad) * bd) by (nonlinear_arith)
        requires
            an * bd == bn * ad,
            bn * cd == cn * bd,
    ;
    lemma_mul_cancel(an * cd, cn * ad, bd);
}

/// Strict order on rational values is transitive, for positive denominators.
pub proof fn lemma_frac_lt_trans(an: int, ad: int, bn: int, bd: int, cn: int, cd: int)
    requires
        ad > 0,
        bd > 0,
        cd > 0,
        frac_lt(an, ad, bn, bd),
        frac_lt(bn, bd, cn, cd),
    ensures
        frac_lt(an, ad, cn, cd),
{
    assert((an * cd) * bd < (cn * ad) * bd) by (nonlinear_arith)
        requires
            ad > 0,
            bd > 0,
            cd > 0,
            an * bd < bn * ad,
            bn * cd < cn * bd,
    ;
    assert(an * cd < cn * ad) by (nonlinear_arith)
        requires
            bd > 0,
            (an * cd) * bd < (cn * ad) * bd,
    ;
}

/// Multiplication by a non-zero factor can be cancelled.
pub proof fn lemma_mul_cancel(a: int, b: int, c: int)
    requires
        c != 0,
        a * c == b * c,
    ensures
        a == b,
{
    assert(a == b) by (nonlinear_arith)
        requires
            c != 0,
            a * c == b * c,
    ;
}

/// An exact rational number `num / den` with a positive denominator.
///
/// Values are not reduced to lowest terms: equality of values is
/// [`Rational::eq_val`] (cross-multiplication), not structural equality.
#[derive(Clone, Copy, Debug, PartialEq, Eq, Structural)]
pub struct Rational {
    pub num: i64,
    pub den: i64,
}

impl Rational {
    /// The denominator is positive.
    pub open spec fn wf(self) -> bool {
        self.den > 0
    }

    /// `self` and `other` are the same rational value.
    pub open spec fn eq_val(self, other: Rational) -> bool {
        frac_eq(self.num as int, self.den as int, other.num as int, other.den as int)
    }

    /// `self` is strictly below `other` as a rational value.
    pub open spec fn lt_val(self, other: Rational) -> bool {
        frac_lt(self.num as int, self.den as int, other.num as int, other.den as int)
    }

    /// The whole number `i`, as a rational.
    pub fn from_int(i: i64) -> (r: Rational)
        ensures
            r.wf(),
            r.num == i,
            r.den == 1,
    {
        Rational { num: i, den: 1 }
    }

    /// Builds `num / den`, normalising the sign into the numerator.
    ///
    /// Fails on a zero denominator, and on the two negative denominators
    /// whose normalisation does not fit the field type.
    pub fn new(num: i64, den: i64) -> (r: Option<Rational>)
        ensures
            r is Some <==> (den > 0 || (den < 0 && num > i64::MIN && den > i64::MIN)),
            match r {
                Some(q) => {
                    &&& q.wf()
                    &&& frac_eq(q.num as int, q.den as int, num as int, den as int)
                },
                None => true,
            },
    {
        if den > 0 {
            Some(Rational { num, den })
        } else if den < 0 && num > i64::MIN && den > i64::MIN {
            let q = Rational { num: -num, den: -den };
            proof {
                assert((-num as int) * (den as int) == (num as int) * (-den as int))
                    by (nonlinear_arith);
            }
            Some(q)
        } else {
            None
        }
    }

    /// Exact strict comparison of values, by cross-multiplication in a
    /// wider integer type.
    pub fn lt(&self, other: &Rational) -> (r: bool)
        requires
            self.wf(),
            other.wf(),
        ensures
            r == self.lt_val(*other),
    {
        let a = mul_wide(self.num, other.den);
        let b = mul_wide(other.num, self.den);
        a < b
    }

    /// Exact equality of values, by cross-multiplication in a wider
    /// integer type.
    pub fn eq_rat(&self, other: &Rational) -> (r: bool)
        requires
            self.wf(),
            other.wf(),
        ensures
            r == self.eq_val(*other),
    {
        let a = mul_wide(self.num, other.den);
        let b = mul_wide(other.num, self.den);
        a == b
    }
}

/// The product of two 64-bit values, computed exactly in 128 bits.
pub fn mul_wide(a: i64, b: i64) -> (r: i128)
    ensures
        r == a as int * b as int,
{
    proof {
        lemma_i64_mul_in_i128(a as int, b as int);
    }
    (a as i128) * (b as i128)
}

/// The product of two values in 64-bit range fits in 128 bits.
pub proof fn lemma_i64_mul_in_i128(a: int, b: int)
    requires
        i64::MIN <= a <= i64::MAX,
        i64::MIN <= b <= i64::MAX,
    ensures
        i128::MIN <= a * b <= i128::MAX,
{
    assert(i128::MIN <= a * b <= i128::MAX) by (nonlinear_arith)
        requires
            -0x8000_0000_0000_0000 <= a <= 0x7fff_ffff_ffff_ffff,
            -0x8000_0000_0000_0000 <= b <= 0x7fff_ffff_ffff_ffff,
    ;
}

} // verus!
