use vstd::prelude::*;

verus! {

/// An exact non-negative rational number `num / den`.
///
/// Aggregates (means, medians, ratios) and thresholds are compared as
/// rationals, so a comparison never suffers from rounding.
#[derive(Clone, Copy, Debug)]
pub struct Rational {
    pub num: u128,
    pub den: u64,
}

impl Rational {
    /// A rational is well formed when its denominator is positive.
    pub open spec fn wf(self) -> bool {
        self.den > 0
    }

    /// `self >= other`, by cross multiplication over the integers.
    pub open spec fn ge_spec(self, other: Rational) -> bool {
        self.num * other.den >= other.num * self.den
    }

    /// `self == other` as rational numbers.
    pub open spec fn same_value(self, other: Rational) -> bool {
        self.num * other.den == other.num * self.den
    }

    pub fn new(num: u128, den: u64) -> (r: Rational)
        requires
            den > 0,
        ensures
            r.wf(),
            r.num == num,
            r.den == den,
    {
        Rational { num, den }
    }

    /// The integer `n` as a rational.
    pub fn from_int(n: u128) -> (r: Rational)
        ensures
            r.wf(),
            r.num == n,
            r.den == 1,
    {
        Rational { num: n, den: 1 }
    }

    /// The defined value of an aggregate over an empty collection.
    pub fn zero() -> (r: Rational)
        ensures
            r.wf(),
            r.num == 0,
            r.den == 1,
    {
        Rational { num: 0, den: 1 }
    }

    /// Exact `self >= other`. Integer parts are compared first, so no
    /// intermediate product exceeds the machine width.
    pub fn at_least(&self, other: &Rational) -> (r: bool)
        requires
            self.wf(),
            other.wf(),
        ensures
            r == self.ge_spec(*other),
    {
        let q1 = self.num / (self.den as u128);
        let r1 = self.num % (self.den as u128);
        let q2 = other.num / (other.den as u128);
        let r2 = other.num % (other.den as u128);
        proof {
            lemma_split_compare(
                self.num as int,
                self.den as int,
                other.num as int,
                other.den as int,
                q1 as int,
                r1 as int,
                q2 as int,
                r2 as int,
            );
            lemma_product_fits(r1 as int, self.den as int, other.den as int);
            lemma_product_fits(r2 as int, other.den as int, self.den as int);
        }
        if q1 != q2 {
            q1 > q2
        } else {
            r1 * (other.den as u128) >= r2 * (self.den as u128)
        }
    }

    /// Exact equality of the two rational values.
    pub fn equals(&self, other: &Rational) -> (r: bool)
        requires
            self.wf(),
            other.wf(),
        ensures
            r == self.same_value(*other),
    {
        self.at_least(other) && other.at_least(self)
    }
}

proof fn lemma_product_fits(r: int, d1: int, d2: int)
    requires
        0 <= r < d1,
        0 < d1 <= u64::MAX,
        0 < d2 <= u64::MAX,
    ensures
        0 <= r * d2 < u128::MAX,
{
    assert(0 <= r * d2 < u128::MAX) by (nonlinear_arith)
        requires
            0 <= r < d1,
            d1 <= u64::MAX,
            0 < d2 <= u64::MAX,
    ;
}

/// Comparing `n1 / d1` with `n2 / d2` by integer part, then by remainder,
/// agrees with cross multiplication.
proof fn lemma_split_compare(
    n1: int,
    d1: int,
    n2: int,
    d2: int,
    q1: int,
    r1: int,
    q2: int,
    r2: int,
)
    requires
        n1 >= 0,
        n2 >= 0,
        d1 > 0,
        d2 > 0,
        q1 == n1 / d1,
        r1 == n1 % d1,
        q2 == n2 / d2,
        r2 == n2 % d2,
    ensures
        q1 > q2 ==> n1 * d2 >= n2 * d1,
        q1 < q2 ==> !(n1 * d2 >= n2 * d1),
        q1 == q2 ==> (n1 * d2 >= n2 * d1 <==> r1 * d2 >= r2 * d1),
{
    assert(n1 == q1 * d1 + r1 && 0 <= r1 < d1) by (nonlinear_arith)
        requires
            d1 > 0,
            q1 == n1 / d1,
            r1 == n1 % d1,
    ;
    assert(n2 == q2 * d2 + r2 && 0 <= r2 < d2) by (nonlinear_arith)
        requires
            d2 > 0,
            q2 == n2 / d2,
            r2 == n2 % d2,
    ;
    assert(n1 * d2 - n2 * d1 == (q1 - q2) * d1 * d2 + r1 * d2 - r2 * d1) by (nonlinear_arith)
        requires
            n1 == q1 * d1 + r1,
            n2 == q2 * d2 + r2,
    ;
    assert(r2 * d1 < d1 * d2 && r1 * d2 < d1 * d2 && r1 * d2 >= 0 && r2 * d1 >= 0)
        by (nonlinear_arith)
        requires
            0 <= r1 < d1,
            0 <= r2 < d2,
            d1 > 0,
            d2 > 0,
    ;
    if q1 > q2 {
        assert((q1 - q2) * d1 * d2 >= d1 * d2) by (nonlinear_arith)
            requires
                q1 - q2 >= 1,
                d1 > 0,
                d2 > 0,
        ;
    }
    if q1 < q2 {
        assert((q1 - q2) * d1 * d2 <= -(d1 * d2)) by (nonlinear_arith)
            requires
                q1 - q2 <= -1,
                d1 > 0,
                d2 > 0,
        ;
    }
    if q1 == q2 {
        assert((q1 - q2) * d1 * d2 == 0) by (nonlinear_arith)
            requires
                q1 == q2,
        ;
    }
}

} // verus!
