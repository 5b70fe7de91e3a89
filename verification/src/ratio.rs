use vstd::prelude::*;
use core::cmp::Ordering;
use vstd::arithmetic::div_mod::lemma_fundamental_div_mod;

verus! {

/// The mathematical value of a score: a non-negative fraction of two
/// unbounded integers. Scores are exact rationals here; every similarity
/// ratio is of the form L*L / (m*n) and every composite score is a weighted
/// sum of two such ratios, so no rounding is ever needed.
pub struct Frac {
    pub num: int,
    pub den: int,
}

/// A fraction is well formed when its denominator is positive and its
/// numerator non-negative; all scores in this crate are such fractions.
pub open spec fn frac_wf(f: Frac) -> bool {
    f.den >= 1 && f.num >= 0
}

pub open spec fn frac_zero() -> Frac {
    Frac { num: 0, den: 1 }
}

pub open spec fn frac_one() -> Frac {
    Frac { num: 1, den: 1 }
}

/// a/b < c/d, by cross multiplication (valid for positive denominators).
pub open spec fn frac_lt(a: Frac, b: Frac) -> bool {
    a.num * b.den < b.num * a.den
}

/// a/b and c/d denote the same rational number.
pub open spec fn frac_eq(a: Frac, b: Frac) -> bool {
    a.num * b.den == b.num * a.den
}

pub open spec fn frac_add(a: Frac, b: Frac) -> Frac {
    Frac { num: a.num * b.den + b.num * a.den, den: a.den * b.den }
}

pub open spec fn frac_mul(a: Frac, b: Frac) -> Frac {
    Frac { num: a.num * b.num, den: a.den * b.den }
}

/// An exact non-negative rational with 128-bit numerator and denominator.
/// Replaces floating point throughout the scoring pipeline.
#[derive(Clone, Copy)]
pub struct Ratio {
    pub num: u128,
    pub den: u128,
}

impl View for Ratio {
    type V = Frac;

    open spec fn view(&self) -> Frac {
        Frac { num: self.num as int, den: self.den as int }
    }
}

proof fn lemma_cross_when_quotients_differ(
    a: int,
    b: int,
    c: int,
    d: int,
    q1: int,
    r1: int,
    q2: int,
    r2: int,
)
    by (nonlinear_arith)
    requires
        b >= 1,
        d >= 1,
        a == q1 * b + r1,
        0 <= r1 < b,
        c == q2 * d + r2,
        0 <= r2 < d,
        q1 < q2,
    ensures
        a * d < c * b,
{
}

proof fn lemma_cross_when_quotients_agree(
    a: int,
    b: int,
    c: int,
    d: int,
    q: int,
    r1: int,
    r2: int,
)
    by (nonlinear_arith)
    requires
        a == q * b + r1,
        c == q * d + r2,
    ensures
        a * d - c * b == r1 * d - r2 * b,
{
}

proof fn lemma_cross_ge_trans(an: int, ad: int, bn: int, bd: int, cn: int, cd: int)
    by (nonlinear_arith)
    requires
        ad >= 1,
        bd >= 1,
        cd >= 1,
        an * bd >= bn * ad,
        bn * cd >= cn * bd,
    ensures
        an * cd >= cn * ad,
{
}

/// Not-below is transitive: a value at least b, when b is at least c, is
/// itself at least c. This is what lets a descending list extend.
pub proof fn lemma_frac_ge_trans(a: Frac, b: Frac, c: Frac)
    requires
        frac_wf(a),
        frac_wf(b),
        frac_wf(c),
        !frac_lt(a, b),
        !frac_lt(b, c),
    ensures
        !frac_lt(a, c),
{
    lemma_cross_ge_trans(a.num, a.den, b.num, b.den, c.num, c.den);
}

/// Multiplying or adding well-formed fractions yields well-formed
/// fractions.
pub proof fn lemma_frac_ops_wf(a: Frac, b: Frac)
    by (nonlinear_arith)
    requires
        a.den >= 1,
        a.num >= 0,
        b.den >= 1,
        b.num >= 0,
    ensures
        frac_wf(frac_mul(a, b)),
        frac_wf(frac_add(a, b)),
{
}

proof fn lemma_cross_mul_strict_mono(pn: int, pd: int, an: int, ad: int, bn: int, bd: int)
    by (nonlinear_arith)
    requires
        pn >= 1,
        pd >= 1,
        ad >= 1,
        bd >= 1,
        an * bd < bn * ad,
    ensures
        (pn * an) * (pd * bd) < (pn * bn) * (pd * ad),
{
}

proof fn lemma_cross_add_strict_mono(an: int, ad: int, xn: int, xd: int, yn: int, yd: int)
    by (nonlinear_arith)
    requires
        ad >= 1,
        xd >= 1,
        yd >= 1,
        xn * yd < yn * xd,
    ensures
        (an * xd + xn * ad) * (ad * yd) < (an * yd + yn * ad) * (ad * xd),
{
}

/// Scaling by a strictly positive weight preserves strict order.
pub proof fn lemma_frac_mul_strict_mono(p: Frac, a: Frac, b: Frac)
    requires
        frac_wf(p),
        frac_wf(a),
        frac_wf(b),
        p.num >= 1,
        frac_lt(a, b),
    ensures
        frac_lt(frac_mul(p, a), frac_mul(p, b)),
{
    lemma_cross_mul_strict_mono(p.num, p.den, a.num, a.den, b.num, b.den);
}

/// Adding the same fraction on the left preserves strict order.
pub proof fn lemma_frac_add_strict_mono(a: Frac, x: Frac, y: Frac)
    requires
        frac_wf(a),
        frac_wf(x),
        frac_wf(y),
        frac_lt(x, y),
    ensures
        frac_lt(frac_add(a, x), frac_add(a, y)),
{
    lemma_cross_add_strict_mono(a.num, a.den, x.num, x.den, y.num, y.den);
}

/// Three-way comparison of a/b against c/d without ever forming the cross
/// products, so it cannot overflow: it compares the integer parts, then
/// recurses on the inverted fractional parts, as in the continued-fraction
/// expansion of the two values.
fn frac_parts_cmp(a: u128, b: u128, c: u128, d: u128) -> (o: Ordering)
    requires
        b >= 1,
        d >= 1,
    ensures
        o == Ordering::Less <==> a * d < c * b,
        o == Ordering::Equal <==> a * d == c * b,
        o == Ordering::Greater <==> a * d > c * b,
    decreases b + d,
{
    let q1: u128 = a / b;
    let r1: u128 = a % b;
    let q2: u128 = c / d;
    let r2: u128 = c % d;
    proof {
        lemma_fundamental_div_mod(a as int, b as int);
        lemma_fundamental_div_mod(c as int, d as int);
    }
    if q1 < q2 {
        proof {
            lemma_cross_when_quotients_differ(
                a as int, b as int, c as int, d as int,
                q1 as int, r1 as int, q2 as int, r2 as int,
            );
        }
        Ordering::Less
    } else if q2 < q1 {
        proof {
            lemma_cross_when_quotients_differ(
                c as int, d as int, a as int, b as int,
                q2 as int, r2 as int, q1 as int, r1 as int,
            );
        }
        Ordering::Greater
    } else {
        proof {
            lemma_cross_when_quotients_agree(
                a as int, b as int, c as int, d as int,
                q1 as int, r1 as int, r2 as int,
            );
            assert((a * d < c * b) <==> (d * r1 < b * r2)) by (nonlinear_arith)
                requires a * d - c * b == r1 * d - r2 * b;
            assert((a * d == c * b) <==> (d * r1 == b * r2)) by (nonlinear_arith)
                requires a * d - c * b == r1 * d - r2 * b;
        }
        if r1 == 0 && r2 == 0 {
            assert(d * r1 == b * r2) by (nonlinear_arith)
                requires r1 == 0 && r2 == 0;
            Ordering::Equal
        } else if r1 == 0 {
            assert(d * r1 < b * r2) by (nonlinear_arith)
                requires r1 == 0 && r2 >= 1 && b >= 1;
            Ordering::Less
        } else if r2 == 0 {
            assert(b * r2 < d * r1) by (nonlinear_arith)
                requires r2 == 0 && r1 >= 1 && d >= 1;
            Ordering::Greater
        } else {
            // r1/b against r2/d is decided by d/r2 against b/r1, flipped;
            // both comparisons reduce to the sign of r1*d - r2*b.
            frac_parts_cmp(d, r2, b, r1)
        }
    }
}

impl Ratio {
    /// The exact rational num/den.
    pub fn new(num: u64, den: u64) -> (r: Ratio)
        requires
            den >= 1,
        ensures
            r@ == (Frac { num: num as int, den: den as int }),
            frac_wf(r@),
    {
        Ratio { num: num as u128, den: den as u128 }
    }

    pub fn zero() -> (r: Ratio)
        ensures
            r@ == frac_zero(),
            frac_wf(r@),
    {
        Ratio { num: 0, den: 1 }
    }

    pub fn one() -> (r: Ratio)
        ensures
            r@ == frac_one(),
            frac_wf(r@),
    {
        Ratio { num: 1, den: 1 }
    }

    /// Three-way comparison of the rational values.
    pub fn compare(&self, other: &Ratio) -> (o: Ordering)
        requires
            frac_wf(self@),
            frac_wf(other@),
        ensures
            o == Ordering::Less <==> frac_lt(self@, other@),
            o == Ordering::Equal <==> frac_eq(self@, other@),
            o == Ordering::Greater <==> frac_lt(other@, self@),
    {
        frac_parts_cmp(self.num, self.den, other.num, other.den)
    }

    pub fn lt(&self, other: &Ratio) -> (r: bool)
        requires
            frac_wf(self@),
            frac_wf(other@),
        ensures
            r == frac_lt(self@, other@),
    {
        matches!(self.compare(other), Ordering::Less)
    }

    pub fn gt(&self, other: &Ratio) -> (r: bool)
        requires
            frac_wf(self@),
            frac_wf(other@),
        ensures
            r == frac_lt(other@, self@),
    {
        matches!(self.compare(other), Ordering::Greater)
    }

    pub fn eq_value(&self, other: &Ratio) -> (r: bool)
        requires
            frac_wf(self@),
            frac_wf(other@),
        ensures
            r == frac_eq(self@, other@),
    {
        matches!(self.compare(other), Ordering::Equal)
    }

    pub fn is_zero(&self) -> (r: bool)
        requires
            frac_wf(self@),
        ensures
            r == frac_eq(self@, frac_zero()),
    {
        proof {
            assert(self.num * 1int == self.num as int) by (nonlinear_arith);
        }
        self.num == 0
    }

    pub fn add(&self, other: &Ratio) -> (r: Ratio)
        requires
            frac_wf(self@),
            frac_wf(other@),
            self.num * other.den + other.num * self.den <= u128::MAX,
            self.den * other.den <= u128::MAX,
        ensures
            r@ == frac_add(self@, other@),
            frac_wf(r@),
    {
        proof {
            assert(self.num * other.den >= 0 && other.num * self.den >= 0
                && self.den * other.den >= 1) by (nonlinear_arith)
                requires
                    self.num >= 0 && other.num >= 0 && self.den >= 1 && other.den >= 1;
        }
        Ratio {
            num: self.num * other.den + other.num * self.den,
            den: self.den * other.den,
        }
    }

    pub fn mul(&self, other: &Ratio) -> (r: Ratio)
        requires
            frac_wf(self@),
            frac_wf(other@),
            self.num * other.num <= u128::MAX,
            self.den * other.den <= u128::MAX,
        ensures
            r@ == frac_mul(self@, other@),
            frac_wf(r@),
    {
        proof {
            assert(self.num * other.num >= 0 && self.den * other.den >= 1)
                by (nonlinear_arith)
                requires
                    self.num >= 0 && other.num >= 0 && self.den >= 1 && other.den >= 1;
        }
        Ratio { num: self.num * other.num, den: self.den * other.den }
    }
}

} // verus!
