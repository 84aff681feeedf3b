//! Match scores as exact rational numbers, and their order.

use vstd::prelude::*;

verus! {

/// The value of a match score: the rational number
/// `matched / (span × length)`, where `matched` query characters were found
/// within `span` consecutive positions of a choice that is `length`
/// characters long. Zero means that the choice is excluded.
pub struct Rating {
    pub matched: nat,
    pub span: nat,
    pub length: nat,
}

impl Rating {
    /// A rating is well formed when its denominator is positive.
    pub open spec fn wf(self) -> bool {
        self.span > 0 && self.length > 0
    }

    /// The numerator of the rating.
    pub open spec fn numer(self) -> int {
        self.matched as int
    }

    /// The denominator of the rating.
    pub open spec fn denom(self) -> int {
        (self.span * self.length) as int
    }

    /// The rating is greater than zero.
    pub open spec fn is_positive(self) -> bool {
        self.matched > 0
    }

    /// `self` minus `other`, scaled by both denominators: its sign is the
    /// sign of the difference of two well-formed ratings.
    pub open spec fn cross(self, other: Rating) -> int {
        self.numer() * other.denom() - other.numer() * self.denom()
    }

    /// The rating is strictly greater than `other`.
    pub open spec fn exceeds(self, other: Rating) -> bool {
        self.cross(other) > 0
    }

    /// The rating has the same value as `other`.
    pub open spec fn ties(self, other: Rating) -> bool {
        self.cross(other) == 0
    }

    /// The rating 1: what every choice scores against the empty query.
    pub open spec fn one() -> Rating {
        Rating { matched: 1, span: 1, length: 1 }
    }

    /// The rating 0: what an excluded choice scores.
    pub open spec fn zero() -> Rating {
        Rating { matched: 0, span: 1, length: 1 }
    }
}

/// A match score, held as the three counts of its rating.
#[derive(Clone, Copy, Debug, PartialEq, Eq, Structural)]
pub struct Score {
    pub matched: usize,
    pub span: usize,
    pub length: usize,
}

impl View for Score {
    type V = Rating;

    open spec fn view(&self) -> Rating {
        Rating { matched: self.matched as nat, span: self.span as nat, length: self.length as nat }
    }
}

/// Two to the power of 64.
pub open spec fn pow64() -> int {
    0x1_0000_0000_0000_0000
}

impl Score {
    /// The score 1.
    pub fn one() -> (r: Score)
        ensures
            r@ == Rating::one(),
    {
        Score { matched: 1, span: 1, length: 1 }
    }

    /// The score 0.
    pub fn zero() -> (r: Score)
        ensures
            r@ == Rating::zero(),
    {
        Score { matched: 0, span: 1, length: 1 }
    }

    /// Whether the score is greater than zero.
    pub fn positive(&self) -> (r: bool)
        ensures
            r == self@.is_positive(),
    {
        self.matched > 0
    }

    /// Whether the score is strictly greater than `other`.
    pub fn greater_than(&self, other: &Score) -> (r: bool)
        ensures
            r == self@.exceeds(other@),
    {
        let (left_hi, left_lo) = triple_product(self.matched, other.span, other.length);
        let (right_hi, right_lo) = triple_product(other.matched, self.span, self.length);
        proof {
            lemma_mul_assoc(self.matched as int, other.span as int, other.length as int);
            lemma_mul_assoc(other.matched as int, self.span as int, self.length as int);
        }
        left_hi > right_hi || (left_hi == right_hi && left_lo > right_lo)
    }

    /// Whether the score has the same value as `other`.
    pub fn equal_to(&self, other: &Score) -> (r: bool)
        ensures
            r == self@.ties(other@),
    {
        let (left_hi, left_lo) = triple_product(self.matched, other.span, other.length);
        let (right_hi, right_lo) = triple_product(other.matched, self.span, self.length);
        proof {
            lemma_mul_assoc(self.matched as int, other.span as int, other.length as int);
            lemma_mul_assoc(other.matched as int, self.span as int, self.length as int);
        }
        left_hi == right_hi && left_lo == right_lo
    }
}

proof fn lemma_mul_assoc(a: int, b: int, c: int)
    ensures
        a * (b * c) == a * b * c,
{
    assert(a * (b * c) == a * b * c) by (nonlinear_arith);
}

/// The product of three machine words, as a high part and a low 64-bit part.
fn triple_product(a: usize, b: usize, c: usize) -> (r: (u128, u64))
    ensures
        r.0 * pow64() + r.1 == a * b * c,
{
    let base: u128 = 0x1_0000_0000_0000_0000;
    assert(a * b <= 0xFFFF_FFFF_FFFF_FFFF * 0xFFFF_FFFF_FFFF_FFFF) by (nonlinear_arith)
        requires
            0 <= a <= 0xFFFF_FFFF_FFFF_FFFF,
            0 <= b <= 0xFFFF_FFFF_FFFF_FFFF,
    ;
    let ab: u128 = (a as u128) * (b as u128);
    let ab_hi: u128 = ab / base;
    let ab_lo: u128 = ab % base;
    assert(ab_lo * c <= 0xFFFF_FFFF_FFFF_FFFF * 0xFFFF_FFFF_FFFF_FFFF) by (nonlinear_arith)
        requires
            0 <= ab_lo <= 0xFFFF_FFFF_FFFF_FFFF,
            0 <= c <= 0xFFFF_FFFF_FFFF_FFFF,
    ;
    assert(ab_hi * c <= 0xFFFF_FFFF_FFFF_FFFF * 0xFFFF_FFFF_FFFF_FFFF) by (nonlinear_arith)
        requires
            0 <= ab_hi <= 0xFFFF_FFFF_FFFF_FFFF,
            0 <= c <= 0xFFFF_FFFF_FFFF_FFFF,
    ;
    let low: u128 = ab_lo * (c as u128);
    let high: u128 = ab_hi * (c as u128);
    let hi: u128 = high + low / base;
    let lo: u64 = (low % base) as u64;
    proof {
        let p = pow64();
        let carry = (low / base) as int;
        let rest = (low % base) as int;
        assert(low == carry * p + rest);
        assert(ab == ab_hi * p + ab_lo);
        assert((high + carry) * p + rest == (a * b) * c) by (nonlinear_arith)
            requires
                a * b == ab_hi * p + ab_lo,
                carry * p + rest == ab_lo * c,
                high == ab_hi * c,
        ;
    }
    (hi, lo)
}

/// The differences of three ratings are linked through the middle one.
pub proof fn lemma_cross_chain(a: Rating, b: Rating, c: Rating)
    ensures
        a.cross(c) * b.denom() == a.cross(b) * c.denom() + b.cross(c) * a.denom(),
{
    let an = a.numer();
    let ad = a.denom();
    let bn = b.numer();
    let bd = b.denom();
    let cn = c.numer();
    let cd = c.denom();
    assert((an * cd - cn * ad) * bd == (an * bd - bn * ad) * cd + (bn * cd - cn * bd) * ad)
        by (nonlinear_arith);
}

/// The denominator of a well-formed rating is positive.
pub proof fn lemma_denom_positive(a: Rating)
    requires
        a.wf(),
    ensures
        a.denom() > 0,
{
    assert(a.span * a.length > 0) by (nonlinear_arith)
        requires
            a.span > 0,
            a.length > 0,
    ;
}

/// The order of well-formed ratings is transitive: from `a >= b` and `b >= c`
/// follows `a >= c`, strictly where one of the two is strict.
pub proof fn lemma_order_transitive(a: Rating, b: Rating, c: Rating)
    requires
        a.wf(),
        b.wf(),
        c.wf(),
        a.cross(b) >= 0,
        b.cross(c) >= 0,
    ensures
        a.cross(c) >= 0,
        a.cross(b) > 0 || b.cross(c) > 0 ==> a.cross(c) > 0,
{
    lemma_cross_chain(a, b, c);
    lemma_denom_positive(a);
    lemma_denom_positive(b);
    lemma_denom_positive(c);
    let x = a.cross(c);
    let y = a.cross(b);
    let z = b.cross(c);
    let ad = a.denom();
    let bd = b.denom();
    let cd = c.denom();
    assert(x >= 0 && (y > 0 || z > 0 ==> x > 0)) by (nonlinear_arith)
        requires
            x * bd == y * cd + z * ad,
            ad > 0,
            bd > 0,
            cd > 0,
            y >= 0,
            z >= 0,
    ;
}

} // verus!
