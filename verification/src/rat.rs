//! Exact rational numbers, used as the range type of the piecewise-linear
//! function. Interpolation needs field-like arithmetic with a zero value, and
//! rationals give it exactly, with no rounding to reason away.
use vstd::prelude::*;

verus! {

/// Mathematical model of a rational number: numerator `n` over denominator `d`.
/// A well-formed rational has `d >= 1`; equality of rationals as numbers is
/// [`rq_eq`], not equality of representations.
pub ghost struct Ratg {
    pub n: int,
    pub d: int,
}

/// A well-formed rational keeps its denominator positive.
pub open spec fn rq_wf(a: Ratg) -> bool {
    a.d >= 1
}

/// `a` and `b` denote the same number: cross products agree.
pub open spec fn rq_eq(a: Ratg, b: Ratg) -> bool {
    a.n * b.d == b.n * a.d
}

/// The additive identity.
pub open spec fn rq_zero() -> Ratg {
    Ratg { n: 0, d: 1 }
}

/// The rational denoted by the integer `x`.
pub open spec fn rq_int(x: int) -> Ratg {
    Ratg { n: x, d: 1 }
}

pub open spec fn rq_add(a: Ratg, b: Ratg) -> Ratg {
    Ratg { n: a.n * b.d + b.n * a.d, d: a.d * b.d }
}

pub open spec fn rq_sub(a: Ratg, b: Ratg) -> Ratg {
    Ratg { n: a.n * b.d - b.n * a.d, d: a.d * b.d }
}

pub open spec fn rq_mul(a: Ratg, b: Ratg) -> Ratg {
    Ratg { n: a.n * b.n, d: a.d * b.d }
}

pub open spec fn rq_div(a: Ratg, b: Ratg) -> Ratg {
    Ratg { n: a.n * b.d, d: a.d * b.n }
}

/// Bound on a product from bounds on its factors.
pub proof fn lemma_mul_bound(a: int, b: int, ma: int, mb: int) by (nonlinear_arith)
    requires
        -ma <= a <= ma,
        -mb <= b <= mb,
    ensures
        -(ma * mb) <= a * b <= ma * mb,
{
}

/// A product of positive factors is positive.
pub proof fn lemma_mul_pos(a: int, b: int) by (nonlinear_arith)
    requires
        a >= 1,
        b >= 1,
    ensures
        a * b >= 1,
{
}

/// An exact rational range value: a numerator over a positive denominator.
/// Two values compare equal when they denote the same number, whatever their
/// representations.
#[derive(Clone, Copy, Debug)]
pub struct Rat {
    n: i64,
    d: i64,
}

impl View for Rat {
    type V = Ratg;

    closed spec fn view(&self) -> Ratg {
        Ratg { n: self.n as int, d: self.d as int }
    }
}

impl Rat {
    pub open spec fn wf(self) -> bool {
        rq_wf(self@)
    }

    /// The rational `num / den`.
    pub fn new(num: i64, den: i64) -> (r: Rat)
        requires
            den >= 1,
        ensures
            r@ == (Ratg { n: num as int, d: den as int }),
            r.wf(),
    {
        Rat { n: num, d: den }
    }

    /// The rational denoted by the integer `num`.
    pub fn from_int(num: i64) -> (r: Rat)
        ensures
            r@ == rq_int(num as int),
            r.wf(),
    {
        Rat { n: num, d: 1 }
    }

    /// The additive identity.
    pub fn zero() -> (r: Rat)
        ensures
            r@ == rq_zero(),
            r.wf(),
    {
        Rat { n: 0, d: 1 }
    }

    pub fn num(&self) -> (r: i64)
        ensures
            r as int == self@.n,
    {
        self.n
    }

    pub fn den(&self) -> (r: i64)
        ensures
            r as int == self@.d,
    {
        self.d
    }
}

impl PartialEq for Rat {
    fn eq(&self, other: &Rat) -> (r: bool) {
        proof {
            lemma_mul_bound(
                self.n as int,
                other.d as int,
                0x8000_0000_0000_0000,
                0x8000_0000_0000_0000,
            );
            lemma_mul_bound(
                other.n as int,
                self.d as int,
                0x8000_0000_0000_0000,
                0x8000_0000_0000_0000,
            );
        }
        (self.n as i128) * (other.d as i128) == (other.n as i128) * (self.d as i128)
    }
}

impl vstd::std_specs::cmp::PartialEqSpecImpl for Rat {
    open spec fn obeys_eq_spec() -> bool {
        true
    }

    open spec fn eq_spec(&self, other: &Rat) -> bool {
        rq_eq(self@, other@)
    }
}

} // verus!
