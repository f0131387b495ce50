use vstd::prelude::*;

verus! {

/// A non-negative rational number `num / den`, compared by value.
#[derive(Clone, Copy, Debug, PartialEq, Eq, Structural)]
pub struct Ratio {
    pub num: u64,
    pub den: u64,
}

/// Bound on the numerator of a score (see `crate::score`).
pub const SCORE_NUM_LIMIT: u64 = 0x4_0000_0000_0000;

/// Bound on the denominator of a score.
pub const SCORE_DEN_LIMIT: u64 = 0x10_0000_0000;

/// Bound on both parts of a configured threshold.
pub const THRESHOLD_LIMIT: u64 = 0xffff_ffff;

impl Ratio {
    pub open spec fn wf(self) -> bool {
        self.den > 0
    }

    /// Fits the range of the scores the library computes.
    pub open spec fn is_score(self) -> bool {
        0 < self.den < SCORE_DEN_LIMIT && self.num < SCORE_NUM_LIMIT
    }

    /// Fits the range of a configured threshold.
    pub open spec fn is_threshold(self) -> bool {
        0 < self.den <= THRESHOLD_LIMIT && self.num <= THRESHOLD_LIMIT
    }

    /// `self <= o` as rational numbers.
    pub open spec fn le_spec(self, o: Ratio) -> bool {
        self.num * o.den <= o.num * self.den
    }

    /// `self < o` as rational numbers.
    pub open spec fn lt_spec(self, o: Ratio) -> bool {
        self.num * o.den < o.num * self.den
    }

    /// `|self - o| < bias` as rational numbers.
    pub open spec fn near_spec(self, o: Ratio, bias: Ratio) -> bool {
        abs_int(self.num * o.den - o.num * self.den) * bias.den < bias.num * (self.den * o.den)
    }

    /// Compares by value: `self <= o`.
    pub fn le(&self, o: &Ratio) -> (r: bool)
        requires
            self.is_score() || self.is_threshold(),
            o.is_score() || o.is_threshold(),
        ensures
            r == self.le_spec(*o),
    {
        proof { lemma_ratio_products(*self, *o); }
        (self.num as u128) * (o.den as u128) <= (o.num as u128) * (self.den as u128)
    }

    /// Compares by value: `self < o`.
    pub fn lt(&self, o: &Ratio) -> (r: bool)
        requires
            self.is_score() || self.is_threshold(),
            o.is_score() || o.is_threshold(),
        ensures
            r == self.lt_spec(*o),
    {
        proof { lemma_ratio_products(*self, *o); }
        (self.num as u128) * (o.den as u128) < (o.num as u128) * (self.den as u128)
    }

    /// Whether two scores differ by less than `bias`.
    pub fn near(&self, o: &Ratio, bias: &Ratio) -> (r: bool)
        requires
            self.is_score(),
            o.is_score(),
            bias.is_threshold(),
        ensures
            r == self.near_spec(*o, *bias),
    {
        proof {
            assert(self.num * o.den < 0x40_0000_0000_0000_0000_0000) by (nonlinear_arith)
                requires self.num < 0x4_0000_0000_0000, o.den < 0x10_0000_0000;
            assert(o.num * self.den < 0x40_0000_0000_0000_0000_0000) by (nonlinear_arith)
                requires o.num < 0x4_0000_0000_0000, self.den < 0x10_0000_0000;
            assert(self.den * o.den < 0x100_0000_0000_0000_0000) by (nonlinear_arith)
                requires self.den < 0x10_0000_0000, o.den < 0x10_0000_0000;
        }
        let a = (self.num as u128) * (o.den as u128);
        let b = (o.num as u128) * (self.den as u128);
        let d = if a >= b { a - b } else { b - a };
        let dd = (self.den as u128) * (o.den as u128);
        proof {
            assert(d * bias.den <= 0x40_0000_0000_0000_0000_0000 * 0xffff_ffff) by (nonlinear_arith)
                requires d < 0x40_0000_0000_0000_0000_0000, bias.den <= 0xffff_ffff;
            assert(bias.num * dd <= 0xffff_ffff * 0x100_0000_0000_0000_0000) by (nonlinear_arith)
                requires dd < 0x100_0000_0000_0000_0000, bias.num <= 0xffff_ffff;
        }
        d * (bias.den as u128) < (bias.num as u128) * dd
    }
}

pub open spec fn abs_int(x: int) -> int {
    if x < 0 { -x } else { x }
}

proof fn lemma_ratio_products(a: Ratio, b: Ratio)
    requires
        a.is_score() || a.is_threshold(),
        b.is_score() || b.is_threshold(),
    ensures
        a.num * b.den < 0x10_0000_0000_0000_0000_0000_0000,
        b.num * a.den < 0x10_0000_0000_0000_0000_0000_0000,
{
    assert(a.num * b.den < 0x10_0000_0000_0000_0000_0000_0000) by (nonlinear_arith)
        requires a.num < 0x4_0000_0000_0000, b.den < 0x4_0000_0000_0000;
    assert(b.num * a.den < 0x10_0000_0000_0000_0000_0000_0000) by (nonlinear_arith)
        requires b.num < 0x4_0000_0000_0000, a.den < 0x4_0000_0000_0000;
}

/// `<=` on ratios of positive denominator is transitive.
pub proof fn lemma_le_trans(a: Ratio, b: Ratio, c: Ratio)
    requires
        a.wf(), b.wf(), c.wf(),
        a.le_spec(b),
        b.le_spec(c),
    ensures
        a.le_spec(c),
{
    assert(a.num * b.den * c.den <= b.num * a.den * c.den) by (nonlinear_arith)
        requires a.num * b.den <= b.num * a.den, c.den > 0;
    assert(b.num * c.den * a.den <= c.num * b.den * a.den) by (nonlinear_arith)
        requires b.num * c.den <= c.num * b.den, a.den > 0;
    assert(a.num * c.den <= c.num * a.den) by (nonlinear_arith)
        requires
            a.num * b.den * c.den <= b.num * a.den * c.den,
            b.num * c.den * a.den <= c.num * b.den * a.den,
            b.den > 0;
}

/// Not `a < b` means `b <= a`.
pub proof fn lemma_not_lt(a: Ratio, b: Ratio)
    ensures
        !a.lt_spec(b) ==> b.le_spec(a),
{
}

} // verus!
