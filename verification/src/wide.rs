//! Exact arithmetic on natural numbers below 2^256, as far as comparing
//! confidence intervals needs it.

use vstd::prelude::*;

verus! {

/// 2^64, the base in which `mul_wide` splits its factors.
pub const HALF: u128 = 0x1_0000_0000_0000_0000;

/// 2^128, the weight of the high half of a `Wide`.
pub open spec fn base() -> int {
    0x1_0000_0000_0000_0000_0000_0000_0000_0000int
}

/// A natural number below 2^256 in two halves of 128 bits.
#[derive(Clone, Copy)]
pub struct Wide {
    pub hi: u128,
    pub lo: u128,
}

impl Wide {
    /// The number that the two halves stand for.
    pub open spec fn value(self) -> int {
        self.hi * base() + self.lo
    }

    /// Whether `self` is at most `other`.
    pub fn le(&self, other: &Wide) -> (res: bool)
        ensures
            res == (self.value() <= other.value()),
    {
        self.hi < other.hi || (self.hi == other.hi && self.lo <= other.lo)
    }

    /// The difference `self - other`, where `other` is at most `self`.
    pub fn sub(&self, other: &Wide) -> (res: Wide)
        requires
            other.value() <= self.value(),
        ensures
            res.value() == self.value() - other.value(),
    {
        if self.lo >= other.lo {
            Wide { hi: self.hi - other.hi, lo: self.lo - other.lo }
        } else {
            Wide { hi: self.hi - other.hi - 1, lo: u128::MAX - other.lo + self.lo + 1 }
        }
    }
}

/// 2^128 = 18 * EIGHTEENTH + 4.
pub const EIGHTEENTH: u128 = 18904575940052136859076367079542678414;

/// Quotient and remainder of a number below 9 * 2^128 on division by 18.
pub fn div_rem_18(x: &Wide) -> (res: (u128, u128))
    requires
        x.hi < 9,
    ensures
        x.value() == 18 * res.0 + res.1,
        res.1 < 18,
{
    let low = 4 * x.hi + x.lo % 18;
    let q = x.hi * EIGHTEENTH + x.lo / 18 + low / 18;
    let r = low % 18;
    (q, r)
}

/// The product of two numbers below 2^64 is below 2^128.
proof fn lemma_half_product(x: int, y: int)
    requires
        0 <= x < HALF,
        0 <= y < HALF,
    ensures
        0 <= x * y <= (HALF - 1) * (HALF - 1),
{
    assert(0 <= x * y <= (HALF - 1) * (HALF - 1)) by (nonlinear_arith)
        requires
            0 <= x <= HALF - 1,
            0 <= y <= HALF - 1,
    ;
}

/// The product of two numbers written in base `h`, sorted by powers of `h`.
proof fn lemma_split_product(h: int, x1: int, x0: int, y1: int, y0: int)
    ensures
        (x1 * h + x0) * (y1 * h + y0) == (x1 * y1) * (h * h) + (x1 * y0 + x0 * y1) * h + x0 * y0,
{
    let x = x1 * h + x0;
    let y = y1 * h + y0;
    assert(x * y == (x1 * h) * y + x0 * y) by (nonlinear_arith)
        requires
            x == x1 * h + x0,
    ;
    assert((x1 * h) * y == (x1 * h) * (y1 * h) + (x1 * h) * y0) by (nonlinear_arith)
        requires
            y == y1 * h + y0,
    ;
    assert(x0 * y == x0 * (y1 * h) + x0 * y0) by (nonlinear_arith)
        requires
            y == y1 * h + y0,
    ;
    assert((x1 * h) * (y1 * h) == (x1 * y1) * (h * h)) by (nonlinear_arith);
    assert((x1 * h) * y0 == (x1 * y0) * h) by (nonlinear_arith);
    assert(x0 * (y1 * h) == (x0 * y1) * h) by (nonlinear_arith);
    assert((x1 * y0) * h + (x0 * y1) * h == (x1 * y0 + x0 * y1) * h) by (nonlinear_arith);
}

/// The exact product of two 128-bit numbers.
pub fn mul_wide(x: u128, y: u128) -> (res: Wide)
    ensures
        res.value() == x * y,
{
    let x1 = x / HALF;
    let x0 = x % HALF;
    let y1 = y / HALF;
    let y0 = y % HALF;
    proof {
        lemma_half_product(x0 as int, y0 as int);
        lemma_half_product(x0 as int, y1 as int);
        lemma_half_product(x1 as int, y0 as int);
        lemma_half_product(x1 as int, y1 as int);
        lemma_split_product(HALF as int, x1 as int, x0 as int, y1 as int, y0 as int);
    }
    let ll = x0 * y0;
    let lh = x0 * y1;
    let hl = x1 * y0;
    let hh = x1 * y1;
    let cross = ll / HALF + lh % HALF + hl % HALF;
    let lo = ll % HALF + (cross % HALF) * HALF;
    let hi = hh + lh / HALF + hl / HALF + cross / HALF;
    Wide { hi, lo }
}

} // verus!
