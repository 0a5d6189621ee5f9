//! Products that outgrow 128 bits, and comparisons between them.

use vstd::prelude::*;

verus! {

/// An unsigned number of up to 192 bits: `hi * 2^64 + lo`.
#[derive(Debug, Clone, Copy)]
pub struct Wide {
    pub hi: u128,
    pub lo: u64,
}

impl Wide {
    /// The number that the two limbs stand for.
    pub open spec fn value(&self) -> int {
        self.hi * 0x1_0000_0000_0000_0000 + self.lo
    }

    /// The product of `a` and `b`.
    pub fn product(a: u128, b: u64) -> (w: Wide)
        ensures
            w.value() == a * b,
    {
        let a_hi: u128 = a / 0x1_0000_0000_0000_0000u128;
        let a_lo: u128 = a % 0x1_0000_0000_0000_0000u128;
        assert(a_lo * b <= 0xffff_ffff_ffff_ffff * 0xffff_ffff_ffff_ffff) by (nonlinear_arith)
            requires
                0 <= a_lo <= 0xffff_ffff_ffff_ffff,
                0 <= b <= 0xffff_ffff_ffff_ffff,
        ;
        assert(a_hi * b <= 0xffff_ffff_ffff_ffff * 0xffff_ffff_ffff_ffff) by (nonlinear_arith)
            requires
                0 <= a_hi <= 0xffff_ffff_ffff_ffff,
                0 <= b <= 0xffff_ffff_ffff_ffff,
        ;
        let low: u128 = a_lo * (b as u128);
        let high: u128 = a_hi * (b as u128);
        let carry: u128 = low / 0x1_0000_0000_0000_0000u128;
        let lo: u64 = (low % 0x1_0000_0000_0000_0000u128) as u64;
        let hi: u128 = high + carry;
        assert(hi * 0x1_0000_0000_0000_0000 + lo == a * b) by (nonlinear_arith)
            requires
                a == a_hi * 0x1_0000_0000_0000_0000 + a_lo,
                low == a_lo * b,
                high == a_hi * b,
                low == carry * 0x1_0000_0000_0000_0000 + lo,
                hi == high + carry,
        ;
        Wide { hi, lo }
    }

    /// Whether `self` is the smaller number.
    pub fn less_than(&self, other: &Wide) -> (r: bool)
        ensures
            r == (self.value() < other.value()),
    {
        if self.hi < other.hi {
            assert(self.value() < other.value()) by (nonlinear_arith)
                requires
                    self.hi + 1 <= other.hi,
                    self.value() == self.hi * 0x1_0000_0000_0000_0000 + self.lo,
                    other.value() == other.hi * 0x1_0000_0000_0000_0000 + other.lo,
                    0 <= self.lo < 0x1_0000_0000_0000_0000,
                    0 <= other.lo,
            ;
            true
        } else if self.hi > other.hi {
            assert(self.value() > other.value()) by (nonlinear_arith)
                requires
                    other.hi + 1 <= self.hi,
                    self.value() == self.hi * 0x1_0000_0000_0000_0000 + self.lo,
                    other.value() == other.hi * 0x1_0000_0000_0000_0000 + other.lo,
                    0 <= other.lo < 0x1_0000_0000_0000_0000,
                    0 <= self.lo,
            ;
            false
        } else {
            self.lo < other.lo
        }
    }
}

/// Whether `a * b < c * d`.
pub fn product_less(a: u128, b: u64, c: u128, d: u64) -> (r: bool)
    ensures
        r == (a * b < c * d),
{
    let left: Wide = Wide::product(a, b);
    let right: Wide = Wide::product(c, d);
    left.less_than(&right)
}

} // verus!
