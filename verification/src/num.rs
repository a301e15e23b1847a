//! Measured numbers, held as the bit patterns of IEEE 754 doubles.
//!
//! The library decides on such numbers: it classifies, compares, ranks and selects
//! them, all of which the bit pattern settles. It does not calculate with them.

use vstd::prelude::*;

verus! {

/// The sign bit.
pub const SIGN: u64 = 0x8000_0000_0000_0000;

/// The bit pattern of positive infinity; greater magnitudes are no numbers.
pub const INFINITE: u64 = 0x7ff0_0000_0000_0000;

/// The bit pattern of zero.
pub const ZERO: u64 = 0;

/// The bit pattern of the "not a number" that calculations give.
pub const NAN: u64 = 0x7ff8_0000_0000_0000;

/// A double, by its bit pattern.
#[derive(Clone, Copy, Debug, PartialEq, Eq, Structural)]
pub struct Num {
    pub bits: u64,
}

impl Num {
    /// The sign bit is set: for negative numbers and for negative zero.
    pub open spec fn negative(self) -> bool {
        self.bits >= SIGN
    }

    /// The bit pattern without the sign.
    pub open spec fn magnitude(self) -> int {
        if self.bits >= SIGN {
            self.bits - SIGN
        } else {
            self.bits as int
        }
    }

    /// Neither infinite nor "not a number".
    pub open spec fn finite(self) -> bool {
        self.magnitude() < INFINITE
    }

    /// "Not a number".
    pub open spec fn nan(self) -> bool {
        self.magnitude() > INFINITE
    }

    /// The place of a number among all numbers: zero for both zeros, and greater for
    /// greater numbers.
    pub open spec fn rank(self) -> int {
        if self.negative() {
            -self.magnitude()
        } else {
            self.magnitude()
        }
    }

    /// Less than or equal, as doubles compare: false where either is no number.
    pub open spec fn at_most(self, other: Num) -> bool {
        !self.nan() && !other.nan() && self.rank() <= other.rank()
    }

    /// Less than, as doubles compare.
    pub open spec fn below(self, other: Num) -> bool {
        !self.nan() && !other.nan() && self.rank() < other.rank()
    }

    /// Between two bounds, both included.
    pub open spec fn between(self, lo: Num, hi: Num) -> bool {
        lo.at_most(self) && self.at_most(hi)
    }

    /// The number without its sign.
    pub open spec fn unsigned(self) -> Num {
        Num { bits: self.magnitude() as u64 }
    }

    /// The number with bit pattern `bits`.
    pub fn new(bits: u64) -> (r: Num)
        ensures
            r.bits == bits,
    {
        Num { bits }
    }

    pub fn is_negative(self) -> (r: bool)
        ensures
            r == self.negative(),
    {
        self.bits >= SIGN
    }

    /// The number without its sign.
    pub fn abs(self) -> (r: Num)
        ensures
            r == self.unsigned(),
            r.rank() == self.magnitude(),
    {
        Num { bits: if self.bits >= SIGN { self.bits - SIGN } else { self.bits } }
    }

    pub fn is_finite(self) -> (r: bool)
        ensures
            r == self.finite(),
    {
        self.abs().bits < INFINITE
    }

    pub fn is_nan(self) -> (r: bool)
        ensures
            r == self.nan(),
    {
        self.abs().bits > INFINITE
    }

    fn place(self) -> (r: i64)
        requires
            !self.nan(),
        ensures
            r == self.rank(),
    {
        let m: i64 = self.abs().bits as i64;
        if self.bits >= SIGN {
            -m
        } else {
            m
        }
    }

    /// Less than or equal.
    pub fn le(self, other: Num) -> (r: bool)
        ensures
            r == self.at_most(other),
    {
        !self.is_nan() && !other.is_nan() && self.place() <= other.place()
    }

    /// Less than.
    pub fn lt(self, other: Num) -> (r: bool)
        ensures
            r == self.below(other),
    {
        !self.is_nan() && !other.is_nan() && self.place() < other.place()
    }

    /// Between two bounds, both included.
    pub fn within(self, lo: Num, hi: Num) -> (r: bool)
        ensures
            r == self.between(lo, hi),
    {
        lo.le(self) && self.le(hi)
    }
}

/// Any two numbers compare one way or the other, and what is no number with nothing,
/// not even with itself.
pub proof fn law_comparison(a: Num, b: Num, c: Num)
    ensures
        !a.nan() && !b.nan() ==> a.at_most(b) || b.at_most(a),
        a.nan() ==> !a.at_most(b) && !b.at_most(a) && !a.below(b) && !b.below(a),
        a.at_most(b) && b.at_most(c) ==> a.at_most(c),
        a.below(b) <==> a.at_most(b) && !b.at_most(a),
        a.at_most(b) && b.at_most(a) ==> a.rank() == b.rank(),
{
}

/// A number by its bits: the sign is the first, and what has all eleven bits of the exponent
/// set is infinite, or no number where a bit of the fraction is set too.
pub proof fn law_bits(x: Num)
    ensures
        x.negative() <==> x.bits >> 63 == 1,
        x.finite() <==> (x.bits >> 52) & 0x7ff != 0x7ff,
        x.nan() <==> (x.bits >> 52) & 0x7ff == 0x7ff && x.bits & 0xf_ffff_ffff_ffff != 0,
        x.unsigned().bits == x.bits & 0x7fff_ffff_ffff_ffff,
{
    let b = x.bits;
    assert(b >= 0x8000_0000_0000_0000 <==> b >> 63 == 1) by (bit_vector);
    assert(b >= 0x8000_0000_0000_0000 ==> b - 0x8000_0000_0000_0000 == b & 0x7fff_ffff_ffff_ffff)
        by (bit_vector);
    assert(b < 0x8000_0000_0000_0000 ==> b == b & 0x7fff_ffff_ffff_ffff) by (bit_vector);
    assert((b & 0x7fff_ffff_ffff_ffff) < 0x7ff0_0000_0000_0000 <==> (b >> 52) & 0x7ff != 0x7ff)
        by (bit_vector);
    assert((b & 0x7fff_ffff_ffff_ffff) > 0x7ff0_0000_0000_0000 <==> (b >> 52) & 0x7ff == 0x7ff && b
        & 0xf_ffff_ffff_ffff != 0) by (bit_vector);
}

/// Numbers without a sign are in the order of their bits, those with one in the reverse
/// order and at most as great as any without; the two zeros are equal.
pub proof fn law_order_of_bits(a: Num, b: Num)
    requires
        !a.nan(),
        !b.nan(),
    ensures
        a.bits < 0x8000_0000_0000_0000 && b.bits < 0x8000_0000_0000_0000 ==> (a.below(b) <==> a.bits < b.bits),
        a.bits >= 0x8000_0000_0000_0000 && b.bits >= 0x8000_0000_0000_0000 ==> (a.below(b) <==> a.bits > b.bits),
        a.bits >= 0x8000_0000_0000_0000 && b.bits < 0x8000_0000_0000_0000 ==> a.at_most(b) && (a.below(b) <==> !(
        a.bits == 0x8000_0000_0000_0000 && b.bits == 0)),
        a.at_most(b) <==> !b.below(a),
{
}

/// What the comparisons of numbers give.
pub proof fn law_comparisons_agree(a: Num, b: Num, c: Num, lt: bool, le: bool, within: bool, size: Num)
    requires
        call_ensures(Num::lt, (a, b), lt),
        call_ensures(Num::le, (a, b), le),
        call_ensures(Num::within, (a, b, c), within),
        call_ensures(Num::abs, (a,), size),
    ensures
        lt <==> a.below(b),
        le <==> a.at_most(b),
        within <==> b.at_most(a) && a.at_most(c),
        size.bits < 0x8000_0000_0000_0000,
        a.bits < 0x8000_0000_0000_0000 ==> size == a,
        a.bits >= 0x8000_0000_0000_0000 ==> size.bits + 0x8000_0000_0000_0000 == a.bits,
{
}

} // verus!
