//! Double-precision numbers as plain bit patterns.
//!
//! The arithmetic on weights belongs to the caller. The decisions that depend
//! on it only compare numbers, and a comparison of two doubles can be read off
//! their bits.

use vstd::arithmetic::power2::{
    lemma_pow2_pos, lemma_pow2_strictly_increases, lemma_pow2_unfold, pow2,
};
use vstd::prelude::*;

verus! {

/// A double-precision number (IEEE 754 binary64), kept as its bit pattern.
#[derive(Clone, Copy, Debug, PartialEq, Eq, Structural)]
pub struct Double {
    /// Sign, exponent and significand, from the highest bit down.
    pub bits: u64,
}

/// The number that the exponent and significand bits make up without the sign,
/// in units of the smallest positive double.
pub open spec fn unsigned_value(payload: int) -> int {
    let exponent = payload / 0x10_0000_0000_0000;
    let significand = payload % 0x10_0000_0000_0000;
    if exponent == 0 {
        significand
    } else {
        (0x10_0000_0000_0000 + significand) * pow2((exponent - 1) as nat)
    }
}

impl Double {
    /// The sign bit is set.
    pub open spec fn negative(self) -> bool {
        self.bits >= 0x8000_0000_0000_0000
    }

    /// The bits below the sign bit.
    pub open spec fn payload(self) -> int {
        if self.negative() {
            self.bits - 0x8000_0000_0000_0000
        } else {
            self.bits as int
        }
    }

    /// Not a number: the exponent is full and the significand is not zero.
    pub open spec fn nan(self) -> bool {
        self.payload() > 0x7ff0_0000_0000_0000
    }

    /// The place of the number among all numbers: two numbers compare as their
    /// places do, and both zeros have place 0.
    pub open spec fn place(self) -> int {
        if self.negative() {
            -self.payload()
        } else {
            self.payload()
        }
    }

    /// The number itself, in units of the smallest positive double.
    pub open spec fn value(self) -> int {
        if self.negative() {
            -unsigned_value(self.payload())
        } else {
            unsigned_value(self.payload())
        }
    }

    /// `self < other` as doubles compare: false as soon as one is no number.
    pub open spec fn lt(self, other: Double) -> bool {
        !self.nan() && !other.nan() && self.place() < other.place()
    }

    /// `self >= other` as doubles compare: false as soon as one is no number.
    pub open spec fn ge(self, other: Double) -> bool {
        !self.nan() && !other.nan() && self.place() >= other.place()
    }

    /// The number zero.
    pub fn zero() -> (d: Double)
        ensures
            d.bits == 0,
    {
        Double { bits: 0 }
    }

    /// Whether this is no number.
    pub fn is_nan(&self) -> (r: bool)
        ensures
            r == self.nan(),
    {
        if self.bits >= 0x8000_0000_0000_0000 {
            self.bits - 0x8000_0000_0000_0000 > 0x7ff0_0000_0000_0000
        } else {
            self.bits > 0x7ff0_0000_0000_0000
        }
    }

    /// The place of the number among all numbers.
    pub fn to_place(&self) -> (k: i64)
        ensures
            k == self.place(),
    {
        if self.bits >= 0x8000_0000_0000_0000 {
            -((self.bits - 0x8000_0000_0000_0000) as i64)
        } else {
            self.bits as i64
        }
    }

    /// `self < other`.
    pub fn less(&self, other: &Double) -> (r: bool)
        ensures
            r == self.lt(*other),
    {
        !self.is_nan() && !other.is_nan() && self.to_place() < other.to_place()
    }

    /// `self >= other`.
    pub fn at_least(&self, other: &Double) -> (r: bool)
        ensures
            r == self.ge(*other),
    {
        !self.is_nan() && !other.is_nan() && self.to_place() >= other.to_place()
    }
}

proof fn lemma_unsigned_value_grows(p: int, q: int)
    requires
        0 <= p < q,
    ensures
        0 <= unsigned_value(p) < unsigned_value(q),
{
    let unit = 0x10_0000_0000_0000int;
    let e = p / unit;
    let f = q / unit;
    let s = p % unit;
    let t = q % unit;
    assert(p == unit * e + s && 0 <= s < unit);
    assert(q == unit * f + t && 0 <= t < unit);
    assert(e <= f);
    if e == 0 {
        assert(unsigned_value(p) == s);
        if f > 0 {
            lemma_pow2_pos((f - 1) as nat);
            let scale = pow2((f - 1) as nat) as int;
            assert((unit + t) * scale >= unit + t) by (nonlinear_arith)
                requires
                    scale >= 1,
                    unit + t >= 0,
            ;
        }
    } else {
        let low = pow2((e - 1) as nat) as int;
        let high = pow2((f - 1) as nat) as int;
        lemma_pow2_pos((e - 1) as nat);
        assert((unit + s) * low >= 0) by (nonlinear_arith)
            requires
                low >= 1,
                unit + s >= 0,
        ;
        if e == f {
            assert((unit + s) * low < (unit + t) * low) by (nonlinear_arith)
                requires
                    low >= 1,
                    s < t,
            ;
        } else {
            lemma_pow2_unfold(e as nat);
            assert(2 * low <= high) by {
                if e < f - 1 {
                    lemma_pow2_strictly_increases(e as nat, (f - 1) as nat);
                }
            }
            assert((unit + s) * low < (unit + t) * high) by (nonlinear_arith)
                requires
                    low >= 1,
                    2 * low <= high,
                    0 <= s < unit,
                    0 <= t,
            ;
        }
    }
}

/// Comparing doubles by their bits is comparing the numbers: of two doubles
/// that are numbers, one compares below the other exactly when its value is
/// smaller.
pub proof fn law_comparison_is_numeric(a: Double, b: Double)
    requires
        !a.nan(),
        !b.nan(),
    ensures
        a.lt(b) <==> a.value() < b.value(),
        a.ge(b) <==> a.value() >= b.value(),
{
    let p = a.payload();
    let q = b.payload();
    if p < q {
        lemma_unsigned_value_grows(p, q);
    }
    if q < p {
        lemma_unsigned_value_grows(q, p);
    }
    if p > 0 {
        lemma_unsigned_value_grows(0, p);
    }
    if q > 0 {
        lemma_unsigned_value_grows(0, q);
    }
    assert(unsigned_value(0) == 0);
}

/// What is no number: the eleven bits of the exponent are set, and one of the 52
/// bits below them. It compares with nothing.
pub proof fn law_no_number_compares(a: Double, b: Double)
    ensures
        a.nan() <==> (a.bits / 0x10_0000_0000_0000) % 0x800 == 0x7ff && a.bits % 0x10_0000_0000_0000
            != 0,
        a.nan() ==> !a.lt(b) && !b.lt(a) && !a.ge(b) && !b.ge(a),
{
}

/// Of two numbers one is smaller or the other is not, and zero is zero whatever
/// its sign.
pub proof fn law_comparison_is_total(a: Double, b: Double)
    requires
        !a.nan(),
        !b.nan(),
    ensures
        a.ge(b) <==> !a.lt(b),
        a.bits % 0x8000_0000_0000_0000 == 0 && b.bits % 0x8000_0000_0000_0000 == 0 ==> a.ge(b)
            && b.ge(a),
        a.bits < 0x8000_0000_0000_0000 && b.bits < 0x8000_0000_0000_0000 ==> (a.lt(b) <==> a.bits
            < b.bits),
{
}

} // verus!
