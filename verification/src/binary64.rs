//! IEEE 754 binary64 values as their 64-bit encodings: classification,
//! the exact value of an encoding, and the ordered comparisons.

use vstd::arithmetic::mul::*;
use vstd::arithmetic::power2::*;
use vstd::prelude::*;

verus! {

/// The sign bit of an encoding.
pub const SIGN_BIT: u64 = 0x8000_0000_0000_0000;

/// The magnitude of the two infinities; larger magnitudes are NaNs.
pub const INFINITY_BITS: u64 = 0x7FF0_0000_0000_0000;

/// Two to the 52: the implicit leading bit of a normal significand.
pub const HIDDEN_BIT: u64 = 0x10_0000_0000_0000;

/// The grid exponent at which the magnitude reaches infinity.
pub const TOP_SCALE: u64 = 2046;

/// A binary64 value, held as its encoding.
///
/// `==` on this type compares encodings, so it tells `-0` from `+0` and
/// finds a NaN equal to itself; the numeric comparisons are the methods
/// [`Binary64::lt`], [`Binary64::gt`] and [`Binary64::le`].
#[derive(Clone, Copy, Debug, PartialEq, Eq, Structural)]
pub struct Binary64 {
    /// Sign, exponent field and fraction field, from the top bit down.
    pub bits: u64,
}

/// The value with the given sign and magnitude.
pub open spec fn signed(negative: bool, magnitude: nat) -> Binary64 {
    Binary64 {
        bits: (if negative {
            SIGN_BIT + magnitude
        } else {
            magnitude as int
        }) as u64,
    }
}

/// The value with the opposite sign bit.
pub open spec fn negation(a: Binary64) -> Binary64 {
    signed(!a.negative(), a.magnitude())
}

/// The value with the given sign and magnitude.
pub(crate) fn pack(negative: bool, magnitude: u64) -> (r: Binary64)
    requires
        magnitude < SIGN_BIT,
    ensures
        r == signed(negative, magnitude as nat),
        r.magnitude() == magnitude,
        r.negative() == negative,
{
    if negative {
        Binary64 { bits: SIGN_BIT + magnitude }
    } else {
        Binary64 { bits: magnitude }
    }
}

impl Binary64 {
    /// The encoding without its sign bit.
    pub open spec fn magnitude(self) -> nat {
        (self.bits % SIGN_BIT) as nat
    }

    /// Whether the sign bit is set (true of `-0`, too).
    pub open spec fn negative(self) -> bool {
        self.bits >= SIGN_BIT
    }

    /// Whether the encoding is a NaN: a magnitude above that of infinity.
    pub open spec fn nan(self) -> bool {
        self.magnitude() > INFINITY_BITS
    }

    /// Whether the encoding is one of the two infinities.
    pub open spec fn infinite(self) -> bool {
        self.magnitude() == INFINITY_BITS
    }

    /// Whether the encoding is a zero, a subnormal or a normal number.
    pub open spec fn finite(self) -> bool {
        self.magnitude() < INFINITY_BITS
    }

    /// The integer significand: the fraction field, with the implicit bit
    /// for every encoding above the subnormal range.
    pub open spec fn significand(self) -> nat {
        let fraction = self.magnitude() % (HIDDEN_BIT as nat);
        if self.magnitude() < HIDDEN_BIT {
            fraction
        } else {
            HIDDEN_BIT as nat + fraction
        }
    }

    /// The power of two, counted from the smallest subnormal, by which the
    /// significand is scaled.
    pub open spec fn scale(self) -> nat {
        if self.magnitude() < HIDDEN_BIT {
            0
        } else {
            (self.magnitude() / (HIDDEN_BIT as nat) - 1) as nat
        }
    }

    /// The absolute value in units of the smallest subnormal, two to the
    /// minus 1074. An infinity reads as two to the 1024, above every finite
    /// value; the result means nothing for a NaN.
    pub open spec fn units(self) -> nat {
        self.significand() * pow2(self.scale())
    }

    /// The signed value in units of the smallest subnormal.
    pub open spec fn value(self) -> int {
        if self.negative() {
            -(self.units() as int)
        } else {
            self.units() as int
        }
    }

    /// IEEE `<`: false as soon as either side is a NaN.
    pub open spec fn less_than(self, other: Binary64) -> bool {
        !self.nan() && !other.nan() && self.value() < other.value()
    }

    /// IEEE `<=`: false as soon as either side is a NaN.
    pub open spec fn at_most(self, other: Binary64) -> bool {
        !self.nan() && !other.nan() && self.value() <= other.value()
    }

    /// The value with the given encoding.
    pub fn from_bits(bits: u64) -> (r: Binary64)
        ensures
            r.bits == bits,
    {
        Binary64 { bits }
    }

    /// The encoding of the value.
    pub fn to_bits(self) -> (r: u64)
        ensures
            r == self.bits,
    {
        self.bits
    }

    /// The encoding without its sign bit.
    pub fn abs_bits(self) -> (r: u64)
        ensures
            r == self.magnitude(),
    {
        self.bits % SIGN_BIT
    }

    /// Whether the sign bit is set.
    pub fn is_negative(self) -> (r: bool)
        ensures
            r == self.negative(),
    {
        self.bits >= SIGN_BIT
    }

    /// Whether the value is a NaN.
    pub fn is_nan(self) -> (r: bool)
        ensures
            r == self.nan(),
    {
        self.abs_bits() > INFINITY_BITS
    }

    /// Whether the value is neither an infinity nor a NaN.
    pub fn is_finite(self) -> (r: bool)
        ensures
            r == self.finite(),
    {
        self.abs_bits() < INFINITY_BITS
    }

    /// The value with the opposite sign bit.
    pub fn negated(self) -> (r: Binary64)
        ensures
            r == negation(self),
            r.magnitude() == self.magnitude(),
            r.negative() == !self.negative(),
    {
        if self.bits >= SIGN_BIT {
            Binary64 { bits: self.bits - SIGN_BIT }
        } else {
            Binary64 { bits: self.bits + SIGN_BIT }
        }
    }

    /// The significand and the scale of the value.
    pub fn decode(self) -> (r: (u64, u64))
        ensures
            r.0 == self.significand(),
            r.1 == self.scale(),
            r.0 < 2 * HIDDEN_BIT,
            r.1 <= TOP_SCALE,
            r.1 > 0 ==> r.0 >= HIDDEN_BIT,
            self.magnitude() == r.1 * HIDDEN_BIT + r.0,
            self.finite() <==> r.1 < TOP_SCALE,
    {
        let mag: u64 = self.abs_bits();
        let field: u64 = mag / HIDDEN_BIT;
        let fraction: u64 = mag % HIDDEN_BIT;
        if field == 0 {
            (fraction, 0)
        } else {
            (HIDDEN_BIT + fraction, field - 1)
        }
    }

    /// IEEE `<`.
    pub fn lt(self, other: Binary64) -> (r: bool)
        ensures
            r == self.less_than(other),
    {
        if self.is_nan() || other.is_nan() {
            return false;
        }
        proof {
            lemma_units_order(self, other);
            lemma_units_order(other, self);
        }
        let a: u64 = self.abs_bits();
        let b: u64 = other.abs_bits();
        if self.is_negative() {
            if other.is_negative() {
                a > b
            } else {
                a > 0 || b > 0
            }
        } else {
            if other.is_negative() {
                false
            } else {
                a < b
            }
        }
    }

    /// IEEE `>`.
    pub fn gt(self, other: Binary64) -> (r: bool)
        ensures
            r == other.less_than(self),
    {
        other.lt(self)
    }

    /// IEEE `<=`.
    pub fn le(self, other: Binary64) -> (r: bool)
        ensures
            r == self.at_most(other),
    {
        if self.is_nan() || other.is_nan() {
            return false;
        }
        !other.lt(self)
    }
}

/// Among encodings that are not NaNs, a smaller magnitude is a smaller
/// absolute value, and only the zero magnitude has the value zero.
pub proof fn lemma_units_order(x: Binary64, y: Binary64)
    requires
        !x.nan(),
        !y.nan(),
    ensures
        x.magnitude() < y.magnitude() ==> x.units() < y.units(),
        x.magnitude() == y.magnitude() ==> x.units() == y.units(),
        x.magnitude() == 0 <==> x.units() == 0,
{
    let mx = x.significand() as int;
    let my = y.significand() as int;
    let kx = x.scale();
    let ky = y.scale();
    let h = HIDDEN_BIT as int;
    assert(x.magnitude() == kx * h + mx);
    assert(y.magnitude() == ky * h + my);
    lemma_pow2_pos(kx);
    lemma_pow2_pos(ky);
    assert(x.magnitude() == 0 <==> x.units() == 0) by {
        lemma_mul_nonzero(mx, pow2(kx) as int);
    }
    if x.magnitude() < y.magnitude() {
        if kx == ky {
            lemma_mul_strict_inequality(mx, my, pow2(kx) as int);
        } else {
            assert(kx < ky) by {
                if kx > ky {
                    assert(kx * h >= (ky + 1) * h) by (nonlinear_arith)
                        requires
                            kx >= ky + 1,
                            h > 0,
                    ;
                }
            }
            // x stays below the next power of two, which y has reached.
            lemma_mul_strict_inequality(mx, 2 * h, pow2(kx) as int);
            lemma_pow2_unfold(kx + 1);
            if kx + 1 < ky {
                lemma_pow2_strictly_increases(kx + 1, ky);
            }
            lemma_mul_inequality(pow2(kx + 1) as int, pow2(ky) as int, h);
            lemma_mul_inequality(h, my, pow2(ky) as int);
            assert(mx * pow2(kx) < (2 * h) * pow2(kx));
            assert((2 * h) * pow2(kx) == h * pow2(kx + 1)) by (nonlinear_arith)
                requires
                    pow2(kx + 1) == 2 * pow2(kx),
            ;
            assert(h * pow2(kx + 1) == pow2(kx + 1) * h) by (nonlinear_arith);
            assert(pow2(ky) * h == h * pow2(ky)) by (nonlinear_arith);
        }
    }
}

} // verus!
