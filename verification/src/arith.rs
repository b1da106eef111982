//! The four operations of binary64, rounded to nearest with ties to even,
//! and the conversion of an integer.

use crate::binary64::{
    lemma_units_order, negation, pack, signed, Binary64, HIDDEN_BIT, INFINITY_BITS,
};
use crate::pack::{bit_length, lemma_pow2_wide, power_of_two, round_pack};
use crate::rounding::{
    approximates, lemma_nearest_zero, lemma_pow2_53, lemma_pow2_monotone, nearest_magnitude,
};
use vstd::arithmetic::div_mod::*;
use vstd::arithmetic::mul::*;
use vstd::arithmetic::power2::*;
use vstd::prelude::*;

verus! {

/// The encoding that every invalid operation and every operation on a NaN
/// returns: the positive quiet NaN with an empty payload.
pub const QUIET_NAN: u64 = 0x7FF8_0000_0000_0000;

/// The number of units of the smallest subnormal in one: two to this power.
pub const UNIT_EXPONENT: u64 = 1074;

/// The NaN that the operations return.
pub open spec fn quiet_nan() -> Binary64 {
    Binary64 { bits: QUIET_NAN }
}

/// `a * b`: a NaN for a NaN and for an infinity times a zero, an infinity for
/// an infinity times anything else, and otherwise the exact product rounded
/// to nearest; the sign is negative where the signs of the two differ.
#[verifier::opaque]
pub open spec fn ieee_product(a: Binary64, b: Binary64) -> Binary64 {
    let negative = a.negative() != b.negative();
    if a.nan() || b.nan() {
        quiet_nan()
    } else if a.infinite() || b.infinite() {
        if a.magnitude() == 0 || b.magnitude() == 0 {
            quiet_nan()
        } else {
            signed(negative, INFINITY_BITS as nat)
        }
    } else {
        signed(negative, nearest_magnitude(a.units() * b.units(), pow2(UNIT_EXPONENT as nat)))
    }
}

/// `a / b`: a NaN for a NaN, for an infinity by an infinity and for a zero
/// by a zero; an infinity for an infinity by a finite value and for a
/// value other than zero by a zero; a zero for a finite value by an
/// infinity; and otherwise the exact quotient rounded to nearest. The sign
/// is negative where the signs of the two differ.
#[verifier::opaque]
pub open spec fn ieee_quotient(a: Binary64, b: Binary64) -> Binary64 {
    let negative = a.negative() != b.negative();
    if a.nan() || b.nan() {
        quiet_nan()
    } else if a.infinite() {
        if b.infinite() {
            quiet_nan()
        } else {
            signed(negative, INFINITY_BITS as nat)
        }
    } else if b.infinite() {
        signed(negative, 0)
    } else if b.magnitude() == 0 {
        if a.magnitude() == 0 {
            quiet_nan()
        } else {
            signed(negative, INFINITY_BITS as nat)
        }
    } else {
        signed(negative, nearest_magnitude(a.units() * pow2(UNIT_EXPONENT as nat), b.units()))
    }
}

/// `a + b`: a NaN for a NaN and for two infinities of opposite sign, an
/// infinity where one of the two is one, and otherwise the exact sum rounded
/// to nearest. An exact sum of zero is `+0`, unless both are `-0`.
#[verifier::opaque]
pub open spec fn ieee_sum(a: Binary64, b: Binary64) -> Binary64 {
    if a.nan() || b.nan() {
        quiet_nan()
    } else if a.infinite() {
        if b.infinite() && a.negative() != b.negative() {
            quiet_nan()
        } else {
            signed(a.negative(), INFINITY_BITS as nat)
        }
    } else if b.infinite() {
        signed(b.negative(), INFINITY_BITS as nat)
    } else {
        let exact = a.value() + b.value();
        if exact == 0 {
            signed(a.negative() && b.negative(), 0)
        } else if exact < 0 {
            signed(true, nearest_magnitude((-exact) as nat, 1))
        } else {
            signed(false, nearest_magnitude(exact as nat, 1))
        }
    }
}

/// `a - b`, which is `a + (-b)`.
pub open spec fn ieee_difference(a: Binary64, b: Binary64) -> Binary64 {
    ieee_sum(a, negation(b))
}

/// The binary64 nearest to the integer `n`.
pub open spec fn ieee_from_nat(n: nat) -> Binary64 {
    signed(false, nearest_magnitude(n * pow2(UNIT_EXPONENT as nat), 1))
}

/// `approximates` from inequalities that carry a common power of two.
pub proof fn lemma_approximates_scaled(
    sig: nat,
    exp: int,
    sticky: bool,
    num: nat,
    den: nat,
    a: nat,
    b: nat,
)
    requires
        a - b == exp,
        sig * (den * pow2(a)) <= num * pow2(b),
        num * pow2(b) < (sig + 1) * (den * pow2(a)),
        sticky <==> sig * (den * pow2(a)) != num * pow2(b),
    ensures
        approximates(sig, exp, sticky, num, den),
{
    let pos = (if exp > 0 { exp } else { 0 }) as nat;
    let neg = (if exp < 0 { -exp } else { 0 }) as nat;
    let c = (if a < b { a } else { b }) as nat;
    assert(a == pos + c && b == neg + c);
    lemma_pow2_adds(pos, c);
    lemma_pow2_adds(neg, c);
    lemma_pow2_pos(c);
    let x = sig * (den * pow2(pos));
    let y = num * pow2(neg);
    let z = (sig + 1) * (den * pow2(pos));
    let w = pow2(c);
    assert(sig * (den * pow2(a)) == x * w) by (nonlinear_arith)
        requires
            pow2(a) == pow2(pos) * w,
            x == sig * (den * pow2(pos)),
    ;
    assert((sig + 1) * (den * pow2(a)) == z * w) by (nonlinear_arith)
        requires
            pow2(a) == pow2(pos) * w,
            z == (sig + 1) * (den * pow2(pos)),
    ;
    assert(num * pow2(b) == y * w) by (nonlinear_arith)
        requires
            pow2(b) == pow2(neg) * w,
            y == num * pow2(neg),
    ;
    lemma_mul_inequality_converse(x as int, y as int, w as int);
    lemma_mul_strict_inequality_converse(y as int, z as int, w as int);
    if x * w == y * w {
        lemma_mul_equality_converse(w as int, x as int, y as int);
        assert(w * x == x * w && w * y == y * w) by (nonlinear_arith);
    }
}

/// `approximates` for a significand that is the ratio itself.
pub proof fn lemma_approximates_exact(sig: nat, exp: int, num: nat, den: nat, a: nat, b: nat)
    requires
        a - b == exp,
        den > 0,
        sig * (den * pow2(a)) == num * pow2(b),
    ensures
        approximates(sig, exp, false, num, den),
{
    lemma_pow2_pos(a);
    assert((sig + 1) * (den * pow2(a)) > sig * (den * pow2(a))) by (nonlinear_arith)
        requires
            den > 0,
            pow2(a) > 0,
    ;
    lemma_approximates_scaled(sig, exp, false, num, den, a, b);
}

impl Binary64 {
    /// The binary64 nearest to `n`; exact up to two to the 53.
    pub fn from_count(n: u64) -> (r: Binary64)
        ensures
            r == ieee_from_nat(n as nat),
    {
        proof {
            lemma_pow2_wide();
            lemma2_to64();
            assert(n as nat * (1 * pow2(1074)) == (n as nat * pow2(1074)) * pow2(0))
                by (nonlinear_arith)
                requires
                    pow2(0) == 1,
            ;
            lemma_approximates_exact(n as nat, 1074, n as nat * pow2(1074), 1, 1074, 0);
        }
        let mag: u64 = round_pack(
            n as u128,
            1074,
            false,
            Ghost(n as nat * pow2(1074)),
            Ghost(1),
        );
        pack(false, mag)
    }

    /// `self * other`.
    pub fn times(self, other: Binary64) -> (r: Binary64)
        ensures
            r == ieee_product(self, other),
    {
        reveal(ieee_product);
        if self.is_nan() || other.is_nan() {
            return Binary64 { bits: QUIET_NAN };
        }
        let negative: bool = self.is_negative() != other.is_negative();
        if !self.is_finite() || !other.is_finite() {
            if self.abs_bits() == 0 || other.abs_bits() == 0 {
                return Binary64 { bits: QUIET_NAN };
            }
            return pack(negative, INFINITY_BITS);
        }
        let (ma, ka) = self.decode();
        let (mb, kb) = other.decode();
        proof {
            lemma_pow2_53();
            lemma_pow2_wide();
            assert(ma * mb < 0x400_0000_0000_0000_0000_0000_0000) by (nonlinear_arith)
                requires
                    ma < 0x20_0000_0000_0000,
                    mb < 0x20_0000_0000_0000,
            ;
        }
        let sig: u128 = (ma as u128) * (mb as u128);
        let exp: i64 = ka as i64 + kb as i64 - 1074;
        let ghost num = self.units() * other.units();
        let ghost den = pow2(1074);
        proof {
            lemma_pow2_pos(1074);
            lemma_pow2_adds(ka as nat, kb as nat);
            let p = pow2(ka as nat);
            let q = pow2(kb as nat);
            assert(sig * (den * pow2((ka + kb) as nat)) == num * pow2(1074)) by (nonlinear_arith)
                requires
                    sig == ma * mb,
                    num == (ma * p) * (mb * q),
                    pow2((ka + kb) as nat) == p * q,
                    den == pow2(1074),
            ;
            lemma_approximates_exact(sig as nat, exp as int, num, den, (ka + kb) as nat, 1074);
        }
        let mag: u64 = round_pack(sig, exp, false, Ghost(num), Ghost(den));
        pack(negative, mag)
    }

    /// `self / other`.
    pub fn over(self, other: Binary64) -> (r: Binary64)
        ensures
            r == ieee_quotient(self, other),
    {
        reveal(ieee_quotient);
        if self.is_nan() || other.is_nan() {
            return Binary64 { bits: QUIET_NAN };
        }
        let negative: bool = self.is_negative() != other.is_negative();
        if !self.is_finite() {
            if !other.is_finite() {
                return Binary64 { bits: QUIET_NAN };
            }
            return pack(negative, INFINITY_BITS);
        }
        if !other.is_finite() {
            return pack(negative, 0);
        }
        if other.abs_bits() == 0 {
            if self.abs_bits() == 0 {
                return Binary64 { bits: QUIET_NAN };
            }
            return pack(negative, INFINITY_BITS);
        }
        let (ma, ka) = self.decode();
        let (mb, kb) = other.decode();
        proof {
            lemma_pow2_53();
            lemma_pow2_wide();
        }
        let len: u32 = bit_length(ma as u128);
        proof {
            if len > 53 {
                lemma_pow2_monotone(53, (len - 1) as nat);
            }
        }
        let lift: u32 = 53 - len + 74;
        let factor: u128 = power_of_two(lift);
        proof {
            if len > 0 {
                lemma_pow2_adds(len as nat, lift as nat);
                lemma_pow2_adds((len - 1) as nat, lift as nat);
                lemma_mul_strict_inequality(ma as int, pow2(len as nat) as int, factor as int);
                lemma_mul_inequality(pow2((len - 1) as nat) as int, ma as int, factor as int);
                lemma_pow2_pos(lift as nat);
            } else {
                assert(ma * factor == 0) by (nonlinear_arith)
                    requires
                        ma == 0,
                ;
            }
        }
        let wide: u128 = (ma as u128) * factor;
        let sig: u128 = wide / (mb as u128);
        let rest: u128 = wide % (mb as u128);
        let sticky: bool = rest != 0;
        let exp: i64 = ka as i64 - kb as i64 + 1074 - lift as i64;
        let ghost num = self.units() * pow2(1074);
        let ghost den = other.units();
        proof {
            let pa = pow2(ka as nat);
            let pb = pow2(kb as nat);
            let pu = pow2(1074);
            let pl = pow2(lift as nat);
            lemma_pow2_pos(ka as nat);
            lemma_pow2_pos(kb as nat);
            lemma_pow2_pos(1074);
            lemma_pow2_adds(ka as nat, 1074);
            lemma_pow2_adds(lift as nat, kb as nat);
            lemma_fundamental_div_mod(wide as int, mb as int);
            lemma_mod_bound(wide as int, mb as int);
            lemma_div_pos_is_pos(wide as int, mb as int);
            assert(den > 0) by {
                lemma_mul_strictly_positive(mb as int, pb as int);
            }
            let w = pb * (pa * pu);
            assert(w > 0) by (nonlinear_arith)
                requires
                    w == pb * (pa * pu),
                    pa > 0,
                    pb > 0,
                    pu > 0,
            ;
            assert(sig * (den * pow2((ka + 1074) as nat)) == (sig * mb) * w) by (nonlinear_arith)
                requires
                    den == mb * pb,
                    pow2((ka + 1074) as nat) == pa * pu,
                    w == pb * (pa * pu),
            ;
            assert((sig + 1) * (den * pow2((ka + 1074) as nat)) == ((sig + 1) * mb) * w)
                by (nonlinear_arith)
                requires
                    den == mb * pb,
                    pow2((ka + 1074) as nat) == pa * pu,
                    w == pb * (pa * pu),
            ;
            assert(num * pow2((lift + kb) as nat) == wide * w) by (nonlinear_arith)
                requires
                    num == (ma * pa) * pu,
                    pow2((lift + kb) as nat) == pl * pb,
                    wide == ma * pl,
                    w == pb * (pa * pu),
            ;
            assert(wide == sig * mb + rest) by (nonlinear_arith)
                requires
                    wide == mb * sig + rest,
            ;
            assert((sig + 1) * mb == sig * mb + mb) by (nonlinear_arith);
            lemma_mul_inequality((sig * mb) as int, wide as int, w as int);
            lemma_mul_strict_inequality(wide as int, ((sig + 1) * mb) as int, w as int);
            if sticky {
                lemma_mul_strict_inequality((sig * mb) as int, wide as int, w as int);
                lemma_div_is_ordered_by_denominator(
                    wide as int,
                    mb as int,
                    0x20_0000_0000_0000,
                );
            }
            lemma_approximates_scaled(
                sig as nat,
                exp as int,
                sticky,
                num,
                den,
                (ka + 1074) as nat,
                (lift + kb) as nat,
            );
        }
        let mag: u64 = round_pack(sig, exp, sticky, Ghost(num), Ghost(den));
        pack(negative, mag)
    }
}

/// The rounded sum of two finite absolute values.
fn sum_magnitude(x: Binary64, y: Binary64) -> (mag: u64)
    requires
        x.finite(),
        y.finite(),
    ensures
        mag == nearest_magnitude(x.units() + y.units(), 1),
        mag <= INFINITY_BITS,
{
    let (mx0, kx0) = x.decode();
    let (my0, ky0) = y.decode();
    let (mx, kx, my, ky) = if kx0 >= ky0 {
        (mx0, kx0, my0, ky0)
    } else {
        (my0, ky0, mx0, kx0)
    };
    let ghost num = x.units() + y.units();
    let ghost px = pow2(kx as nat);
    let ghost py = pow2(ky as nat);
    assert(num == mx * px + my * py);
    let gap: u64 = kx - ky;
    proof {
        lemma_pow2_53();
        lemma_pow2_wide();
        lemma2_to64();
        lemma_pow2_pos(ky as nat);
        lemma_pow2_adds(gap as nat, ky as nat);
    }
    if gap <= 64 {
        let factor: u128 = power_of_two(gap as u32);
        proof {
            lemma_pow2_monotone(gap as nat, 64);
            assert(mx * factor <= 0x20_0000_0000_0000 * 0x1_0000_0000_0000_0000)
                by (nonlinear_arith)
                requires
                    mx <= 0x20_0000_0000_0000,
                    factor <= 0x1_0000_0000_0000_0000,
            ;
        }
        let sig: u128 = (mx as u128) * factor + (my as u128);
        proof {
            assert(sig * (1 * py) == num * pow2(0)) by (nonlinear_arith)
                requires
                    sig == mx * factor + my,
                    num == mx * px + my * py,
                    px == factor * py,
                    pow2(0) == 1,
            ;
            lemma_approximates_exact(sig as nat, ky as int, num, 1, ky as nat, 0);
        }
        round_pack(sig, ky as i64, false, Ghost(num), Ghost(1))
    } else if my == 0 {
        proof {
            assert(mx * (1 * px) == num * pow2(0)) by (nonlinear_arith)
                requires
                    num == mx * px + my * py,
                    my == 0,
                    pow2(0) == 1,
            ;
            lemma_approximates_exact(mx as nat, kx as int, num, 1, kx as nat, 0);
        }
        round_pack(mx as u128, kx as i64, false, Ghost(num), Ghost(1))
    } else {
        let sig: u128 = 4 * (mx as u128);
        proof {
            let low = pow2((kx - 2) as nat);
            lemma_pow2_adds(2, (kx - 2) as nat);
            lemma_pow2_adds(53, ky as nat);
            lemma_pow2_monotone((53 + ky) as nat, (kx - 2) as nat);
            lemma_mul_strict_inequality(my as int, pow2(53) as int, py as int);
            lemma_mul_strictly_positive(my as int, py as int);
            assert(sig * (1 * low) == mx * px) by (nonlinear_arith)
                requires
                    sig == 4 * mx,
                    px == 4 * low,
            ;
            assert((sig + 1) * (1 * low) == mx * px + low) by (nonlinear_arith)
                requires
                    sig == 4 * mx,
                    px == 4 * low,
            ;
            assert(num * pow2(0) == num);
            lemma_approximates_scaled(
                sig as nat,
                kx as int - 2,
                true,
                num,
                1,
                (kx - 2) as nat,
                0,
            );
        }
        round_pack(sig, kx as i64 - 2, true, Ghost(num), Ghost(1))
    }
}

/// The rounded difference of two finite absolute values, the larger first.
fn gap_magnitude(x: Binary64, y: Binary64) -> (mag: u64)
    requires
        x.finite(),
        y.finite(),
        x.magnitude() > y.magnitude(),
    ensures
        x.units() > y.units(),
        mag == nearest_magnitude((x.units() - y.units()) as nat, 1),
        mag <= INFINITY_BITS,
{
    let (mx, kx) = x.decode();
    let (my, ky) = y.decode();
    let ghost num = (x.units() - y.units()) as nat;
    let ghost px = pow2(kx as nat);
    let ghost py = pow2(ky as nat);
    proof {
        lemma_units_order(y, x);
        lemma_pow2_53();
        lemma_pow2_wide();
        lemma2_to64();
        lemma_pow2_pos(ky as nat);
        if kx < ky {
            assert(kx * HIDDEN_BIT + HIDDEN_BIT <= ky * HIDDEN_BIT) by (nonlinear_arith)
                requires
                    kx + 1 <= ky,
            ;
        }
    }
    assert(kx >= ky);
    assert(num == mx * px - my * py);
    let gap: u64 = kx - ky;
    proof {
        lemma_pow2_adds(gap as nat, ky as nat);
    }
    if gap <= 64 {
        let factor: u128 = power_of_two(gap as u32);
        proof {
            lemma_pow2_monotone(gap as nat, 64);
            assert(mx * factor <= 0x20_0000_0000_0000 * 0x1_0000_0000_0000_0000)
                by (nonlinear_arith)
                requires
                    mx <= 0x20_0000_0000_0000,
                    factor <= 0x1_0000_0000_0000_0000,
            ;
            assert(mx * px == (mx * factor) * py) by (nonlinear_arith)
                requires
                    px == factor * py,
            ;
            lemma_mul_strict_inequality_converse(my as int, (mx * factor) as int, py as int);
        }
        let sig: u128 = (mx as u128) * factor - (my as u128);
        proof {
            assert(sig * (1 * py) == num * pow2(0)) by (nonlinear_arith)
                requires
                    sig == mx * factor - my,
                    num == mx * px - my * py,
                    px == factor * py,
                    pow2(0) == 1,
            ;
            lemma_approximates_exact(sig as nat, ky as int, num, 1, ky as nat, 0);
        }
        round_pack(sig, ky as i64, false, Ghost(num), Ghost(1))
    } else if my == 0 {
        proof {
            assert(mx * (1 * px) == num * pow2(0)) by (nonlinear_arith)
                requires
                    num == mx * px - my * py,
                    my == 0,
                    pow2(0) == 1,
            ;
            lemma_approximates_exact(mx as nat, kx as int, num, 1, kx as nat, 0);
        }
        round_pack(mx as u128, kx as i64, false, Ghost(num), Ghost(1))
    } else {
        let sig: u128 = 8 * (mx as u128) - 1;
        proof {
            let low = pow2((kx - 3) as nat);
            lemma_pow2_adds(3, (kx - 3) as nat);
            lemma_pow2_adds(53, ky as nat);
            lemma_pow2_monotone((53 + ky) as nat, (kx - 3) as nat);
            lemma_mul_strict_inequality(my as int, pow2(53) as int, py as int);
            lemma_mul_strictly_positive(my as int, py as int);
            assert(sig * (1 * low) == mx * px - low) by (nonlinear_arith)
                requires
                    sig == 8 * mx - 1,
                    px == 8 * low,
            ;
            assert((sig + 1) * (1 * low) == mx * px) by (nonlinear_arith)
                requires
                    sig == 8 * mx - 1,
                    px == 8 * low,
            ;
            assert(num * pow2(0) == num);
            lemma_approximates_scaled(
                sig as nat,
                kx as int - 3,
                true,
                num,
                1,
                (kx - 3) as nat,
                0,
            );
        }
        round_pack(sig, kx as i64 - 3, true, Ghost(num), Ghost(1))
    }
}

impl Binary64 {
    /// `self + other`.
    pub fn plus(self, other: Binary64) -> (r: Binary64)
        ensures
            r == ieee_sum(self, other),
    {
        reveal(ieee_sum);
        if self.is_nan() || other.is_nan() {
            return Binary64 { bits: QUIET_NAN };
        }
        let sa: bool = self.is_negative();
        let sb: bool = other.is_negative();
        if !self.is_finite() {
            if !other.is_finite() && sa != sb {
                return Binary64 { bits: QUIET_NAN };
            }
            return pack(sa, INFINITY_BITS);
        }
        if !other.is_finite() {
            return pack(sb, INFINITY_BITS);
        }
        proof {
            lemma_units_order(self, other);
            lemma_units_order(other, self);
            lemma_nearest_zero(1);
        }
        if sa == sb {
            let mag: u64 = sum_magnitude(self, other);
            pack(sa, mag)
        } else {
            let a: u64 = self.abs_bits();
            let b: u64 = other.abs_bits();
            if a == b {
                pack(false, 0)
            } else if a > b {
                let mag: u64 = gap_magnitude(self, other);
                pack(sa, mag)
            } else {
                let mag: u64 = gap_magnitude(other, self);
                pack(sb, mag)
            }
        }
    }

    /// `self - other`.
    pub fn minus(self, other: Binary64) -> (r: Binary64)
        ensures
            r == ieee_difference(self, other),
    {
        self.plus(other.negated())
    }
}

} // verus!
