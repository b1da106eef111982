//! Rounding to the nearest binary64, ties to even: what it means for an
//! exact ratio, and the facts by which a truncated significand with a
//! sticky flag rounds to the same encoding.

use crate::binary64::{HIDDEN_BIT, INFINITY_BITS, TOP_SCALE};
use vstd::arithmetic::div_mod::*;
use vstd::arithmetic::mul::*;
use vstd::arithmetic::power2::*;
use vstd::prelude::*;

verus! {

/// Two to the 53: the first significand that no longer fits.
pub const SIGNIFICAND_LIMIT: u64 = 0x20_0000_0000_0000;

/// `num / den` rounded to the nearest integer, a tie going to the even one.
pub open spec fn round_half_even(num: nat, den: nat) -> nat {
    let q = num / den;
    let r = num % den;
    if 2 * r < den || (2 * r == den && q % 2 == 0) {
        q
    } else {
        q + 1
    }
}

/// The scale at which `num / den` is rounded: the least `k` with
/// `num / den` below two to the `53 + k`.
pub open spec fn grid_of(num: nat, den: nat) -> nat
    decreases num,
{
    if den == 0 || num < den * SIGNIFICAND_LIMIT {
        0
    } else {
        1 + grid_of(num / 2, den)
    }
}

/// The magnitude of the binary64 nearest to `num / den`, counted in units
/// of the smallest subnormal, ties to even; infinity once the scale runs out.
pub open spec fn nearest_magnitude(num: nat, den: nat) -> nat {
    let k = grid_of(num, den);
    if k >= TOP_SCALE {
        INFINITY_BITS as nat
    } else {
        k * (HIDDEN_BIT as nat) + round_half_even(num, den * pow2(k))
    }
}

/// Rounding `sig / 2^drop` to the nearest integer, ties to even, where
/// `sticky` says that the value truncated to `sig` had more behind it.
pub open spec fn round_dropping(sig: nat, drop: nat, sticky: bool) -> nat {
    let q = sig / pow2(drop);
    let rest = sig % pow2(drop);
    let half = pow2((drop - 1) as nat);
    if rest < half || (rest == half && !sticky && q % 2 == 0) {
        q
    } else {
        q + 1
    }
}

/// `sig` is `num / den` scaled down by two to the `exp` and truncated, and
/// `sticky` tells whether the truncation lost anything.
pub open spec fn approximates(sig: nat, exp: int, sticky: bool, num: nat, den: nat) -> bool {
    let up = pow2((if exp > 0 { exp } else { 0 }) as nat);
    let down = pow2((if exp < 0 { -exp } else { 0 }) as nat);
    &&& sig * (den * up) <= num * down
    &&& num * down < (sig + 1) * (den * up)
    &&& sticky <==> sig * (den * up) != num * down
}

/// The powers of two around the width of the significand.
pub proof fn lemma_pow2_53()
    ensures
        pow2(52) == HIDDEN_BIT,
        pow2(53) == SIGNIFICAND_LIMIT,
        pow2(54) == 2 * SIGNIFICAND_LIMIT,
{
    lemma2_to64_rest();
}

/// Powers of two are positive and grow with the exponent.
pub proof fn lemma_pow2_monotone(a: nat, b: nat)
    requires
        a <= b,
    ensures
        pow2(a) <= pow2(b),
        pow2(a) > 0,
{
    lemma_pow2_pos(a);
    if a < b {
        lemma_pow2_strictly_increases(a, b);
    }
}

/// `x * 2^a * 2^b` is `x * 2^(a + b)`.
pub proof fn lemma_scale_twice(x: nat, a: nat, b: nat)
    ensures
        (x * pow2(a)) * pow2(b) == x * pow2(a + b),
{
    lemma_pow2_adds(a, b);
    lemma_mul_is_associative(x as int, pow2(a) as int, pow2(b) as int);
}

/// The scale found by `grid_of` brackets the ratio.
pub proof fn lemma_grid_bounds(num: nat, den: nat)
    requires
        den > 0,
    ensures
        num < den * pow2(53 + grid_of(num, den)),
        grid_of(num, den) > 0 ==> den * pow2(52 + grid_of(num, den)) <= num,
    decreases num,
{
    lemma_pow2_53();
    if num < den * SIGNIFICAND_LIMIT {
        assert(grid_of(num, den) == 0);
    } else {
        let h = num / 2;
        let k = grid_of(h, den);
        assert(grid_of(num, den) == 1 + k);
        lemma_grid_bounds(h, den);
        lemma_pow2_unfold(54 + k);
        lemma_pow2_unfold(53 + k);
        assert(den * pow2(54 + k) == 2 * (den * pow2(53 + k))) by (nonlinear_arith)
            requires
                pow2(54 + k) == 2 * pow2(53 + k),
        ;
        if k > 0 {
            assert(den * pow2(53 + k) == 2 * (den * pow2(52 + k))) by (nonlinear_arith)
                requires
                    pow2(53 + k) == 2 * pow2(52 + k),
            ;
        }
    }
}

/// Only one scale brackets the ratio.
pub proof fn lemma_grid_unique(num: nat, den: nat, k: nat)
    requires
        den > 0,
        num < den * pow2(53 + k),
        k > 0 ==> den * pow2(52 + k) <= num,
    ensures
        grid_of(num, den) == k,
{
    let g = grid_of(num, den);
    lemma_grid_bounds(num, den);
    if g < k {
        lemma_pow2_monotone(53 + g, 52 + k);
        lemma_mul_inequality(pow2(53 + g) as int, pow2(52 + k) as int, den as int);
        lemma_mul_is_commutative(den as int, pow2(53 + g) as int);
        lemma_mul_is_commutative(den as int, pow2(52 + k) as int);
    } else if g > k {
        lemma_pow2_monotone(53 + k, 52 + g);
        lemma_mul_inequality(pow2(53 + k) as int, pow2(52 + g) as int, den as int);
        lemma_mul_is_commutative(den as int, pow2(53 + k) as int);
        lemma_mul_is_commutative(den as int, pow2(52 + g) as int);
    }
}

/// Two ways of writing one ratio round alike.
pub proof fn lemma_round_same_ratio(n1: nat, d1: nat, n2: nat, d2: nat)
    requires
        d1 > 0,
        d2 > 0,
        n1 * d2 == n2 * d1,
    ensures
        round_half_even(n1, d1) == round_half_even(n2, d2),
{
    let q = (n1 / d1) as int;
    let r1 = (n1 % d1) as int;
    lemma_fundamental_div_mod(n1 as int, d1 as int);
    lemma_mod_bound(n1 as int, d1 as int);
    let r2 = n2 - q * d2;
    assert(r2 * d1 == r1 * d2) by (nonlinear_arith)
        requires
            n1 * d2 == n2 * d1,
            n1 == d1 * q + r1,
            r2 == n2 - q * d2,
    ;
    assert(0 <= r2 < d2) by (nonlinear_arith)
        requires
            r2 * d1 == r1 * d2,
            0 <= r1 < d1,
            d2 > 0,
    ;
    lemma_fundamental_div_mod_converse(n2 as int, d2 as int, q, r2);
    assert((2 * r1 < d1) == (2 * r2 < d2)) by (nonlinear_arith)
        requires
            r2 * d1 == r1 * d2,
            d1 > 0,
            d2 > 0,
    ;
    assert((2 * r1 == d1) == (2 * r2 == d2)) by (nonlinear_arith)
        requires
            r2 * d1 == r1 * d2,
            d1 > 0,
            d2 > 0,
    ;
}

/// A whole number rounds to itself.
pub proof fn lemma_round_exact(m: nat, den: nat)
    requires
        den > 0,
    ensures
        round_half_even(m * den, den) == m,
{
    lemma_fundamental_div_mod_converse((m * den) as int, den as int, m as int, 0);
}

/// Zero rounds to zero.
pub proof fn lemma_nearest_zero(den: nat)
    requires
        den > 0,
    ensures
        nearest_magnitude(0, den) == 0,
{
    lemma2_to64();
    assert(grid_of(0, den) == 0);
    assert(den * pow2(0) == den);
    lemma_round_exact(0, den);
    assert(0 * den == 0);
}

/// Rounding after `drop` more halvings may go by the truncated quotient
/// and the knowledge whether anything was cut off.
pub proof fn lemma_round_sticky(num: nat, den: nat, drop: nat)
    requires
        den > 0,
        drop >= 1,
    ensures
        round_half_even(num, den * pow2(drop)) == round_dropping(
            num / den,
            drop,
            num % den != 0,
        ),
{
    let p = pow2(drop) as int;
    let h = pow2((drop - 1) as nat) as int;
    let d = den as int;
    let n = num as int;
    lemma_pow2_pos(drop);
    lemma_pow2_pos((drop - 1) as nat);
    lemma_pow2_unfold(drop);
    let s = n / d;
    let r0 = n % d;
    lemma_fundamental_div_mod(n, d);
    lemma_mod_bound(n, d);
    lemma_div_pos_is_pos(n, d);
    lemma_div_denominator(n, d, p);
    lemma_breakdown(n, d, p);
    let g = s % p;
    let q = s / p;
    lemma_mod_bound(s, p);
    let big = (num % (den * pow2(drop))) as int;
    assert(big == d * g + r0);
    assert(num / (den * pow2(drop)) == q);
    assert(d * p == 2 * (d * h)) by (nonlinear_arith)
        requires
            p == 2 * h,
    ;
    if g < h {
        assert(d * g + r0 < d * h) by (nonlinear_arith)
            requires
                g + 1 <= h,
                0 <= r0 < d,
        ;
    } else if g > h {
        assert(d * g + r0 > d * h) by (nonlinear_arith)
            requires
                g >= h + 1,
                0 <= r0 < d,
        ;
    } else {
        assert(d * g == d * h);
    }
}

} // verus!
