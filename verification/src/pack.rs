//! From a truncated significand to the encoding of the nearest binary64.

use crate::binary64::{HIDDEN_BIT, INFINITY_BITS, TOP_SCALE};
use crate::rounding::{
    approximates, grid_of, lemma_grid_unique, lemma_nearest_zero, lemma_pow2_53,
    lemma_pow2_monotone, lemma_round_exact, lemma_round_same_ratio, lemma_round_sticky,
    lemma_scale_twice, nearest_magnitude, round_dropping, round_half_even,
};
use vstd::arithmetic::div_mod::*;
use vstd::arithmetic::mul::*;
use vstd::arithmetic::power2::*;
use vstd::prelude::*;

verus! {

/// The scale at which a significand of `len` bits, weighted by two to the
/// `exp`, is rounded.
pub open spec fn scale_for(len: nat, exp: int) -> nat {
    if len + exp > 53 {
        (len + exp - 53) as nat
    } else {
        0
    }
}

/// Where a truncated significand of known length lands: its scale, and its
/// rounded significand by the bits that are dropped.
pub proof fn lemma_round_to_grid(
    sig: nat,
    len: nat,
    exp: int,
    sticky: bool,
    num: nat,
    den: nat,
)
    requires
        den > 0,
        len >= 1,
        pow2((len - 1) as nat) <= sig < pow2(len),
        approximates(sig, exp, sticky, num, den),
        sticky ==> len >= 55,
    ensures
        grid_of(num, den) == scale_for(len, exp),
        scale_for(len, exp) - exp >= 1 ==> {
            let drop = (scale_for(len, exp) - exp) as nat;
            &&& round_half_even(num, den * pow2(scale_for(len, exp))) == round_dropping(
                sig,
                drop,
                sticky,
            )
            &&& sig / pow2(drop) < pow2(53)
        },
        scale_for(len, exp) - exp <= 0 ==> {
            let lift = (exp - scale_for(len, exp)) as nat;
            &&& round_half_even(num, den * pow2(scale_for(len, exp))) == sig * pow2(lift)
            &&& sig * pow2(lift) < pow2(53)
        },
{
    let k = scale_for(len, exp);
    let pos = (if exp > 0 { exp } else { 0 }) as nat;
    let neg = (if exp < 0 { -exp } else { 0 }) as nat;
    let up = pow2(pos);
    let down = pow2(neg);
    lemma_pow2_pos(pos);
    lemma_pow2_pos(neg);
    lemma_pow2_pos(k);
    let n = num * down;
    let d = den * up;
    assert(d > 0) by {
        lemma_mul_strictly_positive(den as int, up as int);
    }
    assert(sig * d <= n < (sig + 1) * d);

    // The scale.
    assert(n < den * pow2(len + pos)) by {
        lemma_scale_twice(den, pos, len);
        lemma_mul_inequality((sig + 1) as int, pow2(len) as int, d as int);
        assert(pow2(len) * d == (den * pow2(pos)) * pow2(len)) by (nonlinear_arith)
            requires
                d == den * pow2(pos),
        ;
    }
    assert(den * pow2((len - 1) as nat + pos) <= n) by {
        lemma_scale_twice(den, pos, (len - 1) as nat);
        lemma_mul_inequality(pow2((len - 1) as nat) as int, sig as int, d as int);
        assert(pow2((len - 1) as nat) * d == (den * pow2(pos)) * pow2((len - 1) as nat))
            by (nonlinear_arith)
            requires
                d == den * pow2(pos),
        ;
    }
    assert(num < den * pow2(53 + k)) by {
        lemma_scale_twice(den, 53 + k, neg);
        lemma_pow2_monotone(len + pos, 53 + k + neg);
        lemma_mul_inequality(pow2(len + pos) as int, pow2(53 + k + neg) as int, den as int);
        lemma_mul_is_commutative(den as int, pow2(len + pos) as int);
        lemma_mul_is_commutative(den as int, pow2(53 + k + neg) as int);
        assert(num * down < (den * pow2(53 + k)) * down);
        lemma_mul_strict_inequality_converse(
            num as int,
            (den * pow2(53 + k)) as int,
            down as int,
        );
    }
    if k > 0 {
        assert(52 + k + neg == (len - 1) as nat + pos);
        lemma_scale_twice(den, 52 + k, neg);
        assert((den * pow2(52 + k)) * down <= num * down);
        lemma_mul_inequality_converse((den * pow2(52 + k)) as int, num as int, down as int);
    }
    lemma_grid_unique(num, den, k);

    // The significand.
    if k - exp >= 1 {
        let drop = (k - exp) as nat;
        lemma_pow2_pos(drop);
        assert(pos + drop == neg + k);
        assert(num * (d * pow2(drop)) == n * (den * pow2(k))) by {
            lemma_scale_twice(den, pos, drop);
            lemma_scale_twice(num, neg, k);
            lemma_pow2_adds(neg, k);
            assert(num * (den * pow2(pos + drop)) == (num * pow2(neg + k)) * den)
                by (nonlinear_arith)
                requires
                    pos + drop == neg + k,
            ;
            assert(n * (den * pow2(k)) == (num * (pow2(neg) * pow2(k))) * den)
                by (nonlinear_arith)
                requires
                    n == num * pow2(neg),
            ;
        }
        assert(den * pow2(k) > 0) by {
            lemma_mul_strictly_positive(den as int, pow2(k) as int);
        }
        assert(d * pow2(drop) > 0) by {
            lemma_mul_strictly_positive(d as int, pow2(drop) as int);
        }
        lemma_round_same_ratio(num, den * pow2(k), n, d * pow2(drop));
        assert((sig + 1) * d == sig * d + d) by (nonlinear_arith);
        lemma_fundamental_div_mod_converse(n as int, d as int, sig as int, n - sig * d);
        lemma_round_sticky(n, d, drop);
        assert(sig / pow2(drop) < pow2(53)) by {
            lemma_pow2_monotone(len, 53 + drop);
            lemma_pow2_adds(drop, 53);
            assert(53 + drop == drop + 53);
            lemma_multiply_divide_lt(sig as int, pow2(drop) as int, pow2(53) as int);
        }
    } else {
        let lift = (exp - k) as nat;
        assert(!sticky);
        assert(neg == 0 && pos == lift + k);
        assert(down == 1) by {
            lemma2_to64();
        }
        lemma_pow2_adds(lift, k);
        let m = sig * pow2(lift);
        assert(num == m * (den * pow2(k))) by (nonlinear_arith)
            requires
                num == sig * (den * pow2(lift + k)),
                pow2(lift + k) == pow2(lift) * pow2(k),
                m == sig * pow2(lift),
        ;
        assert(den * pow2(k) > 0) by {
            lemma_mul_strictly_positive(den as int, pow2(k) as int);
        }
        lemma_round_exact(m, den * pow2(k));
        assert(m < pow2(53)) by {
            lemma_pow2_adds(len, lift);
            lemma_pow2_monotone(len + lift, 53);
            lemma_pow2_pos(lift);
            lemma_mul_strict_inequality(sig as int, pow2(len) as int, pow2(lift) as int);
        }
    }
}

/// The powers of two that bound the 128-bit arithmetic.
pub proof fn lemma_pow2_wide()
    ensures
        pow2(126) == 0x4000_0000_0000_0000_0000_0000_0000_0000,
        pow2(127) == 0x8000_0000_0000_0000_0000_0000_0000_0000,
        pow2(128) == 0x1_0000_0000_0000_0000_0000_0000_0000_0000,
{
    lemma2_to64();
    lemma2_to64_rest();
    lemma_pow2_adds(63, 63);
    lemma_pow2_adds(64, 63);
    lemma_pow2_adds(64, 64);
}

/// Two to the `n`.
pub(crate) fn power_of_two(n: u32) -> (r: u128)
    requires
        n < 128,
    ensures
        r == pow2(n as nat),
{
    let mut r: u128 = 1;
    let mut i: u32 = 0;
    proof {
        lemma2_to64();
    }
    while i < n
        invariant
            i <= n,
            n < 128,
            r == pow2(i as nat),
        decreases n - i,
    {
        proof {
            lemma_pow2_unfold((i + 1) as nat);
            lemma_pow2_monotone(i as nat, 126);
            lemma_pow2_wide();
        }
        r = r * 2;
        i = i + 1;
    }
    r
}

/// The number of bits up to and including the highest one that is set.
pub fn bit_length(x: u128) -> (len: u32)
    ensures
        len <= 128,
        x == 0 <==> len == 0,
        len > 0 ==> pow2((len - 1) as nat) <= x < pow2(len as nat),
{
    let mut len: u32 = 0;
    let mut rest: u128 = x;
    proof {
        lemma2_to64();
    }
    while rest > 0
        invariant
            len <= 128,
            rest == x as nat / pow2(len as nat),
            len > 0 ==> pow2((len - 1) as nat) <= x,
            len == 0 ==> rest == x,
        decreases rest,
    {
        proof {
            let p = pow2(len as nat);
            lemma_pow2_pos(len as nat);
            lemma_pow2_unfold((len + 1) as nat);
            if x < p {
                lemma_basic_div(x as int, p as int);
            }
            if len == 128 {
                lemma_pow2_wide();
            }
            lemma_div_denominator(x as int, p as int, 2);
        }
        rest = rest / 2;
        len = len + 1;
    }
    proof {
        let p = pow2(len as nat);
        lemma_pow2_pos(len as nat);
        if x >= p {
            lemma_div_non_zero(x as int, p as int);
        }
        if len > 0 {
            lemma_pow2_pos((len - 1) as nat);
        }
    }
    len
}

/// The encoding, without its sign, of the binary64 nearest to the ratio
/// that `sig`, `exp` and `sticky` stand for.
pub(crate) fn round_pack(
    sig: u128,
    exp: i64,
    sticky: bool,
    Ghost(num): Ghost<nat>,
    Ghost(den): Ghost<nat>,
) -> (mag: u64)
    requires
        den > 0,
        sig < 0x8000_0000_0000_0000_0000_0000_0000_0000,
        -4000 <= exp <= 4000,
        approximates(sig as nat, exp as int, sticky, num, den),
        sticky ==> sig >= 0x40_0000_0000_0000,
    ensures
        mag == nearest_magnitude(num, den),
        mag <= INFINITY_BITS,
{
    proof {
        lemma_pow2_53();
        lemma_pow2_wide();
        lemma2_to64();
    }
    if sig == 0 {
        proof {
            let down = pow2((if exp < 0 { -exp } else { 0 }) as nat);
            lemma_pow2_pos((if exp < 0 { -exp } else { 0 }) as nat);
            lemma_mul_nonzero(num as int, down as int);
            lemma_nearest_zero(den);
        }
        return 0;
    }
    let len: u32 = bit_length(sig);
    let top: i64 = len as i64 + exp;
    let scale: i64 = if top > 53 { top - 53 } else { 0 };
    proof {
        if sticky {
            if len < 55 {
                lemma_pow2_monotone(len as nat, 54);
            }
        }
        lemma_round_to_grid(sig as nat, len as nat, exp as int, sticky, num, den);
        assert(scale == scale_for(len as nat, exp as int));
    }
    if scale >= TOP_SCALE as i64 {
        return INFINITY_BITS;
    }
    let drop: i64 = scale - exp;
    let rounded: u64;
    if drop <= 0 {
        proof {
            let lift = (exp - scale) as nat;
            if lift >= 53 {
                lemma_pow2_monotone(53, lift);
                lemma_mul_inequality(1, sig as int, pow2(lift) as int);
            }
        }
        let factor: u128 = power_of_two((exp - scale) as u32);
        rounded = (sig * factor) as u64;
    } else if drop >= 128 {
        proof {
            lemma_pow2_monotone(127, (drop - 1) as nat);
            lemma_pow2_monotone(127, drop as nat);
            lemma_small_mod(sig as nat, pow2(drop as nat));
            lemma_basic_div(sig as int, pow2(drop as nat) as int);
        }
        rounded = 0;
    } else {
        let unit: u128 = power_of_two(drop as u32);
        proof {
            lemma_pow2_pos(drop as nat);
        }
        let half: u128 = power_of_two((drop - 1) as u32);
        let q: u128 = sig / unit;
        let rest: u128 = sig % unit;
        if rest < half || (rest == half && !sticky && q % 2 == 0) {
            rounded = q as u64;
        } else {
            rounded = (q + 1) as u64;
        }
    }
    (scale as u64) * HIDDEN_BIT + rounded
}

} // verus!
