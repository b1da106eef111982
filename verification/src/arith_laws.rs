//! What holds of the rounding and of the values it yields: representable
//! values round to themselves, counts convert exactly, and the constants of
//! the analyzer are the numbers they are meant to be.

use crate::arith::{ieee_difference, ieee_from_nat, ieee_product, ieee_sum, UNIT_EXPONENT};
use crate::binary64::{
    lemma_units_order, negation, signed, Binary64, HIDDEN_BIT, INFINITY_BITS, TOP_SCALE,
};
use crate::model::{
    of_bits, COUNTER_LIMIT, DEFAULT_WINDOW_BITS, HIGH_SENTINEL_BITS, LOWER_FRACTION_BITS,
    LOW_SENTINEL_BITS, ONE_BITS, SHORTEST_WINDOW_BITS, UPPER_FRACTION_BITS,
};
use crate::rounding::{
    grid_of, lemma_grid_bounds, lemma_grid_unique, lemma_nearest_zero, lemma_pow2_53,
    lemma_pow2_monotone, lemma_round_exact, lemma_round_same_ratio, nearest_magnitude,
    round_half_even, SIGNIFICAND_LIMIT,
};
use vstd::arithmetic::div_mod::*;
use vstd::arithmetic::mul::*;
use vstd::arithmetic::power2::*;
use vstd::prelude::*;

verus! {

/// The value whose magnitude is put together from a scale and a
/// significand, a significand of two to the 53 carrying into the scale.
pub proof fn lemma_units_of_parts(negative: bool, k: nat, m: nat)
    requires
        k < TOP_SCALE,
        m <= SIGNIFICAND_LIMIT,
        k > 0 ==> m >= HIDDEN_BIT,
    ensures
        signed(negative, k * (HIDDEN_BIT as nat) + m).magnitude() == k * HIDDEN_BIT + m,
        signed(negative, k * (HIDDEN_BIT as nat) + m).negative() == negative,
        signed(negative, k * (HIDDEN_BIT as nat) + m).units() == m * pow2(k),
        signed(negative, k * (HIDDEN_BIT as nat) + m).significand() == if m == SIGNIFICAND_LIMIT {
            HIDDEN_BIT as nat
        } else {
            m
        },
        k * HIDDEN_BIT + m <= INFINITY_BITS,
{
    let h = HIDDEN_BIT as nat;
    let mag = k * h + m;
    assert(k * h <= 2045 * h) by (nonlinear_arith)
        requires
            k <= 2045,
    ;
    let x = signed(negative, mag);
    assert(x.magnitude() == mag);
    if m == SIGNIFICAND_LIMIT {
        assert(mag == (k + 2) * h) by (nonlinear_arith)
            requires
                mag == k * h + m,
                m == 2 * h,
        ;
        lemma_fundamental_div_mod_converse(mag as int, h as int, (k + 2) as int, 0);
        assert(x.significand() == h);
        assert(x.scale() == k + 1);
        lemma_pow2_unfold(k + 1);
        assert(h * pow2(k + 1) == m * pow2(k)) by (nonlinear_arith)
            requires
                pow2(k + 1) == 2 * pow2(k),
                m == 2 * h,
        ;
    } else if m >= h {
        assert(mag == (k + 1) * h + (m - h)) by (nonlinear_arith)
            requires
                mag == k * h + m,
        ;
        lemma_fundamental_div_mod_converse(mag as int, h as int, (k + 1) as int, m - h);
        assert(x.significand() == m);
        assert(x.scale() == k);
    } else {
        assert(k == 0);
        assert(mag == m);
        lemma2_to64();
    }
}

/// A finite value is the nearest binary64 to itself.
pub proof fn law_representable_rounds_to_itself(x: Binary64)
    requires
        x.finite(),
    ensures
        nearest_magnitude(x.units(), 1) == x.magnitude(),
{
    let m = x.significand();
    let k = x.scale();
    let h = HIDDEN_BIT as nat;
    lemma_pow2_53();
    lemma_pow2_pos(k);
    assert(m < 2 * h);
    assert(x.magnitude() == k * h + m);
    assert(k < TOP_SCALE) by {
        if k >= TOP_SCALE {
            assert(k * h >= 2046 * h) by (nonlinear_arith)
                requires
                    k >= 2046,
            ;
        }
    }
    let num = m * pow2(k);
    lemma_pow2_adds(53, k);
    lemma_pow2_adds(52, k);
    lemma_mul_strict_inequality(m as int, pow2(53) as int, pow2(k) as int);
    assert(num < 1 * pow2(53 + k));
    if k > 0 {
        lemma_mul_inequality(pow2(52) as int, m as int, pow2(k) as int);
        assert(1 * pow2(52 + k) <= num);
    }
    lemma_grid_unique(num, 1, k);
    lemma_round_exact(m, pow2(k));
    assert(1 * pow2(k) == pow2(k));
}

/// Every count up to two to the 53, weighted by a power of two within
/// range, has a binary64 of its own value.
pub proof fn lemma_count_is_representable(n: nat, e: nat) -> (x: Binary64)
    requires
        0 < n <= COUNTER_LIMIT,
        e + 1 < TOP_SCALE,
    ensures
        x.finite(),
        !x.negative(),
        x.units() == n * pow2(e),
    decreases e,
{
    let h = HIDDEN_BIT as nat;
    if n >= h || e == 0 {
        lemma_units_of_parts(false, e, n);
        let x = signed(false, e * h + n);
        assert(x.finite()) by {
            assert(e * h <= 2044 * h) by (nonlinear_arith)
                requires
                    e <= 2044,
            ;
        }
        x
    } else {
        lemma_pow2_unfold(e);
        assert(n * pow2(e) == (2 * n) * pow2((e - 1) as nat)) by (nonlinear_arith)
            requires
                pow2(e) == 2 * pow2((e - 1) as nat),
        ;
        lemma_count_is_representable(2 * n, (e - 1) as nat)
    }
}

/// Conversion is exact for every count up to two to the 53.
pub proof fn law_counts_convert_exactly(n: nat)
    requires
        n <= COUNTER_LIMIT,
    ensures
        ieee_from_nat(n).finite(),
        !ieee_from_nat(n).negative(),
        ieee_from_nat(n).units() == n * pow2(UNIT_EXPONENT as nat),
{
    if n == 0 {
        lemma_nearest_zero(1);
        assert(0 * pow2(UNIT_EXPONENT as nat) == 0);
        lemma_units_of_parts(false, 0, 0);
    } else {
        let x = lemma_count_is_representable(n, UNIT_EXPONENT as nat);
        law_representable_rounds_to_itself(x);
        assert(ieee_from_nat(n) == x);
    }
}

/// The nearest magnitude by a quotient and a remainder at a given scale.
pub proof fn lemma_nearest_by_witness(num: nat, den: nat, k: nat, q: nat, r: nat)
    requires
        den > 0,
        k < TOP_SCALE,
        num < den * pow2(53 + k),
        k > 0 ==> den * pow2(52 + k) <= num,
        num == q * (den * pow2(k)) + r,
        r < den * pow2(k),
    ensures
        nearest_magnitude(num, den) == k * HIDDEN_BIT + if 2 * r < den * pow2(k) || (2 * r == den
            * pow2(k) && q % 2 == 0) {
            q
        } else {
            q + 1
        },
{
    lemma_grid_unique(num, den, k);
    lemma_fundamental_div_mod_converse(
        num as int,
        (den * pow2(k)) as int,
        q as int,
        r as int,
    );
}

/// The units of a value whose significand is `n` times a power of two.
pub proof fn lemma_units_of_multiple(x: Binary64, n: nat, j: nat)
    requires
        x.significand() == n * pow2(j),
    ensures
        x.units() == n * pow2(j + x.scale()),
{
    lemma_pow2_adds(j, x.scale());
    lemma_mul_is_associative(n as int, pow2(j) as int, pow2(x.scale()) as int);
}

/// The binary64 nearest to `p / q`.
pub open spec fn nearest_to_ratio(p: nat, q: nat) -> Binary64 {
    signed(false, nearest_magnitude(p * pow2(UNIT_EXPONENT as nat), q))
}

/// The constants of the analyzer are the numbers they are meant to be:
/// one, five and 999999 exactly, and the binary64 nearest to one tenth, to
/// nine tenths and to one thousandth.
pub proof fn law_constants_are_their_numbers()
    ensures
        of_bits(ONE_BITS) == ieee_from_nat(1),
        of_bits(DEFAULT_WINDOW_BITS) == ieee_from_nat(5),
        of_bits(HIGH_SENTINEL_BITS) == ieee_from_nat(999_999),
        of_bits(LOW_SENTINEL_BITS) == negation(ieee_from_nat(999_999)),
        of_bits(LOWER_FRACTION_BITS) == nearest_to_ratio(1, 10),
        of_bits(UPPER_FRACTION_BITS) == nearest_to_ratio(9, 10),
        of_bits(SHORTEST_WINDOW_BITS) == nearest_to_ratio(1, 1000),
{
    lemma2_to64();
    lemma2_to64_rest();
    let unit = pow2(1074);
    assert(of_bits(ONE_BITS) == ieee_from_nat(1)) by {
        let x = of_bits(ONE_BITS);
        lemma_units_of_multiple(x, 1, 52);
        law_representable_rounds_to_itself(x);
    }
    assert(of_bits(DEFAULT_WINDOW_BITS) == ieee_from_nat(5)) by {
        let x = of_bits(DEFAULT_WINDOW_BITS);
        lemma_units_of_multiple(x, 5, 50);
        law_representable_rounds_to_itself(x);
    }
    assert(of_bits(HIGH_SENTINEL_BITS) == ieee_from_nat(999_999)) by {
        let x = of_bits(HIGH_SENTINEL_BITS);
        lemma_units_of_multiple(x, 999_999, 33);
        law_representable_rounds_to_itself(x);
    }
    assert(of_bits(LOWER_FRACTION_BITS) == nearest_to_ratio(1, 10)) by {
        let p = pow2(1018);
        lemma_pow2_adds(56, 1018);
        lemma_pow2_adds(3, 1071);
        lemma_pow2_adds(4, 1070);
        lemma_pow2_adds(52, 1018);
        lemma_pow2_adds(53, 1018);
        assert(pow2(1070) == pow2(52) * p);
        assert(pow2(1071) == pow2(53) * p);
        assert(unit == 7205759403792793 * (10 * p) + 6 * p) by (nonlinear_arith)
            requires
                unit == 72057594037927936 * p,
        ;
        lemma_nearest_by_witness(1 * unit, 10, 1018, 7205759403792793, 6 * p);
    }
    assert(of_bits(UPPER_FRACTION_BITS) == nearest_to_ratio(9, 10)) by {
        let p = pow2(1021);
        lemma_pow2_adds(53, 1021);
        lemma_pow2_adds(52, 1021);
        assert(9 * unit == 8106479329266892 * (10 * p) + 8 * p) by (nonlinear_arith)
            requires
                unit == 9007199254740992 * p,
        ;
        assert(9 * unit < 10 * pow2(53 + 1021));
        assert(10 * pow2(52 + 1021) <= 9 * unit);
        lemma_nearest_by_witness(9 * unit, 10, 1021, 8106479329266892, 8 * p);
    }
    assert(of_bits(SHORTEST_WINDOW_BITS) == nearest_to_ratio(1, 1000)) by {
        let p = pow2(1012);
        lemma_pow2_adds(62, 1012);
        lemma_pow2_adds(53, 1012);
        lemma_pow2_adds(52, 1012);
        lemma_pow2_adds(9, 1065);
        lemma_pow2_adds(10, 1064);
        assert(unit == 4611686018427387 * (1000 * p) + 904 * p) by (nonlinear_arith)
            requires
                unit == 4611686018427387904 * p,
        ;
        assert(1 * unit < 1000 * pow2(53 + 1012));
        assert(1000 * pow2(52 + 1012) <= 1 * unit);
        lemma_nearest_by_witness(1 * unit, 1000, 1012, 4611686018427387, 904 * p);
    }
}

/// How far apart two integers are.
pub open spec fn distance(a: nat, b: nat) -> nat {
    if a >= b {
        (a - b) as nat
    } else {
        (b - a) as nat
    }
}

/// No integer is nearer to `num / den` than `round_half_even(num, den)`,
/// and where another is as near, the rounded one is even.
pub proof fn lemma_round_half_even_is_nearest(num: nat, den: nat, j: nat)
    requires
        den > 0,
    ensures
        distance(round_half_even(num, den) * den, num) <= distance(j * den, num),
        j != round_half_even(num, den) && distance(round_half_even(num, den) * den, num)
            == distance(j * den, num) ==> round_half_even(num, den) % 2 == 0,
{
    let q = num / den;
    let r = num % den;
    let d = den as int;
    lemma_fundamental_div_mod(num as int, d);
    lemma_mod_bound(num as int, d);
    assert(num == q * d + r) by (nonlinear_arith)
        requires
            num == d * q + r,
    ;
    assert((q + 1) * d == q * d + d) by (nonlinear_arith);
    if j <= q {
        assert(j * d + (q - j) * d == q * d) by (nonlinear_arith);
        assert((q - j) * d >= 0) by (nonlinear_arith)
            requires
                q - j >= 0,
                d > 0,
        ;
        if j < q {
            assert((q - j) * d >= d) by (nonlinear_arith)
                requires
                    q - j >= 1,
                    d > 0,
            ;
        }
    } else {
        assert(j * d == (q + 1) * d + (j - q - 1) * d) by (nonlinear_arith);
        assert((j - q - 1) * d >= 0) by (nonlinear_arith)
            requires
                j - q - 1 >= 0,
                d > 0,
        ;
        if j > q + 1 {
            assert((j - q - 1) * d >= d) by (nonlinear_arith)
                requires
                    j - q - 1 >= 1,
                    d > 0,
            ;
        }
    }
}

/// Rounding is to nearest, ties to even: no finite binary64 is nearer to
/// `num / den` than the one that `nearest_magnitude` finds, and where
/// another is as near, the one found has an even significand.
pub proof fn law_rounding_is_to_nearest(num: nat, den: nat, y: Binary64)
    requires
        den > 0,
        y.finite(),
        nearest_magnitude(num, den) < INFINITY_BITS,
    ensures
        ({
            let r = signed(false, nearest_magnitude(num, den));
            &&& r.finite()
            &&& distance(r.units() * den, num) <= distance(y.units() * den, num)
            &&& y.units() != r.units() && distance(r.units() * den, num) == distance(
                y.units() * den,
                num,
            ) ==> r.significand() % 2 == 0
        }),
{
    let h = HIDDEN_BIT as nat;
    let k = grid_of(num, den);
    let grain = den * pow2(k);
    let m = round_half_even(num, grain);
    let r = signed(false, nearest_magnitude(num, den));
    lemma_pow2_53();
    lemma_pow2_pos(k);
    lemma_grid_bounds(num, den);
    lemma_mul_strictly_positive(den as int, pow2(k) as int);
    lemma_pow2_adds(k, 53);
    lemma_pow2_adds(k, 52);
    // The rounded significand has at most one bit too many, and at a scale
    // above zero it has its leading bit.
    assert(num < grain * pow2(53)) by (nonlinear_arith)
        requires
            num < den * pow2(53 + k),
            pow2(k + 53) == pow2(k) * pow2(53),
            grain == den * pow2(k),
    ;
    lemma_multiply_divide_lt(num as int, grain as int, pow2(53) as int);
    assert(m <= SIGNIFICAND_LIMIT);
    if k > 0 {
        assert(grain * pow2(52) <= num) by (nonlinear_arith)
            requires
                den * pow2(52 + k) <= num,
                pow2(k + 52) == pow2(k) * pow2(52),
                grain == den * pow2(k),
        ;
        lemma_div_is_ordered((grain * pow2(52)) as int, num as int, grain as int);
        lemma_div_multiples_vanish(pow2(52) as int, grain as int);
        assert(grain * pow2(52) == pow2(52) * grain) by (nonlinear_arith);
        assert(m >= h);
    }
    lemma_units_of_parts(false, k, m);
    assert(r.units() * den == m * grain) by (nonlinear_arith)
        requires
            r.units() == m * pow2(k),
            grain == den * pow2(k),
    ;
    let my = y.significand();
    let ky = y.scale();
    lemma_pow2_pos(ky);
    if ky >= k {
        let up = pow2((ky - k) as nat);
        let j = my * up;
        lemma_pow2_adds((ky - k) as nat, k);
        assert(y.units() * den == j * grain) by (nonlinear_arith)
            requires
                y.units() == my * pow2(ky),
                pow2(ky) == up * pow2(k),
                j == my * up,
                grain == den * pow2(k),
        ;
        lemma_round_half_even_is_nearest(num, grain, j);
        if j == m {
            assert(y.units() == r.units()) by (nonlinear_arith)
                requires
                    y.units() == my * pow2(ky),
                    pow2(ky) == up * pow2(k),
                    j == my * up,
                    r.units() == m * pow2(k),
                    j == m,
            ;
        }
    } else {
        // A value of a lower scale lies below two to the `52 + k`, which is
        // on the grid and no farther than the value found.
        let edge = pow2(52 + k);
        lemma_pow2_adds(53, ky);
        lemma_pow2_monotone(53 + ky, 52 + k);
        lemma_mul_strict_inequality(my as int, pow2(53) as int, pow2(ky) as int);
        assert(y.units() < edge);
        lemma_mul_strict_inequality(y.units() as int, edge as int, den as int);
        assert(edge * den == den * edge) by (nonlinear_arith);
        lemma_round_half_even_is_nearest(num, grain, pow2(52));
        assert(pow2(52) * grain == den * edge) by (nonlinear_arith)
            requires
                edge == pow2(k) * pow2(52),
                grain == den * pow2(k),
        ;
    }
}

/// Rounding overflows to infinity exactly from the midpoint between the
/// largest finite binary64 and two to the 1024 on: from `2^1024 - 2^970`.
pub proof fn law_overflow_begins_at_the_last_midpoint(num: nat, den: nat)
    requires
        den > 0,
    ensures
        nearest_magnitude(num, den) == INFINITY_BITS <==> 2 * num >= (2 * SIGNIFICAND_LIMIT - 1)
            * (den * pow2(2045)),
        nearest_magnitude(num, den) <= INFINITY_BITS,
{
    let h = HIDDEN_BIT as nat;
    let top = SIGNIFICAND_LIMIT as nat;
    let k = grid_of(num, den);
    let grain = den * pow2(k);
    let last = den * pow2(2045);
    lemma_pow2_53();
    lemma_pow2_pos(k);
    lemma_pow2_pos(2045);
    lemma_grid_bounds(num, den);
    lemma_mul_strictly_positive(den as int, pow2(k) as int);
    lemma_mul_strictly_positive(den as int, pow2(2045) as int);
    lemma_pow2_adds(2045, 53);
    lemma_pow2_adds(2045, 52);
    assert(den * pow2(2045 + 53) == top * last) by (nonlinear_arith)
        requires
            pow2(2045 + 53) == pow2(2045) * top,
            last == den * pow2(2045),
    ;
    assert(den * pow2(2045 + 52) == h * last) by (nonlinear_arith)
        requires
            pow2(2045 + 52) == pow2(2045) * h,
            last == den * pow2(2045),
    ;
    assert((2 * top - 1) * last == 2 * (top * last) - last) by (nonlinear_arith);
    if k >= TOP_SCALE {
        lemma_pow2_monotone(2045 + 53, 52 + k);
        lemma_mul_inequality(pow2(2045 + 53) as int, pow2(52 + k) as int, den as int);
        assert(den * pow2(2045 + 53) == pow2(2045 + 53) * den) by (nonlinear_arith);
        assert(den * pow2(52 + k) == pow2(52 + k) * den) by (nonlinear_arith);
    } else if k < 2045 {
        lemma_pow2_monotone(53 + k, 2045 + 52);
        lemma_mul_inequality(pow2(53 + k) as int, pow2(2045 + 52) as int, den as int);
        assert(den * pow2(2045 + 52) == pow2(2045 + 52) * den) by (nonlinear_arith);
        assert(den * pow2(53 + k) == pow2(53 + k) * den) by (nonlinear_arith);
        assert(2 * (h * last) <= (2 * top - 1) * last) by (nonlinear_arith)
            requires
                top == 2 * h,
                h >= 1,
                last >= 1,
        ;
        let m = round_half_even(num, grain);
        lemma_pow2_adds(k, 53);
        assert(num < grain * pow2(53)) by (nonlinear_arith)
            requires
                num < den * pow2(53 + k),
                pow2(k + 53) == pow2(k) * pow2(53),
                grain == den * pow2(k),
        ;
        lemma_multiply_divide_lt(num as int, grain as int, pow2(53) as int);
        assert(k * h + m < 2047 * h) by (nonlinear_arith)
            requires
                k <= 2044,
                m <= 2 * h,
                h >= 1,
        ;
    } else {
        assert(grain == last);
        let q = num / last;
        let r = num % last;
        lemma_fundamental_div_mod(num as int, last as int);
        lemma_mod_bound(num as int, last as int);
        assert(num < last * top) by (nonlinear_arith)
            requires
                num < top * last,
        ;
        lemma_multiply_divide_lt(num as int, last as int, top as int);
        assert(num == q * last + r) by (nonlinear_arith)
            requires
                num == last * q + r,
        ;
        assert(2045 * h + top == INFINITY_BITS);
        if q + 1 < top {
            assert(2 * num < (2 * top - 1) * last) by (nonlinear_arith)
                requires
                    num == q * last + r,
                    r < last,
                    q + 2 <= top,
            ;
        } else {
            assert(2 * num == (2 * top - 1) * last + (2 * r - last)) by (nonlinear_arith)
                requires
                    num == q * last + r,
                    q == top - 1,
            ;
        }
    }
}

/// Counting in binary64 is counting in integers up to two to the 53, where
/// it stops: adding one to the binary64 of a count gives the binary64 of
/// the next count, and at two to the 53 gives two to the 53 again.
pub proof fn law_counting_stops_at_the_limit(n: nat)
    requires
        n <= COUNTER_LIMIT,
    ensures
        ieee_sum(ieee_from_nat(n), of_bits(ONE_BITS)) == ieee_from_nat(
            if n < COUNTER_LIMIT {
                n + 1
            } else {
                n
            },
        ),
{
    reveal(ieee_sum);
    let unit = pow2(UNIT_EXPONENT as nat);
    let one = of_bits(ONE_BITS);
    law_constants_are_their_numbers();
    law_counts_convert_exactly(n);
    law_counts_convert_exactly(1);
    lemma_pow2_pos(UNIT_EXPONENT as nat);
    assert(one.units() == unit) by (nonlinear_arith)
        requires
            one.units() == 1 * unit,
    ;
    assert(ieee_from_nat(n).units() + one.units() == (n + 1) * unit) by (nonlinear_arith)
        requires
            ieee_from_nat(n).units() == n * unit,
            one.units() == unit,
    ;
    assert((n + 1) * unit > 0) by (nonlinear_arith)
        requires
            unit > 0,
    ;
    if n == COUNTER_LIMIT {
        // Halfway between two neighbours, of which two to the 53 is the even one.
        lemma2_to64_rest();
        let grain = pow2(1075);
        lemma_pow2_unfold(1075);
        lemma_pow2_adds(54, 1074);
        lemma_pow2_adds(53, 1074);
        lemma_pow2_adds(52, 1075);
        lemma_pow2_adds(53, 1075);
        assert((n + 1) * unit == 4503599627370496 * (1 * grain) + unit) by (nonlinear_arith)
            requires
                n == 9007199254740992,
                grain == 2 * unit,
        ;
        assert(n * unit == 4503599627370496 * (1 * grain) + 0) by (nonlinear_arith)
            requires
                n == 9007199254740992,
                grain == 2 * unit,
        ;
        assert((n + 1) * unit < 1 * pow2(53 + 1075)) by (nonlinear_arith)
            requires
                n == 9007199254740992,
                pow2(53 + 1075) == 9007199254740992 * grain,
                grain == 2 * unit,
                unit > 0,
        ;
        assert(1 * pow2(52 + 1075) <= n * unit) by (nonlinear_arith)
            requires
                n == 9007199254740992,
                pow2(52 + 1075) == 4503599627370496 * grain,
                grain == 2 * unit,
        ;
        lemma_nearest_by_witness((n + 1) * unit, 1, 1075, 4503599627370496, unit);
        lemma_nearest_by_witness(n * unit, 1, 1075, 4503599627370496, 0);
    }
}

/// The first onset ever counts up from minus one to zero.
pub proof fn law_counting_starts_below_zero()
    ensures
        ieee_sum(negation(ieee_from_nat(1)), of_bits(ONE_BITS)) == ieee_from_nat(0),
{
    reveal(ieee_sum);
    law_constants_are_their_numbers();
    law_counts_convert_exactly(1);
    lemma_nearest_zero(1);
    assert(0 * pow2(UNIT_EXPONENT as nat) == 0);
}

/// The gap between two counts, and a sum of gaps that stays within the
/// limit, are in binary64 what they are in integers.
pub proof fn law_gaps_are_exact(later: nat, earlier: nat, sum: nat)
    requires
        earlier <= later <= COUNTER_LIMIT,
        sum + (later - earlier) <= COUNTER_LIMIT,
    ensures
        ieee_difference(ieee_from_nat(later), ieee_from_nat(earlier)) == ieee_from_nat(
            (later - earlier) as nat,
        ),
        ieee_sum(ieee_from_nat(sum), ieee_from_nat((later - earlier) as nat)) == ieee_from_nat(
            sum + (later - earlier) as nat,
        ),
{
    reveal(ieee_sum);
    let unit = pow2(UNIT_EXPONENT as nat);
    let gap = (later - earlier) as nat;
    law_counts_convert_exactly(later);
    law_counts_convert_exactly(earlier);
    law_counts_convert_exactly(gap);
    law_counts_convert_exactly(sum);
    lemma_pow2_pos(UNIT_EXPONENT as nat);
    lemma_nearest_zero(1);
    assert(0 * unit == 0);
    assert(later * unit - earlier * unit == gap * unit) by (nonlinear_arith)
        requires
            gap == later - earlier,
    ;
    assert(sum * unit + gap * unit == (sum + gap) * unit) by (nonlinear_arith);
    if gap > 0 {
        assert(gap * unit > 0) by (nonlinear_arith)
            requires
                gap > 0,
                unit > 0,
        ;
    }
    if sum + gap > 0 {
        assert((sum + gap) * unit > 0) by (nonlinear_arith)
            requires
                sum + gap > 0,
                unit > 0,
        ;
    }
    let minus = negation(ieee_from_nat(earlier));
    assert(minus.units() == ieee_from_nat(earlier).units()) by {
        lemma_units_order(minus, ieee_from_nat(earlier));
        lemma_units_order(ieee_from_nat(earlier), minus);
    }
}

/// Rounding goes by the ratio alone, not by the way it is written.
pub proof fn law_rounding_goes_by_the_ratio(n1: nat, d1: nat, n2: nat, d2: nat)
    requires
        d1 > 0,
        d2 > 0,
        n1 * d2 == n2 * d1,
    ensures
        nearest_magnitude(n1, d1) == nearest_magnitude(n2, d2),
{
    let k = grid_of(n1, d1);
    let p = pow2(k);
    lemma_pow2_pos(k);
    lemma_grid_bounds(n1, d1);
    assert(n2 < d2 * pow2(53 + k)) by (nonlinear_arith)
        requires
            n1 < d1 * pow2(53 + k),
            n1 * d2 == n2 * d1,
            d1 > 0,
            d2 > 0,
    ;
    if k > 0 {
        assert(d2 * pow2(52 + k) <= n2) by (nonlinear_arith)
            requires
                d1 * pow2(52 + k) <= n1,
                n1 * d2 == n2 * d1,
                d1 > 0,
                d2 > 0,
        ;
    }
    lemma_grid_unique(n2, d2, k);
    assert(n1 * (d2 * p) == n2 * (d1 * p)) by (nonlinear_arith)
        requires
            n1 * d2 == n2 * d1,
    ;
    lemma_mul_strictly_positive(d1 as int, p as int);
    lemma_mul_strictly_positive(d2 as int, p as int);
    lemma_round_same_ratio(n1, d1 * p, n2, d2 * p);
}

/// Sum and product do not depend on the order of the two.
pub proof fn law_sum_and_product_commute(a: Binary64, b: Binary64)
    ensures
        ieee_sum(a, b) == ieee_sum(b, a),
        ieee_product(a, b) == ieee_product(b, a),
{
    reveal(ieee_sum);
    reveal(ieee_product);
    assert(a.units() * b.units() == b.units() * a.units()) by (nonlinear_arith);
}

/// A sum is a NaN only of a NaN or of two infinities.
pub proof fn lemma_sum_is_a_number(a: Binary64, b: Binary64)
    requires
        a.finite(),
        !b.nan(),
    ensures
        !ieee_sum(a, b).nan(),
{
    reveal(ieee_sum);
    if b.finite() {
        let exact = a.value() + b.value();
        if exact < 0 {
            law_overflow_begins_at_the_last_midpoint((-exact) as nat, 1);
        } else {
            law_overflow_begins_at_the_last_midpoint(exact as nat, 1);
        }
    }
}

/// A product is a NaN only of a NaN or of an infinity and a zero.
pub proof fn lemma_product_is_a_number(a: Binary64, b: Binary64)
    requires
        !a.nan(),
        b.finite(),
        b.magnitude() != 0,
    ensures
        !ieee_product(a, b).nan(),
{
    reveal(ieee_product);
    lemma_pow2_pos(UNIT_EXPONENT as nat);
    law_overflow_begins_at_the_last_midpoint(a.units() * b.units(), pow2(UNIT_EXPONENT as nat));
}

} // verus!
