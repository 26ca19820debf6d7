//! Binary floating-point rounding, stated and carried out on whole numbers.
//!
//! A number is a fraction `num / den`. A format that keeps a fixed count of
//! significant bits is given by its `limit`, two to that count: the numbers of
//! the format are the `m * 2^k` with `m < limit` and `k >= 0`, once everything
//! is measured in the format's smallest unit.
use vstd::arithmetic::div_mod::{
    lemma_basic_div, lemma_breakdown, lemma_div_by_multiple, lemma_div_denominator,
    lemma_div_is_ordered, lemma_div_multiples_vanish_quotient, lemma_div_nonincreasing,
    lemma_fundamental_div_mod, lemma_mod_multiples_basic, lemma_multiply_divide_lt, lemma_small_mod,
    lemma_truncate_middle,
};
use vstd::arithmetic::power2::{
    lemma2_to64, lemma_pow2_adds, lemma_pow2_pos, lemma_pow2_unfold, pow2,
};
use vstd::math::abs;
use vstd::prelude::*;

verus! {

/// Two to the number of significant bits of an IEEE 754 double.
pub const DOUBLE_LIMIT: u128 = 0x20_0000_0000_0000;

/// Two to the number of significant bits of an IEEE 754 single.
pub const SINGLE_LIMIT: u128 = 0x100_0000;

/// The whole number closest to `num / den`; of two that are equally close, the
/// even one.
pub open spec fn half_even(num: nat, den: nat) -> nat {
    let floor = num / den;
    let rest = num % den;
    if 2 * rest < den {
        floor
    } else if 2 * rest > den {
        floor + 1
    } else {
        floor + floor % 2
    }
}

/// How many low bits of `whole` have to go until less than `limit` is left.
pub open spec fn excess(whole: nat, limit: nat) -> nat
    decreases whole,
{
    if whole < limit || whole == 0 {
        0
    } else {
        1 + excess(whole / 2, limit)
    }
}

/// `num / den` rounded to the closest number of the format given by `limit`;
/// of two that are equally close, the one with the even significand.
pub open spec fn nearest(num: nat, den: nat, limit: nat) -> nat {
    let unit = pow2(excess(num / den, limit));
    half_even(num, den * unit) * unit
}

/// `nearest`, told by the whole part of the number and by whether anything is
/// left beside it.
pub open spec fn nearest_by_floor(whole: nat, inexact: bool, limit: nat) -> nat {
    let unit = pow2(excess(whole, limit));
    let kept = whole / unit;
    let dropped = whole % unit;
    if 2 * dropped > unit || (2 * dropped == unit && (inexact || kept % 2 == 1)) {
        (kept + 1) * unit
    } else {
        kept * unit
    }
}

/// Dropping `excess` bits leaves less than `limit`, and one bit fewer would not do.
pub proof fn lemma_excess_bounds(whole: nat, limit: nat)
    requires
        limit > 0,
    ensures
        whole / pow2(excess(whole, limit)) < limit,
        excess(whole, limit) > 0 ==> whole / pow2(excess(whole, limit)) >= limit / 2,
    decreases whole,
{
    let k = excess(whole, limit);
    lemma_pow2_pos(k);
    if k == 0 {
        assert(pow2(0) == 1) by {
            lemma2_to64();
        }
        assert(whole / 1 == whole);
    } else {
        let half = whole / 2;
        lemma_excess_bounds(half, limit);
        lemma_pow2_unfold(k);
        lemma_pow2_pos((k - 1) as nat);
        lemma_div_denominator(whole as int, 2, pow2((k - 1) as nat) as int);
        if k == 1 {
            assert(pow2(0) == 1) by {
                lemma2_to64();
            }
            assert(half >= limit / 2) by {
                lemma_div_is_ordered(limit as int, whole as int, 2);
            }
        }
    }
}

/// Bits that are dropped anyway may be dropped first.
pub proof fn lemma_excess_shift(whole: nat, k: nat, limit: nat)
    requires
        limit > 0,
        whole / pow2(k) >= limit,
    ensures
        excess(whole, limit) == k + excess(whole / pow2(k), limit),
    decreases k,
{
    lemma_pow2_pos(k);
    if k == 0 {
        assert(pow2(0) == 1) by {
            lemma2_to64();
        }
        assert(whole / 1 == whole);
    } else {
        let j = (k - 1) as nat;
        lemma_pow2_unfold(k);
        lemma_pow2_pos(j);
        lemma_div_denominator(whole as int, 2, pow2(j) as int);
        lemma_excess_shift(whole / 2, j, limit);
        assert(whole >= limit) by {
            lemma_div_nonincreasing(whole as int, pow2(k) as int);
        }
    }
}

/// Scaling both sides of a fraction leaves its rounding alone.
pub proof fn lemma_half_even_scaled(num: nat, den: nat, factor: nat)
    requires
        den > 0,
        factor > 0,
    ensures
        half_even(num * factor, den * factor) == half_even(num, den),
{
    assert(num * factor == factor * num && den * factor == factor * den) by (nonlinear_arith);
    lemma_div_multiples_vanish_quotient(factor as int, num as int, den as int);
    assert(factor * den > 0) by (nonlinear_arith)
        requires
            factor > 0,
            den > 0,
    ;
    lemma_truncate_middle(num as int, factor as int, den as int);
    let rest = num % den;
    assert((num * factor) % (den * factor) == factor * rest);
    assert(2 * (factor * rest) < factor * den <==> 2 * rest < den) by (nonlinear_arith)
        requires
            factor > 0,
    ;
    assert(2 * (factor * rest) > factor * den <==> 2 * rest > den) by (nonlinear_arith)
        requires
            factor > 0,
    ;
}

/// A number that is not below `limit` can be measured in a unit a power of two
/// finer before it is rounded.
pub proof fn lemma_nearest_scaled(num: nat, den: nat, k: nat, limit: nat)
    requires
        den > 0,
        limit > 0,
        num / den >= limit,
    ensures
        nearest(num * pow2(k), den, limit) == nearest(num, den, limit) * pow2(k),
{
    let factor = pow2(k);
    lemma_pow2_pos(k);
    let whole = num / den;
    let fine = (num * factor) / den;
    assert(fine / factor == whole) by {
        lemma_div_denominator((num * factor) as int, den as int, factor as int);
        assert(num * factor == factor * num && den * factor == factor * den) by (nonlinear_arith);
        lemma_div_multiples_vanish_quotient(factor as int, num as int, den as int);
    }
    lemma_excess_shift(fine, k, limit);
    let g = excess(whole, limit);
    lemma_pow2_pos(g);
    lemma_pow2_adds(k, g);
    let unit = pow2(g);
    assert(den * (factor * unit) == (den * unit) * factor) by (nonlinear_arith);
    assert(den * unit > 0) by (nonlinear_arith)
        requires
            den > 0,
            unit > 0,
    ;
    lemma_half_even_scaled(num, den * unit, factor);
    let r = half_even(num, den * unit);
    assert(r * (factor * unit) == (r * unit) * factor) by (nonlinear_arith);
}

/// The whole part of a number, and whether it is all of it, settle how the number
/// is rounded, once it has more bits than the format keeps or is whole.
pub proof fn lemma_nearest_by_floor(num: nat, den: nat, limit: nat)
    requires
        den > 0,
        limit > 0,
        num / den >= limit || num % den == 0,
    ensures
        nearest(num, den, limit) == nearest_by_floor(num / den, num % den > 0, limit),
{
    let whole = num / den;
    let left = num % den;
    let g = excess(whole, limit);
    let unit = pow2(g);
    lemma_pow2_pos(g);
    let kept = whole / unit;
    let dropped = whole % unit;
    lemma_div_denominator(num as int, den as int, unit as int);
    lemma_breakdown(num as int, den as int, unit as int);
    let rest = num % (den * unit);
    assert(rest == den * dropped + left);
    if g == 0 {
        assert(pow2(0) == 1) by {
            lemma2_to64();
        }
        assert(left == 0);
        assert(dropped == 0);
        assert(den * 0 == 0 && den * 1 == den) by (nonlinear_arith);
    } else {
        lemma_pow2_unfold(g);
        let half = pow2((g - 1) as nat);
        if dropped < half {
            assert(2 * (den * dropped + left) < den * unit) by (nonlinear_arith)
                requires
                    dropped + 1 <= half,
                    unit == 2 * half,
                    left < den,
            ;
        } else if dropped > half {
            assert(2 * (den * dropped + left) > den * unit) by (nonlinear_arith)
                requires
                    dropped >= half + 1,
                    unit == 2 * half,
                    den > 0,
                    left >= 0,
            ;
        } else {
            assert(2 * (den * dropped + left) == den * unit + 2 * left) by (nonlinear_arith)
                requires
                    dropped == half,
                    unit == 2 * half,
            ;
        }
    }
}

/// What `half_even` gives lies within one half, and is even where it is off by one half.
pub proof fn lemma_half_even_bounds(num: nat, den: nat)
    requires
        den > 0,
    ensures
        ({
            let r = half_even(num, den);
            &&& 2 * (r * den) <= 2 * num + den
            &&& 2 * num <= 2 * (r * den) + den
            &&& 2 * (r * den) == 2 * num + den ==> r % 2 == 0
            &&& 2 * num == 2 * (r * den) + den ==> r % 2 == 0
            &&& num / den <= r <= num / den + 1
            &&& num % den == 0 ==> r == num / den
        }),
{
    let floor = num / den;
    let rest = num % den;
    lemma_fundamental_div_mod(num as int, den as int);
    assert(den * floor == floor * den) by (nonlinear_arith);
    assert((floor + 1) * den == floor * den + den) by (nonlinear_arith);
}

/// Rounding to whole numbers keeps the order.
proof fn lemma_half_even_monotone(num1: nat, den1: nat, num2: nat, den2: nat)
    requires
        den1 > 0,
        den2 > 0,
        num1 * den2 <= num2 * den1,
    ensures
        half_even(num1, den1) <= half_even(num2, den2),
{
    let r1 = half_even(num1, den1);
    let r2 = half_even(num2, den2);
    lemma_half_even_bounds(num1, den1);
    lemma_half_even_bounds(num2, den2);
    if r1 > r2 {
        assert(2 * (r1 * den1) * den2 <= (2 * num1 + den1) * den2) by (nonlinear_arith)
            requires
                2 * (r1 * den1) <= 2 * num1 + den1,
                den2 > 0,
        ;
        assert(2 * num2 * den1 <= (2 * (r2 * den2) + den2) * den1) by (nonlinear_arith)
            requires
                2 * num2 <= 2 * (r2 * den2) + den2,
                den1 > 0,
        ;
        let area = den1 * den2;
        assert(area > 0) by (nonlinear_arith)
            requires
                den1 > 0,
                den2 > 0,
                area == den1 * den2,
        ;
        assert(2 * (r1 * den1) * den2 == 2 * (r1 * area)) by (nonlinear_arith)
            requires
                area == den1 * den2,
        ;
        assert((2 * num1 + den1) * den2 == 2 * (num1 * den2) + area) by (nonlinear_arith)
            requires
                area == den1 * den2,
        ;
        assert((2 * (r2 * den2) + den2) * den1 == 2 * (r2 * area) + area) by (nonlinear_arith)
            requires
                area == den1 * den2,
        ;
        assert(2 * num2 * den1 == 2 * (num2 * den1)) by (nonlinear_arith);
        assert(r1 * area >= r2 * area + area) by (nonlinear_arith)
            requires
                r1 >= r2 + 1,
                area > 0,
        ;
        assert(r1 == r2 + 1) by (nonlinear_arith)
            requires
                r1 >= r2 + 1,
                area > 0,
                2 * (r1 * area) <= 2 * (r2 * area) + 2 * area,
        ;
        assert(2 * (r1 * area) == 2 * (num1 * den2) + area);
        assert(2 * (num2 * den1) == 2 * (r2 * area) + area);
        assert(2 * (r1 * den1) == 2 * num1 + den1) by (nonlinear_arith)
            requires
                2 * (r1 * den1) * den2 == (2 * num1 + den1) * den2,
                den2 > 0,
        ;
        assert(2 * num2 == 2 * (r2 * den2) + den2) by (nonlinear_arith)
            requires
                2 * num2 * den1 == (2 * (r2 * den2) + den2) * den1,
                den1 > 0,
        ;
        assert(false);
    }
}

/// A larger number has no fewer bits to drop.
proof fn lemma_excess_monotone(small: nat, large: nat, limit: nat)
    requires
        small <= large,
    ensures
        excess(small, limit) <= excess(large, limit),
    decreases large,
{
    if small >= limit && small > 0 {
        lemma_excess_monotone(small / 2, large / 2, limit);
    }
}

/// Where dropping `k` bits is enough, no more than `k` are dropped.
proof fn lemma_excess_at_most(whole: nat, k: nat, limit: nat)
    requires
        limit > 0,
        whole / pow2(k) < limit,
    ensures
        excess(whole, limit) <= k,
    decreases k,
{
    lemma_pow2_pos(k);
    if k == 0 {
        assert(pow2(0) == 1) by {
            lemma2_to64();
        }
        assert(whole / 1 == whole);
    } else if whole >= limit {
        let j = (k - 1) as nat;
        lemma_pow2_unfold(k);
        lemma_pow2_pos(j);
        lemma_div_denominator(whole as int, 2, pow2(j) as int);
        lemma_excess_at_most(whole / 2, j, limit);
    }
}

/// A larger power of two is a multiple of a smaller one.
proof fn lemma_pow2_splits(small: nat, large: nat)
    requires
        small <= large,
    ensures
        pow2(large) == pow2((large - small) as nat) * pow2(small),
        pow2((large - small) as nat) > 0,
        pow2(small) > 0,
{
    lemma_pow2_adds((large - small) as nat, small);
    lemma_pow2_pos((large - small) as nat);
    lemma_pow2_pos(small);
}

/// `m * 2^k` with `m < limit` is a number of the format.
pub open spec fn in_format(number: nat, m: nat, k: nat, limit: nat) -> bool {
    m < limit && number == m * pow2(k)
}

/// Rounding leaves the numbers of the format as they are.
pub proof fn law_rounding_keeps_format(number: nat, m: nat, k: nat, limit: nat)
    requires
        limit > 0,
        m < limit,
        number == m * pow2(k),
    ensures
        nearest(number, 1, limit) == number,
{
    lemma_pow2_pos(k);
    lemma_div_by_multiple(m as int, pow2(k) as int);
    lemma_excess_at_most(number, k, limit);
    let g = excess(number, limit);
    let unit = pow2(g);
    lemma_pow2_splits(g, k);
    let count = m * pow2((k - g) as nat);
    assert(number == count * unit) by (nonlinear_arith)
        requires
            number == m * pow2(k),
            pow2(k) == pow2((k - g) as nat) * unit,
            count == m * pow2((k - g) as nat),
    ;
    lemma_div_by_multiple(count as int, unit as int);
    lemma_mod_multiples_basic(count as int, unit as int);
    assert(1 * unit == unit);
    assert(number / 1 == number);
}

/// Rounding keeps the order of numbers.
pub proof fn law_rounding_is_monotone(num1: nat, den1: nat, num2: nat, den2: nat, limit: nat)
    requires
        den1 > 0,
        den2 > 0,
        limit > 0,
        limit % 2 == 0,
        num1 * den2 <= num2 * den1,
    ensures
        nearest(num1, den1, limit) <= nearest(num2, den2, limit),
{
    let whole1 = num1 / den1;
    let whole2 = num2 / den2;
    assert(whole1 <= whole2) by {
        lemma_div_multiples_vanish_quotient(den2 as int, num1 as int, den1 as int);
        lemma_div_multiples_vanish_quotient(den1 as int, num2 as int, den2 as int);
        assert(den1 * den2 > 0) by (nonlinear_arith)
            requires
                den1 > 0,
                den2 > 0,
        ;
        assert(den2 * num1 == num1 * den2 && den1 * num2 == num2 * den1 && den2 * den1 == den1
            * den2) by (nonlinear_arith);
        lemma_div_is_ordered((num1 * den2) as int, (num2 * den1) as int, (den1 * den2) as int);
    }
    lemma_excess_monotone(whole1, whole2, limit);
    let g1 = excess(whole1, limit);
    let g2 = excess(whole2, limit);
    let unit1 = pow2(g1);
    let unit2 = pow2(g2);
    lemma_pow2_splits(g1, g2);
    lemma_pow2_pos(g2);
    let scaled1 = den1 * unit1;
    let scaled2 = den2 * unit2;
    assert(scaled1 > 0 && scaled2 > 0) by (nonlinear_arith)
        requires
            scaled1 == den1 * unit1,
            scaled2 == den2 * unit2,
            den1 > 0,
            den2 > 0,
            unit1 > 0,
            unit2 > 0,
    ;
    let r1 = half_even(num1, scaled1);
    let r2 = half_even(num2, scaled2);
    if g1 == g2 {
        assert(num1 * (den2 * unit1) <= num2 * (den1 * unit1)) by (nonlinear_arith)
            requires
                num1 * den2 <= num2 * den1,
                unit1 > 0,
        ;
        lemma_half_even_monotone(num1, scaled1, num2, scaled2);
        assert(r1 * unit1 <= r2 * unit1) by (nonlinear_arith)
            requires
                r1 <= r2,
                unit1 > 0,
        ;
    } else {
        lemma_excess_bounds(whole1, limit);
        lemma_excess_bounds(whole2, limit);
        lemma_div_denominator(num1 as int, den1 as int, unit1 as int);
        lemma_div_denominator(num2 as int, den2 as int, unit2 as int);
        lemma_half_even_bounds(num1, scaled1);
        lemma_half_even_bounds(num2, scaled2);
        let half = limit / 2;
        lemma_pow2_splits(g1 + 1, g2);
        lemma_pow2_unfold(g1 + 1);
        let spread = pow2((g2 - g1 - 1) as nat);
        assert(r1 * unit1 <= limit * unit1) by (nonlinear_arith)
            requires
                r1 <= limit,
                unit1 > 0,
        ;
        assert(half * unit2 >= limit * unit1) by (nonlinear_arith)
            requires
                limit == 2 * half,
                unit2 == spread * (2 * unit1),
                spread >= 1,
        ;
        assert(half * unit2 <= r2 * unit2) by (nonlinear_arith)
            requires
                half <= r2,
                unit2 > 0,
        ;
    }
}

/// A number below a power of two rounds to no more than that power.
pub proof fn lemma_nearest_below_pow2(num: nat, den: nat, m: nat, limit: nat)
    requires
        den > 0,
        limit >= 2,
        limit % 2 == 0,
        num <= den * pow2(m),
    ensures
        nearest(num, den, limit) <= pow2(m),
{
    assert(1 * pow2(m) == pow2(m));
    assert(num * 1 <= pow2(m) * den) by (nonlinear_arith)
        requires
            num <= den * pow2(m),
    ;
    law_rounding_is_monotone(num, den, pow2(m), 1, limit);
    law_rounding_keeps_format(pow2(m), 1, m, limit);
}

/// A number that is a power of two or more rounds to no less than that power.
pub proof fn lemma_nearest_above_pow2(num: nat, den: nat, m: nat, limit: nat)
    requires
        den > 0,
        limit >= 2,
        limit % 2 == 0,
        num >= den * pow2(m),
    ensures
        nearest(num, den, limit) >= pow2(m),
{
    assert(1 * pow2(m) == pow2(m));
    assert(pow2(m) * den <= num * 1) by (nonlinear_arith)
        requires
            num >= den * pow2(m),
    ;
    law_rounding_is_monotone(pow2(m), 1, num, den, limit);
    law_rounding_keeps_format(pow2(m), 1, m, limit);
}

/// A number rounds to zero exactly when it is no more than half the smallest unit.
pub proof fn lemma_nearest_is_zero(num: nat, den: nat, limit: nat)
    requires
        den > 0,
        limit >= 2,
        limit % 2 == 0,
    ensures
        nearest(num, den, limit) == 0 <==> 2 * num <= den,
{
    lemma2_to64();
    if num < den {
        lemma_basic_div(num as int, den as int);
        lemma_small_mod(num, den);
        assert(excess(0, limit) == 0);
        assert(den * pow2(0) == den);
        assert(nearest(num, den, limit) == half_even(num, den) * 1);
        assert(half_even(num, den) == if 2 * num <= den { 0nat } else { 1nat });
    } else {
        assert(den * pow2(0) == den);
        lemma_nearest_above_pow2(num, den, 0, limit);
        assert(nearest(num, den, limit) >= 1);
    }
}

/// A number whose whole part, measured in units of `2^k`, just fits in the format is
/// rounded to a multiple of that unit.
pub proof fn lemma_nearest_at_unit(num: nat, den: nat, k: nat, limit: nat)
    requires
        den > 0,
        limit > 0,
        limit % 2 == 0,
        limit / 2 <= num / den < limit,
    ensures
        nearest(num * pow2(k), den, limit) == half_even(num, den) * pow2(k),
{
    let factor = pow2(k);
    lemma_pow2_pos(k);
    let whole = num / den;
    let fine = (num * factor) / den;
    assert(num * factor == factor * num && den * factor == factor * den) by (nonlinear_arith);
    assert(fine / factor == whole) by {
        lemma_div_denominator((num * factor) as int, den as int, factor as int);
        lemma_div_multiples_vanish_quotient(factor as int, num as int, den as int);
    }
    lemma_excess_at_most(fine, k, limit);
    if k > 0 {
        let j = (k - 1) as nat;
        let part = pow2(j);
        lemma_pow2_unfold(k);
        lemma_pow2_pos(j);
        lemma_div_denominator(fine as int, part as int, 2);
        assert(part * 2 == factor);
        assert(fine / part >= limit);
        lemma_excess_shift(fine, j, limit);
    }
    assert(excess(fine, limit) == k);
    lemma_half_even_scaled(num, den, factor);
}

/// A whole number that fits in the format once `s` bits are dropped, and not before, is
/// rounded to a multiple of `2^s`, in whatever unit it is measured.
pub proof fn lemma_nearest_of_whole(whole: nat, s: nat, k: nat, limit: nat)
    requires
        limit > 0,
        limit % 2 == 0,
        limit / 2 <= whole / pow2(s) < limit,
    ensures
        nearest(whole * pow2(k), 1, limit) == half_even(whole, pow2(s)) * pow2(s + k),
{
    let step = pow2(s);
    lemma_pow2_pos(s);
    lemma_nearest_at_unit(whole, step, s + k, limit);
    lemma_pow2_adds(s, k);
    let fine = whole * pow2(k);
    let scaled = whole * pow2(s + k);
    assert(fine * step == scaled * 1) by (nonlinear_arith)
        requires
            fine == whole * pow2(k),
            scaled == whole * pow2(s + k),
            pow2(s + k) == step * pow2(k),
    ;
    law_rounding_is_monotone(fine, 1, scaled, step, limit);
    law_rounding_is_monotone(scaled, step, fine, 1, limit);
}

/// A number that dropping `k` bits fits in the format is off by half of `2^k` at most once
/// it is rounded.
pub proof fn lemma_nearest_error(num: nat, den: nat, k: nat, limit: nat)
    requires
        den > 0,
        limit > 0,
        num < den * (limit * pow2(k)),
    ensures
        2 * distance(nearest(num, den, limit) * den, num) <= den * pow2(k),
{
    let whole = num / den;
    lemma_pow2_pos(k);
    lemma_multiply_divide_lt(num as int, den as int, (limit * pow2(k)) as int);
    assert(whole < pow2(k) * limit) by (nonlinear_arith)
        requires
            whole < limit * pow2(k),
    ;
    lemma_multiply_divide_lt(whole as int, pow2(k) as int, limit as int);
    lemma_excess_at_most(whole, k, limit);
    let g = excess(whole, limit);
    let unit = pow2(g);
    lemma_pow2_splits(g, k);
    let coarse = pow2((k - g) as nat);
    assert(den * unit > 0) by (nonlinear_arith)
        requires
            den > 0,
            unit > 0,
    ;
    lemma_half_even_bounds(num, den * unit);
    let r = half_even(num, den * unit);
    assert((r * unit) * den == r * (den * unit)) by (nonlinear_arith);
    assert(den * unit <= den * pow2(k)) by (nonlinear_arith)
        requires
            pow2(k) == coarse * unit,
            coarse >= 1,
    ;
}

/// No number of the format is closer to `num / den` than the one it is rounded to.
pub proof fn law_rounding_is_closest(
    num: nat,
    den: nat,
    other: nat,
    m: nat,
    k: nat,
    limit: nat,
)
    requires
        den > 0,
        limit > 0,
        limit % 2 == 0,
        m < limit,
        other == m * pow2(k),
    ensures
        distance(nearest(num, den, limit) * den, num) <= distance(other * den, num),
        abs(nearest(num, den, limit) * den - num) <= abs(other * den - num),
{
    let whole = num / den;
    let g = excess(whole, limit);
    let unit = pow2(g);
    lemma_pow2_pos(g);
    let scaled = den * unit;
    assert(scaled > 0) by (nonlinear_arith)
        requires
            scaled == den * unit,
            den > 0,
            unit > 0,
    ;
    let r = half_even(num, scaled);
    lemma_half_even_bounds(num, scaled);
    assert((r * unit) * den == r * scaled) by (nonlinear_arith)
        requires
            scaled == den * unit,
    ;
    if k >= g {
        lemma_pow2_splits(g, k);
        let count = m * pow2((k - g) as nat);
        assert(other * den == count * scaled) by (nonlinear_arith)
            requires
                other == m * pow2(k),
                pow2(k) == pow2((k - g) as nat) * unit,
                count == m * pow2((k - g) as nat),
                scaled == den * unit,
        ;
        if count > r {
            assert(count * scaled >= r * scaled + scaled) by (nonlinear_arith)
                requires
                    count >= r + 1,
                    scaled > 0,
            ;
        } else if count < r {
            assert(count * scaled + scaled <= r * scaled) by (nonlinear_arith)
                requires
                    count + 1 <= r,
                    scaled > 0,
            ;
        }
    } else {
        // `other` lies below the binade of the number, whose lowest member is closer.
        let half = limit / 2;
        lemma_excess_bounds(whole, limit);
        lemma_div_denominator(num as int, den as int, unit as int);
        let floor = num / scaled;
        lemma_fundamental_div_mod(num as int, scaled as int);
        assert(half * scaled <= num) by (nonlinear_arith)
            requires
                half <= floor,
                num >= scaled * floor,
                scaled > 0,
        ;
        lemma_pow2_splits(k + 1, g);
        lemma_pow2_unfold(k + 1);
        let spread = pow2((g - k - 1) as nat);
        let fine = pow2(k);
        lemma_pow2_pos(k);
        assert(other * den <= half * scaled) by (nonlinear_arith)
            requires
                other == m * fine,
                m < limit,
                limit == 2 * half,
                scaled == den * unit,
                unit == spread * (2 * fine),
                spread >= 1,
                fine > 0,
        ;
        if r > half {
            assert(half * scaled + scaled <= r * scaled) by (nonlinear_arith)
                requires
                    half + 1 <= r,
                    scaled > 0,
            ;
        }
    }
}

/// A whole part that fits in the format is kept, whether it is all of the number or not. One
/// that does not fit, or that is all of the number, is rounded as the number is.
pub proof fn law_whole_part_settles_rounding(num: nat, den: nat, limit: nat)
    requires
        den > 0,
        limit > 0,
    ensures
        num / den < limit ==> nearest_by_floor(num / den, num % den > 0, limit) == num / den,
        num / den >= limit || num % den == 0 ==> nearest_by_floor(num / den, num % den > 0, limit)
            == nearest(num, den, limit),
{
    let whole = num / den;
    if whole >= limit || num % den == 0 {
        lemma_nearest_by_floor(num, den, limit);
    }
    if whole < limit {
        lemma2_to64();
        assert(excess(whole, limit) == 0);
        assert(whole / 1 == whole && whole % 1 == 0);
        assert(whole * 1 == whole);
    }
}

/// What a number is rounded to is a number of the format.
pub proof fn law_rounding_lands_in_format(num: nat, den: nat, limit: nat) -> (parts: (nat, nat))
    requires
        den > 0,
        limit > 0,
        limit % 2 == 0,
    ensures
        parts.0 < limit,
        nearest(num, den, limit) == parts.0 * pow2(parts.1),
        in_format(nearest(num, den, limit), parts.0, parts.1, limit),
{
    let whole = num / den;
    let g = excess(whole, limit);
    let unit = pow2(g);
    lemma_pow2_pos(g);
    assert(den * unit > 0) by (nonlinear_arith)
        requires
            den > 0,
            unit > 0,
    ;
    lemma_excess_bounds(whole, limit);
    lemma_div_denominator(num as int, den as int, unit as int);
    lemma_half_even_bounds(num, den * unit);
    let r = half_even(num, den * unit);
    if r < limit {
        (r, g)
    } else {
        let half = limit / 2;
        lemma_pow2_unfold(g + 1);
        assert(r * unit == half * (2 * unit)) by (nonlinear_arith)
            requires
                r == 2 * half,
        ;
        (half, g + 1)
    }
}

/// Where another number of the format is just as close, the one with the even significand is
/// taken: it is a multiple of twice what lies between the two.
pub proof fn law_ties_go_to_even(num: nat, den: nat, m: nat, k: nat, limit: nat)
    requires
        den > 0,
        limit > 0,
        limit % 2 == 0,
        m < limit,
        m * pow2(k) != nearest(num, den, limit),
        abs(m * pow2(k) * den - num) == abs(nearest(num, den, limit) * den - num),
    ensures
        nearest(num, den, limit) as int % (2 * abs(nearest(num, den, limit) - m * pow2(k))) as int
            == 0,
{
    let other = m * pow2(k);
    let whole = num / den;
    let g = excess(whole, limit);
    let unit = pow2(g);
    lemma_pow2_pos(g);
    let scaled = den * unit;
    assert(scaled > 0) by (nonlinear_arith)
        requires
            scaled == den * unit,
            den > 0,
            unit > 0,
    ;
    let r = half_even(num, scaled);
    lemma_half_even_bounds(num, scaled);
    assert((r * unit) * den == r * scaled) by (nonlinear_arith)
        requires
            scaled == den * unit,
    ;
    let count: nat = if k >= g {
        m * pow2((k - g) as nat)
    } else {
        limit / 2
    };
    assert(other == count * unit) by {
        if k >= g {
            lemma_pow2_splits(g, k);
            assert(other == count * unit) by (nonlinear_arith)
                requires
                    other == m * pow2(k),
                    pow2(k) == pow2((k - g) as nat) * unit,
                    count == m * pow2((k - g) as nat),
            ;
        } else {
            // `other` is no more than the lowest number of the binade, and that is closer
            // unless the two are the same.
            let half = limit / 2;
            lemma_excess_bounds(whole, limit);
            lemma_div_denominator(num as int, den as int, unit as int);
            let floor = num / scaled;
            lemma_fundamental_div_mod(num as int, scaled as int);
            assert(half * scaled <= num) by (nonlinear_arith)
                requires
                    half <= floor,
                    num >= scaled * floor,
                    scaled > 0,
            ;
            lemma_pow2_splits(k + 1, g);
            lemma_pow2_unfold(k + 1);
            let spread = pow2((g - k - 1) as nat);
            let fine = pow2(k);
            lemma_pow2_pos(k);
            assert(other <= half * unit) by (nonlinear_arith)
                requires
                    other == m * fine,
                    m < limit,
                    limit == 2 * half,
                    unit == spread * (2 * fine),
                    spread >= 1,
                    fine > 0,
            ;
            law_rounding_is_closest(num, den, half * unit, half, g, limit);
            assert((half * unit) * den == half * scaled) by (nonlinear_arith)
                requires
                    scaled == den * unit,
            ;
            if other < half * unit {
                assert(other * den < (half * unit) * den) by (nonlinear_arith)
                    requires
                        other < half * unit,
                        den > 0,
                ;
            }
        }
    }
    assert(other * den == count * scaled) by (nonlinear_arith)
        requires
            other == count * unit,
            scaled == den * unit,
    ;
    // Both are half a unit away, on either side.
    let apart: int = count - r;
    assert(apart * scaled == count * scaled - r * scaled) by (nonlinear_arith)
        requires
            apart == count - r,
    ;
    assert(apart != 0);
    assert(apart == 1 || apart == -1) by (nonlinear_arith)
        requires
            apart != 0,
            -scaled <= apart * scaled <= scaled,
            scaled > 0,
    ;
    assert(r % 2 == 0);
    let even = r / 2;
    assert(nearest(num, den, limit) == even * (2 * unit)) by (nonlinear_arith)
        requires
            nearest(num, den, limit) == r * unit,
            r == 2 * even,
    ;
    assert(abs(nearest(num, den, limit) - other) == unit) by (nonlinear_arith)
        requires
            nearest(num, den, limit) == r * unit,
            other == count * unit,
            count - r == 1 || count - r == -1,
            unit > 0,
    ;
    lemma_mod_multiples_basic(even as int, (2 * unit) as int);
}

/// How far two numbers are apart.
pub open spec fn distance(a: nat, b: nat) -> nat {
    if a < b {
        (b - a) as nat
    } else {
        (a - b) as nat
    }
}

/// Rounds to the format given by `limit` a number of which only the whole part
/// is at hand, with a note on whether anything is left beside it.
pub fn round_to_format(whole: u128, inexact: bool, limit: u128) -> (rounded: u128)
    requires
        0 < limit,
        whole < 0x4000_0000_0000_0000_0000_0000_0000_0000,
    ensures
        rounded == nearest_by_floor(whole as nat, inexact, limit as nat),
{
    let mut unit: u128 = 1;
    let mut kept: u128 = whole;
    let ghost mut g: nat = 0;
    proof {
        lemma2_to64();
    }
    while kept >= limit
        invariant
            0 < limit,
            whole < 0x4000_0000_0000_0000_0000_0000_0000_0000,
            unit == pow2(g),
            unit == 1 || unit <= 2 * whole,
            unit > 0,
            kept == whole / unit,
            excess(whole as nat, limit as nat) == g + excess(kept as nat, limit as nat),
        decreases kept,
    {
        proof {
            lemma_pow2_unfold(g + 1);
            lemma_div_denominator(whole as int, unit as int, 2);
            assert(unit <= whole) by (nonlinear_arith)
                requires
                    kept == whole / unit,
                    kept >= 1,
                    unit > 0,
            ;
            g = g + 1;
        }
        kept = kept / 2;
        unit = unit * 2;
    }
    let dropped: u128 = whole % unit;
    proof {
        assert(excess(kept as nat, limit as nat) == 0);
        lemma_fundamental_div_mod(whole as int, unit as int);
        assert((kept + 1) * unit == kept * unit + unit) by (nonlinear_arith);
        assert(unit * kept == kept * unit) by (nonlinear_arith);
    }
    if dropped > unit - dropped || (dropped == unit - dropped && (inexact || kept % 2 == 1)) {
        (kept + 1) * unit
    } else {
        kept * unit
    }
}

} // verus!
