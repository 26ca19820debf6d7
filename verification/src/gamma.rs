//! Gamma ramps.
use crate::monotone::is_rising;
use crate::rounding::{
    half_even, law_rounding_is_closest, law_rounding_is_monotone, law_rounding_keeps_format,
    law_rounding_lands_in_format, lemma_half_even_bounds,
    lemma_nearest_at_unit, lemma_nearest_below_pow2, lemma_nearest_by_floor, lemma_nearest_error,
    lemma_nearest_is_zero, lemma_nearest_of_whole, lemma_nearest_scaled, nearest, round_to_format,
    SINGLE_LIMIT,
};
use crate::settings::curves;
use vstd::arithmetic::div_mod::{
    lemma_basic_div, lemma_div_denominator, lemma_div_is_ordered, lemma_div_multiples_vanish,
    lemma_div_multiples_vanish_quotient, lemma_fundamental_div_mod, lemma_multiply_divide_lt,
};
use vstd::arithmetic::power2::{
    lemma2_to64, lemma2_to64_rest, lemma_pow2_adds, lemma_pow2_pos, lemma_pow2_unfold, pow2,
};
use vstd::math::abs;
use vstd::prelude::*;

verus! {

/// Bits of a single that hold its fraction.
pub const FRACTION_SPAN: u32 = 0x80_0000;

/// The single that stands for infinity. Below it are all that are finite and not negative.
pub const INFINITE: u32 = 0x7f80_0000;

/// The single that stands for one.
pub const SINGLE_ONE: u32 = 0x3f80_0000;

/// The sign bit of a single.
pub open spec fn single_negative(bits: u32) -> bool {
    bits >= 0x8000_0000
}

/// The exponent field of a single.
pub open spec fn single_exponent(bits: u32) -> nat {
    (bits % 0x8000_0000) as nat / FRACTION_SPAN as nat
}

/// The fraction field of a single.
pub open spec fn single_fraction(bits: u32) -> nat {
    bits as nat % FRACTION_SPAN as nat
}

/// The size of a finite single, counted in units of two to the power -149, the smallest
/// single there is.
pub open spec fn single_size(bits: u32) -> nat {
    if single_exponent(bits) == 0 {
        single_fraction(bits)
    } else {
        (FRACTION_SPAN as nat + single_fraction(bits)) * pow2((single_exponent(bits) - 1) as nat)
    }
}

/// The value of a curve that a factor gives: the factor times 65535 in single precision,
/// cut off to a whole number and kept within sixteen bits. What is no number gives zero.
pub open spec fn factor_sample(bits: u32) -> nat {
    if single_negative(bits) {
        0
    } else if single_exponent(bits) == 255 {
        if single_fraction(bits) == 0 {
            65535
        } else {
            0
        }
    } else {
        let product = nearest(single_size(bits) * 65535, 1, SINGLE_LIMIT as nat) / pow2(149);
        if product > 65535 {
            65535
        } else {
            product
        }
    }
}

/// The ramp that a list of factors gives.
pub open spec fn ramp_of(factors: Seq<u32>) -> Seq<u16> {
    factors.map_values(|bits: u32| factor_sample(bits) as u16)
}

/// The whole part of `number * 2^shift / 2^149`, or 65535 where that is less.
fn shifted_down(number: u128, shift: u32) -> (value: u16)
    requires
        number < 0x1_0000_0000_0000,
        number == 0 || number >= 65535,
        shift < 255,
    ensures
        value == ({
            let whole = (number * pow2(shift as nat)) / pow2(149) as int;
            if whole > 65535 {
                65535
            } else {
                whole
            }
        }),
{
    let mut value: u128 = number;
    let mut k: u32 = shift;
    proof {
        lemma2_to64();
        lemma_pow2_pos(149);
        lemma_pow2_pos(shift as nat);
    }
    if shift >= 149 {
        proof {
            lemma_pow2_adds(149, (shift - 149) as nat);
            let rest = pow2((shift - 149) as nat);
            lemma_pow2_pos((shift - 149) as nat);
            assert(number * (pow2(149) * rest) == pow2(149) * (number * rest))
                by (nonlinear_arith);
            lemma_div_multiples_vanish(
                number * rest,
                pow2(149) as int,
            );
            assert(number > 0 ==> number * rest >= 65535) by (nonlinear_arith)
                requires
                    number == 0 || number >= 65535,
                    rest >= 1,
            ;
            assert(0 * rest == 0);
        }
        return if number == 0 { 0 } else { 65535 };
    }
    proof {
        lemma_pow2_adds(shift as nat, (149 - shift) as nat);
        let scale = pow2(shift as nat);
        let rest = pow2((149 - shift) as nat);
        lemma_pow2_pos((149 - shift) as nat);
        assert(number * scale == scale * number) by (nonlinear_arith);
        lemma_div_multiples_vanish_quotient(scale as int, number as int, rest as int);
        assert(number / 1 == number);
    }
    while k < 149
        invariant
            shift <= k <= 149,
            value == number as int / pow2((k - shift) as nat) as int,
            number < 0x1_0000_0000_0000,
        decreases 149 - k,
    {
        proof {
            let done = (k - shift) as nat;
            lemma_pow2_unfold(done + 1);
            lemma_pow2_pos(done);
            lemma_div_denominator(number as int, pow2(done) as int, 2);
        }
        value = value / 2;
        k = k + 1;
    }
    if value > 65535 {
        65535
    } else {
        value as u16
    }
}

/// The value of a curve that a factor, given by the bits of a single, gives.
pub fn sample_from_factor(bits: u32) -> (sample: u16)
    ensures
        sample == factor_sample(bits),
{
    if bits >= 0x8000_0000 {
        return 0;
    }
    let exponent: u32 = bits / FRACTION_SPAN;
    let fraction: u32 = bits % FRACTION_SPAN;
    if exponent == 255 {
        return if fraction == 0 { 65535 } else { 0 };
    }
    let shift: u32 = if exponent == 0 { 0 } else { exponent - 1 };
    let significand: u32 = if exponent == 0 { fraction } else { FRACTION_SPAN + fraction };
    let wide: u128 = significand as u128 * 65535;
    let rounded = round_to_format(wide, false, SINGLE_LIMIT);
    proof {
        let limit = SINGLE_LIMIT as nat;
        lemma2_to64();
        assert(wide as nat / 1 == wide && wide as nat % 1 == 0);
        lemma_nearest_by_floor(wide as nat, 1, limit);
        let scale = pow2(shift as nat);
        assert(single_size(bits) == significand * scale) by {
            assert(significand * 1 == significand);
        }
        assert(single_size(bits) * 65535 == wide * scale) by (nonlinear_arith)
            requires
                single_size(bits) == significand * scale,
                wide == significand * 65535,
        ;
        if wide >= limit {
            lemma_nearest_scaled(wide as nat, 1, shift as nat, limit);
        } else {
            law_rounding_keeps_format((wide * scale) as nat, wide as nat, shift as nat, limit);
            assert(wide * 1 == wide);
            law_rounding_keeps_format(wide as nat, wide as nat, 0, limit);
        }
        assert(wide <= 1 * pow2(40)) by {
            lemma2_to64_rest();
        }
        lemma_nearest_below_pow2(wide as nat, 1, 40, limit);
        lemma2_to64_rest();
        if significand == 0 {
            lemma_nearest_is_zero(0, 1, limit);
        } else {
            assert(65535 * pow2(0) == 65535);
            law_rounding_keeps_format(65535, 65535, 0, limit);
            law_rounding_is_monotone(65535, 1, wide as nat, 1, limit);
        }
    }
    shifted_down(rounded, shift)
}

/// The single closest to `n / 255`, counted in units of two to the power -149.
pub open spec fn step_of(n: nat) -> nat {
    nearest(n * pow2(149), 255, SINGLE_LIMIT as nat)
}

/// The bits of the single closest to `n / 255`.
pub fn step_bits(n: u8) -> (bits: u32)
    ensures
        bits < INFINITE,
        single_size(bits) == step_of(n as nat),
{
    let ghost limit = SINGLE_LIMIT as nat;
    if n == 0 {
        proof {
            assert(0 * pow2(149) == 0);
            lemma_nearest_is_zero(0, 255, limit);
        }
        return 0;
    }
    let mut num: u64 = n as u64;
    let mut shift: u32 = 0;
    proof {
        lemma2_to64();
        assert(n * 1 == n);
    }
    while num / 255 < 0x80_0000
        invariant
            n > 0,
            num == n * pow2(shift as nat),
            num / 255 < 0x100_0000,
            shift <= 31,
        decreases 31 - shift,
    {
        proof {
            lemma2_to64();
            lemma_pow2_unfold((shift + 1) as nat);
            assert(n * pow2(shift as nat) >= pow2(shift as nat)) by (nonlinear_arith)
                requires
                    n >= 1,
            ;
            assert(n * (2 * pow2(shift as nat)) == 2 * (n * pow2(shift as nat)))
                by (nonlinear_arith);
            assert(shift < 31);
        }
        num = num * 2;
        shift = shift + 1;
    }
    let significand: u64 = if num % 255 > 127 { num / 255 + 1 } else { num / 255 };
    let bits: u32 = (149 - shift) * FRACTION_SPAN + significand as u32;
    proof {
        let k = (149 - shift) as nat;
        lemma_nearest_at_unit(num as nat, 255, k, limit);
        lemma_pow2_adds(shift as nat, k);
        assert(num * pow2(k) == n * pow2(149)) by (nonlinear_arith)
            requires
                num == n * pow2(shift as nat),
                pow2(149) == pow2(shift as nat) * pow2(k),
        ;
        assert(significand == half_even(num as nat, 255));
        assert(step_of(n as nat) == significand * pow2(k));
        lemma_pow2_unfold(k + 1);
        if significand == 0x100_0000 {
            assert(single_exponent(bits) == k + 2);
            assert(single_fraction(bits) == 0);
            assert(single_size(bits) == 0x80_0000 * pow2(k + 1));
            assert(significand * pow2(k) == 0x100_0000 * pow2(k));
        } else {
            assert(single_exponent(bits) == k + 1);
            assert(FRACTION_SPAN as nat + single_fraction(bits) == significand);
            assert(single_size(bits) == significand * pow2(k));
        }
    }
    bits
}

/// The steps from 0 to 1 that a ramp is made of, as the bits of singles: raised to the
/// power of one divided by gamma, they are the factors of the ramp.
pub fn ramp_steps() -> (steps: Vec<u32>)
    ensures
        steps.len() == 256,
        forall|n: int|
            0 <= n < 256 ==> #[trigger] steps@[n] < INFINITE && single_size(steps@[n]) == step_of(
                n as nat,
            ),
{
    let mut steps: Vec<u32> = Vec::new();
    let mut n: u8 = 0;
    steps.push(step_bits(0));
    while n < 255
        invariant
            steps.len() == n + 1,
            forall|i: int|
                0 <= i <= n ==> #[trigger] steps@[i] < INFINITE && single_size(steps@[i])
                    == step_of(i as nat),
        decreases 255 - n,
    {
        n = n + 1;
        steps.push(step_bits(n));
    }
    steps
}

/// Generates a gamma correction curve for each of the three colours. `factors` holds, as
/// the bits of singles, what every value is multiplied by.
pub fn generate_gamma_curve(factors: &Vec<u32>) -> (channels: Vec<Vec<u16>>)
    ensures
        curves(channels@) == seq![ramp_of(factors@), ramp_of(factors@), ramp_of(factors@)],
        channels@.len() == 3,
        forall|k: int|
            0 <= k < 3 ==> {
                &&& (#[trigger] channels@[k])@.len() == factors@.len()
                &&& forall|n: int|
                    0 <= n < factors@.len() ==> #[trigger] channels@[k]@[n] == factor_sample(
                        factors@[n],
                    )
            },
{
    let mut channels: Vec<Vec<u16>> = Vec::new();
    let ghost ramp = ramp_of(factors@);
    channels.push(single_ramp(factors));
    channels.push(single_ramp(factors));
    channels.push(single_ramp(factors));
    assert(curves(channels@) == seq![ramp, ramp, ramp]);
    channels
}

/// The ramp that a list of factors gives.
pub fn single_ramp(factors: &Vec<u32>) -> (ramp: Vec<u16>)
    ensures
        ramp@ == ramp_of(factors@),
        ramp@.len() == factors@.len(),
        forall|n: int| 0 <= n < ramp@.len() ==> #[trigger] ramp@[n] == factor_sample(factors@[n]),
{
    let mut ramp: Vec<u16> = Vec::new();
    let mut i: usize = 0;
    while i < factors.len()
        invariant
            i <= factors.len(),
            ramp@ == ramp_of(factors@.take(i as int)),
        decreases factors.len() - i,
    {
        ramp.push(sample_from_factor(factors[i]));
        assert(factors@.take(i + 1) == factors@.take(i as int).push(factors@[i as int]));
        i = i + 1;
    }
    proof {
        assert(factors@.take(i as int) == factors@);
        assert forall|n: int| 0 <= n < ramp@.len() implies #[trigger] ramp@[n] == factor_sample(
            factors@[n],
        ) by {
            law_ramp_has_the_values_of_its_factors(factors@, n);
        }
    }
    ramp
}

// ---- Laws ----

/// The order of singles that are finite and not negative is the order of their bits.
pub proof fn law_bits_order_singles(small: u32, large: u32)
    requires
        small < large < INFINITE,
    ensures
        single_size(small) < single_size(large),
{
    let e = single_exponent(small);
    let f = single_exponent(large);
    let span = FRACTION_SPAN as nat;
    assert(e <= f);
    lemma2_to64();
    if e == f {
        assert(single_fraction(small) < single_fraction(large));
        if e > 0 {
            let scale = pow2((e - 1) as nat);
            lemma_pow2_pos((e - 1) as nat);
            assert((span + single_fraction(small)) * scale < (span + single_fraction(large))
                * scale) by (nonlinear_arith)
                requires
                    single_fraction(small) < single_fraction(large),
                    scale > 0,
            ;
        }
    } else {
        let scale = pow2((f - 1) as nat);
        lemma_pow2_pos((f - 1) as nat);
        assert(single_size(large) >= span * scale) by (nonlinear_arith)
            requires
                single_size(large) == (span + single_fraction(large)) * scale,
        ;
        if e == 0 {
            assert(span * scale >= span) by (nonlinear_arith)
                requires
                    scale >= 1,
            ;
        } else {
            let fine = pow2((e - 1) as nat);
            let spread = pow2((f - 1 - e) as nat);
            lemma_pow2_adds(e, (f - 1 - e) as nat);
            lemma_pow2_pos((f - 1 - e) as nat);
            lemma_pow2_pos((e - 1) as nat);
            lemma_pow2_unfold(e);
            assert((span + single_fraction(small)) * fine < span * scale) by (nonlinear_arith)
                requires
                    single_fraction(small) < span,
                    scale == (2 * fine) * spread,
                    spread >= 1,
                    fine > 0,
            ;
        }
    }
}

/// What the bits of a single stand for: a fraction of 23 bits, in front of which a bit is
/// understood, multiplied by two to the power of the exponent.
pub proof fn law_size_of_singles(exponent: u32, fraction: u32)
    requires
        exponent < 255,
        fraction < 0x80_0000,
    ensures
        exponent == 0 ==> single_size(fraction) == fraction,
        exponent > 0 ==> single_size((exponent * 0x80_0000 + fraction) as u32) == (0x80_0000
            + fraction) * pow2((exponent - 1) as nat),
{
    let bits = (exponent * 0x80_0000 + fraction) as u32;
    assert(single_exponent(bits) == exponent);
    assert(single_fraction(bits) == fraction);
}

/// The value of a factor that is finite and not negative is the whole part of the single that
/// its product with 65535 is rounded to, but no more than 65535.
pub proof fn law_factor_value_is_the_whole_part(bits: u32)
    requires
        bits < 0x7f80_0000,
    ensures
        ({
            let product = nearest(single_size(bits) * 65535, 1, 0x100_0000);
            let value = factor_sample(bits);
            &&& value <= 65535
            &&& value * pow2(149) <= product
            &&& value < 65535 ==> product < (value + 1) * pow2(149)
        }),
{
    let product = nearest(single_size(bits) * 65535, 1, SINGLE_LIMIT as nat);
    let one = pow2(149);
    let value = factor_sample(bits);
    let whole = product / one;
    lemma_pow2_pos(149);
    lemma_fundamental_div_mod(product as int, one as int);
    assert(single_exponent(bits) < 255);
    assert(value * one <= one * whole && (whole + 1) * one == one * whole + one)
        by (nonlinear_arith)
        requires
            value <= whole,
    ;
}

/// Infinity gives the largest value. Negative factors, and what is no number, give zero.
pub proof fn law_factors_out_of_range(bits: u32)
    requires
        bits >= 0x7f80_0000,
    ensures
        factor_sample(bits) == if bits == 0x7f80_0000 {
            65535nat
        } else {
            0nat
        },
{
    if bits < 0x8000_0000 {
        assert(single_exponent(bits) == 255);
    }
}

/// Every value of a ramp is what its own factor gives, wherever it stands.
pub proof fn law_ramp_has_the_values_of_its_factors(factors: Seq<u32>, n: int)
    requires
        0 <= n < factors.len(),
    ensures
        ramp_of(factors).len() == factors.len(),
        ramp_of(factors)[n] == factor_sample(factors[n]),
{
    assert(factor_sample(factors[n]) <= 65535);
}

/// Two ramps agree wherever their factors do, at whatever index.
pub proof fn law_equal_factors_give_equal_values(
    factors: Seq<u32>,
    n: int,
    other: Seq<u32>,
    k: int,
)
    requires
        0 <= n < factors.len(),
        0 <= k < other.len(),
        factors[n] == other[k],
    ensures
        ramp_of(factors)[n] == ramp_of(other)[k],
{
    law_ramp_has_the_values_of_its_factors(factors, n);
    law_ramp_has_the_values_of_its_factors(other, k);
}

/// No single is closer to a 255th of an index than its step.
pub proof fn law_step_is_closest(n: nat, m: nat, k: nat)
    requires
        m < 0x100_0000,
    ensures
        abs(step_of(n) * 255 - n * pow2(149)) <= abs(m * pow2(k) * 255 - n * pow2(149)),
{
    law_rounding_is_closest(n * pow2(149), 255, m * pow2(k), m, k, SINGLE_LIMIT as nat);
}

/// A step is a single: its significand has 24 bits.
pub proof fn law_step_has_few_bits(n: nat) -> (parts: (nat, nat))
    ensures
        parts.0 < 0x100_0000,
        step_of(n) == parts.0 * pow2(parts.1),
{
    law_rounding_lands_in_format(n * pow2(149), 255, SINGLE_LIMIT as nat)
}

/// A larger factor does not give a smaller value.
pub proof fn law_values_keep_the_order_of_factors(small: u32, large: u32)
    requires
        small <= large <= INFINITE,
    ensures
        factor_sample(small) <= factor_sample(large),
{
    if large < INFINITE {
        if small < large {
            law_bits_order_singles(small, large);
        }
        let limit = SINGLE_LIMIT as nat;
        law_rounding_is_monotone(
            single_size(small) * 65535,
            1,
            single_size(large) * 65535,
            1,
            limit,
        );
        lemma_pow2_pos(149);
        lemma_div_is_ordered(
            nearest(single_size(small) * 65535, 1, limit) as int,
            nearest(single_size(large) * 65535, 1, limit) as int,
            pow2(149) as int,
        );
    }
}

/// Factors that rise give a ramp that rises.
pub proof fn law_rising_factors_give_a_rising_ramp(factors: Seq<u32>)
    requires
        forall|i: int, j: int| 0 <= i <= j < factors.len() ==> factors[i] <= factors[j],
        forall|i: int| 0 <= i < factors.len() ==> #[trigger] factors[i] <= INFINITE,
    ensures
        is_rising(ramp_of(factors)),
{
    let ramp = ramp_of(factors);
    assert forall|i: int, j: int| 0 <= i <= j < ramp.len() implies ramp[i] <= ramp[j] by {
        law_values_keep_the_order_of_factors(factors[i], factors[j]);
        assert(factor_sample(factors[j]) <= 65535);
    }
}

/// The value that a factor up to one gives is the whole part of 65535 times the factor. It
/// is one more only where less than two to the power -9 is missing to that.
pub proof fn law_factor_values_are_accurate(bits: u32)
    requires
        bits < INFINITE,
        single_size(bits) <= pow2(149),
    ensures
        single_size(bits) * 65535 < (factor_sample(bits) + 1) * pow2(149),
        factor_sample(bits) * pow2(149) <= single_size(bits) * 65535 + pow2(140),
{
    let limit = SINGLE_LIMIT as nat;
    let one = pow2(149);
    let slack = pow2(140);
    lemma2_to64();
    lemma_pow2_adds(9, 140);
    lemma_pow2_adds(1, 140);
    lemma_pow2_pos(140);
    let size = single_size(bits);
    let product = size * 65535;
    let rounded = nearest(product, 1, limit);
    assert(single_exponent(bits) < 255);
    assert(product < 1 * (limit * pow2(141)));
    lemma_nearest_error(product, 1, 141, limit);
    assert(rounded <= product + slack);
    lemma_fundamental_div_mod(rounded as int, one as int);
    let floor = rounded / one;
    assert(one * floor == floor * one && (floor + 1) * one == floor * one + one)
        by (nonlinear_arith);
    assert(floor <= 65535) by {
        law_rounding_is_monotone(product, 1, 65535 * one, 1, limit);
        law_rounding_keeps_format(65535 * one, 65535, 149, limit);
        lemma_multiply_divide_lt(rounded as int, one as int, 65536);
    }
    assert(factor_sample(bits) == floor);
    if product >= (floor + 1) * one {
        law_rounding_is_monotone((floor + 1) * one, 1, product, 1, limit);
        law_rounding_keeps_format((floor + 1) * one, floor + 1, 149, limit);
    }
}

/// A factor of zero gives zero, and a factor of one the largest value.
pub proof fn law_ends_of_a_ramp()
    ensures
        factor_sample(0) == 0,
        single_size(SINGLE_ONE) == pow2(149),
        factor_sample(SINGLE_ONE) == 65535,
{
    let limit = SINGLE_LIMIT as nat;
    let one = pow2(149);
    lemma2_to64();
    lemma_pow2_adds(23, 126);
    lemma_pow2_pos(149);
    assert(single_exponent(SINGLE_ONE) == 127);
    assert(single_fraction(SINGLE_ONE) == 0);
    law_rounding_keeps_format(65535 * one, 65535, 149, limit);
    lemma_div_multiples_vanish(65535, one as int);
    lemma_nearest_is_zero(0, 1, limit);
    lemma_basic_div(0, one as int);
}

/// A ramp with larger factors is nowhere darker.
pub proof fn law_larger_factors_give_a_brighter_ramp(dark: Seq<u32>, bright: Seq<u32>, n: int)
    requires
        0 <= n < dark.len(),
        n < bright.len(),
        dark[n] <= bright[n] <= INFINITE,
    ensures
        ramp_of(dark)[n] <= ramp_of(bright)[n],
{
    law_values_keep_the_order_of_factors(dark[n], bright[n]);
}

/// A gamma of one does nothing: it leaves the steps as they are, and these give every value
/// as 257 times its index.
pub proof fn law_gamma_of_one_does_nothing(bits: u32, n: nat)
    requires
        bits < INFINITE,
        n <= 255,
        single_size(bits) == step_of(n),
    ensures
        factor_sample(bits) == 257 * n,
{
    let limit = SINGLE_LIMIT as nat;
    let one = pow2(149);
    let meant = 257 * n;
    let product = single_size(bits) * 65535;
    lemma2_to64();
    lemma2_to64_rest();
    lemma_pow2_pos(149);
    assert(nearest(product, 1, limit) == meant * one) by {
        if n == 0 || n == 255 {
            let whole: nat = n / 255;
            assert((n * one) * 1 == (whole * one) * 255) by (nonlinear_arith)
                requires
                    n == 255 * whole,
            ;
            law_rounding_is_monotone(whole * one, 1, n * one, 255, limit);
            law_rounding_is_monotone(n * one, 255, whole * one, 1, limit);
            law_rounding_keeps_format(whole * one, whole, 149, limit);
            assert(product == meant * one) by (nonlinear_arith)
                requires
                    product == (whole * one) * 65535,
                    meant == 257 * n,
                    n == 255 * whole,
            ;
            law_rounding_keeps_format(meant * one, meant, 149, limit);
        } else {
            lemma_step_product(n);
        }
    }
    lemma_div_multiples_vanish(meant as int, one as int);
    assert(meant * one == one * meant) by (nonlinear_arith);
    assert(single_exponent(bits) < 255);
}

/// 65535 times a step between zero and one rounds to a whole number.
proof fn lemma_step_product(n: nat)
    requires
        0 < n < 255,
    ensures
        nearest(step_of(n) * 65535, 1, SINGLE_LIMIT as nat) == (257 * n) * pow2(149),
{
    let limit = SINGLE_LIMIT as nat;
    let one = pow2(149);
    lemma2_to64();
    lemma2_to64_rest();
    // `2^k <= n < 2^(k + 1)`, so `n * 2^(31 - k)` has 32 bits.
    let k: nat = if n < 2 {
        0
    } else if n < 4 {
        1
    } else if n < 8 {
        2
    } else if n < 16 {
        3
    } else if n < 32 {
        4
    } else if n < 64 {
        5
    } else if n < 128 {
        6
    } else {
        7
    };
    let shift = (31 - k) as nat;
    let rest = (149 - shift) as nat;
    let top: nat = 0x8000_0000;
    let scale = pow2(shift);
    let unit = pow2(rest);
    let wide = n * scale;
    lemma_pow2_adds(k, shift);
    lemma_pow2_adds(shift, rest);
    lemma_pow2_adds(16, (shift - 16) as nat);
    lemma_pow2_adds(16, rest);
    lemma_pow2_pos(shift);
    assert(pow2(k) <= n && n + 1 <= 2 * pow2(k));
    assert(top <= wide && wide + scale <= 2 * top) by (nonlinear_arith)
        requires
            wide == n * scale,
            pow2(k) <= n,
            n + 1 <= 2 * pow2(k),
            pow2(k) * scale == top,
    ;
    assert(wide < 255 * 0x100_0000) by {
        if k == 7 {
            assert(n * scale == n * 0x100_0000);
        } else {
            assert(scale >= 0x200_0000);
        }
    }
    assert(limit / 2 <= wide / 255 < limit);
    lemma_nearest_at_unit(wide, 255, rest, limit);
    assert(wide * unit == n * one) by (nonlinear_arith)
        requires
            wide == n * scale,
            one == scale * unit,
    ;
    let r = half_even(wide, 255);
    lemma_half_even_bounds(wide, 255);
    let step = step_of(n);
    assert(step == r * unit);
    let back = r * 65535;
    assert(step * 65535 == back * unit) by (nonlinear_arith)
        requires
            step == r * unit,
            back == r * 65535,
    ;
    // The product is less than half of 16 bits away from a multiple of them.
    let count = (257 * n) * pow2((shift - 16) as nat);
    let meant = 257 * wide;
    assert(meant == count * 0x1_0000 && meant == (257 * n) * scale) by (nonlinear_arith)
        requires
            meant == 257 * wide,
            wide == n * scale,
            scale == 0x1_0000 * pow2((shift - 16) as nat),
            count == (257 * n) * pow2((shift - 16) as nat),
    ;
    assert(r * 255 <= wide + 127 && wide <= r * 255 + 127);
    assert(back <= meant + 32639 && meant <= back + 32639);
    assert(half_even(back, 0x1_0000) == count);
    lemma_nearest_of_whole(back, 16, rest, limit);
    assert(count * (0x1_0000 * unit) == (257 * n) * one) by (nonlinear_arith)
        requires
            meant == count * 0x1_0000,
            meant == (257 * n) * scale,
            one == scale * unit,
    ;
}

} // verus!
