//! One value of a curve: a number in the range from 0 to 1, stored in sixteen bits.
use crate::expansion::{
    expand, fine_steps, lemma_pow10, lemma_pow2_to_72, lemma_tiny_underflows, underflows,
    Expansion, UNDERFLOW_SHIFT,
};
use crate::number::{
    all_digits, digits_value, exponent_parts, exponent_spells, is_digit, is_row, is_special,
    is_word, law_number_is_unambiguous, literal_of, literal_parts, mantissa_spells, pow10,
    read_number, reads_special, row_value, sign_spells, spells, spells_special, Literal,
};
use crate::rounding::{
    distance, half_even, law_rounding_is_closest, law_rounding_is_monotone,
    law_rounding_keeps_format, law_rounding_lands_in_format, law_ties_go_to_even,
    lemma_half_even_bounds, lemma_nearest_above_pow2, lemma_nearest_at_unit,
    lemma_nearest_below_pow2, lemma_nearest_by_floor, lemma_nearest_error, lemma_nearest_is_zero,
    lemma_nearest_scaled, nearest, nearest_by_floor, round_to_format, DOUBLE_LIMIT,
};
use vstd::arithmetic::div_mod::{
    lemma_basic_div, lemma_div_is_ordered, lemma_div_multiples_vanish,
    lemma_div_multiples_vanish_quotient, lemma_fundamental_div_mod, lemma_multiply_divide_lt,
};
use vstd::arithmetic::power::{lemma_pow_positive, pow};
use vstd::arithmetic::power2::{
    lemma2_to64, lemma2_to64_rest, lemma_pow2_adds, lemma_pow2_pos, lemma_pow2_strictly_increases,
    lemma_pow2_unfold, pow2,
};
use vstd::math::abs;
use vstd::prelude::*;

verus! {

/// Why a value of a curve cannot be read.
#[derive(Debug, Clone, Copy, PartialEq, Eq, Structural)]
pub enum SampleError {
    /// It is not the notation of a number.
    NotANumber,
    /// It is a number, but not one from 0 to 1.
    OutOfRange,
}

/// The double closest to `num / den`, counted in units of two to the power -1074, the
/// smallest double there is.
pub open spec fn double_of(num: nat, den: nat) -> nat {
    nearest(num * pow2(1074), den, DOUBLE_LIMIT as nat)
}

/// The double that stands for one.
pub open spec fn double_one() -> nat {
    pow2(1074)
}

/// The product of a double and a whole number, in double precision.
pub open spec fn double_times(double: nat, factor: nat) -> nat {
    nearest(double * factor, 1, DOUBLE_LIMIT as nat)
}

/// A double spread over the range of sixteen bits: 65535 times as large, and then the
/// closest whole number, where one half goes up.
pub open spec fn quantized(double: nat) -> nat {
    (double_times(double, 65535) + pow2(1073)) / pow2(1074)
}

/// The value of a curve that the number `num / den`, or its negative, gives.
pub open spec fn sample_value(negative: bool, num: nat, den: nat) -> Result<u16, SampleError> {
    let double = double_of(num, den);
    if double > double_one() || (negative && double > 0) {
        Err(SampleError::OutOfRange)
    } else {
        Ok(quantized(double) as u16)
    }
}

/// The value of a curve that `text` gives.
pub open spec fn sample_of(text: Seq<char>) -> Result<u16, SampleError> {
    match literal_of(text) {
        Some(literal) => sample_value(
            literal.negative,
            literal.numerator(),
            literal.denominator(),
        ),
        None => if spells_special(text) {
            Err(SampleError::OutOfRange)
        } else {
            Err(SampleError::NotANumber)
        },
    }
}

/// Doubles up to one stay within sixteen bits.
pub proof fn lemma_quantized_bound(double: nat)
    requires
        double <= double_one(),
    ensures
        quantized(double) <= 65535,
{
    let top = 65535 * pow2(1074);
    let limit = DOUBLE_LIMIT as nat;
    assert(double * 65535 * 1 <= top * 1);
    law_rounding_is_monotone(double * 65535, 1, top, 1, limit);
    law_rounding_keeps_format(top, 65535, 1074, limit);
    lemma_pow2_unfold(1074);
    lemma_pow2_pos(1073);
    lemma_multiply_divide_lt(
        (double_times(double, 65535) + pow2(1073)) as int,
        pow2(1074) as int,
        65536,
    );
}

/// Powers of two that tie the fine steps to the units of doubles.
proof fn lemma_powers()
    ensures
        pow2(72) == 0x100_0000_0000_0000_0000,
        pow2(1074) == pow2(72) * pow2(1002),
        pow2(1073) == 0x80_0000_0000_0000_0000 * pow2(1002),
        pow2(1056) == 0x40_0000_0000_0000 * pow2(1002),
        pow2(1072) == 0x1_0000 * pow2(1056),
        pow2(1073) == 2 * pow2(1072),
        pow2(1074) == 2 * pow2(1073),
        pow2(1075) == 2 * pow2(1074),
        pow2(1002) > 0,
{
    lemma2_to64();
    lemma2_to64_rest();
    lemma_pow2_to_72(72);
    lemma_pow2_adds(72, 1002);
    lemma_pow2_adds(71, 1002);
    lemma_pow2_unfold(72);
    lemma_pow2_adds(54, 1002);
    lemma_pow2_adds(16, 1056);
    lemma_pow2_unfold(1073);
    lemma_pow2_unfold(1074);
    lemma_pow2_unfold(1075);
    lemma_pow2_pos(1002);
}

/// Less than two to the power -18 comes out as zero.
proof fn lemma_small_sample(num: nat, den: nat)
    requires
        den > 0,
        (num * pow2(72)) / den < 0x40_0000_0000_0000,
    ensures
        sample_value(false, num, den) == Ok::<u16, SampleError>(0),
{
    lemma_powers();
    let limit = DOUBLE_LIMIT as nat;
    let steps = num * pow2(72);
    let scale = pow2(1002);
    lemma_fundamental_div_mod(steps as int, den as int);
    assert(steps < den * 0x40_0000_0000_0000) by (nonlinear_arith)
        requires
            steps == den * (steps / den) + steps % den,
            steps % den < den,
            steps / den < 0x40_0000_0000_0000,
            den > 0,
    ;
    assert(num * pow2(1074) <= den * pow2(1056)) by (nonlinear_arith)
        requires
            steps == num * pow2(72),
            pow2(1074) == pow2(72) * scale,
            pow2(1056) == 0x40_0000_0000_0000 * scale,
            steps < den * 0x40_0000_0000_0000,
    ;
    lemma_nearest_below_pow2(num * pow2(1074), den, 1056, limit);
    let double = double_of(num, den);
    lemma_pow2_strictly_increases(1056, 1074);
    assert(double * 65535 <= 1 * pow2(1072));
    lemma_nearest_below_pow2(double * 65535, 1, 1072, limit);
    lemma_basic_div((double_times(double, 65535) + pow2(1073)) as int, pow2(1074) as int);
}

/// The fine steps of a number, if they are many enough, settle its value.
proof fn lemma_sample_by_steps(num: nat, den: nat, rounded: nat)
    requires
        den > 0,
        (num * pow2(72)) / den >= 0x40_0000_0000_0000,
        rounded == nearest_by_floor(
            (num * pow2(72)) / den,
            (num * pow2(72)) % den > 0,
            DOUBLE_LIMIT as nat,
        ),
    ensures
        rounded >= 0x20_0000_0000_0000,
        rounded > pow2(72) ==> sample_value(false, num, den) == Err::<u16, SampleError>(
            SampleError::OutOfRange,
        ),
        rounded <= pow2(72) ==> ({
            let product = nearest_by_floor(rounded * 65535, false, DOUBLE_LIMIT as nat);
            let sample = (product + 0x80_0000_0000_0000_0000) / pow2(72);
            &&& product <= 65535 * pow2(72)
            &&& sample <= 65535
            &&& sample_value(false, num, den) == Ok::<u16, SampleError>(sample as u16)
        }),
{
    lemma_powers();
    lemma2_to64();
    lemma2_to64_rest();
    let limit = DOUBLE_LIMIT as nat;
    let steps = num * pow2(72);
    let scale = pow2(1002);
    lemma_nearest_by_floor(steps, den, limit);
    lemma_nearest_scaled(steps, den, 1002, limit);
    assert(num * pow2(1074) == steps * scale) by (nonlinear_arith)
        requires
            steps == num * pow2(72),
            pow2(1074) == pow2(72) * scale,
    ;
    let double = double_of(num, den);
    assert(double == rounded * scale);
    assert(rounded >= pow2(53)) by {
        lemma_fundamental_div_mod(steps as int, den as int);
        assert(steps >= den * pow2(53)) by (nonlinear_arith)
            requires
                steps == den * (steps / den) + steps % den,
                steps / den >= pow2(53),
                steps % den >= 0,
                den > 0,
        ;
        lemma_nearest_above_pow2(steps, den, 53, limit);
    }
    assert(double > double_one() <==> rounded > pow2(72)) by (nonlinear_arith)
        requires
            double == rounded * scale,
            double_one() == pow2(72) * scale,
            scale > 0,
    ;
    if rounded <= pow2(72) {
        let wide = rounded * 65535;
        let product = nearest_by_floor(wide, false, limit);
        assert(wide / 1 == wide && wide % 1 == 0);
        lemma_nearest_by_floor(wide, 1, limit);
        lemma_nearest_scaled(wide, 1, 1002, limit);
        assert(double * 65535 == wide * scale) by (nonlinear_arith)
            requires
                double == rounded * scale,
                wide == rounded * 65535,
        ;
        assert(double_times(double, 65535) == product * scale);
        let top = 65535 * pow2(72);
        law_rounding_is_monotone(wide, 1, top, 1, limit);
        law_rounding_keeps_format(top, 65535, 72, limit);
        let half: nat = 0x80_0000_0000_0000_0000;
        assert(product * scale + half * scale == scale * (product + half)) by (nonlinear_arith);
        assert(pow2(72) * scale == scale * pow2(72)) by (nonlinear_arith);
        lemma_div_multiples_vanish_quotient(
            scale as int,
            (product + half) as int,
            pow2(72) as int,
        );
    }
}

/// A number that rounds to zero among doubles gives zero, whatever its sign.
proof fn lemma_underflow_sample(negative: bool, num: nat, den: nat)
    requires
        den > 0,
    ensures
        num * pow2(UNDERFLOW_SHIFT as nat) <= den ==> sample_value(negative, num, den) == Ok::<
            u16,
            SampleError,
        >(0),
        num * pow2(UNDERFLOW_SHIFT as nat) > den ==> sample_value(true, num, den) == Err::<
            u16,
            SampleError,
        >(SampleError::OutOfRange),
{
    lemma_powers();
    let limit = DOUBLE_LIMIT as nat;
    assert(num * pow2(1075) == 2 * (num * pow2(1074))) by (nonlinear_arith)
        requires
            pow2(1075) == 2 * pow2(1074),
    ;
    lemma_nearest_is_zero(num * pow2(1074), den, limit);
    if num * pow2(1075) <= den {
        lemma_nearest_is_zero(0, 1, limit);
        lemma_pow2_pos(1073);
        lemma_basic_div(pow2(1073) as int, pow2(1074) as int);
        assert(0 * 65535 == 0);
    }
}

/// The value that a number gives, told by its expansion.
fn expanded_sample(negative: bool, expansion: Expansion) -> (sample: Result<u16, SampleError>)
    requires
        expansion.valid(),
    ensures
        forall|num: nat, den: nat|
            den > 0 && #[trigger] expansion.expands(num, den) ==> sample == sample_value(
                negative,
                num,
                den,
            ),
{
    match expansion {
        Expansion::Large => {
            proof {
                assert forall|num: nat, den: nat|
                    den > 0 && #[trigger] expansion.expands(num, den) implies sample_value(
                    negative,
                    num,
                    den,
                ) == Err::<u16, SampleError>(SampleError::OutOfRange) by {
                    lemma_powers();
                    assert(num * pow2(1074) >= den * pow2(1075)) by (nonlinear_arith)
                        requires
                            num >= 2 * den,
                            pow2(1075) == 2 * pow2(1074),
                    ;
                    lemma_nearest_above_pow2(num * pow2(1074), den, 1075, DOUBLE_LIMIT as nat);
                    lemma_pow2_pos(1074);
                }
            }
            Err(SampleError::OutOfRange)
        },
        Expansion::Tiny => {
            proof {
                assert forall|num: nat, den: nat|
                    den > 0 && #[trigger] expansion.expands(num, den) implies sample_value(
                    negative,
                    num,
                    den,
                ) == Ok::<u16, SampleError>(0) by {
                    lemma_tiny_underflows(num, den);
                    lemma_underflow_sample(negative, num, den);
                }
            }
            Ok(0)
        },
        Expansion::Plain { unit, tail } => {
            let ghost den = pow10(tail@.len());
            let ghost num = (unit * den + row_value(tail@)) as nat;
            proof {
                lemma_pow10(tail@.len(), 0);
            }
            let sample = if negative {
                negative_sample(unit, tail)
            } else {
                positive_sample(unit, tail)
            };
            assert(sample == sample_value(negative, num, den));
            sample
        },
    }
}

/// The value that a number below two which is not negative gives.
fn positive_sample(unit: u128, tail: Vec<u8>) -> (sample: Result<u16, SampleError>)
    requires
        unit <= 1,
        is_row(tail@),
    ensures
        sample == sample_value(
            false,
            (unit * pow10(tail@.len()) + row_value(tail@)) as nat,
            pow10(tail@.len()),
        ),
{
    let ghost den = pow10(tail@.len());
    let ghost num = (unit * den + row_value(tail@)) as nat;
    proof {
        lemma_pow10(tail@.len(), 0);
        lemma_powers();
        assert(unit * den >= 0) by (nonlinear_arith)
            requires
                unit >= 0,
                den >= 0,
        ;
    }
    let (whole, inexact) = fine_steps(unit, tail);
    if whole < 0x40_0000_0000_0000 {
        proof {
            lemma_small_sample(num, den);
        }
        return Ok(0);
    }
    let rounded = round_to_format(whole, inexact, DOUBLE_LIMIT);
    proof {
        lemma_sample_by_steps(num, den, rounded as nat);
    }
    if rounded > 0x100_0000_0000_0000_0000 {
        return Err(SampleError::OutOfRange);
    }
    let product = round_to_format(rounded * 65535, false, DOUBLE_LIMIT);
    let sample: u128 = (product + 0x80_0000_0000_0000_0000) / 0x100_0000_0000_0000_0000;
    Ok(sample as u16)
}

/// The value that the negative of a number below two gives.
fn negative_sample(unit: u128, tail: Vec<u8>) -> (sample: Result<u16, SampleError>)
    requires
        unit <= 1,
        is_row(tail@),
    ensures
        sample == sample_value(
            true,
            (unit * pow10(tail@.len()) + row_value(tail@)) as nat,
            pow10(tail@.len()),
        ),
{
    let ghost den = pow10(tail@.len());
    let ghost num = (unit * den + row_value(tail@)) as nat;
    proof {
        lemma_pow10(tail@.len(), 0);
        lemma_underflow_sample(true, num, den);
        assert(0 * den == 0);
        assert(1 * den == den);
    }
    if unit == 1 {
        proof {
            lemma2_to64();
            lemma_pow2_strictly_increases(0, UNDERFLOW_SHIFT as nat);
            let shift = pow2(UNDERFLOW_SHIFT as nat);
            assert(num * shift > den) by (nonlinear_arith)
                requires
                    num >= den,
                    den > 0,
                    shift >= 2,
            ;
        }
        return Err(SampleError::OutOfRange);
    }
    if underflows(tail) {
        Ok(0)
    } else {
        Err(SampleError::OutOfRange)
    }
}

/// Reads one value of a curve.
pub fn read_sample(text: &Vec<char>) -> (sample: Result<u16, SampleError>)
    ensures
        sample == sample_of(text@),
{
    match read_number(text) {
        Some(number) => {
            let ghost literal = literal_of(text@)->0;
            proof {
                lemma_denominator_positive(literal);
            }
            expanded_sample(number.negative, expand(&number))
        },
        None => if reads_special(text) {
            Err(SampleError::OutOfRange)
        } else {
            Err(SampleError::NotANumber)
        },
    }
}

proof fn lemma_denominator_positive(literal: Literal)
    ensures
        literal.denominator() > 0,
{
    if literal.exponent < literal.fraction.len() {
        lemma_pow10((literal.fraction.len() - literal.exponent) as nat, 0);
    }
}

// ---- Laws ----

/// No double is closer to a number than the one that it is read as. Where one is just as
/// close, the even one of the two is taken.
pub proof fn law_double_is_closest(num: nat, den: nat, m: nat, k: nat)
    requires
        den > 0,
        m < 0x20_0000_0000_0000,
    ensures
        ({
            let double = double_of(num, den);
            let other = m * pow2(k);
            let off = abs(double * den - num * pow2(1074));
            let other_off = abs(other * den - num * pow2(1074));
            &&& off <= other_off
            &&& off == other_off && other != double ==> double as int % (2 * abs(double - other))
                as int == 0
        }),
{
    let limit = DOUBLE_LIMIT as nat;
    let scaled = num * pow2(1074);
    law_rounding_is_closest(scaled, den, m * pow2(k), m, k, limit);
    if abs(double_of(num, den) * den - scaled) == abs(m * pow2(k) * den - scaled) && m * pow2(k)
        != double_of(num, den) {
        law_ties_go_to_even(scaled, den, m, k, limit);
    }
}

/// A number is read as a double: its significand has 53 bits.
pub proof fn law_double_has_few_bits(num: nat, den: nat) -> (parts: (nat, nat))
    requires
        den > 0,
    ensures
        parts.0 < 0x20_0000_0000_0000,
        double_of(num, den) == parts.0 * pow2(parts.1),
{
    law_rounding_lands_in_format(num * pow2(1074), den, DOUBLE_LIMIT as nat)
}

/// No double is closer to a product than the one that it is rounded to. Where one is just as
/// close, the even one of the two is taken.
pub proof fn law_product_is_closest(double: nat, factor: nat, m: nat, k: nat)
    requires
        m < 0x20_0000_0000_0000,
    ensures
        ({
            let product = double_times(double, factor);
            let other = m * pow2(k);
            let off = abs(product - double * factor);
            let other_off = abs(other - double * factor);
            &&& off <= other_off
            &&& off == other_off && other != product ==> product as int % (2 * abs(product - other))
                as int == 0
        }),
{
    let limit = DOUBLE_LIMIT as nat;
    let exact = double * factor;
    let other = m * pow2(k);
    law_rounding_is_closest(exact, 1, other, m, k, limit);
    assert(nearest(exact, 1, limit) * 1 == nearest(exact, 1, limit));
    assert(other * 1 == other);
    if abs(double_times(double, factor) - exact) == abs(other - exact) && other != double_times(
        double,
        factor,
    ) {
        law_ties_go_to_even(exact, 1, m, k, limit);
    }
}

/// A product is rounded to a double: its significand has 53 bits.
pub proof fn law_product_has_few_bits(double: nat, factor: nat) -> (parts: (nat, nat))
    ensures
        parts.0 < 0x20_0000_0000_0000,
        double_times(double, factor) == parts.0 * pow2(parts.1),
{
    law_rounding_lands_in_format(double * factor, 1, DOUBLE_LIMIT as nat)
}

/// A number is accepted exactly when the double it is read as is one or less, and zero where
/// the number is negative. The value is the whole number closest to the double's product with
/// 65535, and the upper one of two.
pub proof fn law_value_rounds_the_product(negative: bool, num: nat, den: nat)
    requires
        den > 0,
    ensures
        ({
            let double = double_of(num, den);
            let product = double_times(double, 65535);
            let accepted = double <= pow2(1074) && (negative ==> double == 0);
            match sample_value(negative, num, den) {
                Ok(value) => accepted && (2 * value - 1) * pow2(1074) <= 2 * product && 2 * product
                    < (2 * value + 1) * pow2(1074),
                Err(error) => !accepted && error == SampleError::OutOfRange,
            }
        }),
{
    lemma_powers();
    let double = double_of(num, den);
    let product = double_times(double, 65535);
    let one = pow2(1074);
    if sample_value(negative, num, den) is Ok {
        lemma_quantized_bound(double);
        let value = quantized(double);
        lemma_fundamental_div_mod((product + pow2(1073)) as int, one as int);
        assert((2 * value - 1) * one == 2 * (one * value) - one && (2 * value + 1) * one == 2 * (one
            * value) + one) by (nonlinear_arith);
    }
}

/// Equal fractions give equal values.
pub proof fn law_equal_fractions_give_equal_values(
    negative: bool,
    num1: nat,
    den1: nat,
    num2: nat,
    den2: nat,
)
    requires
        den1 > 0,
        den2 > 0,
        num1 * den2 == num2 * den1,
    ensures
        sample_value(negative, num1, den1) == sample_value(negative, num2, den2),
{
    let limit = DOUBLE_LIMIT as nat;
    let one = pow2(1074);
    assert((num1 * one) * den2 == (num2 * one) * den1) by (nonlinear_arith)
        requires
            num1 * den2 == num2 * den1,
    ;
    law_rounding_is_monotone(num1 * one, den1, num2 * one, den2, limit);
    law_rounding_is_monotone(num2 * one, den2, num1 * one, den1, limit);
}

/// What is written as a number gives the value of that number: a sign or none, digits with or
/// without a point, and an exponent of ten or none.
pub proof fn law_notation_is_read(
    sign: Seq<char>,
    whole: Seq<char>,
    point: Seq<char>,
    fraction: Seq<char>,
    mark: Seq<char>,
    tilt: Seq<char>,
    power: Seq<char>,
    num: nat,
    den: nat,
)
    requires
        sign == Seq::<char>::empty() || sign == seq!['+'] || sign == seq!['-'],
        forall|i: int| 0 <= i < whole.len() ==> '0' <= #[trigger] whole[i] <= '9',
        forall|i: int| 0 <= i < fraction.len() ==> '0' <= #[trigger] fraction[i] <= '9',
        forall|i: int| 0 <= i < power.len() ==> '0' <= #[trigger] power[i] <= '9',
        whole.len() + fraction.len() > 0,
        point == seq!['.'] || (point == Seq::<char>::empty() && fraction == Seq::<char>::empty()),
        ({
            ||| mark == Seq::<char>::empty() && tilt == Seq::<char>::empty() && power == Seq::<
                char,
            >::empty()
            ||| (mark == seq!['e'] || mark == seq!['E']) && (tilt == Seq::<char>::empty() || tilt
                == seq!['+'] || tilt == seq!['-']) && power.len() > 0
        }),
        den > 0,
        tilt != seq!['-'] ==> num * pow(10, fraction.len()) == digits_value(whole + fraction) * pow(
            10,
            digits_value(power),
        ) * den,
        tilt == seq!['-'] ==> num * pow(10, fraction.len() + digits_value(power)) == digits_value(
            whole + fraction,
        ) * den,
    ensures
        sample_of(sign + whole + point + fraction + mark + tilt + power) == sample_value(
            sign == seq!['-'],
            num,
            den,
        ),
{
    let text = sign + whole + point + fraction + mark + tilt + power;
    let negative = sign == seq!['-'];
    let size = digits_value(power);
    let exponent: int = if tilt == seq!['-'] {
        -size
    } else {
        size as int
    };
    let literal = Literal { negative, whole, fraction, exponent };
    let mantissa = whole + point + fraction;
    let ending = mark + tilt + power;
    assert(text == sign + mantissa + ending);
    assert(sign_spells(sign, negative)) by {
        assert(seq!['+'][0] != seq!['-'][0]);
        assert(Seq::<char>::empty().len() != seq!['-'].len());
    }
    assert(mantissa_spells(mantissa, whole, fraction)) by {
        if point == Seq::<char>::empty() {
            assert(mantissa == whole);
        }
    }
    assert(exponent_spells(ending, exponent)) by {
        if mark == Seq::<char>::empty() {
            assert(ending == Seq::<char>::empty());
            assert(Seq::<char>::empty().len() != seq!['-'].len());
            assert(size == 0);
        } else {
            assert(seq!['+'][0] != seq!['-'][0]);
            assert(Seq::<char>::empty().len() != seq!['-'].len());
            assert(mark == seq![mark[0]]);
            assert(exponent_parts(ending, mark[0], tilt, power, exponent));
        }
    }
    assert(literal_parts(text, sign, mantissa, ending, literal));
    assert(spells(text, literal));
    law_number_is_unambiguous(text, literal, literal_of(text)->0);
    lemma_denominator_positive(literal);
    lemma_pow_positive(10, fraction.len());
    lemma_pow_positive(10, size);
    lemma_pow_positive(10, fraction.len() + size);
    lemma_pow10(0, 0);
    assert(digits_value(whole + fraction) * 1 == digits_value(whole + fraction));
    lemma_literal_is_fraction(literal, size, num, den);
    law_equal_fractions_give_equal_values(
        negative,
        num,
        den,
        literal.numerator(),
        literal.denominator(),
    );
}

/// The number that a literal stands for is its digits, moved by its exponent and by the
/// digits behind the point.
proof fn lemma_literal_is_fraction(literal: Literal, size: nat, num: nat, den: nat)
    requires
        literal.exponent == size || literal.exponent == -size,
        literal.exponent >= 0 ==> num * pow10(literal.fraction.len()) == literal.significand()
            * pow10(size) * den,
        literal.exponent < 0 ==> num * pow10(literal.fraction.len() + size)
            == literal.significand() * den,
    ensures
        num * literal.denominator() == literal.numerator() * den,
{
    let f = literal.fraction.len();
    let digits = literal.significand();
    lemma_pow10(0, 0);
    if literal.exponent > f {
        let up = (size - f) as nat;
        lemma_pow10(f, up);
        assert(f + up == size);
        assert(num * 1 == (digits * pow10(up)) * den) by (nonlinear_arith)
            requires
                num * pow10(f) == digits * pow10(size) * den,
                pow10(size) == pow10(f) * pow10(up),
                pow10(f) > 0,
        ;
    } else if literal.exponent >= 0 {
        let down = (f - size) as nat;
        lemma_pow10(size, down);
        assert(size + down == f);
        assert(num * pow10(down) == digits * den) by (nonlinear_arith)
            requires
                num * pow10(f) == digits * pow10(size) * den,
                pow10(f) == pow10(size) * pow10(down),
                pow10(size) > 0,
        ;
    }
}

proof fn lemma_three_more(front: Seq<char>, a: Seq<char>, b: Seq<char>, c: Seq<char>)
    ensures
        front + (a + b + c) == front + a + b + c,
{
}

proof fn lemma_mantissa_parts(
    mantissa: Seq<char>,
    whole: Seq<char>,
    fraction: Seq<char>,
) -> (point: Seq<char>)
    requires
        mantissa_spells(mantissa, whole, fraction),
    ensures
        mantissa == whole + point + fraction,
        point == seq!['.'] || (point == Seq::<char>::empty() && fraction == Seq::<char>::empty()),
        forall|i: int| 0 <= i < whole.len() ==> '0' <= #[trigger] whole[i] <= '9',
        forall|i: int| 0 <= i < fraction.len() ==> '0' <= #[trigger] fraction[i] <= '9',
        whole.len() + fraction.len() > 0,
{
    assert forall|i: int| 0 <= i < whole.len() implies '0' <= #[trigger] whole[i] <= '9' by {
        assert(is_digit(whole[i]));
    }
    assert forall|i: int| 0 <= i < fraction.len() implies '0' <= #[trigger] fraction[i] <= '9' by {
        assert(is_digit(fraction[i]));
    }
    if mantissa == whole + seq!['.'] + fraction {
        seq!['.']
    } else {
        let empty = Seq::<char>::empty();
        assert(fraction == empty);
        assert(mantissa == whole + empty + fraction);
        empty
    }
}

proof fn lemma_exponent_parts(ending: Seq<char>, exponent: int) -> (parts: (
    Seq<char>,
    Seq<char>,
    Seq<char>,
))
    requires
        exponent_spells(ending, exponent),
    ensures
        ({
            let (mark, tilt, power) = parts;
            let empty = Seq::<char>::empty();
            &&& ending == mark + tilt + power
            &&& forall|i: int| 0 <= i < power.len() ==> '0' <= #[trigger] power[i] <= '9'
            &&& (mark == empty && tilt == empty && power == empty) || ((mark == seq!['e'] || mark
                == seq!['E']) && (tilt == empty || tilt == seq!['+'] || tilt == seq!['-'])
                && power.len() > 0)
        }),
{
    let empty = Seq::<char>::empty();
    if ending == empty {
        assert(ending == empty + empty + empty);
        (empty, empty, empty)
    } else {
        let (mark, tilt, power) = choose|mark: char, tilt: Seq<char>, power: Seq<char>|
            exponent_parts(ending, mark, tilt, power, exponent);
        assert forall|i: int| 0 <= i < power.len() implies '0' <= #[trigger] power[i] <= '9' by {
            assert(is_digit(power[i]));
        }
        (seq![mark], tilt, power)
    }
}

/// Whatever is read as a number is written as one, or is the name of an infinity or of the
/// absence of a number. The parts that it is made of can be told: the sign, the digits before
/// the point, the point, the digits behind it, the letter of the exponent, its sign and its
/// digits.
pub proof fn law_read_text_is_a_number(text: Seq<char>) -> (parts: (
    Seq<char>,
    Seq<char>,
    Seq<char>,
    Seq<char>,
    Seq<char>,
    Seq<char>,
    Seq<char>,
))
    requires
        sample_of(text) != Err::<u16, SampleError>(SampleError::NotANumber),
        !spells_special(text),
    ensures
        ({
            let (sign, whole, point, fraction, mark, tilt, power) = parts;
            let empty = Seq::<char>::empty();
            &&& text == sign + whole + point + fraction + mark + tilt + power
            &&& sign == empty || sign == seq!['+'] || sign == seq!['-']
            &&& forall|i: int| 0 <= i < whole.len() ==> '0' <= #[trigger] whole[i] <= '9'
            &&& forall|i: int| 0 <= i < fraction.len() ==> '0' <= #[trigger] fraction[i] <= '9'
            &&& forall|i: int| 0 <= i < power.len() ==> '0' <= #[trigger] power[i] <= '9'
            &&& whole.len() + fraction.len() > 0
            &&& point == seq!['.'] || (point == empty && fraction == empty)
            &&& (mark == empty && tilt == empty && power == empty) || ((mark == seq!['e'] || mark
                == seq!['E']) && (tilt == empty || tilt == seq!['+'] || tilt == seq!['-'])
                && power.len() > 0)
        }),
{
    let literal = literal_of(text)->0;
    assert(spells(text, literal));
    let (sign, mantissa, ending) = choose|
        sign: Seq<char>,
        mantissa: Seq<char>,
        ending: Seq<char>,
    |
        literal_parts(text, sign, mantissa, ending, literal);
    let whole = literal.whole;
    let fraction = literal.fraction;
    let point = lemma_mantissa_parts(mantissa, whole, fraction);
    let (mark, tilt, power) = lemma_exponent_parts(ending, literal.exponent);
    lemma_three_more(sign, whole, point, fraction);
    lemma_three_more(sign + mantissa, mark, tilt, power);
    (sign, whole, point, fraction, mark, tilt, power)
}

/// The names of infinities and of the absence of a number are out of range, however they are
/// capitalised and with any sign. Nothing else counts as one of them.
pub proof fn law_special_words_are_out_of_range(sign: Seq<char>, word: Seq<char>)
    requires
        sign == Seq::<char>::empty() || sign == seq!['+'] || sign == seq!['-'],
        word.len() > 0,
        word[0] != '+',
        word[0] != '-',
    ensures
        spells_special(sign + word) <==> {
            ||| word.len() == 3 && (word[0] == 'i' || word[0] == 'I') && (word[1] == 'n' || word[1]
                == 'N') && (word[2] == 'f' || word[2] == 'F')
            ||| word.len() == 3 && (word[0] == 'n' || word[0] == 'N') && (word[1] == 'a' || word[1]
                == 'A') && (word[2] == 'n' || word[2] == 'N')
            ||| word.len() == 8 && (word[0] == 'i' || word[0] == 'I') && (word[1] == 'n' || word[1]
                == 'N') && (word[2] == 'f' || word[2] == 'F') && (word[3] == 'i' || word[3] == 'I')
                && (word[4] == 'n' || word[4] == 'N') && (word[5] == 'i' || word[5] == 'I') && (
            word[6] == 't' || word[6] == 'T') && (word[7] == 'y' || word[7] == 'Y')
        },
        spells_special(sign + word) ==> sample_of(sign + word) == Err::<u16, SampleError>(
            SampleError::OutOfRange,
        ),
{
    let text = sign + word;
    if sign.len() > 0 {
        assert(text.skip(1) == word);
        assert(text[0] == sign[0]);
    } else {
        assert(text == word);
    }
    lemma_special_word(word);
    if sign.len() > 0 {
        lemma_special_word(text);
    }
    if spells_special(text) {
        assert(sample_of(text) != Err::<u16, SampleError>(SampleError::NotANumber));
        if literal_of(text) is Some {
            lemma_special_is_no_literal(sign, word);
        }
    }
}

/// Nothing, a sign alone, and two signs in a row are no numbers, whatever follows.
pub proof fn law_signs_alone_are_no_number(text: Seq<char>)
    requires
        text.len() > 0 ==> text[0] == '+' || text[0] == '-',
        text.len() > 1 ==> text[1] == '+' || text[1] == '-',
    ensures
        sample_of(text) == Err::<u16, SampleError>(SampleError::NotANumber),
{
    lemma_special_word(text);
    if text.len() > 0 {
        lemma_special_word(text.skip(1));
        if text.len() > 1 {
            assert(text.skip(1)[0] == text[1]);
        }
    }
    if literal_of(text) is Some {
        let literal = literal_of(text)->0;
        assert(spells(text, literal));
        let (first, mantissa, ending) = choose|
            first: Seq<char>,
            mantissa: Seq<char>,
            ending: Seq<char>,
        |
            literal_parts(text, first, mantissa, ending, literal);
        assert(mantissa.len() > 0);
        assert(is_digit(mantissa[0]) || mantissa[0] == '.') by {
            if literal.whole.len() > 0 {
                assert(mantissa[0] == literal.whole[0]);
                assert(is_digit(literal.whole[0]));
            } else {
                assert(mantissa[0] == '.');
            }
        }
        assert(text[first.len() as int] == mantissa[0]);
        assert(false);
    }
}

proof fn lemma_special_word(word: Seq<char>)
    ensures
        is_special(word) <==> {
            ||| word.len() == 3 && (word[0] == 'i' || word[0] == 'I') && (word[1] == 'n' || word[1]
                == 'N') && (word[2] == 'f' || word[2] == 'F')
            ||| word.len() == 3 && (word[0] == 'n' || word[0] == 'N') && (word[1] == 'a' || word[1]
                == 'A') && (word[2] == 'n' || word[2] == 'N')
            ||| word.len() == 8 && (word[0] == 'i' || word[0] == 'I') && (word[1] == 'n' || word[1]
                == 'N') && (word[2] == 'f' || word[2] == 'F') && (word[3] == 'i' || word[3] == 'I')
                && (word[4] == 'n' || word[4] == 'N') && (word[5] == 'i' || word[5] == 'I') && (
            word[6] == 't' || word[6] == 'T') && (word[7] == 'y' || word[7] == 'Y')
        },
{
    let inf = seq!['i', 'n', 'f'];
    let upper_inf = seq!['I', 'N', 'F'];
    let long = seq!['i', 'n', 'f', 'i', 'n', 'i', 't', 'y'];
    let upper_long = seq!['I', 'N', 'F', 'I', 'N', 'I', 'T', 'Y'];
    let nan = seq!['n', 'a', 'n'];
    let upper_nan = seq!['N', 'A', 'N'];
    if is_word(word, inf, upper_inf) {
        assert(word[0] == inf[0] || word[0] == upper_inf[0]);
        assert(word[1] == inf[1] || word[1] == upper_inf[1]);
        assert(word[2] == inf[2] || word[2] == upper_inf[2]);
    }
    if is_word(word, nan, upper_nan) {
        assert(word[0] == nan[0] || word[0] == upper_nan[0]);
        assert(word[1] == nan[1] || word[1] == upper_nan[1]);
        assert(word[2] == nan[2] || word[2] == upper_nan[2]);
    }
    if is_word(word, long, upper_long) {
        assert(word[0] == long[0] || word[0] == upper_long[0]);
        assert(word[1] == long[1] || word[1] == upper_long[1]);
        assert(word[2] == long[2] || word[2] == upper_long[2]);
        assert(word[3] == long[3] || word[3] == upper_long[3]);
        assert(word[4] == long[4] || word[4] == upper_long[4]);
        assert(word[5] == long[5] || word[5] == upper_long[5]);
        assert(word[6] == long[6] || word[6] == upper_long[6]);
        assert(word[7] == long[7] || word[7] == upper_long[7]);
    }
}

/// What starts with a letter behind its sign is no number.
proof fn lemma_special_is_no_literal(sign: Seq<char>, word: Seq<char>)
    requires
        sign == Seq::<char>::empty() || sign == seq!['+'] || sign == seq!['-'],
        word.len() > 0,
        word[0] == 'i' || word[0] == 'I' || word[0] == 'n' || word[0] == 'N',
    ensures
        literal_of(sign + word) is None,
{
    let text = sign + word;
    if literal_of(text) is Some {
        let literal = literal_of(text)->0;
        assert(spells(text, literal));
        let (first, mantissa, ending) = choose|
            first: Seq<char>,
            mantissa: Seq<char>,
            ending: Seq<char>,
        |
            literal_parts(text, first, mantissa, ending, literal);
        assert(mantissa.len() > 0);
        assert(is_digit(mantissa[0]) || mantissa[0] == '.') by {
            if literal.whole.len() > 0 {
                assert(mantissa[0] == literal.whole[0]);
                assert(is_digit(literal.whole[0]));
            } else {
                assert(mantissa[0] == '.');
            }
        }
        assert(text[first.len() as int] == mantissa[0]);
        assert(text[sign.len() as int] == word[0]);
        if first.len() > 0 {
            assert(text[0] == first[0]);
        }
        if sign.len() > 0 {
            assert(text[0] == sign[0]);
        }
        assert(false);
    }
}

/// A decimal without sign and exponent is read as its digits divided by a power of ten.
pub proof fn law_decimals_are_read(whole: Seq<char>, fraction: Seq<char>)
    requires
        all_digits(whole),
        all_digits(fraction),
        whole.len() + fraction.len() > 0,
    ensures
        sample_of(whole + seq!['.'] + fraction) == sample_value(
            false,
            digits_value(whole + fraction),
            pow10(fraction.len()),
        ),
{
    let text = whole + seq!['.'] + fraction;
    let literal = Literal { negative: false, whole, fraction, exponent: 0 };
    let empty = Seq::<char>::empty();
    assert(empty + text + empty == text);
    assert(literal_parts(text, empty, text, empty, literal));
    assert(spells(text, literal));
    law_number_is_unambiguous(text, literal, literal_of(text)->0);
    lemma_pow10(0, 0);
}

/// A number that is not negative is accepted exactly when it is no more than one and two
/// to the power -53, which is halfway to the next double. A negative number is accepted
/// exactly when it is so small that it rounds to zero.
pub proof fn law_accepted_numbers(num: nat, den: nat)
    requires
        den > 0,
    ensures
        sample_value(false, num, den) is Ok <==> num * 0x20_0000_0000_0000 <= den
            * 0x20_0000_0000_0001,
        sample_value(true, num, den) is Ok <==> num * pow2(1075) <= den,
        sample_value(true, num, den) is Ok ==> sample_value(true, num, den) == Ok::<
            u16,
            SampleError,
        >(0),
{
    lemma_underflow_sample(true, num, den);
    lemma_powers();
    let limit = DOUBLE_LIMIT as nat;
    let one = pow2(1074);
    if num <= den {
        assert(num * one <= den * one) by (nonlinear_arith)
            requires
                num <= den,
        ;
        lemma_nearest_below_pow2(num * one, den, 1074, limit);
    } else if num >= 2 * den {
        assert(num * one >= den * pow2(1075)) by (nonlinear_arith)
            requires
                num >= 2 * den,
                pow2(1075) == 2 * one,
        ;
        lemma_nearest_above_pow2(num * one, den, 1075, limit);
    } else {
        let half: nat = 0x10_0000_0000_0000;
        let wide = num * half;
        let unit = pow2(1022);
        lemma2_to64_rest();
        lemma_pow2_adds(52, 1022);
        lemma_pow2_pos(1022);
        assert(wide / den >= half) by {
            lemma_div_is_ordered((den * half) as int, wide as int, den as int);
            lemma_div_multiples_vanish(half as int, den as int);
        }
        lemma_multiply_divide_lt(wide as int, den as int, limit as int);
        lemma_nearest_at_unit(wide, den, 1022, limit);
        assert(wide * unit == num * one) by (nonlinear_arith)
            requires
                wide == num * half,
                one == half * unit,
        ;
        let r = half_even(wide, den);
        assert(double_of(num, den) == r * unit);
        assert(r * unit > half * unit <==> r > half) by (nonlinear_arith)
            requires
                unit > 0,
        ;
        lemma_half_even_bounds(wide, den);
        assert((half + 1) * den == half * den + den) by (nonlinear_arith);
        if r > half {
            assert(r * den >= (half + 1) * den) by (nonlinear_arith)
                requires
                    r >= half + 1,
            ;
            // The tie goes to `half`, which is even.
            if 2 * wide == 2 * (half * den) + den {
                assert(r == half + 1) by (nonlinear_arith)
                    requires
                        r >= half + 1,
                        2 * (r * den) <= 2 * wide + den,
                        2 * wide == 2 * (half * den) + den,
                        den > 0,
                ;
            }
        } else {
            assert(r * den <= half * den) by (nonlinear_arith)
                requires
                    r <= half,
            ;
        }
    }
}

/// Zero gives zero, and one gives the largest value.
pub proof fn law_ends_of_the_range(num: nat, negative: bool)
    requires
        num > 0,
    ensures
        sample_value(negative, 0, num) == Ok::<u16, SampleError>(0),
        sample_value(false, num, num) == Ok::<u16, SampleError>(65535),
{
    lemma_underflow_sample(negative, 0, num);
    assert(0 * pow2(1075) == 0);
    law_accepted_numbers(num, num);
    law_close_number_gives_value(num, num, 65535);
}

/// The smaller of two accepted numbers does not give the larger value.
pub proof fn law_values_keep_the_order(num1: nat, den1: nat, num2: nat, den2: nat)
    requires
        den1 > 0,
        den2 > 0,
        num1 * den2 <= num2 * den1,
        sample_value(false, num2, den2) is Ok,
    ensures
        sample_value(false, num1, den1) is Ok,
        sample_value(false, num1, den1)->Ok_0 <= sample_value(false, num2, den2)->Ok_0,
{
    let limit = DOUBLE_LIMIT as nat;
    let one = pow2(1074);
    assert((num1 * one) * den2 <= (num2 * one) * den1) by (nonlinear_arith)
        requires
            num1 * den2 <= num2 * den1,
    ;
    law_rounding_is_monotone(num1 * one, den1, num2 * one, den2, limit);
    let small = double_of(num1, den1);
    let large = double_of(num2, den2);
    law_rounding_is_monotone(small * 65535, 1, large * 65535, 1, limit);
    lemma_pow2_pos(1074);
    lemma_div_is_ordered(
        (double_times(small, 65535) + pow2(1073)) as int,
        (double_times(large, 65535) + pow2(1073)) as int,
        one as int,
    );
    lemma_quantized_bound(small);
    lemma_quantized_bound(large);
}

/// The value of an accepted number is off from 65535 times the number by one half and two
/// to the power -36 at most.
pub proof fn law_values_are_accurate(num: nat, den: nat)
    requires
        den > 0,
        sample_value(false, num, den) is Ok,
    ensures
        distance(sample_value(false, num, den)->Ok_0 as nat * den, 65535 * num)
            * 0x10_0000_0000 <= den * 0x8_0000_0001,
{
    law_accepted_numbers(num, den);
    lemma_powers();
    lemma2_to64_rest();
    let limit = DOUBLE_LIMIT as nat;
    let one = pow2(1074);
    let tick = pow2(1021);
    lemma_pow2_pos(1021);
    lemma_pow2_adds(53, 1021);
    lemma_pow2_adds(1, 1021);
    lemma_pow2_adds(16, 1021);
    lemma2_to64();
    let double = double_of(num, den);
    let product = double_times(double, 65535);
    let sample = quantized(double);
    lemma_quantized_bound(double);
    assert(num * one < den * (limit * pow2(1022))) by (nonlinear_arith)
        requires
            num * 0x20_0000_0000_0000 <= den * 0x20_0000_0000_0001,
            den > 0,
            limit == 0x20_0000_0000_0000,
            pow2(1022) == 2 * tick,
            one == 0x20_0000_0000_0000 * tick,
            tick > 0,
    ;
    lemma_nearest_error(num * one, den, 1022, limit);
    assert(double * 65535 < 1 * (limit * pow2(1037))) by (nonlinear_arith)
        requires
            double <= one,
            limit == 0x20_0000_0000_0000,
            pow2(1037) == 0x1_0000 * tick,
            one == 0x20_0000_0000_0000 * tick,
            tick > 0,
    ;
    lemma_nearest_error(double * 65535, 1, 1037, limit);
    let e1: int = double * den - num * one;
    let e2: int = product - double * 65535;
    let e3: int = sample * one - product;
    assert(-(den * tick) <= e1 <= den * tick) by {
        assert(den * pow2(1022) == 2 * (den * tick)) by (nonlinear_arith)
            requires
                pow2(1022) == 2 * tick,
        ;
    }
    assert(-0x8000 * tick <= e2 <= 0x8000 * tick);
    lemma_fundamental_div_mod((product + pow2(1073)) as int, one as int);
    assert(one * sample == sample * one) by (nonlinear_arith);
    let half: int = 0x10_0000_0000_0000int * tick;
    assert(pow2(1073) == half);
    assert(-half <= e3 <= half);
    let off: int = sample * den - 65535 * num;
    assert(off * one == den * e3 + den * e2 + 65535 * e1) by (nonlinear_arith)
        requires
            off == sample * den - 65535 * num,
            e1 == double * den - num * one,
            e2 == product - double * 65535,
            e3 == sample * one - product,
    ;
    let room: int = (den * tick) as int;
    assert(-0x10_0000_0000_0000 * room <= den * e3 <= 0x10_0000_0000_0000 * room)
        by (nonlinear_arith)
        requires
            -half <= e3 <= half,
            half == 0x10_0000_0000_0000 * tick,
            room == den * tick,
            den > 0,
    ;
    assert(-0x8000 * room <= den * e2 <= 0x8000 * room) by (nonlinear_arith)
        requires
            -0x8000 * tick <= e2 <= 0x8000 * tick,
            room == den * tick,
            den > 0,
    ;
    assert(off * one == (off * 0x20_0000_0000_0000) * tick) by (nonlinear_arith)
        requires
            one == 0x20_0000_0000_0000 * tick,
    ;
    assert(off * 0x20_0000_0000_0000 <= 0x10_0000_0002_0000 * den) by (nonlinear_arith)
        requires
            (off * 0x20_0000_0000_0000) * tick <= 0x10_0000_0002_0000 * room,
            room == den * tick,
            tick > 0,
    ;
    assert(-0x10_0000_0002_0000 * den <= off * 0x20_0000_0000_0000) by (nonlinear_arith)
        requires
            -0x10_0000_0002_0000 * room <= (off * 0x20_0000_0000_0000) * tick,
            room == den * tick,
            tick > 0,
    ;
}

/// A number up to one that comes close enough to a value once it is multiplied by 65535
/// gives that value. Six decimals are more than enough for that.
pub proof fn law_close_number_gives_value(num: nat, den: nat, value: u16)
    requires
        0 < den,
        num <= den,
        distance(value as nat * den, 65535 * num) * 0x10_0000_0000 < den * 0x7_ffff_ffff,
    ensures
        sample_value(false, num, den) == Ok::<u16, SampleError>(value),
{
    law_accepted_numbers(num, den);
    law_values_are_accurate(num, den);
    let sample = sample_value(false, num, den)->Ok_0;
    let given = sample as nat * den;
    let meant = value as nat * den;
    assert(distance(given, meant) < den);
    if sample > value {
        assert(given >= meant + den) by (nonlinear_arith)
            requires
                sample >= value + 1,
                given == sample * den,
                meant == value * den,
        ;
    }
    if sample < value {
        assert(meant >= given + den) by (nonlinear_arith)
            requires
                value >= sample + 1,
                given == sample * den,
                meant == value * den,
        ;
    }
}

} // verus!
