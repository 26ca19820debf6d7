//! Tone curves: lists of sixteen-bit values, and how one curve is applied to another.
use crate::monotone::is_rising;
use crate::rounding::{
    half_even, law_rounding_is_monotone, law_rounding_keeps_format, lemma_half_even_bounds,
    lemma_nearest_at_unit, lemma_nearest_of_whole, DOUBLE_LIMIT,
};
use crate::sample::{
    double_of, double_one, double_times, read_sample, sample_of, SampleError,
};
use crate::text::{chars_of, fields, law_spaces_part_fields, split_fields};
use vstd::arithmetic::div_mod::lemma_fundamental_div_mod_converse;
use vstd::arithmetic::power2::{
    lemma2_to64, lemma2_to64_rest, lemma_pow2_adds, lemma_pow2_pos, pow2,
};
use vstd::prelude::*;

verus! {

/// The values that a list of written numbers gives. The first one that cannot be read
/// tells why there are none.
pub open spec fn curve_of(numbers: Seq<Seq<char>>) -> Result<Seq<u16>, SampleError>
    decreases numbers.len(),
{
    if numbers.len() == 0 {
        Ok(Seq::empty())
    } else {
        match curve_of(numbers.drop_last()) {
            Ok(before) => match sample_of(numbers.last()) {
                Ok(sample) => Ok(before.push(sample)),
                Err(error) => Err(error),
            },
            Err(error) => Err(error),
        }
    }
}

/// The curve that `input` gives: the values of the numbers between its spaces.
pub open spec fn curve_in(input: Seq<char>) -> Result<Seq<u16>, SampleError> {
    curve_of(fields(input))
}

/// A value from 0 to 65535, scaled to the range from 0 to 255 and rounded down.
pub open spec fn scaled(input: u16) -> int {
    input as int * 255 / 65535
}

/// `colour`, with every value looked up in the 256 values of `gray`.
pub open spec fn through_gray(gray: Seq<u16>, colour: Seq<u16>) -> Seq<u16> {
    colour.map_values(|value: u16| gray[scaled(value)])
}

/// Parses a curve such as "0.0 0.001 0.033" to values that spread the range from 0 to 1
/// over sixteen bits, or tells what is wrong with the first number that is not one from
/// 0 to 1.
pub fn try_parse_curve(input: &str) -> (curve: Result<Vec<u16>, SampleError>)
    ensures
        match curve {
            Ok(values) => curve_in(input@) == Ok::<Seq<u16>, SampleError>(values@),
            Err(error) => curve_in(input@) == Err::<Seq<u16>, SampleError>(error),
        },
        match curve {
            Ok(values) => {
                &&& values@.len() == fields(input@).len()
                &&& forall|i: int|
                    0 <= i < values@.len() ==> sample_of(#[trigger] fields(input@)[i]) == Ok::<
                        u16,
                        SampleError,
                    >(values@[i])
            },
            Err(error) => exists|k: int|
                {
                    &&& 0 <= k < fields(input@).len()
                    &&& sample_of(#[trigger] fields(input@)[k]) == Err::<u16, SampleError>(error)
                    &&& forall|i: int| 0 <= i < k ==> sample_of(#[trigger] fields(input@)[i]) is Ok
                },
        },
{
    let numbers = split_fields(&chars_of(input));
    let ghost written = fields(input@);
    let mut values: Vec<u16> = Vec::new();
    let mut i: usize = 0;
    assert(written.take(0) == Seq::<Seq<char>>::empty());
    while i < numbers.len()
        invariant
            i <= numbers.len(),
            written == fields(input@),
            numbers@.map_values(|part: Vec<char>| part@) == written,
            curve_of(written.take(i as int)) == Ok::<Seq<u16>, SampleError>(values@),
        decreases numbers.len() - i,
    {
        let ghost next = written.take(i + 1);
        proof {
            assert(next.drop_last() == written.take(i as int));
            assert(next.last() == written[i as int]);
            assert(written[i as int] == numbers@[i as int]@);
        }
        match read_sample(&numbers[i]) {
            Ok(sample) => {
                values.push(sample);
            },
            Err(error) => {
                proof {
                    lemma_curve_stops(written, i + 1, error);
                    law_curve_is_read_number_by_number(written.take(i as int), values@);
                    assert forall|k: int| 0 <= k < i implies sample_of(
                        #[trigger] written[k],
                    ) is Ok by {
                        assert(written.take(i as int)[k] == written[k]);
                    }
                    assert(sample_of(written[i as int]) == Err::<u16, SampleError>(error));
                }
                return Err(error);
            },
        }
        i = i + 1;
    }
    proof {
        assert(written.take(i as int) == written);
        law_curve_is_read_number_by_number(written, values@);
    }
    Ok(values)
}

/// Parses a curve such as "0.0 0.001 0.033" to values that spread the range from 0 to 1
/// over sixteen bits.
pub fn parse_curve(input: &str) -> (curve: Vec<u16>)
    requires
        curve_in(input@) is Ok,
    ensures
        curve_in(input@) == Ok::<Seq<u16>, SampleError>(curve@),
        curve@.len() == fields(input@).len(),
        forall|i: int|
            0 <= i < curve@.len() ==> sample_of(#[trigger] fields(input@)[i]) == Ok::<
                u16,
                SampleError,
            >(curve@[i]),
{
    try_parse_curve(input).unwrap()
}

/// Nothing that follows a number that cannot be read makes up for it.
proof fn lemma_curve_stops(numbers: Seq<Seq<char>>, k: int, error: SampleError)
    requires
        0 <= k <= numbers.len(),
        curve_of(numbers.take(k)) == Err::<Seq<u16>, SampleError>(error),
    ensures
        curve_of(numbers) == Err::<Seq<u16>, SampleError>(error),
    decreases numbers.len() - k,
{
    if k < numbers.len() {
        assert(numbers.take(k + 1).drop_last() == numbers.take(k));
        lemma_curve_stops(numbers, k + 1, error);
    } else {
        assert(numbers.take(k) == numbers);
    }
}

/// A list of numbers is read exactly when each of its numbers is, and then every value
/// comes from the number at its place.
pub proof fn law_curve_is_read_number_by_number(numbers: Seq<Seq<char>>, values: Seq<u16>)
    ensures
        curve_of(numbers) == Ok::<Seq<u16>, SampleError>(values) <==> {
            &&& values.len() == numbers.len()
            &&& forall|i: int|
                0 <= i < numbers.len() ==> sample_of(#[trigger] numbers[i]) == Ok::<
                    u16,
                    SampleError,
                >(values[i])
        },
    decreases numbers.len(),
{
    let matched = values.len() == numbers.len() && forall|i: int|
        0 <= i < numbers.len() ==> sample_of(#[trigger] numbers[i]) == Ok::<u16, SampleError>(
            values[i],
        );
    if numbers.len() > 0 {
        let short = numbers.drop_last();
        if values.len() > 0 {
            law_curve_is_read_number_by_number(short, values.drop_last());
            assert(values == values.drop_last().push(values.last()));
        }
        if matched {
            assert(sample_of(numbers[numbers.len() - 1]) is Ok);
            assert forall|i: int| 0 <= i < short.len() implies sample_of(#[trigger] short[i])
                == Ok::<u16, SampleError>(values.drop_last()[i]) by {
                assert(short[i] == numbers[i]);
            }
        }
        if curve_of(numbers) == Ok::<Seq<u16>, SampleError>(values) {
            let before = curve_of(short)->Ok_0;
            assert(values.drop_last() == before);
            assert forall|i: int| 0 <= i < numbers.len() implies sample_of(#[trigger] numbers[i])
                == Ok::<u16, SampleError>(values[i]) by {
                if i < short.len() {
                    assert(short[i] == numbers[i]);
                }
            }
        }
    } else {
        assert(matched ==> values == Seq::<u16>::empty());
    }
}

/// The reason why a list of numbers is not read is what is wrong with the first number
/// that is not.
pub proof fn law_first_bad_number_is_reported(numbers: Seq<Seq<char>>, k: int, error: SampleError)
    requires
        0 <= k < numbers.len(),
        forall|i: int| 0 <= i < k ==> sample_of(#[trigger] numbers[i]) is Ok,
        sample_of(numbers[k]) == Err::<u16, SampleError>(error),
    ensures
        curve_of(numbers) == Err::<Seq<u16>, SampleError>(error),
{
    let good = numbers.take(k);
    let values = Seq::new(k as nat, |i: int| sample_of(good[i])->Ok_0);
    assert forall|i: int| 0 <= i < good.len() implies sample_of(#[trigger] good[i]) == Ok::<
        u16,
        SampleError,
    >(values[i]) by {
        assert(good[i] == numbers[i]);
    }
    law_curve_is_read_number_by_number(good, values);
    assert(numbers.take(k + 1).drop_last() == good);
    lemma_curve_stops(numbers, k + 1, error);
}

/// Scales from 0-65535 to 0-255.
pub fn scale_u16_to_u8_range(input: u16) -> (result: u8)
    ensures
        result == scaled(input),
        257 * result <= input < 257 * (result + 1),
{
    let quotient: u16 = input / 257;
    assert(quotient as int == scaled(input));
    quotient as u8
}

/// Looks every value of `colour` up in `gray`.
pub fn apply_gray(gray: &Vec<u16>, colour: &Vec<u16>) -> (channel: Vec<u16>)
    requires
        gray.len() == 256,
    ensures
        channel@ == through_gray(gray@, colour@),
        channel@.len() == colour@.len(),
        forall|i: int|
            0 <= i < channel@.len() ==> #[trigger] channel@[i] == gray@[colour@[i] as int / 257],
{
    let mut channel: Vec<u16> = Vec::new();
    let mut i: usize = 0;
    while i < colour.len()
        invariant
            i <= colour.len(),
            gray.len() == 256,
            channel@ == through_gray(gray@, colour@.take(i as int)),
        decreases colour.len() - i,
    {
        let place = scale_u16_to_u8_range(colour[i]);
        channel.push(gray[place as usize]);
        assert(colour@.take(i + 1) == colour@.take(i as int).push(colour@[i as int]));
        i = i + 1;
    }
    assert(colour@.take(i as int) == colour@);
    channel
}

// ---- Laws ----

/// Scaling covers the whole range from 0 to 255, keeps the order, and undoes a
/// multiplication by 257.
pub proof fn law_scaling_covers_the_range(small: u16, large: u16, place: u8)
    requires
        small <= large,
    ensures
        0 <= scaled(small) <= scaled(large) <= 255,
        scaled(0) == 0,
        scaled(65535) == 255,
        scaled((place * 257) as u16) == place,
{
    assert(place * 257 <= 65535);
}

/// A value is scaled to the number of times that 257 goes into it.
pub proof fn law_scaling_counts_steps_of_257(input: u16)
    ensures
        257 * scaled(input) <= input < 257 * (scaled(input) + 1),
{
}

/// Every value of a colour is looked up in the gray curve, at the place that the value has
/// among 256, wherever it stands and whatever stands beside it.
pub proof fn law_colour_is_looked_up_in_gray(gray: Seq<u16>, colour: Seq<u16>, i: int)
    requires
        gray.len() == 256,
        0 <= i < colour.len(),
    ensures
        through_gray(gray, colour).len() == colour.len(),
        through_gray(gray, colour)[i] == gray[colour[i] as int / 257],
{
}

/// Curves that agree on one value of a colour and on what gray makes of it agree there.
pub proof fn law_lookups_are_independent(
    gray: Seq<u16>,
    colour: Seq<u16>,
    i: int,
    other_gray: Seq<u16>,
    other: Seq<u16>,
    j: int,
)
    requires
        gray.len() == 256,
        other_gray.len() == 256,
        0 <= i < colour.len(),
        0 <= j < other.len(),
        colour[i] == other[j],
        gray[colour[i] as int / 257] == other_gray[colour[i] as int / 257],
    ensures
        through_gray(gray, colour)[i] == through_gray(other_gray, other)[j],
{
    law_colour_is_looked_up_in_gray(gray, colour, i);
    law_colour_is_looked_up_in_gray(other_gray, other, j);
}

/// A text is read as a curve exactly when each of its fields is a number from 0 to 1, and
/// then every value comes from the field at its place alone.
pub proof fn law_curve_is_read_field_by_field(input: Seq<char>, values: Seq<u16>)
    ensures
        curve_in(input) == Ok::<Seq<u16>, SampleError>(values) <==> {
            &&& values.len() == fields(input).len()
            &&& forall|i: int|
                0 <= i < fields(input).len() ==> sample_of(#[trigger] fields(input)[i]) == Ok::<
                    u16,
                    SampleError,
                >(values[i])
        },
{
    law_curve_is_read_number_by_number(fields(input), values);
}

/// A text without spaces is a curve of one value.
pub proof fn law_single_number_is_a_curve(input: Seq<char>)
    requires
        forall|i: int| 0 <= i < input.len() ==> #[trigger] input[i] != ' ',
    ensures
        match sample_of(input) {
            Ok(value) => curve_in(input) == Ok::<Seq<u16>, SampleError>(seq![value]),
            Err(error) => curve_in(input) == Err::<Seq<u16>, SampleError>(error),
        },
{
    law_spaces_part_fields(input, input);
    match sample_of(input) {
        Ok(value) => {
            law_curve_is_read_field_by_field(input, seq![value]);
        },
        Err(error) => {
            law_first_bad_number_is_reported(fields(input), 0, error);
        },
    }
}

proof fn lemma_curve_of_more_numbers(first: Seq<Seq<char>>, second: Seq<Seq<char>>)
    ensures
        curve_of(first) is Err ==> curve_of(first + second) == curve_of(first),
        curve_of(first) is Ok && curve_of(second) is Err ==> curve_of(first + second) == curve_of(
            second,
        ),
        curve_of(first) is Ok && curve_of(second) is Ok ==> curve_of(first + second) == Ok::<
            Seq<u16>,
            SampleError,
        >(curve_of(first)->Ok_0 + curve_of(second)->Ok_0),
    decreases second.len(),
{
    let all = first + second;
    if second.len() == 0 {
        assert(all == first);
        if curve_of(first) is Ok {
            assert(curve_of(first)->Ok_0 + Seq::<u16>::empty() == curve_of(first)->Ok_0);
        }
    } else {
        let short = second.drop_last();
        lemma_curve_of_more_numbers(first, short);
        assert(all.drop_last() == first + short);
        assert(all.last() == second.last());
        if curve_of(first) is Ok && curve_of(second) is Ok {
            assert(curve_of(all)->Ok_0 == curve_of(first)->Ok_0 + curve_of(second)->Ok_0);
        }
    }
}

/// What stands on either side of a space is read apart: the values follow each other, and
/// the first side that cannot be read tells why.
pub proof fn law_curves_are_read_apart(left: Seq<char>, right: Seq<char>)
    ensures
        curve_in(left) is Err ==> curve_in(left + seq![' '] + right) == curve_in(left),
        curve_in(left) is Ok && curve_in(right) is Err ==> curve_in(left + seq![' '] + right)
            == curve_in(right),
        curve_in(left) is Ok && curve_in(right) is Ok ==> curve_in(left + seq![' '] + right)
            == Ok::<Seq<u16>, SampleError>(curve_in(left)->Ok_0 + curve_in(right)->Ok_0),
{
    law_spaces_part_fields(left, right);
    lemma_curve_of_more_numbers(fields(left), fields(right));
}

/// `number / 255` in double precision, times 255 in double precision, is no less than
/// `number`.
proof fn lemma_part_of_255_comes_back(number: nat)
    requires
        number <= 255,
    ensures
        double_times(double_of(number, 255), 255) >= number * double_one(),
{
    let limit = DOUBLE_LIMIT as nat;
    let one = double_one();
    lemma2_to64();
    lemma2_to64_rest();
    lemma_pow2_pos(1074);
    if number == 0 || number == 255 {
        let whole: nat = number / 255;
        assert(1 * one == one);
        assert(number * one == 255 * (whole * one)) by (nonlinear_arith)
            requires
                number == 255 * whole,
        ;
        assert((number * one) * 1 == (whole * one) * 255) by (nonlinear_arith)
            requires
                number * one == 255 * (whole * one),
        ;
        law_rounding_is_monotone(whole * one, 1, number * one, 255, limit);
        law_rounding_keeps_format(whole * one, whole, 1074, limit);
        let double = double_of(number, 255);
        law_rounding_keeps_format(number * one, number, 1074, limit);
        law_rounding_is_monotone(number * one, 1, double * 255, 1, limit);
    } else {
        // `2^k <= number < 2^(k + 1)`, so `number * 2^(60 - k)` has 61 bits.
        let k: nat = if number < 2 {
            0
        } else if number < 4 {
            1
        } else if number < 8 {
            2
        } else if number < 16 {
            3
        } else if number < 32 {
            4
        } else if number < 64 {
            5
        } else if number < 128 {
            6
        } else {
            7
        };
        let shift = (60 - k) as nat;
        let top: nat = 0x1000_0000_0000_0000;
        let wide = number * pow2(shift);
        lemma_pow2_adds(k, shift);
        lemma_pow2_pos(shift);
        assert(pow2(k) <= number < 2 * pow2(k));
        assert(top <= wide < 2 * top) by (nonlinear_arith)
            requires
                wide == number * pow2(shift),
                pow2(k) <= number < 2 * pow2(k),
                pow2(k) * pow2(shift) == top,
                pow2(shift) > 0,
        ;
        assert(wide + pow2(shift) <= 2 * top) by (nonlinear_arith)
            requires
                wide == number * pow2(shift),
                number + 1 <= 2 * pow2(k),
                pow2(k) * pow2(shift) == top,
        ;
        assert(wide < 255 * pow2(shift)) by (nonlinear_arith)
            requires
                wide == number * pow2(shift),
                number < 255,
                pow2(shift) > 0,
        ;
        let rest = (1074 - shift) as nat;
        let unit = pow2(rest);
        lemma_pow2_adds(shift, rest);
        lemma_pow2_pos(rest);
        assert(limit / 2 <= wide / 255 < limit);
        lemma_nearest_at_unit(wide, 255, rest, limit);
        assert(wide * unit == number * one) by (nonlinear_arith)
            requires
                wide == number * pow2(shift),
                one == pow2(shift) * unit,
        ;
        let r = half_even(wide, 255);
        lemma_half_even_bounds(wide, 255);
        let double = double_of(number, 255);
        assert(double == r * unit);
        let back = r * 255;
        assert(double * 255 == back * unit) by (nonlinear_arith)
            requires
                double == r * unit,
                back == r * 255,
        ;
        assert(wide <= back + 127);
        if back >= wide {
            assert(number * one <= double * 255) by (nonlinear_arith)
                requires
                    wide * unit == number * one,
                    double * 255 == back * unit,
                    back >= wide,
            ;
            law_rounding_is_monotone(number * one, 1, double * 255, 1, limit);
            law_rounding_keeps_format(number * one, number, 1074, limit);
        } else if wide > top {
            // Less than half of the last 8 of 61 bits below a multiple of them.
            let count = number * pow2((shift - 8) as nat);
            lemma_pow2_adds(8, (shift - 8) as nat);
            lemma_pow2_pos((shift - 8) as nat);
            assert(wide == count * 256) by (nonlinear_arith)
                requires
                    wide == number * pow2(shift),
                    pow2(shift) == 256 * pow2((shift - 8) as nat),
                    count == number * pow2((shift - 8) as nat),
            ;
            assert(half_even(back, 256) == count);
            lemma_nearest_of_whole(back, 8, rest, limit);
            lemma_pow2_adds(8, rest);
            assert(count * (256 * unit) == wide * unit) by (nonlinear_arith)
                requires
                    wide == count * 256,
            ;
        } else {
            // A power of two: what is left over is small.
            assert(back == wide - 16);
            assert(half_even(back, 128) == limit);
            lemma_nearest_of_whole(back, 7, rest, limit);
            lemma_pow2_adds(7, rest);
            assert(limit * (128 * unit) == wide * unit) by (nonlinear_arith)
                requires
                    wide == limit * 128,
            ;
        }
    }
}

/// Scaling gives what double precision gives for the value divided by 65535 and multiplied
/// by 255, once that is cut off to a whole number.
pub proof fn law_scaling_agrees_with_double_precision(input: u16)
    ensures
        double_times(double_of(input as nat, 65535), 255) / double_one() == scaled(input),
{
    let limit = DOUBLE_LIMIT as nat;
    let one = double_one();
    let value = input as nat;
    let place = value / 257;
    let double = double_of(value, 65535);
    let product = double_times(double, 255);
    lemma_pow2_pos(1074);
    // From below: the input is no less than `place` times 257.
    assert(product >= place * one) by {
        assert((place * one) * 65535 <= (value * one) * 255) by (nonlinear_arith)
            requires
                place * 257 <= value,
        ;
        law_rounding_is_monotone(place * one, 255, value * one, 65535, limit);
        let low = double_of(place, 255);
        law_rounding_is_monotone(low * 255, 1, double * 255, 1, limit);
        lemma_part_of_255_comes_back(place);
    }
    // From above: the input is less than `place + 1` times 257, with room for two
    // numbers of few bits in between.
    assert(product < (place + 1) * one) by {
        let fine = pow2(1054);
        lemma2_to64();
        lemma_pow2_adds(20, 1054);
        lemma_pow2_pos(1054);
        let count = ((257 * place + 256) * 0x10_0000) / 65535 + 1;
        assert((value * one) * 1 <= (count * fine) * 65535) by (nonlinear_arith)
            requires
                value * 0x10_0000 <= count * 65535,
                one == 0x10_0000 * fine,
        ;
        law_rounding_is_monotone(value * one, 65535, count * fine, 1, limit);
        law_rounding_keeps_format(count * fine, count, 1054, limit);
        let bound = ((place + 1) * 0x10_0000 - 2048) as nat;
        assert((double * 255) * 1 <= (bound * fine) * 1) by (nonlinear_arith)
            requires
                double <= count * fine,
                count * 255 <= bound,
        ;
        law_rounding_is_monotone(double * 255, 1, bound * fine, 1, limit);
        law_rounding_keeps_format(bound * fine, bound, 1054, limit);
        assert(bound * fine < (place + 1) * one) by (nonlinear_arith)
            requires
                bound < (place + 1) * 0x10_0000,
                one == 0x10_0000 * fine,
                fine > 0,
        ;
    }
    assert(place * one == one * place && (place + 1) * one == one * place + one)
        by (nonlinear_arith);
    lemma_fundamental_div_mod_converse(
        product as int,
        one as int,
        place as int,
        product - one * place,
    );
    assert(place == scaled(input));
}

/// Where gray and a colour rise, the colour seen through gray rises too.
pub proof fn law_gray_keeps_rising_curves(gray: Seq<u16>, colour: Seq<u16>)
    requires
        gray.len() == 256,
        is_rising(gray),
        is_rising(colour),
    ensures
        is_rising(through_gray(gray, colour)),
{
    let channel = through_gray(gray, colour);
    assert forall|i: int, j: int| 0 <= i <= j < channel.len() implies channel[i] <= channel[j] by {
        assert(colour[i] <= colour[j]);
        assert(0 <= scaled(colour[i]) <= scaled(colour[j]) < gray.len());
    }
}

/// The curve of 256 values that changes nothing.
pub open spec fn straight() -> Seq<u16> {
    Seq::new(256, |i: int| (257 * i) as u16)
}

/// A straight colour gives the gray curve itself, and a straight gray curve rounds the values
/// of a colour down to multiples of 257.
pub proof fn law_straight_curves(curve: Seq<u16>, i: int)
    requires
        0 <= i < curve.len(),
    ensures
        curve.len() == 256 ==> through_gray(curve, straight()) == curve,
        through_gray(straight(), curve)[i] == curve[i] - curve[i] % 257,
{
    assert(0 <= scaled(curve[i]) < 256);
    if curve.len() == 256 {
        let channel = through_gray(curve, straight());
        assert forall|k: int| 0 <= k < 256 implies #[trigger] channel[k] == curve[k] by {
            assert(straight()[k] == 257 * k);
            assert(scaled(straight()[k]) == k);
        }
        assert(channel == curve);
    }
}

} // verus!
