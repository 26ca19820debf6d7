//! Decimal expansions: a number as a unit digit and a row of digits behind the point,
//! and how it is measured in fine binary steps without losing anything.
use crate::number::{
    is_row, lemma_row_value_is_digits_value, pow10, row_value, Decimal, Literal, EXPONENT_CAP,
};
use vstd::arithmetic::div_mod::{
    lemma_fundamental_div_mod_converse_div, lemma_fundamental_div_mod_converse_mod,
};
use vstd::arithmetic::power::{
    lemma_pow0, lemma_pow1, lemma_pow_adds, lemma_pow_increases, lemma_pow_positive,
};
use vstd::arithmetic::power2::{
    lemma2_to64, lemma_pow2_adds, lemma_pow2_pos, lemma_pow2_strictly_increases, lemma_pow2_unfold,
    pow2,
};
use vstd::prelude::*;

verus! {

/// So many zeros behind the point put a number below everything that matters.
pub const NEGLIGIBLE_PLACES: i128 = 400;

/// A number that is not negative, as far as it matters: whether it is two or more,
/// whether it is next to nothing, or all its digits.
pub enum Expansion {
    Large,
    Tiny,
    Plain { unit: u128, tail: Vec<u8> },
}

impl Expansion {
    /// The unit is 0 or 1, and only digits follow the point.
    pub open spec fn valid(self) -> bool {
        match self {
            Expansion::Plain { unit, tail } => unit <= 1 && is_row(tail@),
            _ => true,
        }
    }

    /// This is what there is to say of `num / den`.
    pub open spec fn expands(self, num: nat, den: nat) -> bool {
        match self {
            Expansion::Large => num >= 2 * den,
            Expansion::Tiny => num * pow10(NEGLIGIBLE_PLACES as nat) < den,
            Expansion::Plain { unit, tail } => {
                &&& self.valid()
                &&& den == pow10(tail@.len())
                &&& num == unit * den + row_value(tail@)
            },
        }
    }
}

/// Powers of ten are positive, and exponents add up.
pub proof fn lemma_pow10(a: nat, b: nat)
    ensures
        pow10(a) > 0,
        pow10(0) == 1,
        pow10(1) == 10,
        pow10(a + b) == pow10(a) * pow10(b),
        pow10(a) <= pow10(a + b),
{
    lemma_pow_positive(10, a);
    lemma_pow_positive(10, b);
    lemma_pow_positive(10, a + b);
    lemma_pow0(10);
    lemma_pow1(10);
    lemma_pow_adds(10, a, b);
    lemma_pow_increases(10, a, a + b);
}

/// A row of digits, cut in two.
pub proof fn lemma_row_split(row: Seq<u8>, k: int)
    requires
        0 <= k <= row.len(),
    ensures
        row_value(row) == row_value(row.take(k)) * pow10((row.len() - k) as nat) + row_value(
            row.skip(k),
        ),
    decreases row.len() - k,
{
    if k == row.len() {
        lemma_pow10(0, 0);
        assert(row.take(k) == row);
        assert(row.skip(k) == Seq::<u8>::empty());
        assert(row_value(row) * 1 == row_value(row));
    } else {
        let short = row.drop_last();
        let places = (short.len() - k) as nat;
        lemma_row_split(short, k);
        assert(short.take(k) == row.take(k));
        assert(row.skip(k).drop_last() == short.skip(k));
        assert(row.skip(k).last() == row.last());
        lemma_pow10(places, 1);
        let head = row_value(row.take(k));
        let scale = pow10(places);
        assert((head * scale) * 10 == head * (scale * 10)) by (nonlinear_arith);
    }
}

/// A row of digits stays below the power of ten given by its length.
pub proof fn lemma_row_bound(row: Seq<u8>)
    requires
        is_row(row),
    ensures
        row_value(row) < pow10(row.len()),
    decreases row.len(),
{
    lemma_pow10(0, 0);
    if row.len() > 0 {
        assert(is_row(row.drop_last()));
        lemma_row_bound(row.drop_last());
        lemma_pow10((row.len() - 1) as nat, 1);
    }
}

/// Zeros in front change nothing.
proof fn lemma_leading_zeros(zeros: Seq<u8>, row: Seq<u8>)
    requires
        forall|i: int| 0 <= i < zeros.len() ==> #[trigger] zeros[i] == 0,
    ensures
        row_value(zeros + row) == row_value(row),
    decreases row.len(), zeros.len(),
{
    let all = zeros + row;
    if row.len() > 0 {
        assert(all.drop_last() == zeros + row.drop_last());
        lemma_leading_zeros(zeros, row.drop_last());
    } else if zeros.len() > 0 {
        assert(all == zeros);
        assert(zeros.drop_last() + row == zeros.drop_last());
        lemma_leading_zeros(zeros.drop_last(), row);
    } else {
        assert(all == row);
    }
}

/// The number that the first `k` digits stand for, but no more than two.
fn leading_value(row: &Vec<u8>, k: usize) -> (value: u128)
    requires
        k <= row.len(),
        is_row(row@),
    ensures
        value <= 2,
        value < 2 ==> value == row_value(row@.take(k as int)),
        value == 2 ==> row_value(row@.take(k as int)) >= 2,
{
    let mut value: u128 = 0;
    let mut i: usize = 0;
    while i < k
        invariant
            i <= k <= row.len(),
            is_row(row@),
            value <= 2,
            value < 2 ==> value == row_value(row@.take(i as int)),
            value == 2 ==> row_value(row@.take(i as int)) >= 2,
        decreases k - i,
    {
        assert(row@.take(i + 1).drop_last() == row@.take(i as int));
        let grown: u128 = value * 10 + row[i] as u128;
        value = if grown > 2 { 2 } else { grown };
        i = i + 1;
    }
    value
}

/// Writes a number out, with its exponent worked in.
pub fn expand(number: &Decimal) -> (expansion: Expansion)
    requires
        number.whole <= number.digits.len(),
        is_row(number.digits@),
        -EXPONENT_CAP <= number.exponent <= EXPONENT_CAP,
    ensures
        expansion.valid(),
        forall|literal: Literal| #[trigger]
            number.reads(literal) ==> expansion.expands(
                literal.numerator(),
                literal.denominator(),
            ),
{
    let digits = &number.digits;
    let n: usize = digits.len();
    let point: i128 = number.whole as i128 + number.exponent;
    proof {
        assert forall|literal: Literal| #[trigger] number.reads(literal) implies
            literal.significand() == row_value(digits@) by {
            lemma_row_value_is_digits_value(digits@, literal.whole + literal.fraction);
        }
        lemma_pow10(0, 0);
    }
    if point > n as i128 {
        let lead = leading_value(digits, n);
        assert(digits@.take(n as int) == digits@);
        if lead == 0 {
            let tail: Vec<u8> = Vec::new();
            proof {
                assert forall|literal: Literal| #[trigger] number.reads(literal) implies
                    (Expansion::Plain { unit: 0, tail }).expands(
                    literal.numerator(),
                    literal.denominator(),
                ) by {
                    assert(0 * pow10((literal.exponent - literal.fraction.len()) as nat) == 0);
                }
            }
            Expansion::Plain { unit: 0, tail }
        } else {
            proof {
                assert forall|literal: Literal| #[trigger] number.reads(literal) implies
                    literal.numerator() >= 2 * literal.denominator() by {
                    let places = (literal.exponent - literal.fraction.len()) as nat;
                    lemma_pow10(1, (places - 1) as nat);
                    assert(row_value(digits@) * pow10(places) >= 10) by (nonlinear_arith)
                        requires
                            row_value(digits@) >= 1,
                            pow10(places) >= 10,
                    ;
                }
            }
            Expansion::Large
        }
    } else if point < -NEGLIGIBLE_PLACES {
        proof {
            assert forall|literal: Literal| #[trigger] number.reads(literal) implies
                literal.numerator() * pow10(NEGLIGIBLE_PLACES as nat) < literal.denominator() by {
                let places = (literal.fraction.len() - literal.exponent) as nat;
                let spare = NEGLIGIBLE_PLACES as nat;
                lemma_row_bound(digits@);
                lemma_pow10(n as nat, spare);
                lemma_pow10(spare, 0);
                lemma_pow10(n as nat + spare, (places - n - spare) as nat);
                assert(row_value(digits@) * pow10(spare) < pow10(n as nat) * pow10(spare))
                    by (nonlinear_arith)
                    requires
                        row_value(digits@) < pow10(n as nat),
                        pow10(spare) > 0,
                ;
            }
        }
        Expansion::Tiny
    } else if point < 0 {
        let gap: usize = (-point) as usize;
        let mut tail: Vec<u8> = Vec::new();
        let mut i: usize = 0;
        while i < gap
            invariant
                i <= gap,
                tail@.len() == i,
                forall|k: int| 0 <= k < i ==> #[trigger] tail@[k] == 0,
            decreases gap - i,
        {
            tail.push(0);
            i = i + 1;
        }
        let ghost zeros = tail@;
        let mut j: usize = 0;
        while j < n
            invariant
                j <= n,
                n == digits.len(),
                is_row(digits@),
                forall|k: int| 0 <= k < zeros.len() ==> #[trigger] zeros[k] == 0,
                tail@ == zeros + digits@.take(j as int),
            decreases n - j,
        {
            tail.push(digits[j]);
            assert(digits@.take(j + 1) == digits@.take(j as int).push(digits@[j as int]));
            j = j + 1;
        }
        proof {
            assert(digits@.take(n as int) == digits@);
            lemma_leading_zeros(zeros, digits@);
            assert(is_row(tail@));
            assert forall|literal: Literal| #[trigger] number.reads(literal) implies
                (Expansion::Plain { unit: 0, tail }).expands(
                literal.numerator(),
                literal.denominator(),
            ) by {
                assert(literal.fraction.len() - literal.exponent == n + gap);
                assert(tail@.len() == n + gap);
                assert(literal.denominator() == pow10(tail@.len()));
                assert(literal.numerator() == row_value(tail@));
                assert(0 * literal.denominator() == 0);
            }
        }
        Expansion::Plain { unit: 0, tail }
    } else {
        let k: usize = point as usize;
        let unit = leading_value(digits, k);
        let mut tail: Vec<u8> = Vec::new();
        let mut j: usize = k;
        while j < n
            invariant
                k <= j <= n,
                n == digits.len(),
                tail@ == digits@.subrange(k as int, j as int),
            decreases n - j,
        {
            tail.push(digits[j]);
            assert(digits@.subrange(k as int, j + 1) == digits@.subrange(k as int, j as int).push(
                digits@[j as int],
            ));
            j = j + 1;
        }
        let ghost head = row_value(digits@.take(k as int));
        let ghost scale = pow10((n - k) as nat);
        proof {
            assert(tail@ == digits@.skip(k as int));
            lemma_row_split(digits@, k as int);
            assert forall|literal: Literal| #[trigger] number.reads(literal) implies
                literal.numerator() == head * scale + row_value(tail@) && literal.denominator()
                == scale by {
                assert(literal.fraction.len() - literal.exponent == n - k);
            }
        }
        if unit > 1 {
            assert(head * scale >= 2 * scale) by (nonlinear_arith)
                requires
                    head >= 2,
                    scale >= 0,
            ;
            Expansion::Large
        } else {
            Expansion::Plain { unit, tail }
        }
    }
}

/// Doubles the number behind the point; the result tells whether a unit came out.
fn double_tail(tail: &mut Vec<u8>) -> (carried: bool)
    requires
        is_row(old(tail)@),
    ensures
        is_row(final(tail)@),
        final(tail)@.len() == old(tail)@.len(),
        2 * row_value(old(tail)@) == row_value(final(tail)@) + if carried {
            pow10(old(tail)@.len())
        } else {
            0
        },
{
    let ghost before = tail@;
    let n: usize = tail.len();
    let mut i: usize = n;
    let mut carry: u8 = 0;
    proof {
        lemma_pow10(0, 0);
        assert(before.skip(n as int) == Seq::<u8>::empty());
    }
    while i > 0
        invariant
            i <= n,
            n == before.len(),
            tail@.len() == n,
            before == old(tail)@,
            is_row(before),
            is_row(tail@),
            carry <= 1,
            forall|k: int| 0 <= k < i ==> tail@[k] == before[k],
            2 * row_value(before.skip(i as int)) == row_value(tail@.skip(i as int)) + carry
                * pow10((n - i) as nat),
        decreases i,
    {
        let ghost prior = tail@;
        let ghost came: u8 = carry;
        i = i - 1;
        let twice: u8 = tail[i] * 2 + carry;
        if twice >= 10 {
            tail.set(i, twice - 10);
            carry = 1;
        } else {
            tail.set(i, twice);
            carry = 0;
        }
        proof {
            let places = (n - i - 1) as nat;
            let scale = pow10(places);
            lemma_pow10(places, 1);
            lemma_first_digit(before, i as int);
            lemma_first_digit(tail@, i as int);
            assert(tail@.skip(i + 1) == prior.skip(i + 1));
            let old_digit = before[i as int] as int;
            let new_digit = tail@[i as int] as int;
            assert(2 * (old_digit * scale) + came * scale == new_digit * scale + carry * (scale
                * 10)) by (nonlinear_arith)
                requires
                    2 * old_digit + came == new_digit + 10 * carry,
            ;
        }
    }
    proof {
        assert(before.skip(0) == before);
        assert(tail@.skip(0) == tail@);
    }
    carry == 1
}

/// The digit in front of a row, taken off.
proof fn lemma_first_digit(row: Seq<u8>, i: int)
    requires
        0 <= i < row.len(),
    ensures
        row_value(row.skip(i)) == row[i] * pow10((row.len() - i - 1) as nat) + row_value(
            row.skip(i + 1),
        ),
{
    let tail = row.skip(i);
    lemma_row_split(tail, 1);
    assert(tail.take(1).drop_last() == Seq::<u8>::empty());
    assert(tail.take(1).last() == row[i]);
    assert(tail.skip(1) == row.skip(i + 1));
    assert(row_value(tail.take(1)) == row[i]) by {
        assert(row_value(Seq::<u8>::empty()) == 0);
    }
}

/// Whether a row of digits stands for zero.
fn is_zero(row: &Vec<u8>) -> (zero: bool)
    ensures
        zero == (row_value(row@) == 0),
{
    let mut i: usize = 0;
    while i < row.len()
        invariant
            i <= row.len(),
            row_value(row@.take(i as int)) == 0,
        decreases row.len() - i,
    {
        if row[i] > 0 {
            proof {
                lemma_row_split(row@, i + 1);
                assert(row@.take(i + 1).drop_last() == row@.take(i as int));
                lemma_pow10((row.len() - i - 1) as nat, 0);
                let head = row_value(row@.take(i + 1));
                let scale = pow10((row.len() - i - 1) as nat);
                assert(head * scale > 0) by (nonlinear_arith)
                    requires
                        head > 0,
                        scale > 0,
                ;
            }
            return false;
        }
        assert(row@.take(i + 1).drop_last() == row@.take(i as int));
        i = i + 1;
    }
    assert(row@.take(i as int) == row@);
    true
}

/// Powers of two up to the 72nd.
pub proof fn lemma_pow2_to_72(j: nat)
    requires
        j <= 72,
    ensures
        pow2(72) == 0x100_0000_0000_0000_0000,
        pow2(j) <= 0x100_0000_0000_0000_0000,
        j < 72 ==> 2 * pow2(j) <= 0x100_0000_0000_0000_0000,
{
    lemma2_to64();
    lemma_pow2_adds(64, 8);
    if j < 72 {
        lemma_pow2_unfold(j + 1);
        if j + 1 < 72 {
            lemma_pow2_strictly_increases(j + 1, 72);
        }
    }
}

/// Measures a number in steps of two to the power -72: how many whole steps there are,
/// and whether anything is left over.
pub fn fine_steps(unit: u128, tail: Vec<u8>) -> (steps: (u128, bool))
    requires
        unit <= 1,
        is_row(tail@),
    ensures
        ({
            let den = pow10(tail@.len());
            let num = unit * den + row_value(tail@);
            &&& steps.0 == (num * pow2(72)) / den as int
            &&& steps.1 == ((num * pow2(72)) % den as int > 0)
        }),
        steps.0 < 0x200_0000_0000_0000_0000,
{
    let ghost den = pow10(tail@.len());
    let ghost start = unit * den + row_value(tail@);
    let mut whole: u128 = unit;
    let mut row: Vec<u8> = tail;
    let mut j: u128 = 0;
    let mut bound: u128 = 2;
    proof {
        lemma2_to64();
        lemma_pow10(tail@.len(), 0);
        lemma_row_bound(row@);
        assert(start * 1 == start);
    }
    while j < 72
        invariant
            j <= 72,
            whole < bound,
            bound == 2 * pow2(j as nat),
            bound <= 0x200_0000_0000_0000_0000,
            j < 72 ==> bound <= 0x100_0000_0000_0000_0000,
            is_row(row@),
            pow10(row@.len()) == den,
            row_value(row@) < den,
            whole * den + row_value(row@) == start * pow2(j as nat),
        decreases 72 - j,
    {
        let ghost prior = row@;
        let ghost came = whole;
        let carried = double_tail(&mut row);
        whole = whole * 2 + if carried {
            1
        } else {
            0
        };
        bound = bound * 2;
        proof {
            lemma_row_bound(row@);
            lemma_pow2_unfold(j as nat + 1);
            lemma_pow2_to_72(j as nat + 1);
            let scale = pow2(j as nat);
            assert(start * (2 * scale) == 2 * (start * scale)) by (nonlinear_arith);
            let extra: int = if carried { 1 } else { 0 };
            assert((came * 2 + extra) * den == 2 * (came * den) + extra * den)
                by (nonlinear_arith);
            assert(1 * den == den && 0 * den == 0);
        }
        j = j + 1;
    }
    let left = !is_zero(&row);
    proof {
        assert(whole * den == den * whole) by (nonlinear_arith);
        lemma_fundamental_div_mod_converse_div(
            start * pow2(72),
            den as int,
            whole as int,
            row_value(row@) as int,
        );
        lemma_fundamental_div_mod_converse_mod(
            start * pow2(72),
            den as int,
            whole as int,
            row_value(row@) as int,
        );
    }
    (whole, left)
}

/// The power of two by which a number has to be multiplied to tell whether it rounds to
/// zero among doubles.
pub const UNDERFLOW_SHIFT: u32 = 1075;

/// Whether the number behind the point is no more than two to the power -1075.
pub fn underflows(tail: Vec<u8>) -> (small: bool)
    requires
        is_row(tail@),
    ensures
        small == (row_value(tail@) * pow2(UNDERFLOW_SHIFT as nat) <= pow10(tail@.len())),
{
    let ghost den = pow10(tail@.len());
    let ghost start = row_value(tail@);
    let mut row: Vec<u8> = tail;
    let mut j: u32 = 0;
    proof {
        lemma2_to64();
        lemma_row_bound(row@);
        assert(start * 1 == start);
    }
    while j < UNDERFLOW_SHIFT
        invariant
            j <= UNDERFLOW_SHIFT,
            is_row(row@),
            pow10(row@.len()) == den,
            row_value(row@) < den,
            row_value(row@) == start * pow2(j as nat),
            start == row_value(tail@),
            den == pow10(tail@.len()),
        decreases UNDERFLOW_SHIFT - j,
    {
        let carried = double_tail(&mut row);
        j = j + 1;
        proof {
            lemma_row_bound(row@);
            lemma_pow2_unfold(j as nat);
            let scale = pow2((j - 1) as nat);
            assert(start * (2 * scale) == 2 * (start * scale)) by (nonlinear_arith);
        }
        if carried {
            if j == UNDERFLOW_SHIFT {
                return is_zero(&row);
            }
            proof {
                let rest = (UNDERFLOW_SHIFT - j) as nat;
                let scale = pow2(j as nat);
                lemma_pow2_adds(j as nat, rest);
                lemma_pow2_unfold(rest);
                lemma_pow2_pos((rest - 1) as nat);
                assert(start * (scale * pow2(rest)) == (start * scale) * pow2(rest))
                    by (nonlinear_arith);
                assert((start * scale) * pow2(rest) > den) by (nonlinear_arith)
                    requires
                        start * scale >= den,
                        den > 0,
                        pow2(rest) >= 2,
                ;
            }
            return false;
        }
    }
    true
}

/// Ten is more than two to the power three.
proof fn lemma_pow10_over_pow2(k: nat)
    ensures
        pow10(k) >= pow2(3 * k),
    decreases k,
{
    lemma2_to64();
    lemma_pow10(0, 0);
    if k > 0 {
        let j = (k - 1) as nat;
        lemma_pow10_over_pow2(j);
        lemma_pow10(j, 1);
        lemma_pow2_adds(3 * j, 3);
    }
}

/// What is next to nothing rounds to zero among doubles.
pub proof fn lemma_tiny_underflows(num: nat, den: nat)
    requires
        Expansion::Tiny.expands(num, den),
    ensures
        num * pow2(UNDERFLOW_SHIFT as nat) <= den,
{
    lemma_pow10_over_pow2(NEGLIGIBLE_PLACES as nat);
    lemma_pow2_strictly_increases(UNDERFLOW_SHIFT as nat, 3 * NEGLIGIBLE_PLACES as nat);
    assert(num * pow2(UNDERFLOW_SHIFT as nat) <= num * pow10(NEGLIGIBLE_PLACES as nat))
        by (nonlinear_arith)
        requires
            pow2(UNDERFLOW_SHIFT as nat) <= pow10(NEGLIGIBLE_PLACES as nat),
    ;
}

} // verus!
