//! How a number is written in decimal.
//!
//! The notation is that of a decimal floating-point literal: a sign, digits with a
//! point somewhere among them, and an exponent of ten, where the sign, the point and
//! the exponent may be left out.
use vstd::arithmetic::power::pow;
use vstd::prelude::*;

verus! {

/// What a written number says: its sign, the digits before the point, the digits
/// behind it, and the power of ten it is multiplied by.
pub struct Literal {
    pub negative: bool,
    pub whole: Seq<char>,
    pub fraction: Seq<char>,
    pub exponent: int,
}

/// One of the ten digits.
pub open spec fn is_digit(c: char) -> bool {
    '0' <= c <= '9'
}

/// Nothing but digits.
pub open spec fn all_digits(text: Seq<char>) -> bool {
    forall|i: int| 0 <= i < text.len() ==> is_digit(#[trigger] text[i])
}

/// The number that a row of digits stands for.
pub open spec fn digits_value(digits: Seq<char>) -> nat
    decreases digits.len(),
{
    if digits.len() == 0 {
        0
    } else {
        (digits_value(digits.drop_last()) * 10 + (digits.last() as int - '0' as int)) as nat
    }
}

/// A sign, or none.
pub open spec fn sign_spells(text: Seq<char>, negative: bool) -> bool {
    ||| text == Seq::<char>::empty() && !negative
    ||| text == seq!['+'] && !negative
    ||| text == seq!['-'] && negative
}

/// Digits, with or without a point, and at least one digit.
pub open spec fn mantissa_spells(text: Seq<char>, whole: Seq<char>, fraction: Seq<char>) -> bool {
    &&& all_digits(whole)
    &&& all_digits(fraction)
    &&& whole.len() + fraction.len() > 0
    &&& (text == whole && fraction.len() == 0) || text == whole + seq!['.'] + fraction
}

/// The letter that starts an exponent.
pub open spec fn is_exponent_mark(c: char) -> bool {
    c == 'e' || c == 'E'
}

/// An exponent that is written out: the letter, a sign or none, and digits.
pub open spec fn exponent_parts(
    text: Seq<char>,
    mark: char,
    sign: Seq<char>,
    digits: Seq<char>,
    exponent: int,
) -> bool {
    &&& is_exponent_mark(mark)
    &&& all_digits(digits)
    &&& digits.len() > 0
    &&& text == seq![mark] + sign + digits
    &&& ({
        ||| sign_spells(sign, false) && exponent == digits_value(digits)
        ||| sign_spells(sign, true) && exponent == -digits_value(digits)
    })
}

/// An exponent, or none, which stands for zero.
pub open spec fn exponent_spells(text: Seq<char>, exponent: int) -> bool {
    ||| text == Seq::<char>::empty() && exponent == 0
    ||| exists|mark: char, sign: Seq<char>, digits: Seq<char>|
        exponent_parts(text, mark, sign, digits, exponent)
}

/// `text` is a sign, a mantissa and an exponent, in this order.
pub open spec fn literal_parts(
    text: Seq<char>,
    sign: Seq<char>,
    mantissa: Seq<char>,
    exponent: Seq<char>,
    literal: Literal,
) -> bool {
    &&& text == sign + mantissa + exponent
    &&& sign_spells(sign, literal.negative)
    &&& mantissa_spells(mantissa, literal.whole, literal.fraction)
    &&& exponent_spells(exponent, literal.exponent)
}

/// `text` is a way to write `literal`.
pub open spec fn spells(text: Seq<char>, literal: Literal) -> bool {
    exists|sign: Seq<char>, mantissa: Seq<char>, exponent: Seq<char>|
        literal_parts(text, sign, mantissa, exponent, literal)
}

/// The number that `text` writes, where it writes one.
pub open spec fn literal_of(text: Seq<char>) -> Option<Literal> {
    if exists|literal: Literal| spells(text, literal) {
        Some(choose|literal: Literal| spells(text, literal))
    } else {
        None
    }
}

/// `text` is the word spelled by `lower` and `upper`, in any mix of the two.
pub open spec fn is_word(text: Seq<char>, lower: Seq<char>, upper: Seq<char>) -> bool {
    &&& text.len() == lower.len()
    &&& forall|i: int| 0 <= i < text.len() ==> text[i] == lower[i] || text[i] == upper[i]
}

/// `text` names an infinity or the absence of a number.
pub open spec fn is_special(text: Seq<char>) -> bool {
    ||| is_word(text, seq!['i', 'n', 'f'], seq!['I', 'N', 'F'])
    ||| is_word(
        text,
        seq!['i', 'n', 'f', 'i', 'n', 'i', 't', 'y'],
        seq!['I', 'N', 'F', 'I', 'N', 'I', 'T', 'Y'],
    )
    ||| is_word(text, seq!['n', 'a', 'n'], seq!['N', 'A', 'N'])
}

/// `text` is a sign or none, and the name of something that is no finite number.
pub open spec fn spells_special(text: Seq<char>) -> bool {
    is_special(text) || (text.len() > 0 && (text[0] == '+' || text[0] == '-') && is_special(
        text.skip(1),
    ))
}

// ---- Reading from left to right ----

/// Where the digits that start at `from` end.
spec fn digits_end(text: Seq<char>, from: int) -> int
    decreases text.len() - from,
{
    if 0 <= from < text.len() && is_digit(text[from]) {
        digits_end(text, from + 1)
    } else {
        from
    }
}

/// Where what follows a sign at `from`, or the lack of one, starts.
spec fn sign_end(text: Seq<char>, from: int) -> int {
    if 0 <= from < text.len() && (text[from] == '+' || text[from] == '-') {
        from + 1
    } else {
        from
    }
}

spec fn scan_exponent(text: Seq<char>, from: int) -> Option<int> {
    if from == text.len() {
        Some(0)
    } else if is_exponent_mark(text[from]) {
        let start = sign_end(text, from + 1);
        let end = digits_end(text, start);
        if start < end && end == text.len() {
            let size = digits_value(text.subrange(start, end)) as int;
            Some(if text[from + 1] == '-' { -size } else { size })
        } else {
            None
        }
    } else {
        None
    }
}

spec fn scan(text: Seq<char>) -> Option<Literal> {
    let start = sign_end(text, 0);
    let point = digits_end(text, start);
    let dotted = point < text.len() && text[point] == '.';
    let end = if dotted { digits_end(text, point + 1) } else { point };
    let whole = text.subrange(start, point);
    let fraction = if dotted { text.subrange(point + 1, end) } else { Seq::empty() };
    match scan_exponent(text, end) {
        Some(exponent) if whole.len() + fraction.len() > 0 => Some(
            Literal { negative: start == 1 && text[0] == '-', whole, fraction, exponent },
        ),
        _ => None,
    }
}

proof fn lemma_digits_end(text: Seq<char>, from: int)
    requires
        0 <= from <= text.len(),
    ensures
        from <= digits_end(text, from) <= text.len(),
        all_digits(text.subrange(from, digits_end(text, from))),
        digits_end(text, from) < text.len() ==> !is_digit(text[digits_end(text, from)]),
    decreases text.len() - from,
{
    if from < text.len() && is_digit(text[from]) {
        lemma_digits_end(text, from + 1);
        let end = digits_end(text, from);
        assert forall|i: int| 0 <= i < end - from implies is_digit(
            #[trigger] text.subrange(from, end)[i],
        ) by {
            if i > 0 {
                assert(text.subrange(from + 1, end)[i - 1] == text.subrange(from, end)[i]);
            }
        }
    }
}

proof fn lemma_digits_end_is(text: Seq<char>, from: int, end: int)
    requires
        0 <= from <= end <= text.len(),
        forall|i: int| from <= i < end ==> is_digit(#[trigger] text[i]),
        end < text.len() ==> !is_digit(text[end]),
    ensures
        digits_end(text, from) == end,
    decreases end - from,
{
    if from < end {
        lemma_digits_end_is(text, from + 1, end);
    }
}

/// What reading from left to right finds is what is written.
proof fn lemma_scan_spells(text: Seq<char>)
    ensures
        scan(text) is Some ==> spells(text, scan(text)->0),
{
    if let Some(literal) = scan(text) {
        let start = sign_end(text, 0);
        lemma_digits_end(text, start);
        let point = digits_end(text, start);
        let dotted = point < text.len() && text[point] == '.';
        if dotted {
            lemma_digits_end(text, point + 1);
        }
        let end = if dotted { digits_end(text, point + 1) } else { point };
        let sign = text.subrange(0, start);
        let mantissa = text.subrange(start, end);
        let exponent = text.subrange(end, text.len() as int);
        assert(text == sign + mantissa + exponent);
        assert(sign_spells(sign, literal.negative)) by {
            if start == 1 {
                assert(sign == seq![text[0]]);
            } else {
                assert(sign == Seq::<char>::empty());
            }
        }
        assert(mantissa_spells(mantissa, literal.whole, literal.fraction)) by {
            if dotted {
                assert(mantissa == literal.whole + seq!['.'] + literal.fraction);
            } else {
                assert(mantissa == literal.whole);
            }
        }
        assert(exponent_spells(exponent, literal.exponent)) by {
            if end == text.len() {
                assert(exponent == Seq::<char>::empty());
            } else {
                let from = sign_end(text, end + 1);
                lemma_digits_end(text, from);
                let marked = text.subrange(end + 1, from);
                let digits = text.subrange(from, text.len() as int);
                if from == end + 2 {
                    assert(marked == seq![text[end + 1]]);
                } else {
                    assert(marked == Seq::<char>::empty());
                }
                assert(exponent == seq![text[end]] + marked + digits);
                assert(exponent_parts(exponent, text[end], marked, digits, literal.exponent));
            }
        }
        assert(literal_parts(text, sign, mantissa, exponent, literal));
    }
}

/// An exponent that ends a text is found there.
proof fn lemma_exponent_scan(text: Seq<char>, from: int, exponent: int)
    requires
        0 <= from <= text.len(),
        exponent_spells(text.skip(from), exponent),
    ensures
        scan_exponent(text, from) == Some(exponent),
        from < text.len() ==> is_exponent_mark(text[from]),
{
    let tail = text.skip(from);
    if tail.len() > 0 {
        let (mark, sign, digits) = choose|mark: char, sign: Seq<char>, digits: Seq<char>|
            exponent_parts(tail, mark, sign, digits, exponent);
        let start = from + 1 + sign.len();
        assert(text[from] == tail[0]);
        assert(text[from + 1] == tail[1]);
        if sign.len() == 0 {
            assert(tail[1] == digits[0]);
        } else {
            assert(tail[1] == sign[0]);
        }
        assert(sign_end(text, from + 1) == start);
        assert forall|i: int| start <= i < text.len() implies is_digit(#[trigger] text[i]) by {
            assert(text[i] == tail[i - from]);
            assert(tail[i - from] == digits[i - start]);
        }
        lemma_digits_end_is(text, start, text.len() as int);
        let found = text.subrange(start, text.len() as int);
        assert(found.len() == digits.len());
        assert forall|i: int| 0 <= i < found.len() implies found[i] == digits[i] by {
            assert(found[i] == tail[start - from + i]);
        }
        assert(found == digits);
    }
}

/// A mantissa that an exponent or the end follows is found where it starts.
proof fn lemma_mantissa_scan(
    text: Seq<char>,
    start: int,
    end: int,
    whole: Seq<char>,
    fraction: Seq<char>,
)
    requires
        0 <= start <= end <= text.len(),
        mantissa_spells(text.subrange(start, end), whole, fraction),
        end < text.len() ==> is_exponent_mark(text[end]),
    ensures
        start < end,
        is_digit(text[start]) || text[start] == '.',
        ({
            let point = digits_end(text, start);
            let dotted = point < text.len() && text[point] == '.';
            &&& start <= point <= end
            &&& text.subrange(start, point) == whole
            &&& dotted ==> digits_end(text, point + 1) == end && text.subrange(point + 1, end)
                == fraction
            &&& !dotted ==> point == end && fraction == Seq::<char>::empty()
        }),
{
    let mantissa = text.subrange(start, end);
    let point = start + whole.len();
    assert(text[start] == mantissa[0]);
    assert forall|i: int| start <= i < point implies is_digit(#[trigger] text[i]) by {
        assert(text[i] == mantissa[i - start]);
        assert(mantissa[i - start] == whole[i - start]);
    }
    if mantissa.len() > whole.len() {
        assert(text[point] == mantissa[whole.len() as int]);
        assert(text[point] == '.');
        assert forall|i: int| point + 1 <= i < end implies is_digit(#[trigger] text[i]) by {
            assert(text[i] == mantissa[i - start]);
            assert(mantissa[i - start] == fraction[i - point - 1]);
        }
        lemma_digits_end_is(text, point + 1, end);
        let behind = text.subrange(point + 1, end);
        assert(behind.len() == fraction.len());
        assert forall|i: int| 0 <= i < behind.len() implies behind[i] == fraction[i] by {
            assert(behind[i] == mantissa[whole.len() + 1 + i]);
        }
        assert(behind == fraction);
    } else {
        assert(mantissa == whole);
        assert(fraction == Seq::<char>::empty());
    }
    lemma_digits_end_is(text, start, point);
    assert(text.subrange(start, point) == whole);
}

/// What is written is what reading from left to right finds.
proof fn lemma_spells_scan(text: Seq<char>, literal: Literal)
    requires
        spells(text, literal),
    ensures
        scan(text) == Some(literal),
{
    let (sign, mantissa, exponent) = choose|
        sign: Seq<char>,
        mantissa: Seq<char>,
        exponent: Seq<char>,
    |
        literal_parts(text, sign, mantissa, exponent, literal);
    let start = sign.len() as int;
    let end = start + mantissa.len();
    assert(text.skip(end) == exponent);
    lemma_exponent_scan(text, end, literal.exponent);
    assert(text.subrange(start, end) == mantissa);
    lemma_mantissa_scan(text, start, end, literal.whole, literal.fraction);
    assert(start == 1 ==> text[0] == sign[0]);
    assert(sign_end(text, 0) == start);
}

/// A text writes one number at most.
pub proof fn law_number_is_unambiguous(text: Seq<char>, first: Literal, second: Literal)
    requires
        spells(text, first),
        spells(text, second),
    ensures
        first == second,
{
    lemma_spells_scan(text, first);
    lemma_spells_scan(text, second);
}

proof fn lemma_literal_of_is_scan(text: Seq<char>)
    ensures
        literal_of(text) == scan(text),
{
    lemma_scan_spells(text);
    if exists|literal: Literal| spells(text, literal) {
        lemma_spells_scan(text, choose|literal: Literal| spells(text, literal));
    }
}

/// A row of digits counts in tens, and no digits stand for zero.
pub proof fn law_digits_count_in_tens(digits: Seq<char>, digit: char)
    requires
        '0' <= digit <= '9',
    ensures
        digits_value(Seq::<char>::empty()) == 0,
        digits_value(digits.push(digit)) == 10 * digits_value(digits) + (digit as int - '0' as int),
{
    assert(digits.push(digit).drop_last() == digits);
}

// ---- Values ----

/// Ten to the power `n`.
pub open spec fn pow10(n: nat) -> nat {
    pow(10, n) as nat
}

impl Literal {
    /// All digits of the literal, taken as one whole number.
    pub open spec fn significand(self) -> nat {
        digits_value(self.whole + self.fraction)
    }

    /// The size of the number is `numerator() / denominator()`: the significand, moved
    /// left by the exponent and right by the digits behind the point.
    pub open spec fn numerator(self) -> nat {
        if self.exponent > self.fraction.len() {
            self.significand() * pow10((self.exponent - self.fraction.len()) as nat)
        } else {
            self.significand()
        }
    }

    /// See `numerator`.
    pub open spec fn denominator(self) -> nat {
        if self.exponent < self.fraction.len() {
            pow10((self.fraction.len() - self.exponent) as nat)
        } else {
            1
        }
    }
}

/// The exponent beyond which no digit that could stand in memory makes a difference.
pub const EXPONENT_CAP: i128 = 1_000_000_000_000_000_000_000_000_000_000;

/// `exponent`, kept within the cap.
pub open spec fn capped(exponent: int) -> int {
    if exponent > EXPONENT_CAP {
        EXPONENT_CAP as int
    } else if exponent < -EXPONENT_CAP {
        -EXPONENT_CAP
    } else {
        exponent
    }
}

/// The number that a row of digits from 0 to 9 stands for.
pub open spec fn row_value(row: Seq<u8>) -> nat
    decreases row.len(),
{
    if row.len() == 0 {
        0
    } else {
        row_value(row.drop_last()) * 10 + row.last() as nat
    }
}

/// Nothing but digits from 0 to 9.
pub open spec fn is_row(row: Seq<u8>) -> bool {
    forall|i: int| 0 <= i < row.len() ==> #[trigger] row[i] <= 9
}

/// A number that was read: its sign, its digits, how many of them stand before the
/// point, and its exponent, kept within the cap.
pub struct Decimal {
    pub negative: bool,
    pub digits: Vec<u8>,
    pub whole: usize,
    pub exponent: i128,
}

impl Decimal {
    /// This is what was read where `literal` was written.
    pub open spec fn reads(self, literal: Literal) -> bool {
        let written = literal.whole + literal.fraction;
        &&& self.negative == literal.negative
        &&& self.digits.len() == written.len()
        &&& is_row(self.digits@)
        &&& forall|i: int|
            0 <= i < written.len() ==> self.digits@[i] == #[trigger] written[i] as int
                - '0' as int
        &&& self.whole == literal.whole.len()
        &&& self.exponent == capped(literal.exponent)
    }
}

/// A row of digits stands for the same number as the characters it was read from.
pub proof fn lemma_row_value_is_digits_value(row: Seq<u8>, written: Seq<char>)
    requires
        row.len() == written.len(),
        forall|i: int|
            0 <= i < written.len() ==> row[i] == #[trigger] written[i] as int - '0' as int,
    ensures
        row_value(row) == digits_value(written),
    decreases row.len(),
{
    if row.len() > 0 {
        assert(written.last() == written[written.len() - 1]);
        assert forall|i: int| 0 <= i < written.len() - 1 implies row.drop_last()[i]
            == #[trigger] written.drop_last()[i] as int - '0' as int by {
            assert(written.drop_last()[i] == written[i]);
        }
        lemma_row_value_is_digits_value(row.drop_last(), written.drop_last());
    }
}

/// Reads the digits that start at `from` and appends them to `row`; returns where
/// they end.
fn read_digits(text: &Vec<char>, from: usize, row: &mut Vec<u8>) -> (end: usize)
    requires
        from <= text.len(),
        is_row(old(row)@),
    ensures
        end == digits_end(text@, from as int),
        from <= end <= text.len(),
        is_row(final(row)@),
        final(row)@.len() == old(row)@.len() + end - from,
        final(row)@.take(old(row)@.len() as int) == old(row)@,
        forall|i: int|
            from <= i < end ==> final(row)@[old(row)@.len() + i - from] == #[trigger] text@[i] as int
                - '0' as int,
{
    let ghost before = row@;
    let mut end: usize = from;
    while end < text.len() && '0' <= text[end] && text[end] <= '9'
        invariant
            from <= end <= text.len(),
            before == old(row)@,
            is_row(row@),
            row@.len() == before.len() + end - from,
            row@.take(before.len() as int) == before,
            forall|i: int|
                from <= i < end ==> row@[before.len() + i - from] == #[trigger] text@[i] as int
                    - '0' as int,
            digits_end(text@, from as int) == digits_end(text@, end as int),
        decreases text.len() - end,
    {
        let ghost prior = row@;
        let digit: u8 = (text[end] as u32 - '0' as u32) as u8;
        row.push(digit);
        assert(row@.take(before.len() as int) == prior.take(before.len() as int));
        end = end + 1;
    }
    end
}

/// The size of the number that `row` stands for, kept within the cap.
fn capped_row_value(row: &Vec<u8>) -> (size: i128)
    requires
        is_row(row@),
    ensures
        size == capped(row_value(row@) as int),
{
    let mut size: i128 = 0;
    let mut i: usize = 0;
    while i < row.len()
        invariant
            i <= row.len(),
            is_row(row@),
            0 <= size <= EXPONENT_CAP,
            size == capped(row_value(row@.take(i as int)) as int),
        decreases row.len() - i,
    {
        assert(row@.take(i + 1).drop_last() == row@.take(i as int));
        let grown: i128 = size * 10 + row[i] as i128;
        size = if grown > EXPONENT_CAP { EXPONENT_CAP } else { grown };
        i = i + 1;
    }
    assert(row@.take(i as int) == row@);
    size
}

/// Reads the exponent that starts at `from` and has to reach to the end.
fn read_exponent(text: &Vec<char>, from: usize) -> (exponent: Option<i128>)
    requires
        from <= text.len(),
    ensures
        exponent is Some <==> scan_exponent(text@, from as int) is Some,
        exponent is Some ==> exponent->0 == capped(scan_exponent(text@, from as int)->0),
{
    if from == text.len() {
        return Some(0);
    }
    if text[from] != 'e' && text[from] != 'E' {
        return None;
    }
    let mut start: usize = from + 1;
    let mut negative: bool = false;
    if start < text.len() && (text[start] == '+' || text[start] == '-') {
        negative = text[start] == '-';
        start = start + 1;
    }
    let mut row: Vec<u8> = Vec::new();
    let end = read_digits(text, start, &mut row);
    if start == end || end != text.len() {
        return None;
    }
    let ghost written = text@.subrange(start as int, end as int);
    proof {
        assert forall|i: int| 0 <= i < written.len() implies row@[i] == #[trigger] written[i] as int
            - '0' as int by {
            assert(written[i] == text@[start + i]);
        }
        lemma_row_value_is_digits_value(row@, written);
        lemma_digits_end(text@, start as int);
        assert(is_digit(written[0]));
    }
    let size = capped_row_value(&row);
    Some(if negative { -size } else { size })
}

/// Reads a number that makes up all of `text`.
pub fn read_number(text: &Vec<char>) -> (number: Option<Decimal>)
    ensures
        number is Some <==> literal_of(text@) is Some,
        number is Some ==> number->0.reads(literal_of(text@)->0),
{
    proof {
        lemma_literal_of_is_scan(text@);
    }
    let mut start: usize = 0;
    let mut negative: bool = false;
    if text.len() > 0 && (text[0] == '+' || text[0] == '-') {
        negative = text[0] == '-';
        start = 1;
    }
    let mut digits: Vec<u8> = Vec::new();
    let point = read_digits(text, start, &mut digits);
    let ghost first = digits@;
    let mut end: usize = point;
    if point < text.len() && text[point] == '.' {
        end = read_digits(text, point + 1, &mut digits);
    }
    if digits.len() == 0 {
        return None;
    }
    match read_exponent(text, end) {
        None => None,
        Some(exponent) => {
            let number = Decimal { negative, digits, whole: point - start, exponent };
            proof {
                let literal = scan(text@)->0;
                let written = literal.whole + literal.fraction;
                assert forall|i: int| 0 <= i < written.len() implies number.digits@[i]
                    == #[trigger] written[i] as int - '0' as int by {
                    if i < first.len() {
                        assert(number.digits@.take(first.len() as int)[i] == first[i]);
                        assert(written[i] == text@[start + i]);
                    } else {
                        assert(written[i] == text@[point + 1 + i - first.len()]);
                    }
                }
                assert(number.reads(literal));
            }
            Some(number)
        },
    }
}

/// Whether what stands from `from` on is the word spelled by `lower` and `upper`.
fn reads_word(text: &Vec<char>, from: usize, lower: &Vec<char>, upper: &Vec<char>) -> (same: bool)
    requires
        from <= text.len(),
        lower.len() == upper.len(),
    ensures
        same == is_word(text@.skip(from as int), lower@, upper@),
{
    if text.len() - from != lower.len() {
        return false;
    }
    let mut i: usize = 0;
    while i < lower.len()
        invariant
            i <= lower.len(),
            lower.len() == upper.len(),
            text.len() - from == lower.len(),
            from <= text.len(),
            forall|k: int|
                0 <= k < i ==> text@.skip(from as int)[k] == lower@[k] || text@.skip(from as int)[k]
                    == upper@[k],
        decreases lower.len() - i,
    {
        if text[from + i] != lower[i] && text[from + i] != upper[i] {
            assert(text@.skip(from as int)[i as int] == text@[from + i]);
            return false;
        }
        i = i + 1;
    }
    true
}

fn reads_special_from(text: &Vec<char>, from: usize) -> (special: bool)
    requires
        from <= text.len(),
    ensures
        special == is_special(text@.skip(from as int)),
{
    let short_lower = vec!['i', 'n', 'f'];
    let short_upper = vec!['I', 'N', 'F'];
    let long_lower = vec!['i', 'n', 'f', 'i', 'n', 'i', 't', 'y'];
    let long_upper = vec!['I', 'N', 'F', 'I', 'N', 'I', 'T', 'Y'];
    let none_lower = vec!['n', 'a', 'n'];
    let none_upper = vec!['N', 'A', 'N'];
    proof {
        assert(short_lower@ == seq!['i', 'n', 'f']);
        assert(short_upper@ == seq!['I', 'N', 'F']);
        assert(long_lower@ == seq!['i', 'n', 'f', 'i', 'n', 'i', 't', 'y']);
        assert(long_upper@ == seq!['I', 'N', 'F', 'I', 'N', 'I', 'T', 'Y']);
        assert(none_lower@ == seq!['n', 'a', 'n']);
        assert(none_upper@ == seq!['N', 'A', 'N']);
    }
    reads_word(text, from, &short_lower, &short_upper) || reads_word(
        text,
        from,
        &long_lower,
        &long_upper,
    ) || reads_word(text, from, &none_lower, &none_upper)
}

/// Whether `text` names an infinity or the absence of a number, with a sign or none.
pub fn reads_special(text: &Vec<char>) -> (special: bool)
    ensures
        special == spells_special(text@),
{
    assert(text@.skip(0) == text@);
    reads_special_from(text, 0) || (text.len() > 0 && (text[0] == '+' || text[0] == '-')
        && reads_special_from(text, 1))
}

} // verus!
