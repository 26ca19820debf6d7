//! The notation of numbers, and rounding.
use gimp_curve_to_icc::expansion::{expand, fine_steps, underflows, Expansion};
use gimp_curve_to_icc::number::{read_number, reads_special};
use gimp_curve_to_icc::rounding::{round_to_format, DOUBLE_LIMIT, SINGLE_LIMIT};
use gimp_curve_to_icc::text::{chars_of, contains, split_fields};

/// Sign, digits, how many of them stand before the point, and exponent.
fn parts(text: &str) -> Option<(bool, Vec<u8>, usize, i128)> {
    read_number(&chars_of(text)).map(|n| (n.negative, n.digits, n.whole, n.exponent))
}

#[test]
fn numbers_are_taken_apart() {
    assert_eq!(parts("-12.50e3"), Some((true, vec![1, 2, 5, 0], 2, 3)));
    assert_eq!(parts("+.7"), Some((false, vec![7], 0, 0)));
    assert_eq!(parts("3."), Some((false, vec![3], 1, 0)));
    assert_eq!(parts("0E-12"), Some((false, vec![0], 1, -12)));
    assert_eq!(parts("1e+0005"), Some((false, vec![1], 1, 5)));
    assert_eq!(parts("."), None);
    assert_eq!(parts("1e"), None);
    assert_eq!(parts("1.2.3"), None);
    assert_eq!(parts(""), None);
}

#[test]
fn large_exponents_are_capped() {
    let cap = 1_000_000_000_000_000_000_000_000_000_000i128;
    let large = format!("1e{}", "9".repeat(60));
    assert_eq!(parts(&large), Some((false, vec![1], 1, cap)));
    let small = format!("1e-{}", "9".repeat(60));
    assert_eq!(parts(&small), Some((false, vec![1], 1, -cap)));
}

#[test]
fn special_words_are_known() {
    for word in ["inf", "INF", "+Inf", "-infinity", "InFiNiTy", "nan", "-NaN"] {
        assert!(reads_special(&chars_of(word)), "{word}");
    }
    for word in ["", "+", "in", "infi", "nano", "++inf", " nan", "inf1"] {
        assert!(!reads_special(&chars_of(word)), "{word}");
    }
}

/// The unit and the digits behind the point, where both matter.
fn expansion(text: &str) -> Option<(u128, Vec<u8>)> {
    match expand(&read_number(&chars_of(text)).unwrap()) {
        Expansion::Plain { unit, tail } => Some((unit, tail)),
        _ => None,
    }
}

#[test]
fn exponents_are_worked_in() {
    assert_eq!(expansion("0.25"), Some((0, vec![2, 5])));
    assert_eq!(expansion("25e-2"), Some((0, vec![2, 5])));
    assert_eq!(expansion("25e-4"), Some((0, vec![0, 0, 2, 5])));
    assert_eq!(expansion("0.0125e2"), Some((1, vec![2, 5])));
    assert_eq!(expansion("0e9"), Some((0, vec![])));
    assert!(matches!(expand(&read_number(&chars_of("2")).unwrap()), Expansion::Large));
    assert!(matches!(expand(&read_number(&chars_of("1e1")).unwrap()), Expansion::Large));
    assert!(matches!(expand(&read_number(&chars_of("1e-402")).unwrap()), Expansion::Tiny));
}

#[test]
fn steps_are_counted() {
    assert_eq!(fine_steps(1, vec![]), (1 << 72, false));
    assert_eq!(fine_steps(0, vec![5]), (1 << 71, false));
    assert_eq!(fine_steps(1, vec![2, 5]), (5 << 70, false));
    assert_eq!(fine_steps(0, vec![1]), ((1u128 << 72) / 10, true));
}

#[test]
fn smallest_numbers_underflow() {
    assert!(underflows(vec![]));
    assert!(underflows(vec![0; 400]));
    assert!(!underflows(vec![0, 0, 1]));
    // Half of the smallest double is 2.4703e-324.
    let mut tail = vec![0; 323];
    tail.extend([2, 4, 7, 0, 3]);
    assert!(underflows(tail.clone()));
    tail[327] = 4;
    tail[326] = 3;
    assert!(!underflows(tail));
}

#[test]
fn rounding_goes_to_the_closest() {
    let one = DOUBLE_LIMIT;
    assert_eq!(round_to_format(12_345, true, one), 12_345);
    assert_eq!(round_to_format(one + 1, false, one), one);
    assert_eq!(round_to_format(one + 1, true, one), one + 2);
    assert_eq!(round_to_format(one + 3, false, one), one + 4);
    assert_eq!(round_to_format(4 * one + 9, false, one), 4 * one + 8);
    assert_eq!(round_to_format(2 * one - 1, false, one), 2 * one);
    assert_eq!(round_to_format(SINGLE_LIMIT * 2 + 1, false, SINGLE_LIMIT), SINGLE_LIMIT * 2);
    for n in [1u64, 77, 0xffff_ffff, 0x123_4567_89ab_cdef, u64::MAX, u64::MAX - 1023] {
        assert_eq!(round_to_format(u128::from(n), false, DOUBLE_LIMIT), n as f64 as u128);
        assert_eq!(round_to_format(u128::from(n), false, SINGLE_LIMIT), n as f32 as u128);
    }
}

#[test]
fn joined_fields_split_again() {
    let fields = ["0.5", "", "a", "x"];
    let joined = fields.join(" ");
    let split: Vec<String> =
        split_fields(&chars_of(&joined)).into_iter().map(|field| field.into_iter().collect()).collect();
    assert_eq!(split, fields);
    assert_eq!(split_fields(&chars_of("")), vec![Vec::<char>::new()]);
    assert_eq!(split.join(" "), joined);
}

#[test]
fn parts_are_found() {
    let text = chars_of("abcabd");
    assert!(contains(&text, &chars_of("abd")));
    assert!(contains(&text, &chars_of("")));
    assert!(contains(&text, &text));
    assert!(!contains(&text, &chars_of("abe")));
    assert!(!contains(&text, &chars_of("abcabde")));
    assert!(contains(&chars_of(""), &chars_of("")));
}
