//! Single values and single curves, held against double precision.
use gimp_curve_to_icc::curve::{
    apply_gray, parse_curve, scale_u16_to_u8_range, try_parse_curve,
};
use gimp_curve_to_icc::monotone::find_descents;
use gimp_curve_to_icc::sample::SampleError;

/// What double precision makes of one number.
fn by_double(text: &str) -> Result<u16, SampleError> {
    match text.parse::<f64>() {
        Err(_) => Err(SampleError::NotANumber),
        Ok(value) => {
            if (0.0..=1.0).contains(&value) {
                Ok((value * (u16::MAX) as f64).round() as u16)
            } else {
                Err(SampleError::OutOfRange)
            }
        }
    }
}

fn check(text: &str) {
    let expected = by_double(text).map(|value| vec![value]);
    assert_eq!(try_parse_curve(text), expected, "{text}");
}

/// A generator of numbers that look random.
fn next(state: &mut u64) -> u64 {
    *state ^= *state << 13;
    *state ^= *state >> 7;
    *state ^= *state << 17;
    *state
}

#[test]
fn samples_spread_over_sixteen_bits() {
    assert_eq!(parse_curve("0.0 0.001 0.033"), vec![0, 66, 2163]);
    assert_eq!(parse_curve("0 1 0.5 .5 5e-1 1."), vec![0, 65535, 32768, 32768, 32768, 65535]);
    assert_eq!(parse_curve("+0.25 -0.0 1e0 0.1E+1"), vec![16384, 0, 65535, 65535]);
    assert_eq!(parse_curve("0.999999"), vec![65535]);
}

#[test]
fn spaces_separate_numbers() {
    assert_eq!(try_parse_curve(""), Err(SampleError::NotANumber));
    assert_eq!(try_parse_curve(" "), Err(SampleError::NotANumber));
    assert_eq!(try_parse_curve("0.5 "), Err(SampleError::NotANumber));
    assert_eq!(try_parse_curve("0.5  0.5"), Err(SampleError::NotANumber));
    assert_eq!(try_parse_curve("0.5\t0.5"), Err(SampleError::NotANumber));
    assert_eq!(try_parse_curve("0.5 0.5"), Ok(vec![32768, 32768]));
}

#[test]
fn first_bad_number_decides() {
    assert_eq!(try_parse_curve("0.5 2 x"), Err(SampleError::OutOfRange));
    assert_eq!(try_parse_curve("0.5 x 2"), Err(SampleError::NotANumber));
}

#[test]
fn notation_agrees_with_double_precision() {
    for text in [
        "", ".", "+", "-", "e", "e5", "1e", "1e+", "1e-", "1.e5", ".e5", "1.5.2", "0x1", "1_0",
        " 1", "1 ", "+-1", "--1", "+.", "-.", "1e5.0", "1e 5", "1,5", "one", "nan", "NaN", "+nan",
        "-NAN", "inf", "-inf", "+INF", "Infinity", "-iNfInItY", "infinit", "infinityy", "in", "na",
        "i", "n", "nan1", "1nan", "\u{0661}", "0\u{0661}", "0", "00", "000.000", "1", "01", "1.0",
        "+1", "-1", "-0", "-0.0", "+0", "-.0", "-0.", "0e0", "0e999999999999999999999999999999999",
        "0e-999999999999999999999999999999999", "1e999999999999999999999999999999999",
        "1e-999999999999999999999999999999999", "-1e-999999999999999999999999999999999",
        "1e5", "1e-5", "100e-2", "100e-3", "0.0001e4", "0.0001e5", "123456789e-9", "9e-1", "1e1",
        "1E-1", "1E+0", "12345678901234567890e-20", "1.0000000000000001", "1.0000000000000002",
        "1.00000000000000011102230246251565404236316680908203125",
        "1.00000000000000011102230246251565404236316680908203124",
        "1.00000000000000011102230246251565404236316680908203126",
        "0.99999999999999994448884876874", "0.9999999999999999", "2", "1.5", "1.0001", "-0.5",
        "-1e-300", "-1e-323", "-5e-324", "-2.5e-324", "-2.4e-324", "-1e-400", "5e-324", "1e-323",
        "1e-400", "3.8e-6", "7.6e-6", "7.7e-6", "0.000007629510948348211", "1e-7", "1e-17", "1e-18",
    ] {
        if text.contains(' ') {
            continue;
        }
        check(text);
    }
}

#[test]
fn sixteen_bit_values_come_back() {
    for value in 0..=65535u16 {
        let text = format!("{}", f64::from(value) / 65535.0);
        assert_eq!(try_parse_curve(&text), Ok(vec![value]));
        let short = format!("{:.6}", f64::from(value) / 65535.0);
        assert_eq!(try_parse_curve(&short), Ok(vec![value]));
    }
}

#[test]
fn doubles_at_the_ties_agree_with_double_precision() {
    for n in (0..65535u64).step_by(7) {
        let tie = (2 * n + 1) as f64 / 131070.0;
        for step in 0..7u64 {
            let value = f64::from_bits(tie.to_bits() - 3 + step);
            check(&format!("{value}"));
            check(&format!("{value:.60}"));
        }
    }
}

#[test]
fn halves_between_doubles_agree_with_double_precision() {
    let mut state = 0x9e37_79b9_7f4a_7c15u64;
    for _ in 0..2000 {
        let n = next(&mut state) % 65535;
        let below = (2 * n + 1) as f64 / 131070.0;
        let above = f64::from_bits(below.to_bits() + 1);
        // All digits of both, and of the number halfway between them.
        let digits = |value: f64| -> Vec<u8> {
            format!("{value:.100}").bytes().filter(|b| b.is_ascii_digit()).map(|b| b - b'0').collect()
        };
        let (low, high) = (digits(below), digits(above));
        let mut middle = vec![0u8; low.len() + 1];
        let mut rest = 0u32;
        for i in 0..middle.len() {
            let sum = if i < low.len() { u32::from(low[i]) + u32::from(high[i]) } else { 0 };
            let total = rest * 10 + sum;
            middle[i] = (total / 2) as u8;
            rest = total % 2;
        }
        for i in (1..middle.len()).rev() {
            if middle[i] >= 10 {
                middle[i - 1] += middle[i] / 10;
                middle[i] %= 10;
            }
        }
        let mut text: String = middle.iter().map(|d| char::from(b'0' + d)).collect();
        text.insert(1, '.');
        check(&text);
        text.push('1');
        check(&text);
        let less = format!("{}9", &text[..text.len() - 40]);
        check(&less);
    }
}

#[test]
fn random_numbers_agree_with_double_precision() {
    let mut state = 0x2545_f491_4f6c_dd1du64;
    for _ in 0..20000 {
        let digits = next(&mut state) % 25 + 1;
        let mut text = String::new();
        if next(&mut state) % 8 == 0 {
            text.push(if next(&mut state) % 2 == 0 { '-' } else { '+' });
        }
        let point = next(&mut state) % (digits + 1);
        for i in 0..digits {
            if i == point {
                text.push('.');
            }
            text.push(char::from(b'0' + (next(&mut state) % 10) as u8));
        }
        match next(&mut state) % 3 {
            0 => text.push_str(&format!("e-{}", next(&mut state) % 30)),
            1 => text.push_str(&format!("E{}", next(&mut state) % 4)),
            _ => {}
        }
        check(&text);
    }
}

#[test]
fn long_numbers_are_read() {
    let mut text = "0.".to_string();
    text.push_str(&"0".repeat(500));
    text.push_str(&"9".repeat(2000));
    text.push_str("e499");
    check(&text);
    let mut whole = "4".repeat(600);
    whole.push_str("e-600");
    check(&whole);
    whole.push('1');
    check(&whole);
}

#[test]
fn order_is_kept() {
    let mut state = 0x0123_4567_89ab_cdefu64;
    for _ in 0..2000 {
        let a = (next(&mut state) >> 11) as f64 / (1u64 << 53) as f64;
        let b = (next(&mut state) >> 11) as f64 / (1u64 << 53) as f64;
        let (low, high) = if a < b { (a, b) } else { (b, a) };
        let values = parse_curve(&format!("{low} {high}"));
        assert!(values[0] <= values[1]);
    }
}

#[test]
fn scaling_agrees_with_double_precision() {
    for input in 0..=65535u16 {
        let expected = ((input as f64 / u16::MAX as f64) * u8::MAX as f64) as u8;
        assert_eq!(scale_u16_to_u8_range(input), expected);
    }
    assert_eq!(scale_u16_to_u8_range(0), 0);
    assert_eq!(scale_u16_to_u8_range(256), 0);
    assert_eq!(scale_u16_to_u8_range(257), 1);
    assert_eq!(scale_u16_to_u8_range(65534), 254);
    assert_eq!(scale_u16_to_u8_range(65535), 255);
}

#[test]
fn gray_is_looked_up() {
    let gray: Vec<u16> = (0..256u32).map(|n| (65535 - n) as u16).collect();
    let colour = vec![0, 256, 257, 65534, 65535];
    assert_eq!(apply_gray(&gray, &colour), vec![65535, 65535, 65534, 65281, 65280]);
    assert_eq!(apply_gray(&gray, &Vec::new()), Vec::<u16>::new());
}

#[test]
fn rising_curves_rise_through_gray() {
    let gray: Vec<u16> = (0..256u32).map(|n| (n * n) as u16).collect();
    let colour: Vec<u16> = (0..256u32).map(|n| (65535 - (255 - n) * (255 - n)) as u16).collect();
    let channel = apply_gray(&gray, &colour);
    assert_eq!(find_descents(&vec![gray, colour, channel]), Vec::new());
}

#[test]
fn straight_curves_change_nothing() {
    let straight: Vec<u16> = (0..256u32).map(|n| (n * 257) as u16).collect();
    let curve: Vec<u16> = (0..256u32).map(|n| ((n * 40_503) % 65_536) as u16).collect();
    assert_eq!(apply_gray(&curve, &straight), curve);
    let cut: Vec<u16> = curve.iter().map(|&value| value / 257 * 257).collect();
    assert_eq!(apply_gray(&straight, &curve), cut);
}
