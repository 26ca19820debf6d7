//! Settings of the curve tool, from the text to the three channels.
use gimp_curve_to_icc::sample::SampleError;
use gimp_curve_to_icc::settings::{
    channels_from_lists, is_linear_light, parse_curves, sample_lists, try_parse_curves,
    SettingsError,
};

/// A list of numbers as the settings write it.
fn written(values: &[f64]) -> String {
    let numbers: Vec<String> = values.iter().map(|value| format!("{value}")).collect();
    numbers.join(" ")
}

/// A list of 256 numbers that rise evenly from 0 to 1.
fn identity() -> String {
    let values: Vec<f64> = (0..256).map(|n| f64::from(n) / 255.0).collect();
    written(&values)
}

/// Settings that hold the given lists of samples.
fn settings(lists: &[String], line_end: &str) -> String {
    let mut text = String::new();
    for line in ["# GIMP 'Curves' settings", "", "(time 0)", "(trc non-linear)", "(linear no)"] {
        text.push_str(line);
        text.push_str(line_end);
    }
    for (channel, list) in ["value", "red", "green", "blue", "alpha"].iter().zip(lists) {
        for line in [
            format!("(channel {channel})"),
            "(curve".to_string(),
            "    (curve-type smooth)".to_string(),
            "    (n-points 2)".to_string(),
            "    (n-samples 256)".to_string(),
            format!("    (samples 256 {list}))"),
        ] {
            text.push_str(&line);
            text.push_str(line_end);
        }
    }
    text.push_str("# end of settings");
    text.push_str(line_end);
    text
}

#[test]
fn example_curve_comes_out_of_settings() {
    let expected_curve: Vec<u16> = vec![
        0, 0, 0, 0, 232, 463, 696, 928, 1161, 1395, 1630, 1867, 2104, 2343, 2584, 2826, 3070, 3317,
        3565, 3816, 4070, 4327, 4586, 4848, 5120, 5387, 5655, 5923, 6192, 6461, 6730, 7000, 7270,
        7542, 7813, 8086, 8359, 8634, 8909, 9185, 9462, 9741, 10020, 10301, 10583, 10866, 11151,
        11437, 11725, 12014, 12305, 12597, 12891, 13187, 13485, 13785, 14087, 14390, 14696, 14848,
        15156, 15466, 15776, 16088, 16401, 16714, 17029, 17345, 17661, 17978, 18296, 18615, 18935,
        19255, 19576, 19898, 20221, 20544, 20868, 21192, 21517, 21843, 22168, 22495, 22822, 23149,
        23477, 23805, 24133, 24462, 24791, 25120, 25449, 25779, 26109, 26439, 26769, 27099, 27429,
        27759, 28089, 28420, 28750, 29080, 29410, 29739, 30069, 30398, 30728, 31056, 31385, 31713,
        32041, 32369, 32696, 33023, 33350, 33675, 34001, 34326, 34650, 34974, 35297, 35619, 35941,
        36262, 36583, 36902, 37221, 37539, 37856, 38172, 38488, 38802, 39116, 39428, 39740, 40051,
        40360, 40668, 40976, 41282, 41587, 41890, 42193, 42494, 42794, 43093, 43390, 43686, 43981,
        44274, 44565, 44856, 45144, 45432, 45717, 46001, 46283, 46564, 46847, 47123, 47394, 47660,
        47921, 48178, 48430, 48678, 48922, 49162, 49398, 49630, 49858, 50083, 50305, 50524, 50739,
        50952, 51161, 51368, 51573, 51775, 51974, 52172, 52367, 52561, 52752, 52943, 53131, 53318,
        53504, 53689, 53873, 54056, 54238, 54420, 54601, 54782, 54963, 55144, 55324, 55505, 55687,
        55868, 56051, 56234, 56418, 56603, 56789, 56976, 57165, 57355, 57547, 57855, 58050, 58245,
        58438, 58631, 58823, 59014, 59205, 59394, 59583, 59772, 59959, 60146, 60333, 60518, 60703,
        60888, 61072, 61255, 61438, 61621, 61803, 61984, 62166, 62346, 62527, 62707, 62886, 63066,
        63245, 63424, 63602, 63780, 63959, 64136, 64314, 64492, 64669, 64847, 65024, 65201, 65378,
        65535,
    ];
    let gray: Vec<f64> = expected_curve.iter().map(|&v| f64::from(v) / 65535.0).collect();
    let lists =
        [written(&gray), identity(), identity(), identity(), identity()];
    let input = settings(&lists, "\n");
    let parsed_result = parse_curves(input);

    let expected = vec![expected_curve.clone(), expected_curve.clone(), expected_curve];
    assert_eq!(parsed_result, expected);
}

#[test]
fn line_ends_do_not_matter() {
    let lists = [identity(), identity(), identity(), identity()];
    let expected: Vec<u16> = (0..256u32).map(|n| (n * 257) as u16).collect();
    for line_end in ["\n", "\r\n", "\r"] {
        let result = try_parse_curves(settings(&lists, line_end));
        assert_eq!(result, Ok(vec![expected.clone(), expected.clone(), expected.clone()]));
    }
}

#[test]
fn alpha_is_ignored() {
    let mut lists =
        vec![identity(), identity(), "0 0.5 1".to_string(), "1 0.5 0".to_string()];
    let without = try_parse_curves(settings(&lists, "\n"));
    lists.push("no numbers at all".to_string());
    assert_eq!(try_parse_curves(settings(&lists, "\n")), without);
    let channels = without.unwrap();
    assert_eq!(channels[1], vec![0, 127 * 257, 65535]);
    assert_eq!(channels[2], vec![65535, 127 * 257, 0]);
}

#[test]
fn colours_go_through_gray() {
    let inverted: Vec<f64> = (0..256).map(|n| f64::from(255 - n) / 255.0).collect();
    let lists = vec![written(&inverted), identity(), "0 1".to_string(), "0.25".to_string()];
    let channels = channels_from_lists(&lists).unwrap();
    let expected: Vec<u16> = (0..256u32).map(|n| ((255 - n) * 257) as u16).collect();
    assert_eq!(channels[0], expected);
    assert_eq!(channels[1], vec![65535, 0]);
    assert_eq!(channels[2], vec![expected[63]]);
}

#[test]
fn too_few_curves() {
    let lists = [identity(), identity(), identity()];
    assert_eq!(try_parse_curves(settings(&lists, "\n")), Err(SettingsError::TooFewCurves));
    assert_eq!(try_parse_curves(String::new()), Err(SettingsError::TooFewCurves));
    assert_eq!(channels_from_lists(&Vec::new()), Err(SettingsError::TooFewCurves));
}

#[test]
fn gray_needs_256_samples() {
    let mut lists = vec!["0 1".to_string(), identity(), identity(), identity()];
    assert_eq!(channels_from_lists(&lists), Err(SettingsError::GrayLength));
    lists[2] = "x".to_string();
    assert_eq!(channels_from_lists(&lists), Err(SettingsError::GrayLength));
}

#[test]
fn first_bad_sample_is_reported() {
    let mut lists = vec![identity(), identity(), identity(), identity()];
    lists[3] = "0 2 x".to_string();
    let out_of_range = SettingsError::BadSample { curve: 3, error: SampleError::OutOfRange };
    assert_eq!(channels_from_lists(&lists), Err(out_of_range));
    lists[1] = "0 x 2".to_string();
    let no_number = SettingsError::BadSample { curve: 1, error: SampleError::NotANumber };
    assert_eq!(channels_from_lists(&lists), Err(no_number));
    lists[0] = "".to_string();
    let empty = SettingsError::BadSample { curve: 0, error: SampleError::NotANumber };
    assert_eq!(channels_from_lists(&lists), Err(empty));
}

#[test]
fn only_whole_lines_with_samples_are_found() {
    let text = "(samples 1 a))\n  (samples 22 b c))\r\n\t(samples 1 d))\n(samples 1 e)) \n\
                x(samples 1 f))\n(samples  1 g))\n(samples 1h))\n(samples 1 i)\n(samples 1 ))\n\
                (samples 1 j)) k)))\r(samples 007 (l)))\r\r\n\n(samples 1  m ))";
    let expected = ["a", "b c", "", "j)) k)", "(l)", " m "];
    assert_eq!(sample_lists(text), expected);
}

#[test]
fn digits_of_other_scripts_count_too() {
    assert_eq!(sample_lists("(samples \u{0662}\u{0665}\u{0666} 0.5))"), ["0.5"]);
    assert_eq!(sample_lists("# \u{4e16}\u{754c}\n(samples 2 0.5 1))"), ["0.5 1"]);
}

#[test]
fn lists_of_joined_texts() {
    let first = "# one\n(samples 1 a))";
    let second = "(samples 1 b))\n# two";
    let mut both = sample_lists(first);
    both.extend(sample_lists(second));
    assert_eq!(sample_lists(&format!("{first}\n{second}")), both);
}

#[test]
fn linear_light_is_noticed() {
    assert!(is_linear_light("(time 0)\n(linear yes)\n"));
    assert!(is_linear_light("linear yes"));
    assert!(!is_linear_light("(linear no)"));
    assert!(!is_linear_light("linear ye"));
    assert!(!is_linear_light("linear  yes"));
    assert!(!is_linear_light(""));
    assert!(is_linear_light("linear linear yes"));
}

#[test]
fn digits_of_every_script_are_known() {
    let foreign: Vec<u32> = vec![
        0x660, 0x6f0, 0x7c0, 0x966, 0x9e6, 0xa66, 0xae6, 0xb66, 0xbe6, 0xc66, 0xce6, 0xd66, 0xde6,
        0xe50, 0xed0, 0xf20, 0x1040, 0x1090, 0x17e0, 0x1810, 0x1946, 0x19d0, 0x1a80, 0x1a90,
        0x1b50, 0x1bb0, 0x1c40, 0x1c50, 0xa620, 0xa8d0, 0xa900, 0xa9d0, 0xa9f0, 0xaa50, 0xabf0,
        0xff10, 0x104a0, 0x10d30, 0x10d40, 0x11066, 0x110f0, 0x11136, 0x111d0, 0x112f0, 0x11450,
        0x114d0, 0x11650, 0x116c0, 0x116d0, 0x116da, 0x11730, 0x118e0, 0x11950, 0x11bf0, 0x11c50,
        0x11d50, 0x11da0, 0x11f50, 0x16130, 0x16a60, 0x16ac0, 0x16b50, 0x16d70, 0x1ccf0, 0x1d7ce,
        0x1d7d8, 0x1d7e2, 0x1d7ec, 0x1d7f6, 0x1e140, 0x1e2f0, 0x1e4f0, 0x1e5f1, 0x1e950, 0x1fbf0,
    ];
    let mut expected = vec![];
    for zero in [0x30].into_iter().chain(foreign) {
        for digit in 0..10 {
            expected.push(format!("{}", zero + digit));
        }
    }
    let mut text = String::new();
    for code in 0..0x11_0000u32 {
        if let Some(c) = char::from_u32(code) {
            text.push_str(&format!("(samples {c} {code}))\n"));
        }
    }
    assert_eq!(sample_lists(&text), expected);
}

/// Four lists of samples with a character of another script in front of one of them.
fn foreign_settings() -> String {
    let list = identity();
    format!(
        "(samples 256 {list}))\n(samples \u{0662} {list}))\n\u{4e16}\n(samples 2 0 1))\n(samples 1 1))\n"
    )
}

#[test]
fn what_follows_is_ignored() {
    let text = foreign_settings();
    let channels = try_parse_curves(text.clone());
    assert!(channels.is_ok());
    for more in ["(samples 256 garbage))", "(samples \u{0661} \u{4e16}))\n", "(", "\r\r\n\n", ""] {
        assert_eq!(try_parse_curves(format!("{text}{more}")), channels);
    }
}

#[test]
fn returns_make_no_difference() {
    let text = foreign_settings();
    assert_eq!(try_parse_curves(text.replace('\n', "\r\n")), try_parse_curves(text));
}

#[test]
fn note_on_light_changes_no_channel() {
    let text = foreign_settings();
    let noted = format!("linear yes\n{text}");
    assert!(!is_linear_light(&text));
    assert!(is_linear_light(&noted));
    assert_eq!(try_parse_curves(noted), try_parse_curves(text));
}

#[test]
fn moved_colours_move_channels() {
    let line = |list: &str| format!("(samples 256 {list}))\n");
    let (gray, a, b, c) = (line(&identity()), line("0 0.5"), line("0.25 1 1"), line("0.75"));
    let channels = parse_curves(format!("{gray}{a}{b}{c}"));
    let moved = parse_curves(format!("{gray}{c}{a}{b}"));
    assert_eq!(moved, [channels[2].clone(), channels[0].clone(), channels[1].clone()]);
}
