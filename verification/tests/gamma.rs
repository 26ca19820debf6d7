//! Gamma ramps, with the factors computed in floating point.
use gimp_curve_to_icc::gamma::{
    generate_gamma_curve, ramp_steps, sample_from_factor, single_ramp, step_bits,
};

/// The factors of a ramp for the given gamma value.
fn factors(gamma: f32) -> Vec<u32> {
    ramp_steps()
        .into_iter()
        .map(|bits| f32::from_bits(bits).powf(1.0 / gamma).to_bits())
        .collect()
}

#[test]
fn steps_agree_with_single_precision() {
    let steps = ramp_steps();
    assert_eq!(steps.len(), 256);
    for n in 0..=255u8 {
        let expected = (f32::from(n) / 255.0).to_bits();
        assert_eq!(step_bits(n), expected);
        assert_eq!(steps[usize::from(n)], expected);
    }
    assert_eq!(step_bits(0), 0);
    assert_eq!(step_bits(51), 0.2f32.to_bits());
    assert_eq!(step_bits(255), 1.0f32.to_bits());
}

#[test]
fn larger_factors_give_larger_values() {
    let mut bits = 0u32;
    let mut previous = 0u16;
    while bits <= f32::INFINITY.to_bits() {
        let sample = sample_from_factor(bits);
        assert!(previous <= sample);
        previous = sample;
        bits += 10_007;
    }
    let bright = single_ramp(&factors(1.25));
    let plain = single_ramp(&factors(1.0));
    let dark = single_ramp(&factors(0.75));
    for n in 0..256usize {
        assert!(dark[n] <= plain[n] && plain[n] <= bright[n]);
        assert!(n == 0 || (dark[n - 1] <= dark[n] && bright[n - 1] <= bright[n]));
    }
}

#[test]
fn bright_gamma_ramp_works() {
    let gamma = 1.25;
    let result = generate_gamma_curve(&factors(gamma));

    let expected_single_curve: Vec<u16> = vec![
        0, 778, 1355, 1874, 2359, 2821, 3264, 3692, 4108, 4514, 4911, 5300, 5683, 6058, 6429, 6793,
        7153, 7509, 7860, 8208, 8551, 8892, 9229, 9563, 9894, 10223, 10549, 10872, 11193, 11512,
        11828, 12143, 12455, 12765, 13074, 13381, 13686, 13989, 14291, 14591, 14889, 15186, 15482,
        15776, 16069, 16361, 16651, 16940, 17227, 17514, 17799, 18084, 18367, 18649, 18930, 19210,
        19489, 19767, 20043, 20319, 20595, 20869, 21142, 21414, 21686, 21956, 22226, 22495, 22763,
        23031, 23298, 23563, 23829, 24093, 24357, 24620, 24882, 25143, 25404, 25665, 25924, 26183,
        26441, 26699, 26956, 27212, 27468, 27724, 27978, 28232, 28486, 28739, 28991, 29243, 29494,
        29745, 29995, 30245, 30494, 30743, 30991, 31239, 31486, 31732, 31979, 32224, 32470, 32715,
        32959, 33203, 33446, 33689, 33932, 34174, 34416, 34657, 34898, 35139, 35379, 35618, 35858,
        36096, 36335, 36573, 36811, 37048, 37285, 37521, 37758, 37993, 38229, 38464, 38699, 38933,
        39167, 39401, 39634, 39867, 40100, 40332, 40564, 40795, 41027, 41258, 41488, 41719, 41949,
        42178, 42408, 42637, 42866, 43094, 43322, 43550, 43778, 44005, 44232, 44459, 44685, 44911,
        45137, 45363, 45588, 45813, 46037, 46262, 46486, 46710, 46934, 47157, 47380, 47603, 47825,
        48048, 48270, 48492, 48713, 48935, 49156, 49376, 49597, 49817, 50037, 50257, 50477, 50696,
        50915, 51134, 51353, 51571, 51789, 52007, 52225, 52442, 52660, 52877, 53094, 53310, 53527,
        53743, 53959, 54174, 54390, 54605, 54820, 55035, 55250, 55464, 55679, 55893, 56106, 56320,
        56534, 56747, 56960, 57173, 57385, 57598, 57810, 58022, 58234, 58446, 58657, 58868, 59079,
        59290, 59501, 59712, 59922, 60132, 60342, 60552, 60761, 60971, 61180, 61389, 61598, 61807,
        62015, 62224, 62432, 62640, 62848, 63055, 63263, 63470, 63677, 63884, 64091, 64298, 64504,
        64711, 64917, 65123, 65329, 65535,
    ];
    let expected = vec![
        expected_single_curve.clone(),
        expected_single_curve.clone(),
        expected_single_curve.clone(),
    ];

    assert_eq!(result, expected);
}

#[test]
fn dark_gamma_ramp_works() {
    let gamma = 0.75;
    let result = generate_gamma_curve(&factors(gamma));

    let expected_single_curve: Vec<u16> = vec![
        0, 40, 102, 175, 257, 346, 441, 542, 648, 758, 873, 991, 1113, 1238, 1367, 1499, 1633,
        1771, 1911, 2054, 2200, 2348, 2498, 2650, 2805, 2962, 3121, 3282, 3445, 3610, 3777, 3946,
        4117, 4289, 4464, 4639, 4817, 4996, 5177, 5360, 5544, 5729, 5916, 6105, 6295, 6486, 6679,
        6874, 7069, 7266, 7465, 7665, 7866, 8068, 8272, 8476, 8683, 8890, 9098, 9308, 9519, 9731,
        9945, 10159, 10375, 10591, 10809, 11028, 11248, 11469, 11691, 11915, 12139, 12364, 12591,
        12818, 13046, 13276, 13506, 13737, 13970, 14203, 14437, 14673, 14909, 15146, 15384, 15623,
        15863, 16104, 16345, 16588, 16832, 17076, 17321, 17567, 17814, 18062, 18311, 18560, 18811,
        19062, 19314, 19567, 19821, 20075, 20331, 20587, 20844, 21101, 21360, 21619, 21879, 22140,
        22402, 22664, 22927, 23191, 23456, 23721, 23988, 24254, 24522, 24790, 25060, 25329, 25600,
        25871, 26143, 26416, 26689, 26963, 27238, 27514, 27790, 28067, 28344, 28622, 28901, 29181,
        29461, 29742, 30024, 30306, 30589, 30872, 31157, 31441, 31727, 32013, 32300, 32587, 32875,
        33164, 33453, 33743, 34034, 34325, 34617, 34909, 35203, 35496, 35790, 36085, 36381, 36677,
        36974, 37271, 37569, 37867, 38166, 38466, 38766, 39067, 39368, 39670, 39973, 40276, 40580,
        40884, 41189, 41494, 41800, 42107, 42414, 42721, 43029, 43338, 43647, 43957, 44268, 44579,
        44890, 45202, 45515, 45828, 46141, 46455, 46770, 47085, 47401, 47717, 48034, 48352, 48669,
        48988, 49307, 49626, 49946, 50266, 50587, 50909, 51231, 51553, 51876, 52200, 52524, 52848,
        53173, 53498, 53824, 54151, 54478, 54805, 55133, 55462, 55791, 56120, 56450, 56780, 57111,
        57442, 57774, 58106, 58439, 58772, 59106, 59440, 59775, 60110, 60446, 60782, 61118, 61455,
        61793, 62130, 62469, 62808, 63147, 63487, 63827, 64167, 64509, 64850, 65192, 65535,
    ];
    let expected = vec![
        expected_single_curve.clone(),
        expected_single_curve.clone(),
        expected_single_curve.clone(),
    ];

    assert_eq!(result, expected);
}

#[test]
fn gamma_of_one_gives_multiples_of_257() {
    let ramp = single_ramp(&factors(1.0));
    for n in 0..256usize {
        assert_eq!(ramp[n], n as u16 * 257);
    }
}

#[test]
fn factor_edges() {
    assert_eq!(sample_from_factor(0), 0);
    assert_eq!(sample_from_factor(1), 0);
    assert_eq!(sample_from_factor(1.0f32.to_bits()), 65535);
    assert_eq!(sample_from_factor(0.5f32.to_bits()), 32767);
    assert_eq!(sample_from_factor(2.0f32.to_bits()), 65535);
    assert_eq!(sample_from_factor(f32::MAX.to_bits()), 65535);
    assert_eq!(sample_from_factor(f32::INFINITY.to_bits()), 65535);
    assert_eq!(sample_from_factor(f32::NEG_INFINITY.to_bits()), 0);
    assert_eq!(sample_from_factor(f32::NAN.to_bits()), 0);
    assert_eq!(sample_from_factor((-0.0f32).to_bits()), 0);
    assert_eq!(sample_from_factor((-1.0f32).to_bits()), 0);
}

#[test]
fn factors_agree_with_single_precision() {
    let mut bits: u32 = 0;
    let mut seen = 0;
    loop {
        let factor = f32::from_bits(bits);
        let expected = (f32::from(u16::MAX) * factor) as u16;
        assert_eq!(sample_from_factor(bits), expected, "{bits:#x}");
        seen += 1;
        match bits.checked_add(20_011) {
            Some(next) => bits = next,
            None => break,
        }
    }
    assert!(seen > 200_000);
}

#[test]
fn factors_agree_with_single_precision_around_one_step() {
    for n in 1..=65535u32 {
        let near = (n as f32 / 65535.0).to_bits();
        for bits in near - 3..=near + 3 {
            let expected = (f32::from(u16::MAX) * f32::from_bits(bits)) as u16;
            assert_eq!(sample_from_factor(bits), expected, "{bits:#x}");
        }
    }
}

#[test]
fn factor_values_are_accurate() {
    for n in 0..=65535u32 {
        let bits = (n as f32 / 65535.0).to_bits();
        let product = f64::from(f32::from_bits(bits)) * 65535.0;
        let sample = f64::from(sample_from_factor(bits));
        assert!(product < sample + 1.0 && sample <= product + 1.0 / 512.0);
    }
}
