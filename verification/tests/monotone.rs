//! Descents.
use gimp_curve_to_icc::monotone::{find_descents, Descent};
use itertools::Itertools;

/// The descents as a walk over neighbouring values finds them.
fn by_windows(channels: &[Vec<u16>]) -> Vec<Descent> {
    let mut found = Vec::new();
    for (curve, values) in channels.iter().enumerate() {
        for ((prev, a), (next, b)) in values.iter().enumerate().tuple_windows() {
            if a > b {
                found.push(Descent { curve, prev, next });
            }
        }
    }
    found
}

#[test]
fn rising_curves_have_no_descents() {
    let channels = vec![vec![0, 0, 1, 5, 65535], vec![], vec![7]];
    assert_eq!(find_descents(&channels), Vec::new());
}

#[test]
fn every_descent_is_found() {
    let channels = vec![vec![3, 2, 2, 9], vec![1, 0], vec![0, 1], vec![5, 4, 3]];
    let expected = vec![
        Descent { curve: 0, prev: 0, next: 1 },
        Descent { curve: 1, prev: 0, next: 1 },
        Descent { curve: 3, prev: 0, next: 1 },
        Descent { curve: 3, prev: 1, next: 2 },
    ];
    assert_eq!(find_descents(&channels), expected);
    assert_eq!(by_windows(&channels), expected);
}

#[test]
fn descents_agree_with_neighbouring_pairs() {
    let mut value: u32 = 1;
    let mut channels = Vec::new();
    for length in 0..40usize {
        let mut values = Vec::new();
        for _ in 0..length {
            value = value.wrapping_mul(1_103_515_245).wrapping_add(12_345);
            values.push((value >> 16) as u16);
        }
        channels.push(values);
    }
    assert_eq!(find_descents(&channels), by_windows(&channels));
}
