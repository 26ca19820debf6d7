//! What a profile holds once it is built.
use gimp_curve_to_icc::gamma::{generate_gamma_curve, ramp_steps};
use gimp_curve_to_icc::profile::{build_profile, try_build_profile};
use lcms2::{ColorSpaceSignature, Locale, Profile, ProfileClassSignature, Tag, TagSignature};

/// The tables of the video card's curves.
fn tables(profile: &Profile) -> Vec<Vec<u16>> {
    match profile.read_tag(TagSignature::VcgtTag) {
        Tag::VcgtCurves(curves) => {
            curves.iter().map(|curve| curve.estimated_entries().to_vec()).collect()
        }
        _ => panic!("no curves"),
    }
}

/// The description.
fn description(profile: &Profile) -> String {
    match profile.read_tag(TagSignature::ProfileDescriptionTag) {
        Tag::MLU(text) => text.text(Locale::none()).unwrap(),
        _ => panic!("no description"),
    }
}

#[test]
fn profile_holds_curves_and_description() {
    let red: Vec<u16> = (0..256u32).map(|n| (n * 257) as u16).collect();
    let green: Vec<u16> = (0..256u32).map(|n| (n * n) as u16).collect();
    let blue: Vec<u16> = (0..256u32).map(|n| (65535 - n) as u16).collect();
    let channels = vec![red.clone(), green.clone(), blue.clone()];
    let built = build_profile("Custom gamma ICC profile", &channels);
    assert!(built.described);
    assert!(built.calibrated);
    assert_eq!(tables(&built.profile), vec![red, green, blue]);
    assert_eq!(description(&built.profile), "Custom gamma ICC profile");
}

#[test]
fn profile_holds_other_scripts() {
    let channels = vec![vec![0, 65535], vec![0, 65535], vec![0, 65535], vec![1]];
    let built = build_profile("Hello \u{4e16}\u{754c}", &channels);
    assert!(built.described && built.calibrated);
    assert_eq!(description(&built.profile), "Hello \u{4e16}\u{754c}");
    assert_eq!(tables(&built.profile), vec![vec![0, 65535]; 3]);
}

#[test]
fn curves_of_any_length_are_held() {
    let long: Vec<u16> = (0..65530u32).map(|n| n as u16).collect();
    let channels = vec![vec![7], long.clone(), vec![1, 2, 3]];
    let built = build_profile("lengths", &channels);
    assert!(built.calibrated);
    assert_eq!(tables(&built.profile), vec![vec![7], long, vec![1, 2, 3]]);
}

#[test]
fn saved_profile_keeps_the_curves() {
    let curve: Vec<u16> = (0..256u32).map(|n| (n * 257) as u16).collect();
    let channels = vec![curve.clone(), curve.clone(), curve.clone()];
    let built = build_profile("saved", &channels);
    let bytes = built.profile.icc().unwrap();
    let read = Profile::new_icc(&bytes).unwrap();
    assert_eq!(description(&read), "saved");
    assert_eq!(tables(&read), channels);
}

#[test]
fn profile_is_srgb() {
    let channels = vec![vec![0, 65535]; 3];
    let built = build_profile("colours", &channels);
    let plain = Profile::new_srgb();
    assert_eq!(built.profile.color_space(), ColorSpaceSignature::RgbData);
    assert_eq!(built.profile.device_class(), ProfileClassSignature::DisplayClass);
    assert_eq!(built.profile.pcs(), ColorSpaceSignature::XYZData);
    for tag in [
        TagSignature::RedTRCTag,
        TagSignature::GreenTRCTag,
        TagSignature::BlueTRCTag,
    ] {
        match (built.profile.read_tag(tag), plain.read_tag(tag)) {
            (Tag::ToneCurve(ours), Tag::ToneCurve(theirs)) => {
                assert_eq!(ours.estimated_entries(), theirs.estimated_entries());
            }
            _ => panic!("no transfer curve"),
        }
    }
    for tag in [
        TagSignature::RedColorantTag,
        TagSignature::GreenColorantTag,
        TagSignature::BlueColorantTag,
        TagSignature::MediaWhitePointTag,
    ] {
        match (built.profile.read_tag(tag), plain.read_tag(tag)) {
            (Tag::CIEXYZ(ours), Tag::CIEXYZ(theirs)) => {
                assert_eq!((ours.X, ours.Y, ours.Z), (theirs.X, theirs.Y, theirs.Z));
            }
            _ => panic!("no colour"),
        }
    }
}

#[test]
fn unstorable_channels_give_no_profile() {
    assert!(try_build_profile("none", &vec![]).is_none());
    assert!(try_build_profile("two", &vec![vec![0], vec![0]]).is_none());
    assert!(try_build_profile("empty", &vec![vec![0], vec![0], vec![]]).is_none());
    assert!(try_build_profile("long", &vec![vec![0], vec![0; 65531], vec![0]]).is_none());
    assert!(try_build_profile("fourth", &vec![vec![0], vec![0], vec![0], vec![]]).is_some());
    let ramps = generate_gamma_curve(&ramp_steps());
    let built = try_build_profile("ramp", &ramps).unwrap();
    assert_eq!(tables(&built.profile), ramps);
}

#[test]
fn descriptions_are_always_written() {
    let channels = vec![vec![0, 65535]; 3];
    let long = "long ".repeat(20_000);
    for text in ["", "x", "\u{1f600}", "a\0b", &long] {
        let built = build_profile(text, &channels);
        assert!(built.described && built.calibrated);
        assert_eq!(tables(&built.profile), channels);
    }
    let built = build_profile(&long, &channels);
    assert_eq!(description(&built.profile), long);
}

#[test]
fn null_characters_end_descriptions() {
    let channels = vec![vec![0, 65535]; 3];
    for (text, kept) in [
        ("ab", "ab"),
        ("a\0b", "a"),
        ("a\0\u{1f600}", "a"),
        ("\u{ffff}\0\0", "\u{ffff}"),
        ("", "\0"),
        ("\0", "\0"),
        ("\0b", "\0"),
    ] {
        let built = build_profile(text, &channels);
        assert!(built.described);
        assert_eq!(description(&built.profile), kept);
    }
}
