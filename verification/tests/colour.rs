use glance::colour::{honour, is_srgb, to_srgb};
use moxcms::ColorProfile;

/// Run a colour through a profile-to-sRGB conversion the way the decoder would,
/// without needing a file.
fn convert(source: &ColorProfile, pixel: [u8; 4]) -> [u8; 4] {
    let profile = source.encode().expect("a profile should encode");
    let mut buffer = pixel.to_vec();
    assert!(to_srgb(&mut buffer, &profile), "should convert");
    [buffer[0], buffer[1], buffer[2], buffer[3]]
}

/// The colorants and the white point, as the bits of doubles.
fn primaries(profile: &ColorProfile) -> Vec<u64> {
    let (r, g, b) = (profile.red_colorant, profile.green_colorant, profile.blue_colorant);
    let w = profile.white_point;
    [r.x, r.y, r.z, g.x, g.y, g.z, b.x, b.y, b.z, w.x, w.y, w.z]
        .iter()
        .map(|number| number.to_bits())
        .collect()
}

/// The whole point. The same numbers name a more saturated colour in a wider
/// space, so reaching the same colour in sRGB takes different ones. A mid-tone is
/// used deliberately: a pure primary is outside sRGB altogether and simply clips,
/// which moves it hardly at all.
#[test]
fn a_wide_gamut_colour_really_moves() {
    let plain = [60u8, 160, 90, 255];
    let converted = convert(&ColorProfile::new_adobe_rgb(), plain);
    let shift: i32 = (0..3)
        .map(|i| i32::from(converted[i]) - i32::from(plain[i]))
        .map(i32::abs)
        .sum();
    assert!(shift > 30, "{plain:?} -> {converted:?} is barely a change");
}

#[test]
fn display_p3_moves_too() {
    let plain = [60u8, 160, 90, 255];
    assert_ne!(convert(&ColorProfile::new_display_p3(), plain), plain);
}

/// Grey has no colour to get wrong: it is the same in every RGB space sharing a
/// white point, so a transform that shifts it is broken.
#[test]
fn neutral_grey_stays_neutral() {
    let [r, g, b, _] = convert(&ColorProfile::new_adobe_rgb(), [128, 128, 128, 255]);
    assert!(r.abs_diff(g) <= 1 && g.abs_diff(b) <= 1, "grey became ({r}, {g}, {b})");
    assert!(r.abs_diff(128) <= 3, "grey drifted to {r}");
}

/// Alpha is not colour and must come through untouched, or every transparent
/// edge in the app shifts.
#[test]
fn alpha_is_carried_through_unchanged() {
    for alpha in [0u8, 64, 128, 255] {
        let converted = convert(&ColorProfile::new_display_p3(), [120, 90, 200, alpha]);
        assert_eq!(converted[3], alpha);
    }
}

/// sRGB in, sRGB out: recognised as a no-op and skipped, rather than spending a
/// pass over a 50-megapixel photograph to change nothing.
#[test]
fn an_srgb_profile_is_recognised_and_skipped() {
    let srgb = primaries(&ColorProfile::new_srgb());
    assert!(is_srgb(&srgb, &primaries(&ColorProfile::new_srgb())));
    assert!(!is_srgb(&primaries(&ColorProfile::new_adobe_rgb()), &srgb));
    assert!(!is_srgb(&primaries(&ColorProfile::new_display_p3()), &srgb));

    let profile = ColorProfile::new_srgb().encode().unwrap();
    let mut pixels = vec![60u8, 160, 90, 255];
    assert!(!to_srgb(&mut pixels, &profile));
    assert_eq!(pixels, [60, 160, 90, 255]);
}

/// Rubbish in the profile slot must leave the picture alone rather than mangle
/// it or panic.
#[test]
fn nonsense_profile_bytes_leave_the_pixels_alone() {
    let mut pixels = vec![10u8, 20, 30, 255, 40, 50, 60, 128];
    let before = pixels.clone();
    assert!(!to_srgb(&mut pixels, b"not an icc profile at all"));
    assert_eq!(pixels, before);
    assert!(!to_srgb(&mut pixels, &[]));
    assert_eq!(pixels, before);
}

#[test]
fn a_broken_pixel_row_is_left_alone() {
    let profile = ColorProfile::new_adobe_rgb().encode().unwrap();
    let mut pixels = vec![60u8, 160, 90, 255, 7];
    assert!(!to_srgb(&mut pixels, &profile));
    assert_eq!(pixels, [60, 160, 90, 255, 7]);
}

#[test]
fn colorants_a_hair_apart_are_the_same() {
    let srgb = primaries(&ColorProfile::new_srgb());
    for (shift, same) in [(0.00009, true), (-0.00009, true), (0.00011, false), (-0.00011, false)] {
        for at in 0..12 {
            let mut moved = srgb.clone();
            moved[at] = (f64::from_bits(srgb[at]) + shift).to_bits();
            assert_eq!(is_srgb(&moved, &srgb), same, "{at} moved by {shift}");
        }
    }
    for odd in [0.0, -0.4, f64::NAN, f64::INFINITY, 1e300, -1e300] {
        let mut moved = srgb.clone();
        moved[4] = odd.to_bits();
        assert!(!is_srgb(&moved, &srgb), "{odd}");
    }
}

/// The numbers of sRGB that the conversions are measured against.
#[test]
fn srgb_is_known_to_a_millionth() {
    let known = [
        435_844.0, 222_373.0, 13_929.0, 385_309.0, 717_028.0, 97_157.0, 143_060.0, 60_598.0,
        714_103.0, 963_906.0, 1_000_000.0, 824_746.0,
    ];
    let srgb = primaries(&ColorProfile::new_srgb());
    assert_eq!(srgb.len(), known.len());
    for (bits, millionths) in srgb.iter().zip(known) {
        let gap = f64::from_bits(*bits) * 1_000_000.0 - millionths;
        assert!(gap.abs() < 1.0, "{millionths} is {gap} off");
    }
}

/// A colour is converted on its own, wherever it stands among the others.
#[test]
fn each_pixel_is_converted_on_its_own() {
    let profile = ColorProfile::new_adobe_rgb();
    let pixels = [[60u8, 160, 90, 255], [128, 128, 128, 7], [0, 0, 0, 0], [60, 160, 90, 3], [200, 30, 40, 9]];
    let mut together = pixels.concat();
    assert!(to_srgb(&mut together, &profile.encode().unwrap()));
    let alone: Vec<u8> = pixels.iter().flat_map(|pixel| convert(&profile, *pixel)).collect();
    assert_eq!(together, alone);
}

/// A profile that cannot be converted from is refused, though it can be read.
#[test]
fn a_grey_profile_leaves_the_pixels_alone() {
    let profile = ColorProfile::new_gray_with_gamma(2.2).encode().unwrap();
    let mut pixels = vec![60u8, 160, 90, 255];
    assert!(!to_srgb(&mut pixels, &profile));
    assert_eq!(pixels, [60, 160, 90, 255]);
}

#[test]
fn only_a_file_with_a_profile_is_converted() {
    let plain = vec![60u8, 160, 90, 255];
    let adobe = ColorProfile::new_adobe_rgb();
    assert_eq!(honour(plain.clone(), &None), plain);
    assert_eq!(honour(plain.clone(), &Some(b"nonsense".to_vec())), plain);
    assert_eq!(honour(plain.clone(), &Some(adobe.encode().unwrap())), convert(&adobe, [60, 160, 90, 255]));
}
