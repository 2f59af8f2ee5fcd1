use glance::decoders::develop::{finish, Layers, Negative};
use glance::paths::FilePath;

fn path() -> FilePath {
    FilePath { bytes: b"/a/x.nef".to_vec() }
}

fn scaled(value: f32) -> u8 {
    (value.clamp(0.0, 1.0) * 255.0 + 0.5) as u8
}

fn grey(values: &[f32], width: u32, orientation: u16) -> Negative {
    Negative {
        width,
        height: (values.len() as u32).checked_div(width).unwrap_or(0),
        layers: Layers::One,
        samples: values.iter().map(|v| v.to_bits()).collect(),
        orientation,
    }
}

#[test]
fn samples_scale_as_single_precision_does() {
    let mut values: Vec<f32> = vec![
        0.0, -0.0, 1.0, -1.0, 2.0, f32::NAN, -f32::NAN, f32::INFINITY, f32::NEG_INFINITY, f32::MIN_POSITIVE,
        f32::EPSILON, 0.5, 0.25, 1e-40, 1e-3, 9.765625e-4, 9.765624e-4, 1.9607843e-3,
    ];
    for step in 0..256u32 {
        // The borders between two shades, and the samples just beside them.
        let border = ((step as f32 + 0.5) / 255.0).to_bits();
        for bits in border - 4..border + 4 {
            values.push(f32::from_bits(bits));
        }
    }
    let mut state: u32 = 99;
    for _ in 0..20_000 {
        state = state.wrapping_mul(1_664_525).wrapping_add(1_013_904_223);
        values.push((state >> 8) as f32 / 16_777_216.0);
    }
    for _ in 0..5_000 {
        state = state.wrapping_mul(1_664_525).wrapping_add(1_013_904_223);
        values.push(f32::from_bits(state));
    }
    let picture = finish(&path(), &grey(&values, 1, 1)).ok().unwrap();
    for (value, pixel) in values.iter().zip(picture.rgba.chunks(4)) {
        let shade = scaled(*value);
        assert_eq!(pixel, [shade, shade, shade, 255], "{value} {:x}", value.to_bits());
    }
}

#[test]
fn colours_take_the_leading_samples() {
    let four = [1.0f32, 0.5, 0.0, 0.9, 0.0, 0.25, 1.0, 0.1];
    let negative = |layers: Layers, samples: &[f32]| Negative {
        width: 2,
        height: 1,
        layers,
        samples: samples.iter().map(|v| v.to_bits()).collect(),
        orientation: 1,
    };
    let picture = finish(&path(), &negative(Layers::Four, &four)).ok().unwrap();
    assert_eq!(picture.rgba, [255, 128, 0, 255, 0, 64, 255, 255]);
    let three = [1.0f32, 0.5, 0.0, 0.0, 0.25, 1.0];
    let picture = finish(&path(), &negative(Layers::Three, &three)).ok().unwrap();
    assert_eq!(picture.rgba, [255, 128, 0, 255, 0, 64, 255, 255]);
}

#[test]
fn a_frame_is_turned_and_a_short_one_refused() {
    let picture = finish(&path(), &grey(&[0.0, 1.0], 2, 6)).ok().unwrap();
    assert_eq!((picture.width, picture.height), (1, 2));
    let picture = finish(&path(), &grey(&[0.0, 1.0], 2, 3)).ok().unwrap();
    assert_eq!(picture.rgba, [255, 255, 255, 255, 0, 0, 0, 255]);
    let picture = finish(&path(), &grey(&[0.0, 1.0], 2, 0)).ok().unwrap();
    assert_eq!(picture.rgba, [0, 0, 0, 255, 255, 255, 255, 255]);
    let mut short = grey(&[0.0, 1.0], 2, 1);
    short.height = 2;
    let failure = finish(&path(), &short).err().unwrap();
    assert_eq!(failure.message, "“x.nef” is not a supported image, or the file is damaged.");
    assert_eq!(failure.detail, "developed image had unexpected dimensions");
}
