use glance::export::{apply, LiveEdits, Quarters, Turn};
use glance::picture::Picture;
use glance::tone::Tone;

const RANGE: f64 = 100.0;

const LUMA: [f64; 3] = [0.2126, 0.7152, 0.0722];

#[derive(Clone, Copy, Default)]
struct Adjustments {
    brightness: f64,
    contrast: f64,
    saturation: f64,
}

impl Adjustments {
    fn coefficients(&self) -> ([[f64; 3]; 3], f64) {
        let k = 1.0 + self.saturation / 100.0;
        let f = 2f64.powf(self.contrast / 100.0);
        let mut m = [[0.0; 3]; 3];
        for (row, line) in m.iter_mut().enumerate() {
            for (col, cell) in line.iter_mut().enumerate() {
                let identity = if row == col { 1.0 } else { 0.0 };
                *cell = f * (LUMA[col] + k * (identity - LUMA[col]));
            }
        }
        (m, 0.5 - 0.5 * f + self.brightness / 100.0)
    }

    fn is_identity(&self) -> bool {
        self.brightness.abs() < 0.01 && self.contrast.abs() < 0.01 && self.saturation.abs() < 0.01
    }

    fn tone(&self) -> Tone {
        let contrast = 2f64.powf(self.contrast / RANGE);
        let saturation = 1.0 + self.saturation / RANGE;
        let brightness = self.brightness / RANGE;
        Tone::of(contrast.to_bits(), saturation.to_bits(), brightness.to_bits()).unwrap()
    }

    fn bake(&self, image: Picture) -> Picture {
        self.tone().bake(&image)
    }
}

fn one_pixel(r: u8, g: u8, b: u8) -> Picture {
    Picture { width: 1, height: 1, rgba: vec![r, g, b, 200] }
}

fn pixel_of(image: &Picture) -> [u8; 4] {
    image.get_pixel(0, 0)
}

#[test]
fn doing_nothing_changes_nothing() {
    let adjust = Adjustments::default();
    assert!(adjust.is_identity());
    assert_eq!(pixel_of(&adjust.bake(one_pixel(10, 120, 250))), [10, 120, 250, 200]);
    for shade in 0..=255u8 {
        let pixel = pixel_of(&adjust.bake(one_pixel(shade, 255 - shade, shade / 2)));
        assert_eq!(pixel, [shade, 255 - shade, shade / 2, 200]);
    }
}

/// The same in floating point, step by step.
fn baked(adjust: &Adjustments, pixel: [u8; 4]) -> [u8; 4] {
    let (m, offset) = adjust.coefficients();
    let source =
        [f64::from(pixel[0]) / 255.0, f64::from(pixel[1]) / 255.0, f64::from(pixel[2]) / 255.0];
    let mut out = pixel;
    for channel in 0..3 {
        let value = m[channel][0] * source[0]
            + m[channel][1] * source[1]
            + m[channel][2] * source[2]
            + offset;
        out[channel] = (value.clamp(0.0, 1.0) * 255.0).round() as u8;
    }
    out
}

#[test]
fn pixels_round_as_double_precision_does() {
    let mut state: u32 = 7;
    let mut next = || {
        state = state.wrapping_mul(1_664_525).wrapping_add(1_013_904_223);
        (state >> 24) as u8
    };
    let sliders = [-100.0, -99.0, -50.0, -33.0, -1.0, 0.0, 1.0, 10.0, 50.0, 77.0, 100.0];
    for brightness in sliders {
        for contrast in sliders {
            for saturation in sliders {
                let adjust = Adjustments { brightness, contrast, saturation };
                let mut rgba = Vec::new();
                for _ in 0..40 {
                    rgba.push(next());
                }
                let made =
                    adjust.bake(Picture { width: 10, height: 1, rgba: rgba.clone() }).rgba;
                for (before, after) in rgba.chunks(4).zip(made.chunks(4)) {
                    let expected = baked(&adjust, [before[0], before[1], before[2], before[3]]);
                    assert_eq!(after, expected, "{brightness} {contrast} {saturation} {before:?}");
                }
            }
        }
    }
    // Half a step of brightness lands every shade squarely between two.
    let adjust = Adjustments { brightness: 50.0, ..Default::default() };
    for shade in 0..=255u8 {
        let pixel = [shade, shade.wrapping_mul(7), 255 - shade, 1];
        let image = Picture { width: 1, height: 1, rgba: pixel.to_vec() };
        assert_eq!(adjust.bake(image).rgba, baked(&adjust, pixel));
    }
}

/// Fully desaturated, every channel must land on the luma of the original, which
/// is the whole reason for weighting them rather than averaging.
#[test]
fn full_desaturation_lands_on_the_luma() {
    let adjust = Adjustments { saturation: -RANGE, ..Default::default() };
    let [r, g, b, a] = pixel_of(&adjust.bake(one_pixel(255, 0, 0)));
    let expected = (LUMA[0] * 255.0).round() as u8;
    assert_eq!([r, g, b], [expected; 3]);
    // Alpha is a tone control's business to leave alone.
    assert_eq!(a, 200);
}

/// Contrast pivots about mid grey, so mid grey itself must not move.
#[test]
fn contrast_leaves_mid_grey_where_it_is() {
    for contrast in [-RANGE, -40.0, 40.0, RANGE] {
        let adjust = Adjustments { contrast, ..Default::default() };
        let [r, ..] = pixel_of(&adjust.bake(one_pixel(128, 128, 128)));
        assert!((i16::from(r) - 128).abs() <= 1, "contrast {contrast} moved mid grey to {r}");
    }
}

#[test]
fn brightness_moves_every_channel_by_the_same_amount() {
    let adjust = Adjustments { brightness: 20.0, ..Default::default() };
    let [r, g, b, _] = pixel_of(&adjust.bake(one_pixel(50, 100, 150)));
    assert_eq!([r, g, b], [101, 151, 201]);
}

/// Values must not wrap when a slider pushes them past the ends.
#[test]
fn extremes_clamp_rather_than_wrap() {
    let up = Adjustments { brightness: RANGE, ..Default::default() };
    assert_eq!(pixel_of(&up.bake(one_pixel(200, 200, 200)))[0], 255);
    let down = Adjustments { brightness: -RANGE, ..Default::default() };
    assert_eq!(pixel_of(&down.bake(one_pixel(40, 40, 40)))[0], 0);
}

#[test]
fn the_matrix_is_the_one_the_screen_shows() {
    for contrast in [-100.0, -7.0, 0.0, 31.0, 100.0] {
        for saturation in [-100.0, -50.0, 0.0, 1.0, 100.0] {
            let adjust = Adjustments { brightness: 13.0, contrast, saturation };
            let (m, offset) = adjust.coefficients();
            let tone = adjust.tone();
            for (place, number) in m.iter().flatten().chain([&offset]).enumerate() {
                assert_eq!(f64::from_bits(tone.bits(place)), *number, "{contrast} {saturation}");
            }
        }
    }
}

#[test]
fn what_is_out_of_all_proportion_is_refused() {
    let of = |c: f64, s: f64, b: f64| Tone::of(c.to_bits(), s.to_bits(), b.to_bits()).is_some();
    assert!(of(1.0, 1.0, 0.0));
    assert!(of(2.0, 0.0, -0.0));
    for odd in [f64::NAN, f64::INFINITY, 1e-300, 1e300, f64::MIN_POSITIVE / 4.0] {
        assert!(!of(odd, 1.0, 0.0) && !of(1.0, odd, 0.0) && !of(1.0, 1.0, odd), "{odd}");
    }
}

#[test]
fn tone_goes_on_last() {
    let adjust = Adjustments { brightness: 20.0, ..Default::default() };
    let live = LiveEdits {
        resize: None,
        flip_h: true,
        flip_v: false,
        turn: Turn::Quarters(Quarters::Zero),
        overlays: Vec::new(),
        tone: Some(adjust.tone()),
    };
    let picture = Picture { width: 2, height: 1, rgba: vec![50, 100, 150, 9, 1, 2, 3, 4] };
    let display = (2 * 65_536, 65_536);
    let made = apply(picture, &live, None, display).unwrap();
    assert_eq!(made.rgba, [52, 53, 54, 4, 101, 151, 201, 9]);
}
