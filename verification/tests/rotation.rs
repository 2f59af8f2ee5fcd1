use glance::export::{rotate, Turn};
use glance::picture::{Orientation, Picture};
use glance::rotation::{rotate_freely, Angle};
use image::{DynamicImage, Rgba, RgbaImage};

fn picture(source: &RgbaImage) -> Picture {
    Picture { width: source.width(), height: source.height(), rgba: source.as_raw().clone() }
}

fn buffer(picture: &Picture) -> RgbaImage {
    RgbaImage::from_raw(picture.width, picture.height, picture.rgba.clone()).unwrap()
}

fn angle(degrees: f64) -> Angle {
    let (sin, cos) = degrees.to_radians().sin_cos();
    Angle::from_bits(sin.to_bits(), cos.to_bits()).unwrap()
}

#[test]
fn free_rotation_matches_the_exact_quarter_turn() {
    // A recognisable asymmetric image, so a wrong direction shows up.
    let mut source = RgbaImage::from_pixel(8, 4, Rgba([0, 0, 0, 255]));
    source.put_pixel(0, 0, Rgba([255, 0, 0, 255]));
    source.put_pixel(7, 0, Rgba([0, 255, 0, 255]));

    let exact = DynamicImage::ImageRgba8(source.clone()).rotate90().to_rgba8();
    let free = buffer(&rotate_freely(&picture(&source), &angle(90.0)));
    assert_eq!((free.width(), free.height()), (exact.width(), exact.height()));

    // Corners carry the signal; bilinear sampling can differ by a hair.
    for (x, y) in [(0u32, 0u32), (free.width() - 1, 0), (0, free.height() - 1)] {
        let (a, b) = (free.get_pixel(x, y), exact.get_pixel(x, y));
        for channel in 0..3 {
            assert!(
                a[channel].abs_diff(b[channel]) <= 2,
                "at {x},{y} channel {channel}: {a:?} vs {b:?}"
            );
        }
    }
}

/// The same in floating point, step by step.
fn turned(source: &RgbaImage, degrees: f64) -> RgbaImage {
    let (width, height) = (f64::from(source.width()), f64::from(source.height()));
    let (sin, cos) = degrees.to_radians().sin_cos();
    let out_w = (width * cos.abs() + height * sin.abs()).round().max(1.0);
    let out_h = (width * sin.abs() + height * cos.abs()).round().max(1.0);
    let mut out = RgbaImage::from_pixel(out_w as u32, out_h as u32, Rgba([0, 0, 0, 0]));
    let (cx, cy) = (width / 2.0, height / 2.0);
    let (ox, oy) = (out_w / 2.0, out_h / 2.0);
    for y in 0..out.height() {
        for x in 0..out.width() {
            let dx = f64::from(x) + 0.5 - ox;
            let dy = f64::from(y) + 0.5 - oy;
            let sx = dx * cos + dy * sin + cx;
            let sy = -dx * sin + dy * cos + cy;
            out.put_pixel(x, y, sample(source, sx, sy));
        }
    }
    out
}

fn sample(source: &RgbaImage, x: f64, y: f64) -> Rgba<u8> {
    let (width, height) = (f64::from(source.width()), f64::from(source.height()));
    let clear = Rgba([0, 0, 0, 0]);
    if x < 0.0 || y < 0.0 || x >= width || y >= height {
        return clear;
    }
    let (bx, by) = (x - 0.5, y - 0.5);
    let (x0, y0) = (bx.floor(), by.floor());
    let (fx, fy) = (bx - x0, by - y0);
    let at = |ix: f64, iy: f64| -> Rgba<u8> {
        if ix < 0.0 || iy < 0.0 || ix >= width || iy >= height {
            clear
        } else {
            *source.get_pixel(ix as u32, iy as u32)
        }
    };
    let (p00, p10) = (at(x0, y0), at(x0 + 1.0, y0));
    let (p01, p11) = (at(x0, y0 + 1.0), at(x0 + 1.0, y0 + 1.0));
    let mut channels = [0u8; 4];
    for (index, channel) in channels.iter_mut().enumerate() {
        let top = f64::from(p00[index]) * (1.0 - fx) + f64::from(p10[index]) * fx;
        let bottom = f64::from(p01[index]) * (1.0 - fx) + f64::from(p11[index]) * fx;
        *channel = (top * (1.0 - fy) + bottom * fy).round().clamp(0.0, 255.0) as u8;
    }
    Rgba(channels)
}

fn busy(width: u32, height: u32) -> RgbaImage {
    let mut state: u32 = 4242;
    RgbaImage::from_fn(width, height, |_, _| {
        state = state.wrapping_mul(1_664_525).wrapping_add(1_013_904_223);
        Rgba(state.to_be_bytes())
    })
}

#[test]
fn pixels_land_where_double_precision_puts_them() {
    for (width, height) in [(1, 1), (7, 3), (12, 12), (2, 30)] {
        let source = busy(width, height);
        for degrees in [0.0, 0.5, 1.0, 15.0, 30.0, 45.0, 60.0, 89.0, 90.0, 123.456, 180.0, 211.0, 270.0, 359.0] {
            let made = buffer(&rotate_freely(&picture(&source), &angle(degrees)));
            assert_eq!(made, turned(&source, degrees), "{width} x {height} by {degrees}");
        }
    }
}

#[test]
fn exact_sines_turn_exactly() {
    let source = picture(&busy(5, 3));
    let turn = |sin: f64, cos: f64| {
        let angle = Angle::from_bits(sin.to_bits(), cos.to_bits()).unwrap();
        let made = rotate(source.copy(), &Turn::Free(angle));
        (made.width, made.height, made.rgba)
    };
    let exact = |orientation: Orientation| {
        let made = source.turn(orientation);
        (made.width, made.height, made.rgba)
    };
    assert_eq!(turn(0.0, 1.0), exact(Orientation::NoTransforms));
    assert_eq!(turn(1.0, 0.0), exact(Orientation::Rotate90));
    assert_eq!(turn(0.0, -1.0), exact(Orientation::Rotate180));
    assert_eq!(turn(-1.0, 0.0), exact(Orientation::Rotate270));
    assert!(Angle::from_bits(f64::NAN.to_bits(), 0f64.to_bits()).is_none());
}
