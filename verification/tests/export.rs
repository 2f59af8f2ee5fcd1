use glance::crop::{Area, CropSelection, Point, PIXEL, REACH};
use glance::export::{
    apply, contains, cut, encode, flatten, open, ready_to_apply, rotate, targets, LiveEdits, Quarters, Spot, Target, Turn,
    DEFAULT_QUALITY,
};
use glance::floating::{divide, from_bits, less, to_bits};
use glance::loader::LoadedImage;
use glance::picture::Picture;
use glance::text::RenderedText;
use image::{DynamicImage, Rgba, RgbaImage};

fn at(x: i64, y: i64) -> Point {
    Point { x: x * PIXEL, y: y * PIXEL }
}

fn spot(x: f64, y: f64) -> Spot {
    Spot { x: from_bits(x.to_bits()).unwrap(), y: from_bits(y.to_bits()).unwrap() }
}

fn target(label: &str) -> Target {
    targets().into_iter().find(|t| t.label == label).unwrap()
}

fn sample(width: u32, height: u32) -> Picture {
    Picture { width, height, rgba: [200, 80, 80, 128].repeat((width * height) as usize) }
}

/// A picture in which every pixel is its own.
fn numbered(width: u32, height: u32) -> Picture {
    let mut rgba = Vec::new();
    for y in 0..height {
        for x in 0..width {
            rgba.extend_from_slice(&[x as u8, y as u8, (x + 10 * y) as u8, 255]);
        }
    }
    Picture { width, height, rgba }
}

fn buffer(picture: &Picture) -> RgbaImage {
    RgbaImage::from_raw(picture.width, picture.height, picture.rgba.clone()).unwrap()
}

fn nothing() -> LiveEdits {
    LiveEdits {
        resize: None,
        flip_h: false,
        flip_v: false,
        turn: Turn::Quarters(Quarters::Zero),
        overlays: Vec::new(),
        tone: None,
    }
}

fn whole(width: u32, height: u32) -> (i64, i64) {
    (i64::from(width) * PIXEL, i64::from(height) * PIXEL)
}

#[test]
fn polygon_test_knows_inside_from_outside() {
    let square = vec![spot(0.0, 0.0), spot(10.0, 0.0), spot(10.0, 10.0), spot(0.0, 10.0)];
    assert!(contains(&square, spot(5.0, 5.0)));
    assert!(!contains(&square, spot(15.0, 5.0)));
    assert!(!contains(&square, spot(5.0, -1.0)));
}

/// Ray casting in plain doubles.
fn enclosed(polygon: &[(f64, f64)], x: f64, y: f64) -> bool {
    let mut inside = false;
    let mut j = polygon.len() - 1;
    for i in 0..polygon.len() {
        let ((xi, yi), (xj, yj)) = (polygon[i], polygon[j]);
        if (yi > y) != (yj > y) && x < (xj - xi) * (y - yi) / (yj - yi) + xi {
            inside = !inside;
        }
        j = i;
    }
    inside
}

/// Numbers that look like any others, the same each time.
fn scattered(count: usize) -> Vec<f64> {
    let mut seed: u64 = 0x1234_5678_9ABC_DEF1;
    (0..count)
        .map(|_| {
            seed ^= seed << 13;
            seed ^= seed >> 7;
            seed ^= seed << 17;
            (seed >> 11) as f64 / (1u64 << 53) as f64 * 40.0
        })
        .collect()
}

#[test]
fn outlines_are_what_doubles_make_of_them() {
    let numbers = scattered(600);
    for chunk in numbers.chunks(20) {
        let polygon: Vec<(f64, f64)> = chunk.chunks(2).map(|p| (p[0] - 3.0, p[1] / 3.0)).collect();
        let spots: Vec<Spot> = polygon.iter().map(|p| spot(p.0, p.1)).collect();
        for x in -5..45 {
            for y in -2..15 {
                let (x, y) = (f64::from(x) + 0.5, f64::from(y) + 0.5);
                assert_eq!(contains(&spots, spot(x, y)), enclosed(&polygon, x, y), "{x} {y}");
            }
        }
    }
    // On an edge, what rounding makes of it decides.
    let thin = [(0.0, 0.0), (0.3, 0.9), (0.1, 2.7)];
    let spots: Vec<Spot> = thin.iter().map(|p| spot(p.0, p.1)).collect();
    for step in 0..2700 {
        let y = f64::from(step) / 1000.0;
        for x in [y / 3.0, y / 27.0, 0.3 - (y - 0.9) / 9.0] {
            assert_eq!(contains(&spots, spot(x, y)), enclosed(&thin, x, y), "{x} {y}");
        }
    }
}

#[test]
fn division_rounds_as_doubles_do() {
    let numbers = scattered(400);
    for pair in numbers.chunks(2) {
        for (a, b) in [(pair[0], pair[1]), (-pair[0], pair[1] * 1e-9), (pair[0] * 3e17, -pair[1]), (0.0, pair[1])] {
            let (n, m) = (from_bits(a.to_bits()).unwrap(), from_bits(b.to_bits()).unwrap());
            assert_eq!(less(n, m), a < b);
            assert_eq!(less(m, n), b < a);
            assert!(!less(n, n));
            let made = f64::from_bits(to_bits(divide(n, m)).unwrap());
            assert_eq!(made, a / b, "{a} / {b}");
        }
    }
}

/// Offering a format the build cannot actually encode would fail only at the
/// moment someone tried to use it, which is the worst time to find out.
#[test]
fn every_offered_format_can_be_written() {
    for target in targets() {
        let limit = target.max_dimension.unwrap_or(64).min(64);
        let result = glance::export::write(&sample(limit, limit), Some(target.extension), Some(DEFAULT_QUALITY));
        assert!(result.is_ok(), "{} failed: {:?}", target.label, result);
        let written =
            image::load_from_memory(&result.unwrap()).expect("what we wrote should read back");
        assert_eq!((written.width(), written.height()), (limit, limit));
    }
}

/// ICO is the one format with a size of its own to answer to.
#[test]
fn a_format_with_a_size_limit_says_so_before_writing() {
    let ico = target("ICO");
    assert!(ico.refusal(256, 256).is_none());
    let refusal = ico.refusal(512, 300).expect("512 is past the limit");
    assert!(refusal.contains("512"), "the message should name the size: {refusal}");
    let png = target("PNG");
    assert!(png.refusal(30_000, 30_000).is_none());
    assert_eq!(
        refusal,
        "ICO cannot hold an image larger than 256 × 256; this one is 512 × 300. \
         Resize it first, or pick another format."
    );
}

#[test]
fn formats_are_listed_with_what_they_cost() {
    let all = targets();
    let labels: Vec<&str> = all.iter().map(|t| t.label).collect();
    assert_eq!(labels, ["PNG", "JPEG", "WebP", "TIFF", "BMP", "GIF", "ICO"]);
    let lossy: Vec<&str> = all.iter().filter(|t| t.lossy()).map(|t| t.label).collect();
    assert_eq!(lossy, ["JPEG"]);
    assert_eq!(target("JPEG").caveat, Some("no transparency"));
    assert_eq!(target("GIF").caveat, Some("256 colours, one frame"));
    assert_eq!(DEFAULT_QUALITY, 85);
}

#[test]
fn flattening_lays_every_pixel_over_white() {
    for alpha in 0..=255u8 {
        let mut rgba = Vec::new();
        for value in 0..=255u8 {
            rgba.extend_from_slice(&[value, 255 - value, 17, alpha]);
        }
        let flat = flatten(&Picture { width: 256, height: 1, rgba: rgba.clone() });
        for value in 0..256 {
            for channel in 0..3 {
                let source = f32::from(rgba[value * 4 + channel]);
                let a = f32::from(alpha) / 255.0;
                let expected = (source * a + 255.0 * (1.0 - a)).round() as u8;
                assert_eq!(flat[value * 3 + channel], expected, "{source} at {alpha}");
            }
        }
    }
}

#[test]
fn a_lossless_file_reads_back_as_it_was() {
    let picture = numbered(7, 5);
    for extension in ["png", "webp", "bmp", "tiff", "PNG"] {
        let bytes = glance::export::write(&picture, Some(extension), None).unwrap();
        let read = image::load_from_memory(&bytes).unwrap().into_rgba8();
        assert_eq!(read, buffer(&picture), "{extension}");
    }
}

#[test]
fn a_jpeg_takes_its_quality_and_loses_its_alpha() {
    let mut picture = numbered(64, 64);
    for pixel in picture.rgba.chunks_mut(4) {
        pixel[3] = 0;
    }
    let high = glance::export::write(&picture, Some("jpg"), Some(95)).unwrap();
    let read = image::load_from_memory(&high).unwrap().into_rgba8();
    assert!(read.pixels().all(|p| *p == Rgba([255, 255, 255, 255])));

    let picture = numbered(64, 64);
    let high = glance::export::write(&picture, Some("jpg"), Some(95)).unwrap();
    let low = glance::export::write(&picture, Some("jpeg"), Some(10)).unwrap();
    assert!(low.len() < high.len());
    assert_eq!(
        glance::export::write(&picture, Some("jpg"), None).unwrap(),
        glance::export::write(&picture, Some("jpg"), Some(DEFAULT_QUALITY)).unwrap()
    );
    assert_eq!(encode(&picture, &target("JPEG"), 95).unwrap(), high);
}

#[test]
fn an_unknown_format_is_refused_by_name() {
    let picture = numbered(2, 2);
    let refused = glance::export::write(&picture, Some("xyz"), None).unwrap_err();
    assert!(refused.starts_with("Could not save: "), "{refused}");
    assert!(refused.contains("xyz"), "{refused}");
    let refused = glance::export::write(&picture, None, None).unwrap_err();
    assert!(refused.starts_with("Could not save: "), "{refused}");
}

#[test]
fn cropping_keeps_exactly_the_selection() {
    let picture = numbered(10, 8);
    let crop = CropSelection {
        rect: Area { x: 2 * PIXEL, y: 3 * PIXEL, width: 5 * PIXEL, height: 4 * PIXEL },
        path: Vec::new(),
    };
    let cut = cut(picture, &crop, whole(10, 8)).unwrap();
    assert_eq!((cut.width, cut.height), (5, 4));
    let expected = DynamicImage::ImageRgba8(buffer(&numbered(10, 8))).crop_imm(2, 3, 5, 4);
    assert_eq!(buffer(&cut), expected.into_rgba8());
}

#[test]
fn a_freehand_crop_clears_what_lies_outside() {
    let picture = numbered(10, 10);
    let crop = CropSelection {
        rect: Area { x: 0, y: 0, width: 10 * PIXEL, height: 10 * PIXEL },
        path: vec![at(0, 0), at(10, 0), at(0, 10)],
    };
    let cut = cut(picture, &crop, whole(10, 10)).unwrap();
    let pixels = buffer(&cut);
    assert_eq!(*pixels.get_pixel(1, 1), Rgba([1, 1, 11, 255]));
    assert_eq!(pixels.get_pixel(8, 8)[3], 0);
}

#[test]
fn turning_is_what_the_picture_shows() {
    let picture = numbered(4, 3);
    let source = DynamicImage::ImageRgba8(buffer(&picture));
    assert_eq!(buffer(&rotate(picture.copy(), &Turn::Quarters(Quarters::One))), source.rotate90().into_rgba8());
    assert_eq!(buffer(&rotate(picture.copy(), &Turn::Quarters(Quarters::Two))), source.rotate180().into_rgba8());
    assert_eq!(buffer(&rotate(picture.copy(), &Turn::Quarters(Quarters::Three))), source.rotate270().into_rgba8());
    assert_eq!(rotate(picture.copy(), &Turn::Quarters(Quarters::Zero)).rgba, picture.rgba);
}

#[test]
fn edits_are_applied_in_order() {
    let picture = numbered(4, 3);
    let mut live = nothing();
    live.flip_h = true;
    live.turn = Turn::Quarters(Quarters::One);
    let source = DynamicImage::ImageRgba8(buffer(&picture));
    let made = apply(picture.copy(), &live, None, whole(3, 4)).unwrap();
    assert_eq!(buffer(&made), source.fliph().rotate90().into_rgba8());

    let mut live = nothing();
    live.flip_v = true;
    let made = apply(picture.copy(), &live, None, whole(4, 3)).unwrap();
    assert_eq!(buffer(&made), source.flipv().into_rgba8());
}

#[test]
fn with_nothing_pending_nothing_changes() {
    let picture = numbered(6, 5);
    let made = apply(picture.copy(), &nothing(), None, whole(6, 5)).unwrap();
    assert_eq!((made.width, made.height), (6, 5));
    assert_eq!(made.rgba, picture.rgba);
}

#[test]
fn resizing_gives_the_size_asked_for() {
    let mut live = nothing();
    live.resize = Some((5, 9));
    let made = apply(sample(20, 30), &live, None, whole(5, 9)).unwrap();
    assert_eq!((made.width, made.height), (5, 9));
    assert_eq!(made.rgba.len(), 5 * 9 * 4);
    // One colour stays that colour, however it is resampled.
    assert!(made.rgba.chunks(4).all(|p| p == [200, 80, 80, 128]));
}

#[test]
fn overlays_go_down_before_the_crop() {
    let mut live = nothing();
    live.overlays.push(RenderedText {
        pixels: Picture { width: 1, height: 1, rgba: vec![9, 8, 7, 255] },
        x: 2,
        y: 1,
    });
    let crop = CropSelection {
        rect: Area { x: 2 * PIXEL, y: PIXEL, width: PIXEL, height: PIXEL },
        path: Vec::new(),
    };
    let made = apply(numbered(4, 4), &live, Some(&crop), whole(4, 4)).unwrap();
    assert_eq!(made.rgba, [9, 8, 7, 255]);
}

#[test]
fn a_buffer_shorter_than_its_size_cannot_be_edited() {
    let decoded = |length: usize| LoadedImage {
        width: 2,
        height: 2,
        rgba: (0..length).map(|i| i as u8).collect(),
        premultiplied: false,
        label: "PNG".to_string(),
        animation: Vec::new(),
    };
    assert_eq!(
        open(decoded(15)).err().unwrap(),
        "The decoder reported a size that does not match its data."
    );
    assert_eq!(open(decoded(16)).ok().unwrap().rgba.len(), 16);
    let opened = open(decoded(20)).ok().unwrap();
    assert_eq!(opened.rgba, (0..16u8).collect::<Vec<u8>>());
}

#[test]
fn edits_that_do_not_belong_are_turned_away() {
    let picture = numbered(4, 3);
    let display = whole(4, 3);
    assert!(ready_to_apply(&picture, &nothing(), None, display));

    let short = Picture { width: 4, height: 3, rgba: vec![0; 47] };
    assert!(!ready_to_apply(&short, &nothing(), None, display));

    let mut live = nothing();
    live.resize = Some((0, 5));
    assert!(!ready_to_apply(&picture, &live, None, display));
    live.resize = Some((8, 5));
    assert!(ready_to_apply(&picture, &live, None, display));
    live.resize = Some((u32::MAX, u32::MAX));
    assert!(!ready_to_apply(&picture, &live, None, display));

    let mut live = nothing();
    live.overlays.push(RenderedText {
        pixels: Picture { width: 1, height: 1, rgba: Vec::new() },
        x: 0,
        y: 0,
    });
    assert!(!ready_to_apply(&picture, &live, None, display));

    let selection = |x: i64| CropSelection {
        rect: Area { x: 0, y: 0, width: PIXEL, height: PIXEL },
        path: vec![at(0, 0), at(x, 0), at(0, 2)],
    };
    assert!(ready_to_apply(&picture, &nothing(), Some(&selection(4)), display));
    assert!(ready_to_apply(&picture, &nothing(), Some(&selection(-5)), display));
    let far = REACH / PIXEL + 1;
    assert!(!ready_to_apply(&picture, &nothing(), Some(&selection(far)), display));
    assert!(ready_to_apply(&picture, &nothing(), Some(&selection(far)), (0, 0)));
}

#[test]
fn an_empty_crop_is_an_error() {
    let crop = CropSelection {
        rect: Area { x: 0, y: 0, width: 0, height: 0 },
        path: Vec::new(),
    };
    let made = apply(numbered(4, 3), &nothing(), Some(&crop), whole(4, 3));
    assert_eq!(made.err().unwrap(), "The crop area is empty.");
}

#[test]
fn a_picture_without_pixels_goes_to_the_encoder_too() {
    let empty = Picture { width: 0, height: 3, rgba: Vec::new() };
    for (extension, written) in [
        ("png", false),
        ("jpg", false),
        ("webp", false),
        ("tiff", false),
        ("ico", false),
        ("tga", false),
        ("qoi", false),
        ("gif", true),
        ("bmp", true),
        ("ppm", true),
    ] {
        let made = glance::export::write(&empty, Some(extension), None);
        assert_eq!(made.is_ok(), written, "{extension}");
    }
}

/// A selection on a picture that is shown larger or smaller than it is.
#[test]
fn cutting_scales_as_doubles_do() {
    let start = |width: u32, shown: i64, x: i64| -> Option<(u32, u32)> {
        let picture = numbered(width, 3);
        let rect = Area { x, y: 0, width: shown * PIXEL, height: shown * PIXEL };
        let crop = CropSelection { rect, path: Vec::new() };
        cut(picture, &crop, (shown * PIXEL, shown * PIXEL)).ok().map(|part| {
            (u32::from(part.rgba[0]), part.width)
        })
    };
    assert_eq!(start(70, 100, 45 * PIXEL), Some((31, 39)));
    assert_eq!(start(70, 100, -45 * PIXEL), Some((0, 70)));
    for width in [1u32, 7, 70, 99, 200] {
        for shown in [1i64, 3, 10, 33, 100, 128, 255] {
            for x in 0..60 {
                let x = x * PIXEL / 2 + x;
                let scale = f64::from(width) / shown as f64;
                let from = (x as f64 / PIXEL as f64 * scale).round().max(0.0) as u32;
                let across = ((shown as f64 * scale).round() as u32).min(width.saturating_sub(from));
                let expected = if across == 0 { None } else { Some((from, across)) };
                assert_eq!(start(width, shown, x), expected, "{width} {shown} {x}");
            }
        }
    }
}

#[test]
fn an_outline_is_cut_out_as_doubles_do() {
    let numbers = scattered(200);
    for (turn, chunk) in numbers.chunks(10).enumerate() {
        let (width, shown) = (30 + turn as u32, 37 + 3 * turn as i64);
        let scale = f64::from(width) / shown as f64;
        let units = |v: f64| (v * PIXEL as f64).round() as i64;
        let path: Vec<Point> =
            chunk.chunks(2).map(|p| Point { x: units(p[0]), y: units(p[1] / 2.0) }).collect();
        let rect = Area { x: units(4.2), y: units(1.7), width: units(30.0), height: units(17.0) };
        let corner = |v: i64| (v as f64 / PIXEL as f64 * scale).round();
        let (left, top) = (corner(rect.x), corner(rect.y));
        let polygon: Vec<(f64, f64)> = path
            .iter()
            .map(|p| {
                let (x, y) = (p.x as f64 / PIXEL as f64, p.y as f64 / PIXEL as f64);
                (x * scale - left, y * scale - top)
            })
            .collect();
        let crop = CropSelection { rect, path };
        let part = cut(numbered(width, 20), &crop, (shown * PIXEL, shown * PIXEL)).unwrap();
        for (x, y, pixel) in buffer(&part).enumerate_pixels() {
            let kept = enclosed(&polygon, f64::from(x) + 0.5, f64::from(y) + 0.5);
            assert_eq!(pixel[3], if kept { 255 } else { 0 }, "{x} {y}");
        }
    }
}
