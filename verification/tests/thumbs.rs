use glance::decoders::raw::{Place, Search};
use glance::loader::{LoadedImage, Opened};
use glance::paths::FilePath;
use glance::picture::Picture;
use glance::thumbs::{
    blank, can_shrink, fit_box, fitted, generate, letterbox, raw_embedded, shrink, shrink_dynamic,
    small_embedded, small_of, Pending, Thumbnail,
};
use image::{DynamicImage, ImageFormat, Rgba, RgbaImage};

fn path(text: &str) -> FilePath {
    FilePath { bytes: text.as_bytes().to_vec() }
}

fn buffer(width: u32, height: u32) -> RgbaImage {
    RgbaImage::from_fn(width, height, |x, y| Rgba([x as u8, y as u8, (x ^ y) as u8, 255]))
}

fn loaded(width: u32, height: u32) -> LoadedImage {
    LoadedImage {
        width,
        height,
        rgba: buffer(width, height).into_raw(),
        premultiplied: true,
        label: "PNG".to_string(),
        animation: Vec::new(),
    }
}

fn small_version(image: LoadedImage, width: u32, height: u32) -> LoadedImage {
    match small_of(image, width, height) {
        Thumbnail::Made(small) => small,
        _ => panic!("should be made"),
    }
}

fn picture(width: u32, height: u32) -> Picture {
    Picture { width, height, rgba: buffer(width, height).into_raw() }
}

#[test]
fn fitted_sizes_round_as_doubles_do() {
    for width in [0u32, 1, 2, 3, 7, 75, 76, 77, 159, 160, 161, 1000, 4000, 6000, 65_535] {
        for height in [0u32, 1, 2, 5, 58, 76, 160, 161, 333, 3000, 4001, 65_535] {
            for edge in [1u32, 2, 76, 160, 333, 2000] {
                let longest = width.max(height).max(1);
                let expected = if longest <= edge {
                    (width.max(1), height.max(1))
                } else {
                    let scale = f64::from(edge) / f64::from(longest);
                    (
                        ((f64::from(width) * scale).round() as u32).max(1),
                        ((f64::from(height) * scale).round() as u32).max(1),
                    )
                };
                assert_eq!(fitted(width, height, edge), expected, "{width} {height} {edge}");
                assert!(expected.0 <= edge && expected.1 <= edge);
            }
        }
    }
}

#[test]
fn boxes_round_as_doubles_do() {
    for width in [1u32, 2, 7, 75, 76, 77, 160, 1000, 6000] {
        for height in [1u32, 5, 57, 58, 59, 160, 4001] {
            for (w, h) in [(76u32, 58u32), (1, 1), (100, 30), (3, 2000)] {
                let scale = (f64::from(w) / f64::from(width.max(1)))
                    .min(f64::from(h) / f64::from(height.max(1)))
                    .min(1.0);
                let expected = (
                    ((f64::from(width) * scale).round() as u32).clamp(1, w),
                    ((f64::from(height) * scale).round() as u32).clamp(1, h),
                );
                assert_eq!(fit_box(width, height, w, h), expected, "{width} {height} {w} {h}");
            }
        }
    }
}

#[test]
fn shrinking_averages_as_the_image_library_does() {
    let small = shrink(loaded(300, 200), 60);
    let expected = DynamicImage::ImageRgba8(buffer(300, 200)).thumbnail(60, 40).into_rgba8();
    assert_eq!((small.width, small.height), (60, 40));
    assert_eq!(small.rgba, expected.into_raw());
    assert!(small.premultiplied);

    let kept = shrink(loaded(50, 40), 60);
    assert_eq!((kept.width, kept.height, kept.label.as_str()), (50, 40, "PNG"));
    assert_eq!(kept.rgba, loaded(50, 40).rgba);

    let mut short = loaded(300, 200);
    short.rgba.truncate(100);
    let empty = shrink(short, 60);
    assert_eq!((empty.width, empty.height), (1, 1));
    assert_eq!(empty.rgba, [0, 0, 0, 0]);

    let small = shrink_dynamic(&picture(300, 200), 60);
    assert_eq!((small.width, small.height), (60, 40));
    assert!(!small.premultiplied);
}

#[test]
fn a_letterbox_is_transparent_round_the_picture() {
    let boxed = letterbox(loaded(20, 10), 30, 30);
    assert_eq!((boxed.width, boxed.height), (30, 30));
    let pixels = RgbaImage::from_raw(30, 30, boxed.rgba).unwrap();
    for (x, y, pixel) in pixels.enumerate_pixels() {
        let inside = (5..25).contains(&x) && (10..20).contains(&y);
        let expected = if inside {
            *buffer(20, 10).get_pixel(x - 5, y - 10)
        } else {
            Rgba([0, 0, 0, 0])
        };
        assert_eq!(*pixel, expected, "{x},{y}");
    }
    assert!(blank(3, 2, false).rgba.iter().all(|b| *b == 0));
    assert_eq!(blank(3, 2, false).rgba.len(), 24);
}

#[test]
fn every_thumbnail_has_the_size_asked_for() {
    for (width, height) in [(1, 1), (3000, 2), (2, 3000), (200, 200), (76, 58)] {
        let small = small_version(loaded(width, height), 76, 58);
        assert_eq!((small.width, small.height, small.rgba.len()), (76, 58, 76 * 58 * 4));
        assert!(matches!(small_embedded(&picture(width, height), 76, 58), Thumbnail::Made(small)
            if (small.width, small.height, small.rgba.len()) == (76, 58, 76 * 58 * 4)));
    }
    // However long a picture is, and however large the box.
    let small = small_version(loaded(150_000, 3), 72, 72);
    let scaled = DynamicImage::ImageRgba8(buffer(150_000, 3)).thumbnail(72, 1).into_rgba8();
    assert_eq!((small.width, small.height), (72, 72));
    assert_eq!(small.rgba[72 * 4 * 35..72 * 4 * 36], *scaled.as_raw());
    let small = small_version(loaded(20, 10), 3000, 2);
    assert_eq!((small.width, small.height, small.rgba.len()), (3000, 2, 3000 * 2 * 4));
    assert!(can_shrink(6000, 4000, 76));
    assert!(can_shrink(150_000, 100, 72));
    assert!(can_shrink(4_000_000, 100, 76));
    assert!(!can_shrink(0, 4000, 76));
    assert!(!can_shrink(4_000_000, 4_000_000, 76));
    assert!(can_shrink(216_000, 10_000, 72));
    assert!(can_shrink(4100, 4100, 1));
    // Blocks of 4100 by 4100 pixels make sums that fit, larger ones do not.
    assert!(can_shrink(8200, 4100, 2));
    assert!(!can_shrink(8202, 4101, 2));
    assert!(!can_shrink(4100, 4101, 1));
}

#[test]
fn files_become_thumbnails() {
    let mut png = std::io::Cursor::new(Vec::new());
    DynamicImage::ImageRgba8(buffer(90, 60)).write_to(&mut png, ImageFormat::Png).unwrap();
    let png = png.into_inner();
    let made = generate(&path("/a/x.png"), &png, 76, 58);
    assert!(matches!(made, Thumbnail::Made(small)
        if small.rgba == small_version(LoadedImage { premultiplied: false, ..loaded(90, 60) }, 76, 58).rgba));
    let failed = generate(&path("/a/x.png"), &Vec::new(), 76, 58);
    assert!(matches!(failed, Thumbnail::Failed(failure) if failure.message.contains("x.png")));
    let drawing = generate(&path("/a/x.svg"), &b"<svg/>".to_vec(), 76, 58);
    assert!(matches!(drawing, Thumbnail::Decode(Opened::Drawing)));
    let raw = generate(&path("/a/x.nef"), &b"rubbish".to_vec(), 76, 58);
    assert!(matches!(raw, Thumbnail::Embedded));
    let vast = LoadedImage {
        width: 4100,
        height: 4101,
        rgba: vec![0; 4100 * 4101 * 4],
        ..loaded(1, 1)
    };
    assert!(matches!(small_of(vast, 1, 1), Thumbnail::Vast));
    let hollow = LoadedImage { width: 4_000_000, height: 4_000_000, ..loaded(1, 1) };
    assert_eq!(small_version(hollow, 7, 5).rgba, blank(7, 5, true).rgba);
    let empty = LoadedImage { width: 0, height: 9, rgba: Vec::new(), ..loaded(1, 1) };
    assert_eq!(small_version(empty, 7, 5).rgba, blank(7, 5, true).rgba);
    let empty = Picture { width: 0, height: 9, rgba: Vec::new() };
    assert!(matches!(small_embedded(&empty, 7, 5), Thumbnail::Made(small)
        if small.rgba == blank(7, 5, false).rgba));
}

#[test]
fn the_smallest_embedded_image_is_preferred() {
    let sought = |thumbnail: Option<Picture>, preview: Option<Picture>| {
        let search = Search::for_thumbnail();
        assert!(matches!(search, Search::Seek(Place::Thumbnail)));
        raw_embedded(search.seek(thumbnail).seek(preview).right(Some(6)))
    };
    assert_eq!(sought(Some(picture(3, 2)), Some(picture(5, 7))).unwrap().width, 2);
    assert_eq!(sought(None, Some(picture(5, 7))).unwrap().width, 7);
    assert!(sought(None, None).is_none());
    assert!(raw_embedded(Search::for_thumbnail()).is_none());
}

#[test]
fn a_thumbnail_is_asked_for_once() {
    let mut pending = Pending::new();
    assert!(pending.request(&path("a")));
    assert!(pending.request(&path("b")));
    assert!(!pending.request(&path("a")));
    pending.done(&path("a"));
    assert!(!pending.request(&path("b")));
    assert!(pending.request(&path("a")));
    pending.done(&path("c"));
    assert!(!pending.request(&path("a")));
}
