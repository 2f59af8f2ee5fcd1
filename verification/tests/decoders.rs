use glance::colour::to_srgb;
use glance::decoders::raster::{
    decode, decode_animation, delay_of, label_for, still, Gathering, RawFrame, Stored,
    MAX_ANIMATION_BYTES, MAX_FRAMES,
};
use glance::decoders::raw::{large_enough, settle, Place, Search, Step};
use glance::decoders::{heif, raw};
use glance::loader::{self, file_name, open_error, unsupported, Failure, LoadedImage, Obstacle, Opened};
use glance::paths::FilePath;
use glance::picture::Picture;
use image::codecs::gif::{GifEncoder, Repeat};
use moxcms::ColorProfile;
use image::{Delay, DynamicImage, Frame, ImageFormat, Rgba, RgbaImage};

fn path(text: &str) -> FilePath {
    FilePath { bytes: text.as_bytes().to_vec() }
}

fn numbered(width: u32, height: u32) -> RgbaImage {
    RgbaImage::from_fn(width, height, |x, y| Rgba([x as u8, y as u8, (x * y) as u8, 255]))
}

fn file(image: &RgbaImage, format: ImageFormat) -> Vec<u8> {
    let mut bytes = std::io::Cursor::new(Vec::new());
    DynamicImage::ImageRgba8(image.clone()).write_to(&mut bytes, format).unwrap();
    bytes.into_inner()
}

fn gif(colours: &[[u8; 4]], milliseconds: &[u32]) -> Vec<u8> {
    let mut bytes = Vec::new();
    {
        let mut encoder = GifEncoder::new(&mut bytes);
        encoder.set_repeat(Repeat::Infinite).unwrap();
        for (colour, delay) in colours.iter().zip(milliseconds) {
            let buffer = RgbaImage::from_pixel(3, 2, Rgba(*colour));
            let delay = Delay::from_numer_denom_ms(*delay, 1);
            encoder.encode_frame(Frame::from_parts(buffer, 0, 0, delay)).unwrap();
        }
    }
    bytes
}

fn frame(width: u32, height: u32) -> RawFrame {
    RawFrame {
        width,
        height,
        rgba: vec![0; (width * height * 4) as usize],
        numerator: 50,
        denominator: 1,
    }
}

#[test]
fn a_still_is_read_whatever_it_is_called() {
    let image = numbered(5, 4);
    for (name, format, label) in [
        ("/a/x.png", ImageFormat::Png, "PNG"),
        ("/a/x.txt", ImageFormat::Png, "PNG"),
        ("/a/x.bmp", ImageFormat::Bmp, "BMP"),
        ("/a/x.qoi", ImageFormat::Qoi, "QOI"),
        ("/a/x.webp", ImageFormat::WebP, "WebP"),
        ("/a/x.tif", ImageFormat::Tiff, "TIFF"),
    ] {
        let read = decode(&path(name), &file(&image, format)).ok().unwrap();
        assert_eq!((read.width, read.height), (5, 4), "{name}");
        assert_eq!(read.rgba, image.as_raw().clone(), "{name}");
        assert_eq!(read.label, label);
        assert!(!read.premultiplied);
        assert!(read.animation.is_empty());
    }
}

#[test]
fn a_file_without_a_signature_goes_by_its_name() {
    let image = numbered(5, 4);
    let bytes = file(&image, ImageFormat::Tga);
    let read = decode(&path("/a/x.tga"), &bytes).ok().unwrap();
    assert_eq!(read.rgba, image.into_raw());
    let failure = decode(&path("/a/x.foo"), &bytes).err().unwrap();
    assert_eq!(failure.message, "“x.foo” is not a supported image, or the file is damaged.");
}

#[test]
fn damaged_files_are_refused_by_name() {
    for bytes in [Vec::new(), b"rubbish".to_vec(), b"\x89PNG\r\n\x1a\n cut off".to_vec()] {
        let failure = decode(&path("/dir/photo.png"), &bytes).err().unwrap();
        assert_eq!(
            failure.message,
            "“photo.png” is not a supported image, or the file is damaged."
        );
        assert!(!failure.detail.is_empty());
    }
}

#[test]
fn an_animation_keeps_its_frames_and_its_pace() {
    let bytes = gif(&[[255, 0, 0, 255], [0, 255, 0, 255], [0, 0, 255, 255]], &[100, 0, 250]);
    let read = decode(&path("/a/x.gif"), &bytes).ok().unwrap();
    assert_eq!((read.width, read.height), (3, 2));
    assert_eq!(read.label, "GIF · 3 frames");
    assert_eq!(read.animation.len(), 3);
    assert_eq!(read.rgba, read.animation[0].rgba);
    assert_eq!(read.animation[1].rgba, [0, 255, 0, 255].repeat(6));
    let delays: Vec<u64> = read.animation.iter().map(|f| f.delay).collect();
    // A frame that claims no time at all is slowed down.
    assert_eq!(delays, [100_000_000, 100_000_000, 250_000_000]);
}

#[test]
fn one_frame_is_no_animation() {
    let bytes = gif(&[[255, 0, 0, 255]], &[100]);
    assert!(decode_animation(&bytes, true, "GIF").is_none());
    let read = decode(&path("/a/x.gif"), &bytes).ok().unwrap();
    assert!(read.animation.is_empty());
    assert_eq!(read.rgba, [255, 0, 0, 255].repeat(6));
    assert!(decode_animation(&b"rubbish".to_vec(), true, "GIF").is_none());
    assert!(decode_animation(&b"rubbish".to_vec(), false, "WebP").is_none());
}

#[test]
fn short_delays_are_slowed_down() {
    assert_eq!(delay_of(10, 1), 100_000_000);
    assert_eq!(delay_of(19, 1), 100_000_000);
    assert_eq!(delay_of(20, 1), 20_000_000);
    assert_eq!(delay_of(100, 3), 33_333_333);
    assert_eq!(delay_of(0, 1), 100_000_000);
}

#[test]
fn gathering_stops_at_a_frame_too_many() {
    let mut gathering = Gathering::new();
    for count in 0..MAX_FRAMES {
        let enough = gathering.take(frame(1, 1));
        assert_eq!(enough, count + 1 == MAX_FRAMES, "{count}");
    }
    assert_eq!(gathering.finish("GIF").unwrap().animation.len(), MAX_FRAMES);
}

#[test]
fn gathering_stops_at_too_many_bytes() {
    let (width, height) = (4096, 4096);
    let each = u64::from(width * height) * 4;
    let mut gathering = Gathering::new();
    let mut count = 0;
    while !gathering.take(frame(width, height)) {
        count += 1;
        assert!(count < 100);
    }
    let kept = gathering.finish("GIF").unwrap().animation.len() as u64;
    assert_eq!(kept, MAX_ANIMATION_BYTES / each);
}

#[test]
fn a_still_is_turned_upright() {
    let stored = |orientation: u8| Stored {
        picture: Picture { width: 2, height: 1, rgba: vec![1, 2, 3, 4, 5, 6, 7, 8] },
        orientation,
        profile: None,
    };
    let image = still(stored(6), "JPEG");
    assert_eq!((image.width, image.height), (1, 2));
    assert_eq!(image.rgba, [1, 2, 3, 4, 5, 6, 7, 8]);
    let image = still(stored(3), "JPEG");
    assert_eq!(image.rgba, [5, 6, 7, 8, 1, 2, 3, 4]);
    assert_eq!(image.label, "JPEG");
}

/// A PNG of one colour that says what its numbers mean.
fn tagged(profile: Option<Vec<u8>>) -> Vec<u8> {
    let mut bytes = Vec::new();
    let mut encoder = image::codecs::png::PngEncoder::new(&mut bytes);
    if let Some(profile) = profile {
        image::ImageEncoder::set_icc_profile(&mut encoder, profile).unwrap();
    }
    let pixels = [60u8, 160, 90, 77].repeat(6);
    image::ImageEncoder::write_image(encoder, &pixels, 3, 2, image::ExtendedColorType::Rgba8)
        .unwrap();
    bytes
}

#[test]
fn colours_are_converted_at_the_door() {
    let plain = [60u8, 160, 90, 77].repeat(6);
    let read = |profile: Option<Vec<u8>>| decode(&path("x.png"), &tagged(profile)).ok().unwrap().rgba;
    assert_eq!(read(None), plain);
    assert_eq!(read(Some(ColorProfile::new_srgb().encode().unwrap())), plain);
    assert_eq!(read(Some(b"not a profile".to_vec())), plain);
    let adobe = ColorProfile::new_adobe_rgb().encode().unwrap();
    let mut expected = plain.clone();
    assert!(to_srgb(&mut expected, &adobe));
    assert_ne!(expected, plain);
    assert_eq!(read(Some(adobe)), expected);
}

#[test]
fn straight_heif_colours_are_converted_too() {
    let adobe = || Some(ColorProfile::new_adobe_rgb().encode().unwrap());
    let plane = heif::Plane { width: 1, height: 1, stride: 4, data: vec![60, 160, 90, 77] };
    let shown = |premultiplied: bool| {
        heif::decode(&path("x.heic"), false, 8, premultiplied, adobe(), &plane).ok().unwrap().rgba
    };
    let mut straight = vec![199, 255, 255, 77];
    assert_eq!(heif::straighten(vec![60, 160, 90, 77]), straight);
    assert!(to_srgb(&mut straight, &adobe().unwrap()));
    assert_eq!(shown(true), straight);
    let converted = shown(false);
    assert_ne!(converted[..3], [60, 160, 90]);
    assert_eq!(converted[3], 77);
}

#[test]
fn formats_have_labels() {
    assert_eq!(label_for(Some("png")), "PNG");
    assert_eq!(label_for(Some("jpg")), "JPEG");
    assert_eq!(label_for(Some("webp")), "WebP");
    assert_eq!(label_for(None), label_for(Some("dds")));
}

#[test]
fn an_orientation_in_a_jpeg_turns_it() {
    let mut jpeg = Vec::new();
    let buffer = RgbaImage::from_pixel(16, 8, Rgba([200, 100, 50, 255]));
    let rgb = DynamicImage::ImageRgba8(buffer).into_rgb8();
    image::codecs::jpeg::JpegEncoder::new_with_quality(&mut jpeg, 90).encode_image(&rgb).unwrap();
    // An EXIF segment with one entry: orientation 6.
    let mut exif: Vec<u8> = b"Exif\0\0II*\0\x08\0\0\0\x01\0".to_vec();
    exif.extend_from_slice(&[0x12, 0x01, 0x03, 0x00, 1, 0, 0, 0, 6, 0, 0, 0, 0, 0, 0, 0]);
    let mut bytes = jpeg[..2].to_vec();
    bytes.extend_from_slice(&[0xFF, 0xE1]);
    bytes.extend_from_slice(&((exif.len() + 2) as u16).to_be_bytes());
    bytes.extend_from_slice(&exif);
    bytes.extend_from_slice(&jpeg[2..]);
    let plain = decode(&path("/a/x.jpg"), &jpeg).ok().unwrap();
    assert_eq!((plain.width, plain.height), (16, 8));
    let turned = decode(&path("/a/x.jpg"), &bytes).ok().unwrap();
    assert_eq!((turned.width, turned.height), (8, 16));
}

#[test]
fn heif_rows_lose_their_padding() {
    let plane = |stride: usize, length: usize| heif::Plane {
        width: 1,
        height: 2,
        stride,
        data: (0..length).map(|i| i as u8).collect(),
    };
    assert_eq!(plane(4, 8).rows().unwrap(), [0, 1, 2, 3, 4, 5, 6, 7]);
    assert_eq!(plane(6, 10).rows().unwrap(), [0, 1, 2, 3, 6, 7, 8, 9]);
    assert!(plane(6, 9).rows().is_none());
    let image = heif::decode(&path("/a/x.heic"), false, 10, true, None, &plane(6, 12)).ok().unwrap();
    assert_eq!((image.width, image.height), (1, 2));
    assert_eq!(image.rgba, [0, 85, 170, 3, 170, 198, 227, 9]);
    assert!(!image.premultiplied);
    let image = heif::decode(&path("/a/x.heic"), false, 10, false, None, &plane(6, 12)).ok().unwrap();
    assert_eq!(image.rgba, [0, 1, 2, 3, 6, 7, 8, 9]);
    assert!(!image.premultiplied);
    assert_eq!(heif::straighten(vec![9, 0, 200, 0, 1, 2, 3, 255]), [0, 0, 0, 0, 1, 2, 3, 255]);
    let failure = heif::decode(&path("/a/x.heic"), false, 8, false, None, &plane(6, 3)).err().unwrap();
    assert_eq!(failure.message, "“x.heic” is not a supported image, or the file is damaged.");
    assert_eq!(heif::label_for(true, 8), "AVIF");
    assert_eq!(heif::label_for(false, 8), "HEIF");
}

fn camera(width: u32, height: u32) -> Picture {
    Picture { width, height, rgba: vec![7; (width * height * 4) as usize] }
}

#[test]
fn a_raw_file_shows_the_best_it_embeds() {
    assert!(large_enough(&camera(1600, 1)));
    assert!(large_enough(&camera(1, 1600)));
    assert!(!large_enough(&camera(1599, 1599)));

    let choose_image = |full: Option<Picture>, preview: Option<Picture>, orientation: Option<u16>| {
        let search = Search::for_showing();
        assert!(matches!(search, Search::Seek(Place::Full)));
        let search = search.seek(full);
        assert!(!matches!(search, Search::Seek(Place::Full)));
        raw::decode(search.seek(preview).right(orientation))
    };
    let step = choose_image(Some(camera(10, 4)), Some(camera(1600, 2)), Some(6));
    assert!(matches!(step, Step::Show(image)
        if image.label == "RAW (embedded image)" && image.width == 4 && image.height == 10));
    let step = choose_image(None, Some(camera(1600, 2)), None);
    assert!(matches!(step, Step::Show(image)
        if image.label == "RAW (preview)" && image.width == 1600));
    let step = choose_image(None, Some(camera(160, 2)), Some(99));
    assert!(matches!(step, Step::Develop(Some(image))
        if image.label == "RAW (small preview)" && image.width == 160));
    assert!(matches!(choose_image(None, None, Some(3)), Step::Develop(None)));
}

#[test]
fn developing_falls_back_on_the_small_preview() {
    let failed = || Failure { message: "no".to_string(), detail: String::new() };
    let preview = || LoadedImage {
        width: 1,
        height: 1,
        rgba: vec![1; 4],
        premultiplied: false,
        label: "RAW (small preview)".to_string(),
        animation: Vec::new(),
    };
    let developed = settle(Ok(camera(3, 2)), Some(preview())).ok().unwrap();
    assert_eq!((developed.width, developed.label.as_str()), (3, "RAW (developed)"));
    assert_eq!(settle(Err(failed()), Some(preview())).ok().unwrap().width, 1);
    assert_eq!(settle(Err(failed()), None).err().unwrap().message, "no");
}

#[test]
fn frames_that_nothing_announces_are_no_animation() {
    let still = file(&numbered(2, 3), ImageFormat::WebP);
    assert_eq!(&still[12..16], b"VP8L");
    let mut body = b"WEBPVP8X\x0a\0\0\0\0\0\0\0\x01\0\0\x02\0\0".to_vec();
    body.extend_from_slice(&still[12..]);
    body.extend_from_slice(b"ANMF\x18\0\0\0");
    body.extend_from_slice(&[0; 16]);
    body.extend_from_slice(b"VP8L\0\0\0\0");
    let mut bytes = b"RIFF".to_vec();
    bytes.extend_from_slice(&(body.len() as u32).to_le_bytes());
    bytes.extend_from_slice(&body);
    assert!(decode_animation(&bytes, false, "WebP").is_none());
    let image = decode(&path("/a/x.webp"), &bytes).ok().unwrap();
    assert_eq!((image.width, image.height, image.animation.len()), (2, 3, 0));
    assert_eq!(image.rgba, numbered(2, 3).into_raw());
}

#[test]
fn opening_hands_a_file_to_its_decoder() {
    let image = numbered(3, 3);
    let bytes = file(&image, ImageFormat::Png);
    assert!(matches!(loader::decode(&path("/a/x.png"), &bytes), Opened::Decoded(Ok(read))
        if read.rgba == *image.as_raw()));
    assert!(matches!(loader::decode(&path("/a/x.png"), &Vec::new()), Opened::Decoded(Err(_))));
    assert!(matches!(loader::decode(&path("/a/x.svg"), &bytes), Opened::Decoded(Ok(_))));
    let drawing = b"<svg/>".to_vec();
    assert!(matches!(loader::decode(&path("/a/x.svg"), &drawing), Opened::Drawing));
    let heic = b"\0\0\0\x18ftypheic".to_vec();
    assert!(matches!(loader::decode(&path("/a/x"), &heic), Opened::Heif { avif: false }));
    let raw = loader::decode(&path("/a/x.cr2"), &b"rubbish".to_vec());
    assert!(matches!(raw, Opened::Raw));
}

#[test]
fn messages_name_the_file() {
    let photo = path("/home/me/caf\u{e9}.png");
    assert_eq!(file_name(&photo), "café.png");
    assert_eq!(open_error(&photo, Obstacle::NotFound), "“café.png” no longer exists.");
    assert_eq!(
        open_error(&photo, Obstacle::PermissionDenied),
        "You do not have permission to read “café.png”."
    );
    assert_eq!(open_error(&photo, Obstacle::Other), "Could not open “café.png”.");
    assert_eq!(file_name(&path("/")), "this file");
    let odd = FilePath { bytes: b"/a/\xff.png".to_vec() };
    assert_eq!(file_name(&odd), "\u{fffd}.png");
    let failure = unsupported(&photo, "why".to_string());
    assert_eq!(failure.message, "“café.png” is not a supported image, or the file is damaged.");
    assert_eq!(failure.detail, "why");
}

#[test]
fn a_file_that_shows_and_says_nothing_is_refused() {
    let failure = decode(&path("/a/x"), &b"rubbish".to_vec()).err().unwrap();
    assert_eq!(failure.message, "“x” is not a supported image, or the file is damaged.");
    assert_eq!(failure.detail, "The image format could not be determined");
}
