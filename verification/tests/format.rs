use glance::format::{detect, heif_kind, is_raster, is_svg, white, Format};
use glance::paths::FilePath;

fn path(text: &str) -> FilePath {
    FilePath { bytes: text.as_bytes().to_vec() }
}

fn ftyp(brands: &[&[u8; 4]]) -> Vec<u8> {
    let mut head = vec![0, 0, 0, 24];
    head.extend_from_slice(b"ftyp");
    for brand in brands {
        head.extend_from_slice(*brand);
    }
    head
}

#[test]
fn heif_brands_tell_the_codec() {
    assert_eq!(heif_kind(&ftyp(&[b"heic"])), Some(false));
    assert_eq!(heif_kind(&ftyp(&[b"avif"])), Some(true));
    assert_eq!(heif_kind(&ftyp(&[b"mif1", b"\0\0\0\0", b"avif"])), Some(true));
    assert_eq!(heif_kind(&ftyp(&[b"mif1", b"\0\0\0\0", b"heic"])), Some(false));
    assert_eq!(heif_kind(&ftyp(&[b"isom", b"mp42"])), None);
    assert_eq!(heif_kind(b"\0\0\0\x18ftypavi"), None);
    assert_eq!(heif_kind(b"\0\0\0\x18ftyqavif"), None);
    assert_eq!(heif_kind(b""), None);
}

#[test]
fn only_the_first_brands_count() {
    let filler: &[u8; 4] = b"isom";
    let mut brands = vec![filler; 9];
    brands[8] = b"avif";
    assert_eq!(heif_kind(&ftyp(&brands)), Some(true));
    let mut brands = vec![filler; 10];
    brands[9] = b"avif";
    assert_eq!(heif_kind(&ftyp(&brands)), None);
}

#[test]
fn a_drawing_is_told_by_its_name_or_its_start() {
    assert!(is_svg(b"", b"svg"));
    assert!(is_svg(b"\x1f\x8b\x08", b"svgz"));
    assert!(!is_svg(b"\x1f\x8b\x08<svg", b"txt"));
    assert!(is_svg(b"  \r\n\t<svg xmlns=''>", b""));
    assert!(is_svg("\u{00A0}\u{2003}<svg>".as_bytes(), b""));
    assert!(is_svg(b"<?xml version='1.0'?><!-- --><svg>", b"xml"));
    assert!(!is_svg(b"<?xml version='1.0'?><html>", b"xml"));
    assert!(!is_svg(b"<html><svg>", b"html"));
    let mut late = b"<?xml version='1.0'?>".to_vec();
    late.resize(600, b' ');
    late.extend_from_slice(b"<svg>");
    assert!(!is_svg(&late, b"xml"));
}

#[test]
fn white_space_is_what_the_language_says() {
    for code in 0..0x11_0000u32 {
        if let Some(c) = char::from_u32(code) {
            assert_eq!(white(c), c.is_whitespace(), "{code:x}");
        }
    }
}

#[test]
fn files_go_to_the_decoder_that_knows_them() {
    assert_eq!(detect(&path("/a/b.NEF"), b"II*\0"), Format::Raw);
    assert_eq!(detect(&path("/a/b.jpg"), b"\xff\xd8"), Format::Raster);
    assert_eq!(detect(&path("/a/b"), b""), Format::Raster);
    assert_eq!(detect(&path("/a/b.SVG"), b""), Format::Svg);
    assert_eq!(detect(&path("/a/b.txt"), b"<svg>"), Format::Svg);
    // What a file starts with goes ahead of what it is called.
    assert_eq!(detect(&path("/a/b.nef"), &ftyp(&[b"heic"])), Format::Heif { avif: false });
    assert_eq!(detect(&path("/a/b.nef"), b"<svg>"), Format::Raw);
}

#[test]
fn a_picture_that_is_called_a_drawing_is_a_picture() {
    let pictures: [&[u8]; 11] = [
        b"\x89PNG\r\n\x1a\n",
        b"\xff\xd8\xff\xe0",
        b"GIF87a",
        b"GIF89a",
        b"RIFF\0\0\0\0WEBP",
        b"II*\0",
        b"MM\0*",
        b"BM",
        b"\0\0\x01\0",
        b"qoif",
        b"P6",
    ];
    for head in pictures {
        assert!(is_raster(head), "{head:?}");
        assert_eq!(detect(&path("/a/b.svg"), head), Format::Raster, "{head:?}");
        assert_eq!(detect(&path("/a/b.svgz"), head), Format::Raster, "{head:?}");
    }
    for head in [&b"\x89PNG\r\n\x1a"[..], b"GIF88a", b"RIFF\0\0\0\0WAVE", b"P8", b"P", b"", b"\x1f\x8b\x08"] {
        assert!(!is_raster(head), "{head:?}");
        assert_eq!(detect(&path("/a/b.svg"), head), Format::Svg, "{head:?}");
    }
}
