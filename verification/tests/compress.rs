use glance::compress::{
    crc32, describe, find_iend, fit_to_size, pad, pad_jpeg, pad_png, search_quality, shrink_round,
    Round, KB, MAX_QUALITY, MB,
};
use glance::export::{encode, targets, Target};
use glance::picture::Picture;

fn target(label: &str) -> Target {
    targets().into_iter().find(|t| t.label == label).unwrap()
}

/// Detailed enough that JPEG cannot trivially crush it, so the search has real
/// work to do.
fn busy(width: u32, height: u32) -> Picture {
    let mut rgba = Vec::new();
    for y in 0..height {
        for x in 0..width {
            let n = (x * 7 + y * 13) % 255;
            rgba.extend_from_slice(&[(x % 255) as u8, ((y * 3) % 255) as u8, n as u8, 255]);
        }
    }
    Picture { width, height, rgba }
}

#[test]
fn crc32_matches_the_known_check_value() {
    // The standard CRC-32 check: "123456789" is 0xCBF43926.
    assert_eq!(crc32(b"123456789"), 0xCBF4_3926);
    assert_eq!(crc32(b""), 0);
    assert_eq!(crc32(b"IEND"), 0xAE42_6082);
}

#[test]
fn compressing_lands_under_the_target_and_close_to_it() {
    let image = busy(600, 400);
    let wanted = 40 * KB;
    let fit = fit_to_size(&image, &target("JPEG"), wanted).ok().expect("should fit");
    assert!(fit.size() <= wanted, "{} is over {wanted}", fit.size());
    // Not a token effort: it should be using most of the budget.
    assert!(fit.size() > wanted / 2, "only reached {}", fit.size());
    assert!(image::load_from_memory(&fit.bytes).is_ok(), "should still decode");
}

/// A target too small for any quality forces the picture down as well.
#[test]
fn an_impossible_quality_target_shrinks_the_picture() {
    let image = busy(1200, 900);
    let fit = fit_to_size(&image, &target("JPEG"), 6 * KB).ok().expect("should fit by shrinking");
    assert!(fit.size() <= 6 * KB, "{}", fit.size());
    assert!(fit.width < 1200, "should have shrunk, still {}", fit.width);
    let decoded = image::load_from_memory(&fit.bytes).expect("should still decode");
    assert_eq!(decoded.width(), fit.width);
}

/// The other direction: a minimum size, met by padding, with the picture left
/// exactly as it was.
#[test]
fn inflating_reaches_the_target_without_touching_the_picture() {
    let image = busy(80, 60);
    let plain = encode(&image, &target("JPEG"), MAX_QUALITY).unwrap();
    let wanted = plain.len() as u64 + 200 * KB;
    let fit = fit_to_size(&image, &target("JPEG"), wanted).ok().expect("should inflate");
    assert!(fit.size() >= wanted - 8, "only reached {}", fit.size());
    assert!(fit.size() <= wanted + 8, "overshot to {}", fit.size());
    assert!(fit.padding > 100 * KB, "padding was {}", fit.padding);
    let decoded = image::load_from_memory(&fit.bytes).expect("padded file must still decode");
    assert_eq!((decoded.width(), decoded.height()), (80, 60));
    assert_eq!(decoded.to_rgba8(), image::load_from_memory(&plain).unwrap().to_rgba8());
}

#[test]
fn a_padded_png_is_still_a_png() {
    let image = busy(40, 30);
    let plain = encode(&image, &target("PNG"), MAX_QUALITY).unwrap();
    let wanted = plain.len() as u64 + 64 * KB;
    let fit = fit_to_size(&image, &target("PNG"), wanted).ok().expect("should inflate");
    assert!(fit.size() >= wanted - 16, "only reached {}", fit.size());
    assert_eq!(fit.size(), wanted);
    assert_eq!(fit.padding, 64 * KB);
    let decoded = image::load_from_memory(&fit.bytes).expect("padded file must still decode");
    assert_eq!((decoded.width(), decoded.height()), (40, 30));
    // Lossless in, lossless out: padding must not have touched a pixel.
    assert_eq!(decoded.to_rgba8().into_raw(), image.rgba);
}

#[test]
fn a_target_of_nothing_is_refused_rather_than_attempted() {
    let refused = fit_to_size(&busy(50, 50), &target("JPEG"), 0);
    assert!(refused.is_err());
    assert_eq!(refused.err().unwrap(), "Give a size to aim for.");
}

/// An absurd amount of filler means somebody's arithmetic went negative and
/// wrapped. Allocating it would take the whole process down, so it is refused at
/// the door.
#[test]
fn absurd_padding_is_refused_rather_than_allocated() {
    let result = pad(vec![0xFF, 0xD8, 0xFF, 0xD9], &target("JPEG"), u64::MAX);
    assert!(result.is_err(), "should refuse, got {:?}", result.map(|b| b.len()));
    assert_eq!(
        pad(vec![0xFF, 0xD8], &target("JPEG"), 512 * MB + 1).unwrap_err(),
        "512.0 MB is too much padding to add."
    );
}

#[test]
fn sizes_read_as_a_person_would_say_them() {
    assert_eq!(describe(0), "0 bytes");
    assert_eq!(describe(1023), "1023 bytes");
    assert_eq!(describe(1024), "1 KB");
    // Halves go to the even neighbour, as decimal formatting does.
    assert_eq!(describe(2560), "2 KB");
    assert_eq!(describe(3584), "4 KB");
    assert_eq!(describe(MB + MB / 4), "1.2 MB");
    assert_eq!(describe(MB + 3 * MB / 4), "1.8 MB");
    for shift in 0..63u32 {
        for near in [-3i64, -1, 0, 1, 5, 511, 1023, 4095, 12_345_678_901] {
            let bytes = (1u64 << shift).wrapping_add(near as u64);
            let expected = if bytes >= MB {
                format!("{:.1} MB", bytes as f64 / MB as f64)
            } else if bytes >= KB {
                format!("{:.0} KB", bytes as f64 / KB as f64)
            } else {
                format!("{bytes} bytes")
            };
            assert_eq!(describe(bytes), expected, "{bytes}");
        }
    }
}

#[test]
fn jpeg_padding_is_comments_behind_the_start_marker() {
    let padded = pad_jpeg(vec![0xFF, 0xD8, 0xFF, 0xD9], 9);
    assert_eq!(
        padded,
        [0xFF, 0xD8, 0xFF, 0xFE, 0, 7, 0x20, 0x20, 0x20, 0x20, 0x20, 0xFF, 0xD9]
    );
    // Four bytes hold no comment, and something else is no JPEG.
    assert_eq!(pad_jpeg(vec![0xFF, 0xD8, 1], 4), [0xFF, 0xD8, 1]);
    assert_eq!(pad_jpeg(vec![1, 2, 3], 100), [1, 2, 3]);
    // Past one comment's worth there are two; a remainder too small is left.
    assert_eq!(pad_jpeg(vec![0xFF, 0xD8], 65_537 + 10).len(), 2 + 65_537 + 10);
    assert_eq!(pad_jpeg(vec![0xFF, 0xD8], 65_537 + 3).len(), 2 + 65_537);
}

#[test]
fn the_end_of_a_png_is_found_by_walking_its_chunks() {
    let plain = encode(&busy(3, 2), &target("PNG"), MAX_QUALITY).unwrap();
    assert_eq!(find_iend(&plain), Some(plain.len() - 12));
    assert_eq!(find_iend(b"short"), None);
    assert_eq!(find_iend(&plain[..plain.len() - 12]), None);
    let mut padded = pad_png(plain.clone(), 21);
    assert_eq!(padded.len(), plain.len() + 21);
    assert_eq!(find_iend(&padded), Some(plain.len() - 12 + 21));
    assert_eq!(pad_png(plain.clone(), 20), plain);
    // A chunk that claims to reach past the end leads nowhere.
    padded[8] = 0xFF;
    assert_eq!(find_iend(&padded), None);
}

/// The arithmetic of the shrink is that of doubles, step by step.
#[test]
fn a_shrinking_round_scales_as_doubles_do() {
    for (width, height, wanted) in [(400, 300, 900), (333, 517, 1500), (640, 64, 700), (90, 1000, 650)] {
        let image = busy(width, height);
        let jpeg = target("JPEG");
        let floor = encode(&image, &jpeg, 15).unwrap().len();
        assert!(floor > wanted as usize);
        let ratio = ((wanted as f64 / floor as f64).sqrt() * 0.95).clamp(0.1, 0.9);
        let side = |s: u32| (f64::from(s) * ratio).round().max(1.0) as u32;
        match shrink_round(&image, &jpeg, wanted) {
            Ok(Round::Shrink { width: w, height: h }) => {
                assert_eq!((w, h), (side(width), side(height)));
            }
            _ => panic!("should have to shrink"),
        }
    }
}

#[test]
fn a_picture_that_would_vanish_is_refused() {
    let refused = fit_to_size(&busy(40, 40), &target("JPEG"), 100).err().unwrap();
    assert_eq!(
        refused,
        "100 bytes is too small a target for this picture: it would have to shrink past 32 pixels."
    );
    let refused = fit_to_size(&busy(1500, 1500), &target("BMP"), 70 * KB).err();
    assert_eq!(refused, None);
    let wide = busy(3000, 1);
    let refused = fit_to_size(&wide, &target("PNG"), 40).err().unwrap();
    assert!(refused.starts_with("40 bytes is too small") || refused.starts_with("Could not get"));
}

#[test]
fn the_search_settles_on_the_best_quality_that_fits() {
    let image = busy(200, 150);
    let jpeg = target("JPEG");
    let wanted = encode(&image, &jpeg, 60).unwrap().len() as u64;
    let fit = search_quality(&image, &jpeg, wanted).unwrap().unwrap();
    let best = (15..=100u8)
        .filter(|q| encode(&image, &jpeg, *q).unwrap().len() as u64 <= wanted)
        .max();
    assert_eq!(fit.quality, best);
    assert_eq!(fit.padding, 0);
    assert!(search_quality(&image, &jpeg, 10).unwrap().is_none());
    assert!(search_quality(&image, &target("PNG"), 10).unwrap().is_none());
    let png = search_quality(&image, &target("PNG"), 10 * MB).unwrap().unwrap();
    assert_eq!(png.quality, None);
    // Too wide for the format: the encoder's own words, introduced.
    let wide = Picture { width: 70_000, height: 1, rgba: vec![0; 280_000] };
    let refused = search_quality(&wide, &jpeg, 10).err().unwrap();
    assert!(refused.starts_with("Could not encode: "), "{refused}");
}

#[test]
fn a_checksum_behind_its_data_leaves_a_constant() {
    for data in [&b""[..], b"123456789", &[0, 255, 17, 4]] {
        let mut whole = data.to_vec();
        whole.extend_from_slice(&crc32(data).to_le_bytes());
        assert_eq!(crc32(&whole), 0x2144_DF1C);
    }
}

#[test]
fn a_changed_bit_changes_the_checksum() {
    let data = b"a single bit".to_vec();
    for bit in 0..data.len() * 8 {
        let mut changed = data.clone();
        changed[bit / 8] ^= 1 << (bit % 8);
        assert_ne!(crc32(&changed), crc32(&data), "{bit}");
    }
}
