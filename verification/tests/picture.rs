use glance::picture::{from_exif, Orientation, Picture};
use image::{DynamicImage, RgbaImage};

fn numbered(width: u32, height: u32) -> Picture {
    let mut rgba = Vec::new();
    for y in 0..height {
        for x in 0..width {
            rgba.extend_from_slice(&[x as u8, y as u8, (7 * x + 11 * y) as u8, (x ^ y) as u8]);
        }
    }
    Picture { width, height, rgba }
}

fn buffer(picture: &Picture) -> RgbaImage {
    RgbaImage::from_raw(picture.width, picture.height, picture.rgba.clone()).unwrap()
}

fn same(a: &Picture, b: &Picture) -> bool {
    a.width == b.width && a.height == b.height && a.rgba == b.rgba
}

#[test]
fn every_recorded_orientation_turns_as_the_image_library_does() {
    for (width, height) in [(1, 1), (5, 3), (2, 7), (1, 4), (6, 6)] {
        let picture = numbered(width, height);
        for value in 1..=8u16 {
            let turn = from_exif(value).unwrap();
            let mut expected = DynamicImage::ImageRgba8(buffer(&picture));
            expected
                .apply_orientation(image::metadata::Orientation::from_exif(value as u8).unwrap());
            assert_eq!(buffer(&picture.turn(turn)), expected.into_rgba8(), "{value}");
        }
    }
    assert!(from_exif(0).is_none());
    assert!(from_exif(9).is_none());
    assert!(from_exif(257).is_none());
}

#[test]
fn mirroring_twice_and_turning_back_change_nothing() {
    let picture = numbered(4, 3);
    for turn in [Orientation::FlipHorizontal, Orientation::FlipVertical, Orientation::Rotate180] {
        assert!(same(&picture.turn(turn).turn(turn), &picture));
    }
    let back = picture.turn(Orientation::Rotate90).turn(Orientation::Rotate270);
    assert!(same(&back, &picture));
    let twice = picture.turn(Orientation::Rotate90).turn(Orientation::Rotate90);
    assert!(same(&twice, &picture.turn(Orientation::Rotate180)));
    let both = picture.turn(Orientation::FlipHorizontal).turn(Orientation::FlipVertical);
    assert!(same(&both, &picture.turn(Orientation::Rotate180)));
    let mirrored = picture.turn(Orientation::Rotate90).turn(Orientation::FlipHorizontal);
    assert!(same(&mirrored, &picture.turn(Orientation::Rotate90FlipH)));
}

#[test]
fn cutting_takes_a_part_and_cutting_everything_takes_all() {
    let picture = numbered(6, 5);
    assert!(same(&picture.crop(0, 0, 6, 5), &picture));
    let expected = DynamicImage::ImageRgba8(buffer(&picture)).crop_imm(1, 2, 4, 3);
    assert_eq!(buffer(&picture.crop(1, 2, 4, 3)), expected.into_rgba8());
    let nothing = picture.crop(2, 2, 0, 0);
    assert_eq!((nothing.width, nothing.height, nothing.rgba.len()), (0, 0, 0));
}

#[test]
fn pixels_can_be_read_and_set() {
    let mut picture = numbered(3, 2);
    assert_eq!(picture.get_pixel(2, 1), [2, 1, 25, 3]);
    picture.set_pixel(2, 1, [9, 8, 7, 6]);
    assert_eq!(picture.get_pixel(2, 1), [9, 8, 7, 6]);
    assert_eq!(picture.get_pixel(1, 1), [1, 1, 18, 0]);
}
