use glance::picture::Picture;
use glance::text::{composite, over, RenderedText};

fn plain(width: u32, height: u32, pixel: [u8; 4]) -> Picture {
    Picture { width, height, rgba: pixel.repeat((width * height) as usize) }
}

#[test]
fn opaque_source_replaces_what_is_under_it() {
    assert_eq!(over([10, 20, 30, 255], [200, 200, 200, 255]), [10, 20, 30, 255]);
}

#[test]
fn a_transparent_source_leaves_the_picture_alone() {
    assert_eq!(over([10, 20, 30, 0], [200, 100, 50, 255]), [200, 100, 50, 255]);
}

/// Half-covering black over white must land on mid grey, not on either end:
/// getting the weighting backwards is the classic way to notice too late.
#[test]
fn half_alpha_lands_half_way() {
    let [r, g, b, a] = over([0, 0, 0, 128], [255, 255, 255, 255]);
    assert_eq!(a, 255);
    for channel in [r, g, b] {
        assert!((i16::from(channel) - 127).abs() <= 2, "got {channel}");
    }
}

/// Text hanging off the edge must be clipped, not wrapped round to the other
/// side or panic on the way past.
#[test]
fn text_past_the_edge_is_clipped() {
    let mut base = plain(4, 4, [0, 0, 0, 255]);
    let patch = RenderedText { pixels: plain(4, 4, [255, 0, 0, 255]), x: 2, y: 2 };
    composite(&mut base, &vec![patch]);
    assert_eq!(base.get_pixel(3, 3), [255, 0, 0, 255]);
    assert_eq!(base.get_pixel(0, 0), [0, 0, 0, 255]);
    assert_eq!(base.get_pixel(1, 3), [0, 0, 0, 255]);
}

#[test]
fn a_patch_may_start_before_the_picture() {
    for (x, y) in [(-2, -1), (-4, 0), (0, -4), (4, 0), (i64::MIN, 0), (0, i64::MAX)] {
        let mut base = plain(3, 3, [1, 2, 3, 255]);
        let patch = RenderedText { pixels: plain(4, 4, [9, 9, 9, 255]), x, y };
        composite(&mut base, &vec![patch]);
        for py in 0..3i64 {
            for px in 0..3i64 {
                let inside = i128::from(px) >= i128::from(x)
                    && i128::from(px) < i128::from(x) + 4
                    && i128::from(py) >= i128::from(y)
                    && i128::from(py) < i128::from(y) + 4;
                let expected = if inside { [9, 9, 9, 255] } else { [1, 2, 3, 255] };
                assert_eq!(base.get_pixel(px as u32, py as u32), expected, "{x},{y}: {px},{py}");
            }
        }
    }
}

#[test]
fn later_patches_go_on_top() {
    let mut base = plain(2, 1, [0, 0, 0, 255]);
    let first = RenderedText { pixels: plain(2, 1, [10, 10, 10, 255]), x: 0, y: 0 };
    let second = RenderedText { pixels: plain(1, 1, [20, 20, 20, 255]), x: 1, y: 0 };
    composite(&mut base, &vec![first, second]);
    assert_eq!(base.rgba, [10, 10, 10, 255, 20, 20, 20, 255]);
}

/// The blend in single precision, step by step.
fn blended(src: [u8; 4], dst: [u8; 4]) -> [u8; 4] {
    let sa = f32::from(src[3]) / 255.0;
    let da = f32::from(dst[3]) / 255.0;
    let out_a = sa + da * (1.0 - sa);
    if out_a <= 0.0 {
        return [0, 0, 0, 0];
    }
    let mut out = [0u8; 4];
    for c in 0..3 {
        let s = f32::from(src[c]) / 255.0;
        let d = f32::from(dst[c]) / 255.0;
        out[c] = ((s * sa + d * da * (1.0 - sa)) / out_a * 255.0).round() as u8;
    }
    out[3] = (out_a * 255.0).round() as u8;
    out
}

#[test]
fn blending_rounds_as_single_precision_does() {
    let mut state: u32 = 12345;
    let mut next = || {
        state = state.wrapping_mul(1_664_525).wrapping_add(1_013_904_223);
        (state >> 24) as u8
    };
    for _ in 0..20_000 {
        let src = [next(), next(), next(), next()];
        let dst = [next(), next(), next(), next()];
        assert_eq!(over(src, dst), blended(src, dst), "{src:?} over {dst:?}");
    }
    for sa in [0u8, 1, 2, 127, 128, 254, 255] {
        for da in [0u8, 1, 2, 127, 128, 254, 255] {
            for s in [0u8, 1, 128, 255] {
                for d in [0u8, 1, 128, 255] {
                    let (src, dst) = ([s, d, s, sa], [d, s, s, da]);
                    assert_eq!(over(src, dst), blended(src, dst), "{src:?} over {dst:?}");
                }
            }
        }
    }
}
