//! Small versions of images, for the filmstrip.
//!
//! The whole point is to be cheap. Camera raw is the case that makes a naive
//! approach unusable: developing a frame takes seconds, and the strip may want
//! five of them at once. Every raw file already carries a small JPEG the camera
//! wrote, so that is used and the sensor data is never touched. Everything else
//! decodes normally and is shrunk afterwards.

use vstd::arithmetic::power2::{lemma_pow2_pos, pow2};
use vstd::prelude::*;

use crate::decoders::raster::is_decoded;
use crate::decoders::raw::{is_righted, is_sought, turn_for, Place, Search};
use crate::double::{
    below, full, less, nearest, nearest_double, scale_side, scaled_side, Double,
};
use crate::format::{format_for, Format};
use crate::loader::{decode, head_of, Failure, LoadedImage, Opened};
use crate::paths::{alike, components, part, FilePath};
use crate::picture::{
    blank_raster, lemma_build, lemma_index, lemma_next_pixel, push_pixel, turned, Picture, Raster,
};
use crate::playlist::{find, law_a_place_holds_its_path};

verus! {

/// The size that fits a longest edge: as it is where it fits, or else scaled
/// down, a pixel at least.
pub open spec fn fitted_size(width: nat, height: nat, max_edge: nat) -> (nat, nat) {
    let long = if width >= height { width } else { height };
    let longest = if long >= 1 { long } else { 1 };
    if longest <= max_edge {
        (if width >= 1 { width } else { 1 }, if height >= 1 { height } else { 1 })
    } else {
        let scale = nearest(max_edge, longest);
        (scaled_side(width, scale), scaled_side(height, scale))
    }
}

/// A ratio of whole numbers that is 1 or less.
fn share(n: u32, d: u32) -> (r: Double)
    requires
        0 < n,
        0 < d,
    ensures
        r@ == nearest(n as nat, d as nat),
        full() <= r.numerator <= 2 * full(),
        r.places <= 128,
        n <= d ==> r.numerator <= pow2(r.places as nat),
{
    let r = nearest_double(n as u128, d as u128);
    proof {
        if n <= d {
            let unit: nat = pow2(r.places as nat);
            lemma_pow2_pos(r.places as nat);
            crate::double::lemma_half_even_is_near((n * unit) as nat, d as nat);
            assert(r.numerator <= unit) by (nonlinear_arith)
                requires
                    2 * (r.numerator * d) <= 2 * (n * unit) + d,
                    n <= d,
                    d > 0,
                    unit >= 1,
            ;
        }
    }
    r
}

/// Works out the size that fits a longest edge.
pub fn fitted(width: u32, height: u32, max_edge: u32) -> (r: (u32, u32))
    ensures
        r.0 == fitted_size(width as nat, height as nat, max_edge as nat).0,
        r.1 == fitted_size(width as nat, height as nat, max_edge as nat).1,
        r.0 >= 1 && r.1 >= 1,
        r.0 <= width || r.0 == 1,
        r.1 <= height || r.1 == 1,
{
    let long: u32 = if width >= height { width } else { height };
    let longest: u32 = if long >= 1 { long } else { 1 };
    if longest <= max_edge {
        return (if width >= 1 { width } else { 1 }, if height >= 1 { height } else { 1 });
    }
    if max_edge == 0 {
        proof {
            crate::double::lemma_nothing_scales_to_one(width as nat, longest as nat);
            crate::double::lemma_nothing_scales_to_one(height as nat, longest as nat);
        }
        return (1, 1);
    }
    let scale = share(max_edge, longest);
    (scale_side(width, scale), scale_side(height, scale))
}

/// A fitted size has a pixel at least each way, and no side past the longest
/// edge that was asked for where that is a pixel or more.
pub proof fn law_fitted_sizes_fit(width: nat, height: nat, max_edge: nat)
    requires
        width <= u32::MAX,
        height <= u32::MAX,
        1 <= max_edge,
    ensures
        1 <= fitted_size(width, height, max_edge).0 <= max_edge,
        1 <= fitted_size(width, height, max_edge).1 <= max_edge,
{
    let long = if width >= height { width } else { height };
    let longest = if long >= 1 { long } else { 1 };
    if longest > max_edge {
        crate::double::lemma_scaled_side_fits(width, max_edge, longest);
        crate::double::lemma_scaled_side_fits(height, max_edge, longest);
    }
}

/// How many pixels to a block make a sum, with half of them for rounding, that four
/// bytes hold.
pub const MAX_BLOCK: u64 = 16_810_048;

/// The largest size of the same shape that fits a width and a height, to the
/// nearest pixel, a pixel at least each way.
pub open spec fn reduced(width: nat, height: nat, new_width: nat, new_height: nat) -> (nat, nat) {
    let across = nearest(new_width, width);
    let down = nearest(new_height, height);
    let ratio = if below(down, across) { down } else { across };
    (scaled_side(width, ratio), scaled_side(height, ratio))
}

/// How long the longest block along a side is where the side shrinks to another.
/// Where a block begins and ends is worked out in single precision. That is exact
/// enough while the two sides times each other stay below 2^24; past that it can be a
/// pixel off, and more on a very long side.
pub open spec fn block_side(side: nat, new_side: nat) -> nat {
    let near = (side + new_side - 1) / new_side as int;
    let long = if side * (new_side + 1) < 0x100_0000 {
        near
    } else {
        near + 1 + side as int / 0x20_0000
    };
    if long < side {
        long as nat
    } else {
        side
    }
}

/// How far a picture can be shrunk in one go: the sums that a block of its
/// pixels makes are held in four bytes.
pub open spec fn shrinkable(width: nat, height: nat, new_width: nat, new_height: nat) -> bool {
    &&& 0 < new_width <= width
    &&& 0 < new_height <= height
    &&& new_width * new_height * 4 <= isize::MAX
    &&& ({
        let (w, h) = reduced(width, height, new_width, new_height);
        block_side(width, w) * block_side(height, h) <= MAX_BLOCK
    })
}

/// Works out how long a block along a side can be.
fn longest_block(side: u32, new_side: u32) -> (r: u64)
    requires
        new_side > 0,
    ensures
        r == block_side(side as nat, new_side as nat),
        r <= side,
{
    let near: u64 = (side as u64 + new_side as u64 - 1) / new_side as u64;
    proof {
        assert(side * (new_side + 1) <= 0xFFFF_FFFF * 0x1_0000_0000) by (nonlinear_arith)
            requires
                0 <= side <= 0xFFFF_FFFF,
                0 <= new_side <= 0xFFFF_FFFF,
        ;
    }
    let long: u64 = if side as u64 * (new_side as u64 + 1) < 0x100_0000 {
        near
    } else {
        near + 1 + side as u64 / 0x20_0000
    };
    if long < side as u64 {
        long
    } else {
        side as u64
    }
}

/// Whether a picture can be shrunk in one go.
fn can_average(width: u32, height: u32, new_width: u32, new_height: u32) -> (r: bool)
    ensures
        r == shrinkable(width as nat, height as nat, new_width as nat, new_height as nat),
{
    if new_width == 0 || new_height == 0 || width < new_width || height < new_height {
        return false;
    }
    let across = share(new_width, width);
    let down = share(new_height, height);
    let ratio = if less(down, across) { down } else { across };
    let block_width: u64 = longest_block(width, scale_side(width, ratio));
    let block_height: u64 = longest_block(height, scale_side(height, ratio));
    proof {
        assert(block_width * block_height <= 0xFFFF_FFFF * 0xFFFF_FFFF) by (nonlinear_arith)
            requires
                0 <= block_width <= 0xFFFF_FFFF,
                0 <= block_height <= 0xFFFF_FFFF,
        ;
        assert(new_width * new_height <= 0xFFFF_FFFF * 0xFFFF_FFFF) by (nonlinear_arith)
            requires
                0 <= new_width <= 0xFFFF_FFFF,
                0 <= new_height <= 0xFFFF_FFFF,
        ;
    }
    new_width as u128 * new_height as u128 * 4 <= isize::MAX as u128 && block_width * block_height
        <= MAX_BLOCK
}

/// A raster averaged down to fit a width and a height.
pub uninterp spec fn thumbnail_of(
    width: u32,
    height: u32,
    rgba: Seq<u8>,
    new_width: u32,
    new_height: u32,
) -> (u32, u32, Seq<u8>);

/// `DynamicImage::thumbnail` scales to the largest size of the same shape that
/// fits, a pixel at least each way, by averaging blocks of pixels. It does so in
/// plain arithmetic, so the pixels depend on the arguments alone. The sums of a block
/// must fit in four bytes.
#[verifier::external_body]
fn thumbnail(image: &Picture, new_width: u32, new_height: u32) -> (r: Picture)
    requires
        image.wf(),
        shrinkable(image.width as nat, image.height as nat, new_width as nat, new_height as nat),
    ensures
        r.wf(),
        thumbnail_of(image.width, image.height, image.rgba@, new_width, new_height) == (
            r.width,
            r.height,
            r.rgba@,
        ),
        (r.width as nat, r.height as nat) == reduced(
            image.width as nat,
            image.height as nat,
            new_width as nat,
            new_height as nat,
        ),
        1 <= r.width <= new_width,
        1 <= r.height <= new_height,
{
    let buffer = image::RgbaImage::from_raw(image.width, image.height, image.rgba.clone()).unwrap();
    let small = image::DynamicImage::ImageRgba8(buffer).thumbnail(new_width, new_height);
    let rgba = small.into_rgba8();
    let (width, height) = rgba.dimensions();
    Picture { width, height, rgba: rgba.into_raw() }
}

/// A still without a label.
fn unlabelled(width: u32, height: u32, rgba: Vec<u8>, premultiplied: bool) -> (r: LoadedImage)
    ensures
        r.is_still(
            Raster { width: width as nat, height: height as nat, rgba: rgba@ },
            premultiplied,
            Seq::empty(),
        ),
{
    LoadedImage {
        width,
        height,
        rgba,
        premultiplied,
        label: String::new(),
        animation: Vec::new(),
    }
}

/// Nothing to see, at a given size.
pub fn blank(width: u32, height: u32, premultiplied: bool) -> (r: LoadedImage)
    requires
        width as nat * height as nat * 4 <= usize::MAX,
    ensures
        r.is_still(blank_raster(width as nat, height as nat), premultiplied, Seq::empty()),
{
    proof {
        assert(width as nat * height as nat <= usize::MAX) by (nonlinear_arith)
            requires
                width as nat * height as nat * 4 <= usize::MAX,
        ;
    }
    let count: usize = width as usize * height as usize * 4;
    let rgba: Vec<u8> = vec![0u8; count];
    proof {
        assert(rgba@ =~= blank_raster(width as nat, height as nat).rgba);
    }
    unlabelled(width, height, rgba, premultiplied)
}

/// The scale at which a picture fits a box, 1 where it fits as it is.
pub open spec fn box_scale(width: nat, height: nat, box_width: nat, box_height: nat) -> (nat, nat) {
    let across = nearest(box_width, if width >= 1 { width } else { 1 });
    let down = nearest(box_height, if height >= 1 { height } else { 1 });
    let both = if below(down, across) { down } else { across };
    if below(nearest(1, 1), both) {
        nearest(1, 1)
    } else {
        both
    }
}

/// The size at which a picture fits a box.
pub open spec fn box_size(width: nat, height: nat, box_width: nat, box_height: nat) -> (nat, nat) {
    let scale = box_scale(width, height, box_width, box_height);
    let w = scaled_side(width, scale);
    let h = scaled_side(height, scale);
    (if w > box_width { box_width } else { w }, if h > box_height { box_height } else { h })
}

/// Works out the size at which a picture fits a box.
pub fn fit_box(width: u32, height: u32, box_width: u32, box_height: u32) -> (r: (u32, u32))
    requires
        box_width >= 1,
        box_height >= 1,
    ensures
        r.0 == box_size(width as nat, height as nat, box_width as nat, box_height as nat).0,
        r.1 == box_size(width as nat, height as nat, box_width as nat, box_height as nat).1,
        1 <= r.0 <= box_width,
        1 <= r.1 <= box_height,
        r.0 <= width || r.0 == 1,
        r.1 <= height || r.1 == 1,
{
    let across = share(box_width, if width >= 1 { width } else { 1 });
    let down = share(box_height, if height >= 1 { height } else { 1 });
    let one = share(1, 1);
    let both = if less(down, across) { down } else { across };
    let scale = if less(one, both) { one } else { both };
    proof {
        let unit: nat = pow2(scale.places as nat);
        let top: nat = pow2(one.places as nat);
        lemma_pow2_pos(one.places as nat);
        assert(scale.numerator <= unit) by (nonlinear_arith)
            requires
                scale.numerator * top <= one.numerator * unit || scale == one,
                one.numerator <= top,
                scale == one ==> unit == top,
                top > 0,
        ;
    }
    let w: u32 = scale_side(width, scale);
    let h: u32 = scale_side(height, scale);
    (if w > box_width { box_width } else { w }, if h > box_height { box_height } else { h })
}

/// A raster in the middle of a transparent canvas.
pub open spec fn centred(small: Raster, width: nat, height: nat) -> Raster {
    let left = (width - small.width) / 2;
    let top = (height - small.height) / 2;
    Raster::build(
        width,
        height,
        |x: int, y: int, c: int|
            if left <= x < left + small.width && top <= y < top + small.height {
                small.channel(x - left, y - top, c)
            } else {
                0
            },
    )
}

/// Puts a picture in the middle of a transparent canvas.
fn centre(small: &Picture, width: u32, height: u32) -> (r: Vec<u8>)
    requires
        small.wf(),
        small.width <= width,
        small.height <= height,
    ensures
        r@ == centred(small@, width as nat, height as nat).rgba,
        centred(small@, width as nat, height as nat).wf(),
{
    let left: u32 = (width - small.width) / 2;
    let top: u32 = (height - small.height) / 2;
    let ghost goal = centred(small@, width as nat, height as nat);
    proof {
        lemma_centred(small@, width as nat, height as nat);
    }
    let clear: Vec<u8> = vec![0, 0, 0, 0];
    let mut rgba: Vec<u8> = Vec::new();
    let mut y: u32 = 0;
    while y < height
        invariant
            small.wf(),
            small.width <= width,
            small.height <= height,
            left == (width - small.width) / 2,
            top == (height - small.height) / 2,
            y <= height,
            goal == centred(small@, width as nat, height as nat),
            goal.wf(),
            goal.width == width,
            goal.height == height,
            clear@ == seq![0u8, 0, 0, 0],
            rgba@ == goal.rgba.subrange(0, y * width * 4),
            y * width * 4 <= goal.rgba.len(),
        decreases height - y,
    {
        let mut x: u32 = 0;
        proof {
            assert((y * width + 0) * 4 == y * width * 4);
        }
        while x < width
            invariant
                small.wf(),
                small.width <= width,
                small.height <= height,
                left == (width - small.width) / 2,
                top == (height - small.height) / 2,
                x <= width,
                y < height,
                goal == centred(small@, width as nat, height as nat),
                goal.wf(),
                goal.width == width,
                goal.height == height,
                clear@ == seq![0u8, 0, 0, 0],
                rgba@ == goal.rgba.subrange(0, (y * width + x) * 4),
                0 <= (y * width + x) * 4 <= goal.rgba.len(),
            decreases width - x,
        {
            proof {
                lemma_centred(small@, width as nat, height as nat);
            }
            if left <= x && x - left < small.width && top <= y && y - top < small.height {
                let at: usize = small.offset(x - left, y - top);
                proof {
                    lemma_next_pixel(goal, small.rgba@, at as int, x as int, y as int);
                }
                push_pixel(&mut rgba, &small.rgba, at);
            } else {
                proof {
                    lemma_next_pixel(goal, clear@, 0, x as int, y as int);
                }
                push_pixel(&mut rgba, &clear, 0);
            }
            x = x + 1;
        }
        y = y + 1;
        proof {
            assert((y - 1) * width + width == y * width) by (nonlinear_arith);
        }
    }
    proof {
        assert(height * width == width * height) by (nonlinear_arith);
        assert(rgba@ =~= goal.rgba);
    }
    rgba
}

/// The channels of a canvas are those of the raster in its middle, or zero.
proof fn lemma_centred(small: Raster, width: nat, height: nat)
    ensures
        centred(small, width, height).wf(),
        ({
            let left = (width - small.width) / 2;
            let top = (height - small.height) / 2;
            forall|x: int, y: int, c: int|
                0 <= x < width && 0 <= y < height && 0 <= c < 4 ==> #[trigger] centred(
                    small,
                    width,
                    height,
                ).channel(x, y, c) == (if left <= x < left + small.width && top <= y < top
                    + small.height {
                    small.channel(x - left, y - top, c)
                } else {
                    0
                })
        }),
{
    let left = (width - small.width) / 2;
    let top = (height - small.height) / 2;
    lemma_build(
        width,
        height,
        |x: int, y: int, c: int|
            if left <= x < left + small.width && top <= y < top + small.height {
                small.channel(x - left, y - top, c)
            } else {
                0
            },
    );
}

/// Whether an image has all the pixels that its size says, and any at all.
pub open spec fn has_pixels(image: Raster) -> bool {
    &&& image.width > 0
    &&& image.height > 0
    &&& image.rgba.len() >= image.width * image.height * 4
}

/// The pixels of an image that its size speaks of.
pub open spec fn pixels(image: Raster) -> Seq<u8> {
    image.rgba.subrange(0, (image.width * image.height * 4) as int)
}

/// The raster that averaging an image down gives.
pub open spec fn shrunk_raster(image: Raster, width: nat, height: nat) -> Raster {
    let (w, h, rgba) = thumbnail_of(
        image.width as u32,
        image.height as u32,
        pixels(image),
        width as u32,
        height as u32,
    );
    Raster { width: w as nat, height: h as nat, rgba }
}

/// Averages an image down to fit a width and a height.
fn shrink_to(image: &LoadedImage, width: u32, height: u32) -> (r: Picture)
    requires
        has_pixels(image.raster()),
        shrinkable(image.width as nat, image.height as nat, width as nat, height as nat),
    ensures
        r.wf(),
        r@ == shrunk_raster(image.raster(), width as nat, height as nat),
        1 <= r.width <= width,
        1 <= r.height <= height,
{
    proof {
        assert(image.rgba.len() <= usize::MAX);
        assert(image.width as nat * image.height as nat <= usize::MAX) by (nonlinear_arith)
            requires
                image.width as nat * image.height as nat * 4 <= usize::MAX,
        ;
        assert(0 <= image.width * image.height) by (nonlinear_arith)
            requires
                image.width >= 0,
                image.height >= 0,
        ;
    }
    let count: usize = image.width as usize * image.height as usize * 4;
    let whole = Picture {
        width: image.width,
        height: image.height,
        rgba: part(&image.rgba, 0, count),
    };
    thumbnail(&whole, width, height)
}

/// What an image comes to in a box: averaged down to fit it, in the middle of
/// a transparent canvas. An image without pixels leaves the canvas empty.
pub open spec fn boxed(image: Raster, width: nat, height: nat) -> Raster {
    if has_pixels(image) {
        let (w, h) = box_size(image.width, image.height, width, height);
        centred(shrunk_raster(image, w, h), width, height)
    } else {
        blank_raster(width, height)
    }
}

/// Whether an image can be averaged down into a box in one go.
pub open spec fn boxable(image: Raster, width: nat, height: nat) -> bool {
    has_pixels(image) ==> ({
        let (w, h) = box_size(image.width, image.height, width, height);
        shrinkable(image.width, image.height, w, h)
    })
}

/// Whether an image's data is as long as its size says, and its size not nothing.
fn check_pixels(image: &LoadedImage) -> (r: bool)
    ensures
        r == has_pixels(image.raster()),
{
    proof {
        assert(image.width * image.height <= 0xFFFF_FFFF * 0xFFFF_FFFF) by (nonlinear_arith)
            requires
                0 <= image.width <= 0xFFFF_FFFF,
                0 <= image.height <= 0xFFFF_FFFF,
        ;
    }
    let needed: u128 = image.width as u128 * image.height as u128 * 4;
    image.width > 0 && image.height > 0 && image.rgba.len() as u128 >= needed
}

/// Centre the shrunk image on a fixed transparent canvas.
pub fn letterbox(image: LoadedImage, width: u32, height: u32) -> (r: LoadedImage)
    requires
        width >= 1,
        height >= 1,
        width as nat * height as nat * 4 <= usize::MAX,
        boxable(image.raster(), width as nat, height as nat),
    ensures
        r.is_still(boxed(image.raster(), width as nat, height as nat), image.premultiplied, Seq::empty()),
        r.width == width,
        r.height == height,
        r.raster().wf(),
{
    if !check_pixels(&image) {
        return blank(width, height, image.premultiplied);
    }
    let (w, h) = fit_box(image.width, image.height, width, height);
    let small = shrink_to(&image, w, h);
    let rgba = centre(&small, width, height);
    unlabelled(width, height, rgba, image.premultiplied)
}

/// Whether an image is under a longest edge as it is.
pub open spec fn fits_edge(image: Raster, max_edge: nat) -> bool {
    fitted_size(image.width, image.height, max_edge) == (
        image.width,
        image.height,
    )
}

/// What an image comes to under a longest edge: itself where it fits, or else
/// averaged down; one transparent pixel where it has none.
pub open spec fn shrunk_to(image: Raster, max_edge: nat) -> Raster {
    let (w, h) = fitted_size(image.width, image.height, max_edge);
    if fits_edge(image, max_edge) {
        image
    } else if !has_pixels(image) {
        blank_raster(1, 1)
    } else {
        shrunk_raster(image, w, h)
    }
}

/// Whether an image can be brought under a longest edge in one go.
pub open spec fn edgeable(image: Raster, max_edge: nat) -> bool {
    fits_edge(image, max_edge) || !has_pixels(image) || shrinkable_to(
        image.width,
        image.height,
        max_edge,
    )
}

/// Whether a picture of a size can be averaged down under a longest edge in one go.
pub open spec fn shrinkable_to(width: nat, height: nat, max_edge: nat) -> bool {
    let (w, h) = fitted_size(width, height, max_edge);
    shrinkable(width, height, w, h)
}

/// Shrinks an image under a longest edge. Shrinking preserves whichever alpha
/// convention came in.
pub fn shrink(image: LoadedImage, max_edge: u32) -> (r: LoadedImage)
    requires
        edgeable(image.raster(), max_edge as nat),
    ensures
        fits_edge(image.raster(), max_edge as nat) ==> r == image,
        !fits_edge(image.raster(), max_edge as nat) ==> r.is_still(
            shrunk_to(image.raster(), max_edge as nat),
            image.premultiplied,
            Seq::empty(),
        ),
        r.raster() == shrunk_to(image.raster(), max_edge as nat),
        max_edge >= 1 ==> r.width <= max_edge && r.height <= max_edge,
        r.premultiplied == image.premultiplied,
{
    let (w, h) = fitted(image.width, image.height, max_edge);
    proof {
        if max_edge >= 1 {
            law_fitted_sizes_fit(image.width as nat, image.height as nat, max_edge as nat);
        }
    }
    if w == image.width && h == image.height {
        return image;
    }
    if !check_pixels(&image) {
        return blank(1, 1, image.premultiplied);
    }
    let small = shrink_to(&image, w, h);
    unlabelled(small.width, small.height, small.rgba, image.premultiplied)
}

/// Whether an image can be averaged down under a longest edge in one go.
pub fn can_shrink(width: u32, height: u32, max_edge: u32) -> (r: bool)
    ensures
        r == shrinkable_to(width as nat, height as nat, max_edge as nat),
{
    let (w, h) = fitted(width, height, max_edge);
    can_average(width, height, w, h)
}

/// Shrinks what a camera embedded under a longest edge, averaging even where it
/// fits as it is.
pub fn shrink_dynamic(picture: &Picture, max_edge: u32) -> (r: LoadedImage)
    requires
        picture.wf(),
        has_pixels(picture@) ==> shrinkable_to(picture@.width, picture@.height, max_edge as nat),
    ensures
        r.is_still(averaged_to(picture@, max_edge as nat), false, Seq::empty()),
        r.raster().wf(),
        max_edge >= 1 ==> r.width <= max_edge && r.height <= max_edge,
{
    if picture.width == 0 || picture.height == 0 {
        return blank(1, 1, false);
    }
    let (w, h) = fitted(picture.width, picture.height, max_edge);
    let small = thumbnail(picture, w, h);
    proof {
        if max_edge >= 1 {
            law_fitted_sizes_fit(picture.width as nat, picture.height as nat, max_edge as nat);
        }
        assert(picture.rgba@.subrange(0, (picture@.width * picture@.height * 4) as int)
            =~= picture.rgba@);
    }
    unlabelled(small.width, small.height, small.rgba, false)
}

/// What a picture averages down to under a longest edge; one transparent pixel where
/// it has none.
pub open spec fn averaged_to(image: Raster, max_edge: nat) -> Raster {
    let (w, h) = fitted_size(image.width, image.height, max_edge);
    if has_pixels(image) {
        shrunk_raster(image, w, h)
    } else {
        blank_raster(1, 1)
    }
}

/// The longer side of a box.
pub open spec fn longer(width: nat, height: nat) -> nat {
    if width >= height {
        width
    } else {
        height
    }
}

/// A box whose pixels fit in memory.
pub open spec fn is_box(width: nat, height: nat) -> bool {
    1 <= width && 1 <= height && width * height * 4 <= isize::MAX
}

/// A picture in a box is no longer than it was, either way.
proof fn lemma_boxes_do_not_enlarge(width: nat, height: nat, box_width: nat, box_height: nat)
    requires
        0 < width <= u32::MAX,
        0 < height <= u32::MAX,
        0 < box_width,
        0 < box_height,
    ensures
        1 <= box_size(width, height, box_width, box_height).0 <= width,
        1 <= box_size(width, height, box_width, box_height).1 <= height,
{
    let scale = box_scale(width, height, box_width, box_height);
    let one = nearest(1, 1);
    let (unit, top) = (pow2(scale.1), pow2(one.1));
    lemma_pow2_pos(scale.1);
    lemma_pow2_pos(one.1);
    lemma_positive(1, 1);
    lemma_positive(box_width, width);
    lemma_positive(box_height, height);
    crate::double::lemma_half_even_is_near((1 * top) as nat, 1);
    assert(one.0 <= top);
    assert(scale.0 <= unit) by (nonlinear_arith)
        requires
            scale.0 * top <= one.0 * unit || scale == one,
            one.0 <= top,
            scale == one ==> unit == top,
            top > 0,
    ;
    crate::double::lemma_scaled_side_is_no_longer(width, scale);
    crate::double::lemma_scaled_side_is_no_longer(height, scale);
}

/// The double nearest to a positive ratio is positive.
proof fn lemma_positive(n: nat, d: nat)
    requires
        n > 0,
        d > 0,
    ensures
        nearest(n, d).0 > 0,
{
    let unit = pow2(nearest(n, d).1);
    crate::double::lemma_places_reached(n, d);
    crate::double::lemma_half_even_is_near(n * unit, d);
    assert(nearest(n, d).0 > 0) by (nonlinear_arith)
        requires
            2 * (n * unit) <= 2 * (nearest(n, d).0 * d) + d,
            n * unit >= d * full(),
            d > 0,
            full() == 0x10_0000_0000_0000,
    ;
}

/// An image that was brought under the longer side of a box of up to 4096 pixels
/// can always be averaged down into it.
pub proof fn law_ordinary_boxes_are_filled(image: Raster, width: nat, height: nat)
    requires
        1 <= width <= 4096,
        1 <= height <= 4096,
        image.width <= longer(width, height),
        image.height <= longer(width, height),
    ensures
        boxable(image, width, height),
{
    let (w, h) = box_size(image.width, image.height, width, height);
    assert(w >= 1 && h >= 1);
    if has_pixels(image) {
        lemma_boxes_do_not_enlarge(image.width, image.height, width, height);
        let (least, low) = reduced(image.width, image.height, w, h);
        let across = block_side(image.width, least);
        let down = block_side(image.height, low);
        assert(across * down <= 4096 * 4096) by (nonlinear_arith)
            requires
                0 <= across <= 4096,
                0 <= down <= 4096,
        ;
        assert(w * h <= 4096 * 4096) by (nonlinear_arith)
            requires
                0 <= w <= 4096,
                0 <= h <= 4096,
        ;
    }
}

/// Looks whether an image can be averaged down into a box in one go.
fn can_box(image: &LoadedImage, width: u32, height: u32) -> (r: bool)
    requires
        width >= 1,
        height >= 1,
    ensures
        r == boxable(image.raster(), width as nat, height as nat),
{
    if !check_pixels(image) {
        return true;
    }
    let (w, h) = fit_box(image.width, image.height, width, height);
    can_average(image.width, image.height, w, h)
}

/// What asking for the small version of a file comes to.
pub enum Thumbnail {
    /// Here it is.
    Made(LoadedImage),
    /// The file does not decode.
    Failed(Failure),
    /// The file has to be decoded elsewhere first.
    Decode(Opened),
    /// A camera raw, to be searched for the smallest image that the camera embedded.
    Embedded,
    /// The image is too large by far to be averaged down in one go.
    Vast,
}

/// Whether a thumbnail was made of a decoded image.
pub open spec fn is_small_of(image: LoadedImage, made: LoadedImage, width: nat, height: nat) -> bool {
    made.is_still(
        boxed(shrunk_to(image.raster(), longer(width, height)), width, height),
        image.premultiplied,
        Seq::empty(),
    )
}

/// Whether a thumbnail was made of what a camera embedded.
pub open spec fn is_small_embedded(embedded: Raster, made: LoadedImage, width: nat, height: nat) -> bool {
    made.is_still(
        boxed(averaged_to(embedded, longer(width, height)), width, height),
        false,
        Seq::empty(),
    )
}

/// Whether a decoded image can be brought into a box in two goes: under its longer
/// side first.
pub open spec fn is_manageable(image: Raster, width: nat, height: nat) -> bool {
    edgeable(image, longer(width, height)) && boxable(
        shrunk_to(image, longer(width, height)),
        width,
        height,
    )
}

/// Makes the small version of an image: exactly `width` by `height`,
/// letterboxed on a transparent background.
///
/// Uniform size is the point: a view takes its natural width from the image, so
/// thumbnails of different shapes would claim different amounts of room and the
/// strip would come out ragged.
pub fn small_of(image: LoadedImage, width: u32, height: u32) -> (r: Thumbnail)
    requires
        is_box(width as nat, height as nat),
    ensures
        if is_manageable(image.raster(), width as nat, height as nat) {
            r matches Thumbnail::Made(small) && is_small_of(
                image,
                small,
                width as nat,
                height as nat,
            )
        } else {
            r is Vast
        },
        r matches Thumbnail::Made(small) ==> small.width == width && small.height == height
            && small.raster().wf(),
{
    let max_edge: u32 = if width >= height { width } else { height };
    let (w, h) = fitted(image.width, image.height, max_edge);
    let fits = w == image.width && h == image.height;
    if !fits && check_pixels(&image) && !can_shrink(image.width, image.height, max_edge) {
        return Thumbnail::Vast;
    }
    let shrunk = shrink(image, max_edge);
    if !can_box(&shrunk, width, height) {
        return Thumbnail::Vast;
    }
    Thumbnail::Made(letterbox(shrunk, width, height))
}

/// Makes the small version of what a camera embedded.
pub fn small_embedded(picture: &Picture, width: u32, height: u32) -> (r: Thumbnail)
    requires
        is_box(width as nat, height as nat),
        picture.wf(),
    ensures
        if (has_pixels(picture@) ==> shrinkable_to(
            picture@.width,
            picture@.height,
            longer(width as nat, height as nat),
        )) && boxable(
            averaged_to(picture@, longer(width as nat, height as nat)),
            width as nat,
            height as nat,
        ) {
            r matches Thumbnail::Made(small) && is_small_embedded(
                picture@,
                small,
                width as nat,
                height as nat,
            )
        } else {
            r is Vast
        },
        r matches Thumbnail::Made(small) ==> small.width == width && small.height == height
            && small.raster().wf(),
{
    let max_edge: u32 = if width >= height { width } else { height };
    if picture.width > 0 && picture.height > 0 && !can_shrink(
        picture.width,
        picture.height,
        max_edge,
    ) {
        return Thumbnail::Vast;
    }
    let shrunk = shrink_dynamic(picture, max_edge);
    if !can_box(&shrunk, width, height) {
        return Thumbnail::Vast;
    }
    Thumbnail::Made(letterbox(shrunk, width, height))
}

/// The smallest image the camera embedded, where the search for it found one.
pub fn raw_embedded(search: Search) -> (r: Option<Picture>)
    requires
        search.wf(),
    ensures
        match search {
            Search::Found(_, picture) => r == Some(picture),
            _ => r is None,
        },
        r matches Some(picture) ==> picture.wf(),
{
    match search {
        Search::Found(_, picture) => Some(picture),
        _ => None,
    }
}

/// A search for a thumbnail prefers it over the larger preview, and finds it the
/// right way up; where there is neither, it finds nothing.
pub proof fn law_the_smallest_image_is_found(
    thumbnail: Option<Picture>,
    preview: Option<Picture>,
    orientation: Option<u16>,
    first: Search,
    second: Search,
    last: Search,
)
    requires
        is_sought(Search::Seek(Place::Thumbnail), thumbnail, first),
        is_sought(first, preview, second),
        is_righted(second, orientation, last),
    ensures
        match (thumbnail, preview) {
            (Some(picture), _) => last matches Search::Found(_, found) && found@ == turned(
                picture@,
                turn_for(orientation),
            ),
            (None, Some(picture)) => last matches Search::Found(_, found) && found@ == turned(
                picture@,
                turn_for(orientation),
            ),
            (None, None) => last is Nothing,
        },
{
}

/// Whether this is what the small version of a picture file comes to.
pub open spec fn is_raster_thumbnail(
    path: Seq<u8>,
    bytes: Seq<u8>,
    made: Thumbnail,
    width: nat,
    height: nat,
) -> bool {
    match made {
        Thumbnail::Made(small) => exists|image: LoadedImage| #[trigger]
            is_decoded(path, bytes, Ok(image)) && is_small_of(image, small, width, height),
        Thumbnail::Vast => exists|image: LoadedImage| #[trigger]
            is_decoded(path, bytes, Ok(image)) && !is_manageable(image.raster(), width, height),
        Thumbnail::Failed(failure) => is_decoded(path, bytes, Err(failure)),
        Thumbnail::Decode(_) => false,
        Thumbnail::Embedded => false,
    }
}

/// Makes the small version of a file, as far as its bytes alone allow.
pub fn generate(path: &FilePath, bytes: &Vec<u8>, width: u32, height: u32) -> (r: Thumbnail)
    requires
        is_box(width as nat, height as nat),
    ensures
        match format_for(path@, head_of(bytes@)) {
            Format::Raw => r is Embedded,
            Format::Raster => is_raster_thumbnail(path@, bytes@, r, width as nat, height as nat),
            Format::Heif { avif } => r == Thumbnail::Decode(Opened::Heif { avif }),
            Format::Svg => r == Thumbnail::Decode(Opened::Drawing),
        },
        r matches Thumbnail::Made(small) ==> small.width == width && small.height == height
            && small.raster().wf(),
{
    match decode(path, bytes) {
        Opened::Decoded(result) => match result {
            Ok(image) => {
                let ghost result: Result<LoadedImage, Failure> = Ok(image);
                proof {
                    assert(is_decoded(path@, bytes@, result));
                }
                small_of(image, width, height)
            },
            Err(failure) => Thumbnail::Failed(failure),
        },
        Opened::Raw => Thumbnail::Embedded,
        opened => Thumbnail::Decode(opened),
    }
}

/// The thumbnails being made, so that a slot that reappears does not ask for the
/// same decode twice.
pub struct Pending {
    paths: Vec<FilePath>,
}

impl View for Pending {
    type V = Set<(bool, Seq<Seq<u8>>)>;

    closed spec fn view(&self) -> Set<(bool, Seq<Seq<u8>>)> {
        Set::new(
            |path: (bool, Seq<Seq<u8>>)|
                exists|i: int| 0 <= i < self.paths@.len() && components((#[trigger] self.paths@[i])@) == path,
        )
    }
}

impl Pending {
    /// No thumbnail is being made.
    pub fn new() -> (r: Pending)
        ensures
            r@ == Set::<(bool, Seq<Seq<u8>>)>::empty(),
    {
        let r = Pending { paths: Vec::new() };
        proof {
            assert(r@ =~= Set::<(bool, Seq<Seq<u8>>)>::empty());
        }
        r
    }

    /// Notes that a thumbnail is wanted. Says whether it has to be made: it has
    /// not, where it is being made already.
    pub fn request(&mut self, path: &FilePath) -> (r: bool)
        ensures
            r == !old(self)@.contains(components(path@)),
            final(self)@ == old(self)@.insert(components(path@)),
    {
        match find(&self.paths, path) {
            Some(_) => {
                proof {
                    law_a_place_holds_its_path(self.paths@, path@);
                    assert(self@ =~= old(self)@.insert(components(path@)));
                }
                false
            },
            None => {
                proof {
                    law_a_place_holds_its_path(self.paths@, path@);
                }
                self.paths.push(path.copy());
                proof {
                    let before = old(self).paths@;
                    assert(self.paths@[before.len() as int]@ == path@);
                    assert forall|p: (bool, Seq<Seq<u8>>)| old(self)@.contains(p) implies self@.contains(p) by {
                        let i = choose|i: int| 0 <= i < before.len() && components((#[trigger] before[i])@) == p;
                        assert(self.paths@[i] == before[i]);
                    }
                    assert forall|p: (bool, Seq<Seq<u8>>)| self@.contains(p) implies old(self)@.contains(p) || p
                        == components(path@) by {
                        let i = choose|i: int|
                            0 <= i < self.paths@.len() && components((#[trigger] self.paths@[i])@) == p;
                        if i < before.len() {
                            assert(components(before[i]@) == p);
                        }
                    }
                    assert(self@ =~= old(self)@.insert(components(path@)));
                }
                true
            },
        }
    }

    /// Notes that a thumbnail has been made, or has failed to be.
    pub fn done(&mut self, path: &FilePath)
        ensures
            final(self)@ == old(self)@.remove(components(path@)),
    {
        let mut kept: Vec<FilePath> = Vec::new();
        let mut at: usize = 0;
        while at < self.paths.len()
            invariant
                at <= self.paths@.len(),
                self.paths@ == old(self).paths@,
                forall|k: int|
                    0 <= k < kept@.len() ==> !alike((#[trigger] kept@[k])@, path@) && old(self)@.contains(
                        components(kept@[k]@),
                    ),
                forall|i: int|
                    0 <= i < at && !alike((#[trigger] self.paths@[i])@, path@) ==> exists|k: int|
                        0 <= k < kept@.len() && #[trigger] kept@[k]@ == self.paths@[i]@,
            decreases self.paths@.len() - at,
        {
            let ghost before = kept@;
            if !self.paths[at].same(path) {
                kept.push(self.paths[at].copy());
                proof {
                    assert(old(self)@.contains(components(self.paths@[at as int]@)));
                    assert(kept@[before.len() as int]@ == self.paths@[at as int]@);
                }
            }
            proof {
                assert forall|i: int|
                    0 <= i < at + 1 && !alike((#[trigger] self.paths@[i])@, path@) implies exists|k: int|
                    0 <= k < kept@.len() && #[trigger] kept@[k]@ == self.paths@[i]@ by {
                    if i < at {
                        let k = choose|k: int|
                            0 <= k < before.len() && #[trigger] before[k]@ == self.paths@[i]@;
                        assert(kept@[k] == before[k]);
                    } else {
                        assert(kept@[before.len() as int]@ == self.paths@[i]@);
                    }
                }
            }
            at = at + 1;
        }
        let ghost all = self.paths@;
        self.paths = kept;
        proof {
            assert forall|p: (bool, Seq<Seq<u8>>)| self@.contains(p) == old(self)@.remove(components(path@)).contains(p) by {
                if old(self)@.contains(p) && p != components(path@) {
                    let i = choose|i: int| 0 <= i < all.len() && components((#[trigger] all[i])@) == p;
                    let k = choose|k: int| 0 <= k < kept@.len() && #[trigger] kept@[k]@ == all[i]@;
                    assert(components(self.paths@[k]@) == p);
                }
                if self@.contains(p) {
                    let k = choose|k: int| 0 <= k < kept@.len() && components((#[trigger] kept@[k])@) == p;
                    assert(!alike(kept@[k]@, path@));
                }
            }
            assert(self@ =~= old(self)@.remove(components(path@)));
        }
    }
}

/// A small image stands in the middle of its box, pixel for pixel, with as much room on
/// one side of it as on the other, the odd pixel to the right and below, and there is
/// nothing round it.
pub proof fn law_a_small_image_stands_in_the_middle(
    small: Raster,
    width: nat,
    height: nat,
    left: int,
    top: int,
    x: int,
    y: int,
    c: int,
)
    requires
        small.width <= width,
        small.height <= height,
        0 <= width - small.width - 2 * left <= 1,
        0 <= height - small.height - 2 * top <= 1,
        0 <= x < width,
        0 <= y < height,
        0 <= c < 4,
    ensures
        centred(small, width, height).width == width,
        centred(small, width, height).height == height,
        left <= x < left + small.width && top <= y < top + small.height ==> centred(
            small,
            width,
            height,
        ).channel(x, y, c) == small.channel(x - left, y - top, c),
        x < left || x >= left + small.width || y < top || y >= top + small.height ==> centred(
            small,
            width,
            height,
        ).channel(x, y, c) == 0,
{
    assert(left == (width - small.width) / 2 && top == (height - small.height) / 2);
    let f = |x: int, y: int, c: int|
        if left <= x < left + small.width && top <= y < top + small.height {
            small.channel(x - left, y - top, c)
        } else {
            0u8
        };
    lemma_build(width, height, f);
}

/// A picture that fits its edge is left as it is, and a box is always as large as was
/// asked for, clear all over where there are no pixels to show.
pub proof fn law_a_box_has_the_size_asked_for(
    image: Raster,
    width: nat,
    height: nat,
    edge: nat,
    x: int,
    y: int,
    c: int,
)
    requires
        0 <= x < width,
        0 <= y < height,
        0 <= c < 4,
    ensures
        boxed(image, width, height).width == width,
        boxed(image, width, height).height == height,
        image.width == 0 || image.height == 0 || image.rgba.len() < image.width * image.height * 4
            ==> boxed(image, width, height).channel(x, y, c) == 0,
        1 <= image.width <= edge && 1 <= image.height <= edge ==> shrunk_to(image, edge) == image,
{
    lemma_index(x, y, c, width as int, height as int);
}

} // verus!
