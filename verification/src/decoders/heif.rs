//! HEIC/HEIF and AVIF.
//!
//! The codec applies the container's own rotation, crop and mirror, so unlike
//! the raster path there is no orientation step to do by hand.

use vstd::arithmetic::div_mod::lemma_fundamental_div_mod_converse;
use vstd::prelude::*;

use crate::colour::{honour, in_srgb, profile_bytes};
use crate::loader::{unsupported, unsupported_text, Failure, LoadedImage};
use crate::paths::FilePath;
use crate::picture::{lemma_index, Raster};

verus! {

/// An interleaved RGBA plane as the codec hands it out: rows `stride` bytes
/// apart, which is usually wider than the image.
pub struct Plane {
    pub width: u32,
    pub height: u32,
    pub stride: usize,
    pub data: Vec<u8>,
}

impl Plane {
    /// Whether the data reaches to the end of the last row.
    pub open spec fn complete(self) -> bool {
        self.height > 0 ==> (self.height - 1) * self.stride + self.width * 4 <= self.data@.len()
    }

    /// The image in the plane, the padding between the rows left out.
    pub open spec fn image(self) -> Raster {
        Raster {
            width: self.width as nat,
            height: self.height as nat,
            rgba: Seq::new(
                self.width as nat * self.height as nat * 4,
                |i: int| self.data@[(i / (self.width * 4)) * self.stride + i % (self.width * 4)],
            ),
        }
    }

    /// Copies the image out row by row, which drops the padding. `None` for a
    /// plane that is shorter than its size says.
    pub fn rows(&self) -> (r: Option<Vec<u8>>)
        ensures
            match r {
                Some(rgba) => self.complete() && rgba@ == self.image().rgba,
                None => !self.complete(),
            },
    {
        let row: u64 = self.width as u64 * 4;
        let mut rgba: Vec<u8> = Vec::new();
        let mut y: u32 = 0;
        let ghost goal = self.image().rgba;
        let total: u128 = self.data.len() as u128;
        while y < self.height
            invariant
                y <= self.height,
                row == self.width * 4,
                goal == self.image().rgba,
                total == self.data@.len(),
                total <= usize::MAX,
                rgba@ == goal.subrange(0, y * row),
                y * row <= goal.len(),
                y > 0 ==> (y - 1) * self.stride + row <= self.data@.len(),
            decreases self.height - y,
        {
            proof {
                assert(y * self.stride <= 0xFFFF_FFFF * 0xFFFF_FFFF_FFFF_FFFF) by (nonlinear_arith)
                    requires
                        0 <= y <= 0xFFFF_FFFF,
                        0 <= self.stride <= 0xFFFF_FFFF_FFFF_FFFF,
                ;
                assert((y + 1) * row <= self.height * row && self.height * row == goal.len())
                    by (nonlinear_arith)
                    requires
                        y + 1 <= self.height,
                        row == self.width * 4,
                        goal.len() == self.width as nat * self.height as nat * 4,
                ;
                assert((y + 1) * row == y * row + row) by (nonlinear_arith);
            }
            let start: u128 = y as u128 * self.stride as u128;
            if start + row as u128 > total {
                proof {
                    assert((self.height - 1) * self.stride >= y * self.stride) by (nonlinear_arith)
                        requires
                            self.height - 1 >= y,
                            self.stride >= 0,
                    ;
                }
                return None;
            }
            let from: usize = start as usize;
            let mut x: u64 = 0;
            while x < row
                invariant
                    x <= row,
                    y < self.height,
                    row == self.width * 4,
                    goal == self.image().rgba,
                    from == y * self.stride,
                    from + row <= self.data@.len() == total,
                    total <= usize::MAX,
                    rgba@ == goal.subrange(0, y * row + x),
                    0 <= y * row,
                    y * row + row <= goal.len(),
                decreases row - x,
            {
                proof {
                    let i: int = y * row + x;
                    lemma_fundamental_div_mod_converse(i, row as int, y as int, x as int);
                    assert(goal[i] == self.data@[from + x]);
                }
                rgba.push(self.data[from + x as usize]);
                x = x + 1;
                proof {
                    assert(rgba@ =~= goal.subrange(0, y * row + x));
                }
            }
            y = y + 1;
        }
        proof {
            assert(self.height * row == goal.len()) by (nonlinear_arith)
                requires
                    row == self.width * 4,
                    goal.len() == self.width as nat * self.height as nat * 4,
            ;
            assert(rgba@ =~= goal);
        }
        Some(rgba)
    }
}

/// What an image of this family is called in the header bar. More than eight
/// bits to a channel means that the source carries more range than is shown,
/// which is worth saying out loud.
pub open spec fn heif_label(avif: bool, bits: int) -> Seq<char> {
    let container = if avif { "AVIF"@ } else { "HEIF"@ };
    if bits > 8 {
        container + " · 10-bit"@
    } else {
        container
    }
}

/// Names an image of this family for the header bar.
pub fn label_for(avif: bool, bits: u8) -> (r: String)
    ensures
        r@ == heif_label(avif, bits as int),
{
    let mut text = (if avif { "AVIF" } else { "HEIF" }).to_owned();
    if bits > 8 {
        text.append(" · 10-bit");
    }
    text
}

/// What a channel is without its alpha in it, to the nearest whole. Where alpha is
/// nothing there is no colour to find.
pub open spec fn straight(channel: u8, alpha: u8) -> u8 {
    if alpha == 0 {
        0
    } else {
        let full = (channel * 255 + alpha as int / 2) / alpha as int;
        if full > 255 {
            255
        } else {
            full as u8
        }
    }
}

/// Pixels with their alpha taken out of their colours.
pub open spec fn straightened(rgba: Seq<u8>) -> Seq<u8> {
    Seq::new(
        rgba.len(),
        |i: int|
            if i % 4 == 3 {
                rgba[i]
            } else {
                straight(rgba[i], rgba[i - i % 4 + 3])
            },
    )
}

/// Takes the alpha out of one channel.
fn straighten_channel(channel: u8, alpha: u8) -> (r: u8)
    ensures
        r == straight(channel, alpha),
{
    if alpha == 0 {
        return 0;
    }
    let full: u32 = (channel as u32 * 255 + alpha as u32 / 2) / alpha as u32;
    if full > 255 {
        255
    } else {
        full as u8
    }
}

/// Takes the alpha out of the colours of some pixels.
pub fn straighten(rgba: Vec<u8>) -> (r: Vec<u8>)
    requires
        rgba@.len() % 4 == 0,
    ensures
        r@ == straightened(rgba@),
{
    let mut r: Vec<u8> = Vec::new();
    let mut at: usize = 0;
    while at < rgba.len()
        invariant
            at <= rgba@.len(),
            rgba@.len() % 4 == 0,
            r@.len() == at,
            forall|i: int| 0 <= i < at ==> #[trigger] r@[i] == straightened(rgba@)[i],
        decreases rgba@.len() - at,
    {
        let alpha: u8 = rgba[at - at % 4 + 3];
        let channel: u8 = rgba[at];
        r.push(if at % 4 == 3 { channel } else { straighten_channel(channel, alpha) });
        at = at + 1;
    }
    proof {
        assert(r@ =~= straightened(rgba@));
    }
    r
}

/// The pixels of a plane with straight alpha.
pub open spec fn plain_pixels(plane: Raster, premultiplied: bool) -> Seq<u8> {
    if premultiplied {
        straightened(plane.rgba)
    } else {
        plane.rgba
    }
}

/// Whether an image shows a plane: its pixels, with straight alpha, in sRGB,
/// `converted`.
pub open spec fn shows_plane(
    image: LoadedImage,
    plane: Raster,
    premultiplied: bool,
    profile: Option<Seq<u8>>,
    label: Seq<char>,
    converted: Raster,
) -> bool {
    &&& converted.width == plane.width
    &&& converted.height == plane.height
    &&& in_srgb(plain_pixels(plane, premultiplied), profile, converted.rgba)
    &&& image.is_still(converted, false, label)
}

/// Whether an image shows a plane, whatever its colours become.
pub open spec fn is_of_plane(
    image: LoadedImage,
    plane: Raster,
    premultiplied: bool,
    profile: Option<Seq<u8>>,
    label: Seq<char>,
) -> bool {
    exists|converted: Raster| #[trigger]
        shows_plane(image, plane, premultiplied, profile, label, converted)
}

/// The image that a decoded plane makes: with straight alpha, and converted to sRGB
/// where the file carries a profile.
pub fn decode(
    path: &FilePath,
    avif: bool,
    bits: u8,
    premultiplied: bool,
    profile: Option<Vec<u8>>,
    plane: &Plane,
) -> (r: Result<LoadedImage, Failure>)
    ensures
        match r {
            Ok(image) => plane.complete() && is_of_plane(
                image,
                plane.image(),
                premultiplied,
                profile_bytes(profile),
                heif_label(avif, bits as int),
            ),
            Err(failure) => !plane.complete() && failure.message@ == unsupported_text(path@)
                && failure.detail@ == "libheif plane was shorter than expected"@,
        },
        r matches Ok(image) ==> !image.premultiplied && image.raster().wf(),
        profile is None && plane.complete() ==> (r matches Ok(image) && image.is_still(
            Raster { rgba: plain_pixels(plane.image(), premultiplied), ..plane.image() },
            false,
            heif_label(avif, bits as int),
        )),
{
    let ghost recorded = profile_bytes(profile);
    match plane.rows() {
        Some(rows) => {
            proof {
                assert(rows@.len() == (plane.width as nat * plane.height as nat) * 4);
            }
            let straight_rows = if premultiplied {
                straighten(rows)
            } else {
                rows
            };
            let rgba = honour(straight_rows, &profile);
            let image = LoadedImage {
                width: plane.width,
                height: plane.height,
                rgba,
                premultiplied: false,
                label: label_for(avif, bits),
                animation: Vec::new(),
            };
            proof {
                let label = heif_label(avif, bits as int);
                let converted = image.raster();
                assert(in_srgb(plain_pixels(plane.image(), premultiplied), recorded, rgba@));
                assert(shows_plane(image, plane.image(), premultiplied, recorded, label, converted));
            }
            Ok(image)
        },
        None => Err(unsupported(path, "libheif plane was shorter than expected".to_owned())),
    }
}

/// A plane's rows lie a stride apart and its pixels four bytes apart, so the padding
/// behind a row never shows.
pub proof fn law_rows_lose_their_padding(plane: Plane, x: int, y: int, c: int)
    requires
        0 <= x < plane.width,
        0 <= y < plane.height,
        0 <= c < 4,
    ensures
        plane.image().width == plane.width,
        plane.image().height == plane.height,
        plane.image().channel(x, y, c) == plane.data@[y * plane.stride + 4 * x + c],
{
    let width: int = plane.width as int;
    let i: int = (y * width + x) * 4 + c;
    lemma_index(x, y, c, width, plane.height as int);
    let row: int = width * 4;
    assert(i == y * row + (4 * x + c)) by (nonlinear_arith)
        requires
            i == (y * width + x) * 4 + c,
            row == width * 4,
    ;
    lemma_fundamental_div_mod_converse(i, row, y, 4 * x + c);
}

/// Taking the alpha out of a colour keeps the alpha, leaves an opaque colour as it is
/// and a clear one black, and gives the number that, put over the alpha again, is
/// nearest to what was there.
pub proof fn law_straightening_undoes_the_alpha(rgba: Seq<u8>, pixel: int, k: int)
    requires
        0 <= pixel,
        4 * pixel + 3 < rgba.len(),
        0 <= k < 3,
    ensures
        ({
            let colour: int = rgba[4 * pixel + k] as int;
            let alpha: int = rgba[4 * pixel + 3] as int;
            let plain: int = straightened(rgba)[4 * pixel + k] as int;
            &&& straightened(rgba).len() == rgba.len()
            &&& straightened(rgba)[4 * pixel + 3] == alpha
            &&& alpha == 255 ==> plain == colour
            &&& alpha == 0 ==> plain == 0
            &&& 0 < alpha && colour <= alpha ==> -alpha <= 2 * (plain * alpha - 255 * colour)
                <= alpha
            &&& 0 < alpha < colour ==> plain == 255
        }),
{
    let colour: int = rgba[4 * pixel + k] as int;
    let alpha: int = rgba[4 * pixel + 3] as int;
    assert((4 * pixel + k) % 4 == k && (4 * pixel + 3) % 4 == 3);
    if alpha > 0 {
        let top: int = colour * 255 + alpha / 2;
        let full: int = top / alpha;
        vstd::arithmetic::div_mod::lemma_fundamental_div_mod(top, alpha);
        vstd::arithmetic::mul::lemma_mul_is_commutative(alpha, full);
        vstd::arithmetic::div_mod::lemma_mod_bound(top, alpha);
        if colour <= alpha {
            assert(full <= 255) by (nonlinear_arith)
                requires
                    full * alpha <= colour * 255 + alpha / 2,
                    colour <= alpha,
                    0 < alpha,
            ;
            assert(full >= 0) by (nonlinear_arith)
                requires
                    alpha * full + top % alpha == top,
                    top % alpha < alpha,
                    top >= 0,
                    alpha > 0,
            ;
        } else {
            assert(full >= 255) by (nonlinear_arith)
                requires
                    full * alpha + top % alpha == colour * 255 + alpha / 2,
                    0 <= top % alpha < alpha,
                    colour >= alpha + 1,
                    0 < alpha <= 255,
            ;
        }
        if alpha == 255 {
            assert((colour * 255 + 127) / 255 == colour);
        }
    }
}

/// A container goes by the name of what is in it, and more than eight bits are told.
pub proof fn law_deep_colour_is_told(avif: bool, bits: int)
    ensures
        bits <= 8 && avif ==> heif_label(avif, bits) == "AVIF"@,
        bits <= 8 && !avif ==> heif_label(avif, bits) == "HEIF"@,
        bits >= 9 ==> heif_label(avif, bits) == heif_label(avif, 8) + " · 10-bit"@,
{
}

} // verus!
