//! What a developed camera raw comes to: samples in single precision, made into
//! a picture of eight bits to a channel.
//!
//! The last step of developing encodes for the display, so the samples run from
//! zero to one and simply need scaling. They are taken here by their bits, and
//! the scaling is carried out in integers, rounding as single precision does.

use vstd::arithmetic::div_mod::{lemma_basic_div, lemma_fundamental_div_mod};
use vstd::arithmetic::power2::{
    lemma2_to64, lemma2_to64_rest, lemma_pow2_pos, lemma_pow2_strictly_increases, lemma_pow2_unfold,
    pow2,
};
use vstd::prelude::*;

use crate::decoders::raw::turn_for;
use crate::double::{half_even, lemma_half_even_is_near, nearest_whole};
use crate::loader::{unsupported, unsupported_text, Failure};
use crate::paths::FilePath;
use crate::picture::{
    from_exif, lemma_build, lemma_next_pixel, push_pixel, turned, Orientation, Picture, Raster,
};

verus! {

/// How many low bits of a whole number are past the 24 that a single keeps.
pub open spec fn surplus(n: nat) -> nat
    decreases n,
{
    if n < 0x100_0000 {
        0
    } else {
        1 + surplus(n / 2)
    }
}

/// The single nearest to a whole number, which is a whole number too.
pub open spec fn short_whole(n: nat) -> nat {
    half_even(n, pow2(surplus(n))) * pow2(surplus(n))
}

/// What single precision drops is small.
proof fn lemma_short_whole(n: nat)
    ensures
        0x80_0000 * short_whole(n) <= 0x80_0001 * n,
        0x7F_FFFF * n <= 0x80_0000 * short_whole(n),
        n < 0x100_0000 ==> short_whole(n) == n,
{
    let unit = pow2(surplus(n));
    lemma2_to64();
    lemma_pow2_pos(surplus(n));
    lemma_half_even_is_near(n, unit);
    let kept = half_even(n, unit);
    if n < 0x100_0000 {
        assert(kept * 1 == kept);
    } else {
        lemma_unit_is_small(n);
        assert(2 * (kept * unit) <= 2 * n + unit && 2 * n <= 2 * (kept * unit) + unit);
    }
}

proof fn lemma_unit_is_small(n: nat)
    requires
        n >= 0x80_0000,
    ensures
        pow2(surplus(n)) * 0x80_0000 <= n,
    decreases n,
{
    lemma2_to64();
    if n >= 0x100_0000 {
        lemma_unit_is_small(n / 2);
        lemma_pow2_unfold(surplus(n));
    }
}

proof fn lemma_surplus(n: nat, unit_bits: nat)
    requires
        unit_bits > 0 ==> pow2(unit_bits) * 0x80_0000 <= n,
        n < pow2(unit_bits) * 0x100_0000,
    ensures
        surplus(n) == unit_bits,
    decreases unit_bits,
{
    lemma2_to64();
    if unit_bits > 0 {
        let less: nat = (unit_bits - 1) as nat;
        lemma_pow2_unfold(unit_bits);
        lemma_pow2_pos(less);
        let (unit, half) = (pow2(less), n / 2);
        assert(n < 2 * unit * 0x100_0000 && 2 * unit * 0x80_0000 <= n);
        lemma_surplus(half, less);
    }
}

/// Rounds a whole number as single precision does.
fn shorten(n: u64) -> (r: u64)
    requires
        n < 0x100_0000_0000,
    ensures
        r == short_whole(n as nat),
        r <= 2 * n,
{
    proof {
        lemma2_to64();
        lemma_short_whole(n as nat);
    }
    let mut unit: u64 = 1;
    let ghost mut bits: nat = 0;
    while n >= unit * 0x100_0000
        invariant
            n < 0x100_0000_0000,
            unit == pow2(bits),
            1 <= unit <= 0x20000,
            bits > 0 ==> unit * 0x80_0000 <= n,
        decreases 0x40000 - unit,
    {
        proof {
            lemma_pow2_unfold(bits + 1);
            bits = bits + 1;
        }
        unit = unit * 2;
    }
    proof {
        lemma_surplus(n as nat, bits);
        assert(n as int / unit as int <= n) by (nonlinear_arith)
            requires
                unit >= 1,
        ;
    }
    let kept: u128 = nearest_whole(n as u128, unit as u128);
    proof {
        assert(kept * unit == short_whole(n as nat));
    }
    (kept * unit as u128) as u64
}

/// What a sample between zero and one shows as: its bits past the sign are an
/// exponent and a significand, and `significand * 2^(exponent - 150)` is scaled
/// to 255 and lifted by a half, each time to the nearest single, and cut.
pub open spec fn scaled_sample(significand: nat, exponent: int) -> nat {
    let scaled = short_whole(255 * significand);
    let lifted = short_whole(scaled + pow2((149 - exponent) as nat));
    lifted / pow2((150 - exponent) as nat)
}

/// What a sample shows as: anything below zero, or no number at all, as nothing,
/// one and above in full.
pub open spec fn sample_byte(bits: u32) -> nat {
    let head = bits as int / 0x80_0000;
    let fraction = (bits as int % 0x80_0000) as nat;
    if head >= 256 {
        0
    } else if head >= 127 {
        if head == 255 && fraction != 0 {
            0
        } else {
            255
        }
    } else if head == 0 {
        scaled_sample(fraction, 1)
    } else {
        scaled_sample(0x80_0000 + fraction, head)
    }
}

/// A sample below 2^-10 shows as nothing.
proof fn lemma_faint(significand: nat, exponent: int)
    requires
        significand < 0x100_0000,
        1 <= exponent <= 116,
    ensures
        scaled_sample(significand, exponent) == 0,
{
    let half = pow2((149 - exponent) as nat);
    let scaled = short_whole(255 * significand);
    lemma2_to64();
    lemma2_to64_rest();
    lemma_pow2_unfold((150 - exponent) as nat);
    if exponent < 116 {
        lemma_pow2_strictly_increases(33, (149 - exponent) as nat);
    }
    lemma_short_whole(255 * significand);
    lemma_short_whole(scaled + half);
    lemma_basic_div(short_whole(scaled + half) as int, 2 * half as int);
}

/// Scales a sample.
fn to_u8(bits: u32) -> (r: u8)
    ensures
        r == sample_byte(bits),
{
    let head: u32 = bits / 0x80_0000;
    let fraction: u32 = bits % 0x80_0000;
    if head >= 256 {
        return 0;
    }
    if head >= 127 {
        return if head == 255 && fraction != 0 {
            0
        } else {
            255
        };
    }
    if head <= 116 {
        proof {
            if head == 0 {
                lemma_faint(fraction as nat, 1);
            } else {
                lemma_faint(0x80_0000 + fraction as nat, head as int);
            }
        }
        return 0;
    }
    let significand: u64 = 0x80_0000 + fraction as u64;
    let scaled: u64 = shorten(255 * significand);
    let mut half: u64 = 0x80_0000;
    let mut at: u32 = 126;
    proof {
        lemma2_to64();
        lemma2_to64_rest();
    }
    while at > head
        invariant
            117 <= head <= at <= 126,
            half == pow2((149 - at) as nat),
            half <= 0x1_0000_0000,
        decreases at,
    {
        proof {
            lemma_pow2_unfold((150 - at) as nat);
            lemma2_to64();
            lemma2_to64_rest();
            if at - 1 > 117 {
                lemma_pow2_strictly_increases((150 - at) as nat, 32);
            }
        }
        half = half * 2;
        at = at - 1;
    }
    let lifted: u64 = shorten(scaled + half);
    proof {
        lemma_pow2_unfold((150 - head) as nat);
        lemma_short_whole((255 * significand) as nat);
        lemma_short_whole((scaled + half) as nat);
        if head < 126 {
            lemma_pow2_strictly_increases(23, (149 - head) as nat);
        }
        assert(lifted < 256 * (2 * half));
        assert(lifted as int / (2 * half) as int <= 255) by (nonlinear_arith)
            requires
                lifted < 256 * (2 * half),
                half > 0,
        ;
    }
    (lifted / (2 * half)) as u8
}

/// How many samples there are to a pixel. Of four, the leading three are taken
/// for red, green and blue, which is not exact but beats refusing the file.
#[derive(Clone, Copy, PartialEq, Eq, Structural, Debug)]
pub enum Layers {
    One,
    Three,
    Four,
}

impl Layers {
    /// The number of samples.
    pub open spec fn count(self) -> int {
        match self {
            Layers::One => 1,
            Layers::Three => 3,
            Layers::Four => 4,
        }
    }

    /// Which sample of a pixel a channel shows.
    pub open spec fn sample_for(self, channel: int) -> int {
        if self is One {
            0
        } else {
            channel
        }
    }
}

/// A developed frame, not turned yet.
pub struct Negative {
    pub width: u32,
    pub height: u32,
    pub layers: Layers,
    /// The samples of all pixels, row by row, by the bits of single precision.
    pub samples: Vec<u32>,
    /// The orientation number: developing records it, and leaves turning to
    /// whoever shows the frame.
    pub orientation: u16,
}

impl Negative {
    /// Whether there are samples for every pixel.
    pub open spec fn complete(self) -> bool {
        self.samples@.len() as int / self.layers.count() >= self.width * self.height
    }

    /// The picture in the samples, as the sensor saw it.
    pub open spec fn image(self) -> Raster {
        Raster::build(
            self.width as nat,
            self.height as nat,
            |x: int, y: int, c: int|
                if c == 3 {
                    255
                } else {
                    sample_byte(
                        self.samples@[(y * self.width + x) * self.layers.count()
                            + self.layers.sample_for(c)],
                    ) as u8
                },
        )
    }

    /// Scales all samples.
    fn pixels(&self) -> (r: Vec<u8>)
        requires
            self.complete(),
        ensures
            r@ == self.image().rgba,
            self.image().wf(),
    {
        let ghost goal = self.image();
        let (step, green, blue): (usize, usize, usize) = match self.layers {
            Layers::One => (1, 0, 0),
            Layers::Three => (3, 1, 2),
            Layers::Four => (4, 1, 2),
        };
        proof {
            lemma_frame(*self);
        }
        let mut rgba: Vec<u8> = Vec::new();
        let mut at: usize = 0;
        let mut y: u32 = 0;
        while y < self.height
            invariant
                self.complete(),
                goal == self.image(),
                goal.wf(),
                goal.width == self.width,
                goal.height == self.height,
                y <= self.height,
                step == self.layers.count(),
                green == self.layers.sample_for(1),
                blue == self.layers.sample_for(2),
                at == y * self.width * step,
                rgba@ == goal.rgba.subrange(0, y * self.width * 4),
                y * self.width * 4 <= goal.rgba.len(),
            decreases self.height - y,
        {
            let mut x: u32 = 0;
            proof {
                assert((y * self.width + 0) * 4 == y * self.width * 4);
                assert((y * self.width + 0) * step == y * self.width * step);
            }
            while x < self.width
                invariant
                    self.complete(),
                    goal == self.image(),
                    goal.wf(),
                    goal.width == self.width,
                    goal.height == self.height,
                    x <= self.width,
                    y < self.height,
                    step == self.layers.count(),
                    green == self.layers.sample_for(1),
                    blue == self.layers.sample_for(2),
                    at == (y * self.width + x) * step,
                    rgba@ == goal.rgba.subrange(0, (y * self.width + x) * 4),
                    0 <= (y * self.width + x) * 4 <= goal.rgba.len(),
                decreases self.width - x,
            {
                proof {
                    lemma_frame(*self);
                    lemma_sample_there(*self, x as int, y as int);
                    assert(self.samples.len() <= usize::MAX);
                }
                let pixel: Vec<u8> = vec![
                    to_u8(self.samples[at]),
                    to_u8(self.samples[at + green]),
                    to_u8(self.samples[at + blue]),
                    255,
                ];
                proof {
                    lemma_next_pixel(goal, pixel@, 0, x as int, y as int);
                }
                push_pixel(&mut rgba, &pixel, 0);
                proof {
                    assert((y * self.width + x) * step + step == (y * self.width + x + 1) * step)
                        by (nonlinear_arith);
                }
                at = at + step;
                x = x + 1;
            }
            y = y + 1;
            proof {
                assert((y - 1) * self.width + self.width == y * self.width) by (nonlinear_arith);
            }
        }
        proof {
            assert(self.height * self.width == self.width * self.height) by (nonlinear_arith);
            assert(rgba@ =~= goal.rgba);
        }
        rgba
    }
}

proof fn lemma_frame(frame: Negative)
    ensures
        frame.image().wf(),
        forall|x: int, y: int, c: int|
            0 <= x < frame.width && 0 <= y < frame.height && 0 <= c < 4
                ==> #[trigger] frame.image().channel(x, y, c) == (if c == 3 {
                255
            } else {
                sample_byte(
                    frame.samples@[(y * frame.width + x) * frame.layers.count()
                        + frame.layers.sample_for(c)],
                ) as u8
            }),
{
    lemma_build(
        frame.width as nat,
        frame.height as nat,
        |x: int, y: int, c: int|
            if c == 3 {
                255
            } else {
                sample_byte(
                    frame.samples@[(y * frame.width + x) * frame.layers.count()
                        + frame.layers.sample_for(c)],
                ) as u8
            },
    );
}

/// The samples of a pixel of a complete frame are there.
proof fn lemma_sample_there(frame: Negative, x: int, y: int)
    requires
        frame.complete(),
        0 <= x < frame.width,
        0 <= y < frame.height,
    ensures
        0 <= (y * frame.width + x) * frame.layers.count(),
        (y * frame.width + x + 1) * frame.layers.count() <= frame.samples@.len(),
        (y * frame.width + x + 1) * frame.layers.count() == (y * frame.width + x)
            * frame.layers.count() + frame.layers.count(),
{
    let (w, h) = (frame.width as int, frame.height as int);
    let count = frame.layers.count();
    let length = frame.samples@.len() as int;
    assert(0 <= y * w && y * w + x + 1 <= w * h) by (nonlinear_arith)
        requires
            0 <= x < w,
            0 <= y < h,
    ;
    lemma_fundamental_div_mod(length, count);
    assert((y * w + x + 1) * count <= (length / count) * count) by (nonlinear_arith)
        requires
            y * w + x + 1 <= length / count,
            count > 0,
    ;
    assert(0 <= (y * w + x) * count) by (nonlinear_arith)
        requires
            0 <= y * w,
            0 <= x,
            count > 0,
    ;
    assert((y * w + x + 1) * count == (y * w + x) * count + count) by (nonlinear_arith);
    assert((length / count) * count == count * (length / count)) by (nonlinear_arith);
}

/// Makes a picture of a developed frame, the right way up.
pub fn finish(path: &FilePath, frame: &Negative) -> (r: Result<Picture, Failure>)
    ensures
        match r {
            Ok(picture) => frame.complete() && picture.wf() && picture@ == turned(
                frame.image(),
                turn_for(Some(frame.orientation)),
            ),
            Err(failure) => !frame.complete() && failure.message@ == unsupported_text(path@)
                && failure.detail@ == "developed image had unexpected dimensions"@,
        },
{
    let count: usize = match frame.layers {
        Layers::One => 1,
        Layers::Three => 3,
        Layers::Four => 4,
    };
    proof {
        assert(frame.width * frame.height <= 0xFFFF_FFFF * 0xFFFF_FFFF) by (nonlinear_arith)
            requires
                0 <= frame.width <= 0xFFFF_FFFF,
                0 <= frame.height <= 0xFFFF_FFFF,
        ;
    }
    let have: u128 = (frame.samples.len() / count) as u128;
    if have < frame.width as u128 * frame.height as u128 {
        return Err(unsupported(path, "developed image had unexpected dimensions".to_owned()));
    }
    let stored = Picture { width: frame.width, height: frame.height, rgba: frame.pixels() };
    let turn = match from_exif(frame.orientation) {
        Some(turn) => turn,
        None => Orientation::NoTransforms,
    };
    Ok(stored.turn(turn))
}

/// A developed pixel shows the leading samples of its place: red, green and blue where
/// there are three or four, one grey for all where there is one; and it is opaque.
pub proof fn law_a_pixel_shows_its_leading_samples(negative: Negative, x: int, y: int, c: int)
    requires
        0 <= x < negative.width,
        0 <= y < negative.height,
        0 <= c < 3,
    ensures
        ({
            let pixel = y * negative.width + x;
            let image = negative.image();
            &&& image.width == negative.width && image.height == negative.height
            &&& image.channel(x, y, 3) == 255
            &&& negative.layers is One ==> image.channel(x, y, c) == sample_byte(
                negative.samples@[pixel],
            ) as u8
            &&& negative.layers is Three ==> image.channel(x, y, c) == sample_byte(
                negative.samples@[3 * pixel + c],
            ) as u8
            &&& negative.layers is Four ==> image.channel(x, y, c) == sample_byte(
                negative.samples@[4 * pixel + c],
            ) as u8
        }),
{
    let f = |x: int, y: int, c: int|
        if c == 3 {
            255u8
        } else {
            sample_byte(
                negative.samples@[(y * negative.width + x) * negative.layers.count()
                    + negative.layers.sample_for(c)],
            ) as u8
        };
    lemma_build(negative.width as nat, negative.height as nat, f);
    assert(negative.image() == Raster::build(negative.width as nat, negative.height as nat, f));
    let pixel = y * negative.width + x;
    assert(pixel * 1 == pixel && pixel * 3 == 3 * pixel && pixel * 4 == 4 * pixel);
}

} // verus!
