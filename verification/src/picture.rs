//! A decoded picture: eight-bit RGBA, row by row from the top, straight alpha.

use vstd::arithmetic::div_mod::*;
use vstd::prelude::*;

verus! {

/// The pixels that editing works on.
pub struct Picture {
    pub width: u32,
    pub height: u32,
    pub rgba: Vec<u8>,
}

/// What a picture shows: its size and the value of every channel.
#[verifier::ext_equal]
pub struct Raster {
    pub width: nat,
    pub height: nat,
    pub rgba: Seq<u8>,
}

impl Raster {
    /// Four channels for every pixel, no more and no less.
    pub open spec fn wf(self) -> bool {
        self.rgba.len() == self.width * self.height * 4
    }

    /// Channel `c` of the pixel in column `x` of row `y`.
    pub open spec fn channel(self, x: int, y: int, c: int) -> u8 {
        self.rgba[(y * self.width + x) * 4 + c]
    }

    /// The four channels of the pixel in column `x` of row `y`.
    pub open spec fn pixel(self, x: int, y: int) -> Seq<u8> {
        self.rgba.subrange((y * self.width + x) * 4, (y * self.width + x) * 4 + 4)
    }

    /// The raster of a given size whose channels a function gives.
    pub open spec fn build(width: nat, height: nat, channels: spec_fn(int, int, int) -> u8) -> Raster {
        Raster {
            width,
            height,
            rgba: Seq::new(
                width * height * 4,
                |i: int| channels((i / 4) % width as int, (i / 4) / width as int, i % 4),
            ),
        }
    }
}

impl View for Picture {
    type V = Raster;

    open spec fn view(&self) -> Raster {
        Raster { width: self.width as nat, height: self.height as nat, rgba: self.rgba@ }
    }
}

/// The eight ways of turning and mirroring a rectangle, as a camera records them.
#[derive(Clone, Copy, PartialEq, Eq, Structural, Debug)]
pub enum Orientation {
    NoTransforms,
    FlipHorizontal,
    Rotate180,
    FlipVertical,
    /// Turned a quarter clockwise, then mirrored left to right.
    Rotate90FlipH,
    /// Turned a quarter clockwise.
    Rotate90,
    /// Turned a quarter anticlockwise, then mirrored left to right.
    Rotate270FlipH,
    /// Turned a quarter anticlockwise.
    Rotate270,
}

impl Orientation {
    /// Whether the width and the height change places.
    pub open spec fn sideways(self) -> bool {
        self is Rotate90 || self is Rotate270 || self is Rotate90FlipH || self is Rotate270FlipH
    }

    /// Where the pixel that ends up at `(x, y)` comes from, in a `width` by `height` picture.
    pub open spec fn source(self, x: int, y: int, width: int, height: int) -> (int, int) {
        match self {
            Orientation::NoTransforms => (x, y),
            Orientation::FlipHorizontal => (width - 1 - x, y),
            Orientation::Rotate180 => (width - 1 - x, height - 1 - y),
            Orientation::FlipVertical => (x, height - 1 - y),
            Orientation::Rotate90FlipH => (y, x),
            Orientation::Rotate90 => (y, height - 1 - x),
            Orientation::Rotate270FlipH => (width - 1 - y, height - 1 - x),
            Orientation::Rotate270 => (width - 1 - y, x),
        }
    }
}

impl Orientation {
    /// Where the pixel that ends up at `(x, y)` comes from.
    fn source_of(self, x: u32, y: u32, width: u32, height: u32) -> (r: (u32, u32))
        requires
            x < (if self.sideways() { height } else { width }),
            y < (if self.sideways() { width } else { height }),
        ensures
            (r.0 as int, r.1 as int) == self.source(x as int, y as int, width as int, height as int),
            r.0 < width,
            r.1 < height,
    {
        match self {
            Orientation::NoTransforms => (x, y),
            Orientation::FlipHorizontal => (width - 1 - x, y),
            Orientation::Rotate180 => (width - 1 - x, height - 1 - y),
            Orientation::FlipVertical => (x, height - 1 - y),
            Orientation::Rotate90FlipH => (y, x),
            Orientation::Rotate90 => (y, height - 1 - x),
            Orientation::Rotate270FlipH => (width - 1 - y, height - 1 - x),
            Orientation::Rotate270 => (width - 1 - y, x),
        }
    }
}

/// Copies the four channels of a pixel to the end of some data.
pub fn push_pixel(out: &mut Vec<u8>, data: &Vec<u8>, at: usize)
    requires
        at + 4 <= data@.len(),
    ensures
        final(out)@ == old(out)@ + data@.subrange(at as int, at + 4),
{
    let ghost before = out@;
    proof {
        assert(data.len() <= usize::MAX);
    }
    out.push(data[at]);
    out.push(data[at + 1]);
    out.push(data[at + 2]);
    out.push(data[at + 3]);
    proof {
        assert(out@ =~= before + data@.subrange(at as int, at + 4));
    }
}

/// Data up to a pixel, and that pixel's channels behind it, is the data up to
/// the next pixel.
pub proof fn lemma_next_pixel(goal: Raster, data: Seq<u8>, at: int, x: int, y: int)
    requires
        goal.wf(),
        0 <= x < goal.width,
        0 <= y < goal.height,
        0 <= at && at + 4 <= data.len(),
        forall|c: int| 0 <= c < 4 ==> #[trigger] goal.channel(x, y, c) == data[at + c],
    ensures
        0 <= (y * goal.width + x) * 4,
        (y * goal.width + x + 1) * 4 <= goal.rgba.len(),
        goal.rgba.subrange(0, (y * goal.width + x) * 4) + data.subrange(at, at + 4)
            == goal.rgba.subrange(0, (y * goal.width + x + 1) * 4),
{
    lemma_index(x, y, 3, goal.width as int, goal.height as int);
    lemma_index(x, y, 0, goal.width as int, goal.height as int);
    let p: int = (y * goal.width + x) * 4;
    assert((y * goal.width + x + 1) * 4 == p + 4);
    assert(goal.channel(x, y, 0) == data[at]);
    assert(goal.channel(x, y, 1) == data[at + 1]);
    assert(goal.channel(x, y, 2) == data[at + 2]);
    assert(goal.channel(x, y, 3) == data[at + 3]);
    assert(goal.rgba.subrange(0, p) + data.subrange(at, at + 4) =~= goal.rgba.subrange(0, p + 4));
}

/// The channels of a turned raster's pixel are those of the pixel it comes from.
proof fn lemma_turned_at(r: Raster, o: Orientation, x: int, y: int)
    requires
        r.wf(),
        0 <= x < turned(r, o).width,
        0 <= y < turned(r, o).height,
    ensures
        ({
            let (sx, sy) = o.source(x, y, r.width as int, r.height as int);
            forall|c: int| 0 <= c < 4 ==> #[trigger] turned(r, o).channel(x, y, c) == r.rgba[(sy * r.width
                + sx) * 4 + c]
        }),
{
    lemma_turned(r, o);
}

/// The orientation that a camera's number stands for.
pub open spec fn exif_orientation(value: int) -> Option<Orientation> {
    if value == 1 {
        Some(Orientation::NoTransforms)
    } else if value == 2 {
        Some(Orientation::FlipHorizontal)
    } else if value == 3 {
        Some(Orientation::Rotate180)
    } else if value == 4 {
        Some(Orientation::FlipVertical)
    } else if value == 5 {
        Some(Orientation::Rotate90FlipH)
    } else if value == 6 {
        Some(Orientation::Rotate90)
    } else if value == 7 {
        Some(Orientation::Rotate270FlipH)
    } else if value == 8 {
        Some(Orientation::Rotate270)
    } else {
        None
    }
}

/// Reads a camera's orientation number; anything outside 1 to 8 says nothing.
pub fn from_exif(value: u16) -> (r: Option<Orientation>)
    ensures
        r == exif_orientation(value as int),
{
    match value {
        1 => Some(Orientation::NoTransforms),
        2 => Some(Orientation::FlipHorizontal),
        3 => Some(Orientation::Rotate180),
        4 => Some(Orientation::FlipVertical),
        5 => Some(Orientation::Rotate90FlipH),
        6 => Some(Orientation::Rotate90),
        7 => Some(Orientation::Rotate270FlipH),
        8 => Some(Orientation::Rotate270),
        _ => None,
    }
}

/// A raster turned or mirrored.
pub open spec fn turned(r: Raster, o: Orientation) -> Raster {
    let width = if o.sideways() { r.height } else { r.width };
    let height = if o.sideways() { r.width } else { r.height };
    Raster::build(
        width,
        height,
        |x: int, y: int, c: int|
            {
                let (sx, sy) = o.source(x, y, r.width as int, r.height as int);
                r.channel(sx, sy, c)
            },
    )
}

/// The part of a raster `width` by `height` large whose corner is at `(left, top)`.
pub open spec fn cropped(r: Raster, left: nat, top: nat, width: nat, height: nat) -> Raster {
    Raster::build(width, height, |x: int, y: int, c: int| r.channel(left + x, top + y, c))
}

/// A raster in which every channel is zero: transparent black.
pub open spec fn blank_raster(width: nat, height: nat) -> Raster {
    Raster { width, height, rgba: Seq::new(width * height * 4, |i: int| 0u8) }
}

/// Where a channel of a pixel sits, and that the place tells the pixel and the channel.
pub proof fn lemma_index(x: int, y: int, c: int, width: int, height: int)
    requires
        0 <= x < width,
        0 <= y < height,
        0 <= c < 4,
    ensures
        0 <= (y * width + x) * 4 + c < width * height * 4,
        (((y * width + x) * 4 + c) / 4) % width == x,
        (((y * width + x) * 4 + c) / 4) / width == y,
        ((y * width + x) * 4 + c) % 4 == c,
{
    let p: int = y * width + x;
    assert(0 <= p < width * height) by (nonlinear_arith)
        requires
            p == y * width + x,
            0 <= x < width,
            0 <= y < height,
    ;
    assert((p * 4 + c) / 4 == p && (p * 4 + c) % 4 == c);
    lemma_fundamental_div_mod_converse(p, width, y, x);
}

/// Every place in the data belongs to a channel of a pixel.
pub proof fn lemma_place(i: int, width: int, height: int)
    requires
        0 <= i < width * height * 4,
        0 <= width,
        0 <= height,
    ensures
        0 <= (i / 4) % width < width,
        0 <= (i / 4) / width < height,
        (((i / 4) / width) * width + (i / 4) % width) * 4 + i % 4 == i,
{
    let p: int = i / 4;
    assert(width > 0) by (nonlinear_arith)
        requires
            0 <= i < width * height * 4,
            0 <= width,
            0 <= height,
    ;
    lemma_fundamental_div_mod(p, width);
    lemma_mod_bound(p, width);
    assert(p < width * height);
    assert(0 <= p / width < height) by (nonlinear_arith)
        requires
            0 <= p < width * height,
            width > 0,
    ;
    assert((p / width) * width == width * (p / width)) by (nonlinear_arith);
}

/// A built raster is well formed and has the channels it was built from.
pub proof fn lemma_build(width: nat, height: nat, channels: spec_fn(int, int, int) -> u8)
    ensures
        Raster::build(width, height, channels).wf(),
        forall|x: int, y: int, c: int|
            0 <= x < width && 0 <= y < height && 0 <= c < 4 ==> #[trigger] Raster::build(
                width,
                height,
                channels,
            ).channel(x, y, c) == channels(x, y, c),
{
    let r = Raster::build(width, height, channels);
    assert forall|x: int, y: int, c: int| 0 <= x < width && 0 <= y < height && 0 <= c < 4 implies
        #[trigger] r.channel(x, y, c) == channels(x, y, c) by {
        lemma_index(x, y, c, width as int, height as int);
    }
}

/// Rasters of one size with the same channels are the same raster.
pub proof fn lemma_same_channels(a: Raster, b: Raster)
    requires
        a.wf(),
        b.wf(),
        a.width == b.width,
        a.height == b.height,
        forall|x: int, y: int, c: int|
            0 <= x < a.width && 0 <= y < a.height && 0 <= c < 4 ==> #[trigger] a.channel(x, y, c)
                == b.channel(x, y, c),
    ensures
        a == b,
{
    assert forall|i: int| 0 <= i < a.rgba.len() implies a.rgba[i] == b.rgba[i] by {
        lemma_place(i, a.width as int, a.height as int);
        let x: int = (i / 4) % a.width as int;
        let y: int = (i / 4) / a.width as int;
        assert(a.channel(x, y, i % 4) == b.channel(x, y, i % 4));
    }
    assert(a.rgba =~= b.rgba);
}

impl Picture {
    /// As many channels as the size asks for.
    pub open spec fn wf(&self) -> bool {
        self@.wf()
    }

    /// Where the four channels of a pixel begin.
    pub fn offset(&self, x: u32, y: u32) -> (r: usize)
        requires
            self.wf(),
            x < self.width,
            y < self.height,
        ensures
            r == (y * self.width + x) * 4,
            r + 4 <= self.rgba@.len(),
    {
        proof {
            lemma_index(x as int, y as int, 3, self.width as int, self.height as int);
            assert(self.rgba.len() <= usize::MAX);
            assert(0 <= y * self.width <= (y * self.width + x) * 4) by (nonlinear_arith)
                requires
                    0 <= x,
                    0 <= y,
                    0 <= self.width,
            ;
        }
        (y as usize * self.width as usize + x as usize) * 4
    }

    /// The picture turned or mirrored.
    pub fn turn(&self, orientation: Orientation) -> (r: Picture)
        requires
            self.wf(),
        ensures
            r.wf(),
            r@ == turned(self@, orientation),
    {
        let sideways = match orientation {
            Orientation::Rotate90 | Orientation::Rotate270 => true,
            Orientation::Rotate90FlipH | Orientation::Rotate270FlipH => true,
            _ => false,
        };
        let width: u32 = if sideways { self.height } else { self.width };
        let height: u32 = if sideways { self.width } else { self.height };
        let ghost goal = turned(self@, orientation);
        proof {
            lemma_turned(self@, orientation);
        }
        let mut rgba: Vec<u8> = Vec::with_capacity(self.rgba.len());
        let mut y: u32 = 0;
        while y < height
            invariant
                self.wf(),
                y <= height,
                sideways == orientation.sideways(),
                width == if sideways { self.height } else { self.width },
                height == if sideways { self.width } else { self.height },
                goal == turned(self@, orientation),
                goal.wf(),
                goal.width == width,
                goal.height == height,
                rgba@ == goal.rgba.subrange(0, y * width * 4),
                y * width * 4 <= goal.rgba.len(),
            decreases height - y,
        {
            let mut x: u32 = 0;
            proof {
                assert((y * width + 0) * 4 == y * width * 4);
            }
            while x < width
                invariant
                    self.wf(),
                    x <= width,
                    y < height,
                    sideways == orientation.sideways(),
                    width == if sideways { self.height } else { self.width },
                    height == if sideways { self.width } else { self.height },
                    goal == turned(self@, orientation),
                    goal.wf(),
                    goal.width == width,
                    goal.height == height,
                    rgba@ == goal.rgba.subrange(0, (y * width + x) * 4),
                    0 <= (y * width + x) * 4 <= goal.rgba.len(),
                decreases width - x,
            {
                let (sx, sy): (u32, u32) = orientation.source_of(x, y, self.width, self.height);
                let at: usize = self.offset(sx, sy);
                proof {
                    lemma_turned_at(self@, orientation, x as int, y as int);
                }
                push_pixel(&mut rgba, &self.rgba, at);
                x = x + 1;
                proof {
                    lemma_next_pixel(goal, self.rgba@, at as int, x - 1, y as int);
                }
            }
            y = y + 1;
            proof {
                assert((y - 1) * width + width == y * width) by (nonlinear_arith);
                assert(y * width * 4 <= goal.rgba.len());
            }
        }
        proof {
            assert(height * width == width * height) by (nonlinear_arith);
            assert(rgba@ =~= goal.rgba);
        }
        Picture { width, height, rgba }
    }

    /// The part of the picture `width` by `height` large whose corner is at `(left, top)`.
    pub fn crop(&self, left: u32, top: u32, width: u32, height: u32) -> (r: Picture)
        requires
            self.wf(),
            left + width <= self.width,
            top + height <= self.height,
        ensures
            r.wf(),
            r@ == cropped(self@, left as nat, top as nat, width as nat, height as nat),
    {
        let ghost goal = cropped(self@, left as nat, top as nat, width as nat, height as nat);
        proof {
            lemma_cropped(self@, left as nat, top as nat, width as nat, height as nat);
        }
        let mut rgba: Vec<u8> = Vec::new();
        let mut y: u32 = 0;
        while y < height
            invariant
                self.wf(),
                y <= height,
                left + width <= self.width,
                top + height <= self.height,
                goal.wf(),
                goal.width == width,
                goal.height == height,
                rgba@ == goal.rgba.subrange(0, y * width * 4),
                y * width * 4 <= goal.rgba.len(),
                goal == cropped(self@, left as nat, top as nat, width as nat, height as nat),
            decreases height - y,
        {
            let mut x: u32 = 0;
            proof {
                assert((y * width + 0) * 4 == y * width * 4);
            }
            while x < width
                invariant
                    self.wf(),
                    x <= width,
                    y < height,
                    left + width <= self.width,
                    top + height <= self.height,
                    goal.wf(),
                    goal.width == width,
                    goal.height == height,
                    rgba@ == goal.rgba.subrange(0, (y * width + x) * 4),
                    0 <= (y * width + x) * 4 <= goal.rgba.len(),
                    goal == cropped(self@, left as nat, top as nat, width as nat, height as nat),
                decreases width - x,
            {
                let at: usize = self.offset(left + x, top + y);
                proof {
                    lemma_cropped(self@, left as nat, top as nat, width as nat, height as nat);
                }
                push_pixel(&mut rgba, &self.rgba, at);
                x = x + 1;
                proof {
                    lemma_next_pixel(goal, self.rgba@, at as int, x - 1, y as int);
                }
            }
            y = y + 1;
            proof {
                assert((y - 1) * width + width == y * width) by (nonlinear_arith);
            }
        }
        proof {
            assert(height * width == width * height) by (nonlinear_arith);
            assert(rgba@ =~= goal.rgba);
        }
        Picture { width, height, rgba }
    }

    /// Gives one pixel other channels.
    pub fn set_pixel(&mut self, x: u32, y: u32, pixel: [u8; 4])
        requires
            old(self).wf(),
            x < old(self).width,
            y < old(self).height,
        ensures
            final(self).wf(),
            final(self).width == old(self).width,
            final(self).height == old(self).height,
            forall|i: int, j: int, c: int|
                0 <= i < old(self).width && 0 <= j < old(self).height && 0 <= c < 4 ==> #[trigger] final(self)@.channel(i, j, c) == (if i == x && j == y {
                    pixel@[c]
                } else {
                    old(self)@.channel(i, j, c)
                }),
    {
        let at: usize = self.offset(x, y);
        let ghost before = self@;
        self.rgba.set(at, pixel[0]);
        self.rgba.set(at + 1, pixel[1]);
        self.rgba.set(at + 2, pixel[2]);
        self.rgba.set(at + 3, pixel[3]);
        proof {
            assert forall|i: int, j: int, c: int|
                0 <= i < before.width && 0 <= j < before.height && 0 <= c < 4 implies #[trigger] self@.channel(
                i,
                j,
                c,
            ) == (if i == x && j == y {
                pixel@[c]
            } else {
                before.channel(i, j, c)
            }) by {
                lemma_index(i, j, c, before.width as int, before.height as int);
                lemma_index(x as int, y as int, 0, before.width as int, before.height as int);
                lemma_index(x as int, y as int, 1, before.width as int, before.height as int);
                lemma_index(x as int, y as int, 2, before.width as int, before.height as int);
                lemma_index(x as int, y as int, 3, before.width as int, before.height as int);
            }
        }
    }

    /// The four channels of one pixel.
    pub fn get_pixel(&self, x: u32, y: u32) -> (r: [u8; 4])
        requires
            self.wf(),
            x < self.width,
            y < self.height,
        ensures
            r@ == self@.pixel(x as int, y as int),
    {
        let at: usize = self.offset(x, y);
        let r: [u8; 4] = [self.rgba[at], self.rgba[at + 1], self.rgba[at + 2], self.rgba[at + 3]];
        proof {
            assert(r@ =~= self@.pixel(x as int, y as int));
        }
        r
    }

    /// A copy of the picture.
    pub fn copy(&self) -> (r: Picture)
        ensures
            r@ == self@,
    {
        let rgba = self.rgba.clone();
        proof {
            assert(rgba@ =~= self.rgba@);
        }
        Picture { width: self.width, height: self.height, rgba }
    }
}

/// The channels of a part are those of the pixels it is made of.
pub proof fn lemma_cropped(r: Raster, left: nat, top: nat, width: nat, height: nat)
    ensures
        cropped(r, left, top, width, height).wf(),
        forall|x: int, y: int, c: int|
            0 <= x < width && 0 <= y < height && 0 <= c < 4 ==> #[trigger] cropped(
                r,
                left,
                top,
                width,
                height,
            ).channel(x, y, c) == r.channel(left + x, top + y, c),
{
    lemma_build(width, height, |x: int, y: int, c: int| r.channel(left + x, top + y, c));
}

/// The whole of a picture, cut out of it, is the picture.
pub proof fn law_cutting_everything_changes_nothing(r: Raster)
    requires
        r.wf(),
    ensures
        cropped(r, 0, 0, r.width, r.height) == r,
{
    let a = cropped(r, 0, 0, r.width, r.height);
    lemma_cropped(r, 0, 0, r.width, r.height);
    lemma_same_channels(a, r);
}

/// A mirroring or a half turn, made twice, leaves the picture as it was.
pub proof fn law_mirroring_twice_changes_nothing(r: Raster)
    requires
        r.wf(),
    ensures
        turned(turned(r, Orientation::FlipHorizontal), Orientation::FlipHorizontal) == r,
        turned(turned(r, Orientation::FlipVertical), Orientation::FlipVertical) == r,
        turned(turned(r, Orientation::Rotate180), Orientation::Rotate180) == r,
{
    lemma_undone(r, Orientation::FlipHorizontal, Orientation::FlipHorizontal);
    lemma_undone(r, Orientation::FlipVertical, Orientation::FlipVertical);
    lemma_undone(r, Orientation::Rotate180, Orientation::Rotate180);
}

pub proof fn lemma_turned(r: Raster, o: Orientation)
    requires
        r.wf(),
    ensures
        turned(r, o).wf(),
        turned(r, o).width == if o.sideways() { r.height } else { r.width },
        turned(r, o).height == if o.sideways() { r.width } else { r.height },
        forall|x: int, y: int, c: int|
            0 <= x < turned(r, o).width && 0 <= y < turned(r, o).height && 0 <= c < 4
                ==> #[trigger] turned(r, o).channel(x, y, c) == r.channel(
                o.source(x, y, r.width as int, r.height as int).0,
                o.source(x, y, r.width as int, r.height as int).1,
                c,
            ),
{
    lemma_build(
        turned(r, o).width,
        turned(r, o).height,
        |x: int, y: int, c: int|
            {
                let (sx, sy) = o.source(x, y, r.width as int, r.height as int);
                r.channel(sx, sy, c)
            },
    );
}

/// Where the pixel at `(x, y)` comes from after two turns of a raster.
spec fn through(first: Orientation, second: Orientation, x: int, y: int, r: Raster) -> (int, int) {
    let width = if first.sideways() { r.height } else { r.width };
    let height = if first.sideways() { r.width } else { r.height };
    let middle = second.source(x, y, width as int, height as int);
    first.source(middle.0, middle.1, r.width as int, r.height as int)
}

proof fn lemma_composed(r: Raster, first: Orientation, second: Orientation, both: Orientation)
    requires
        r.wf(),
        both.sideways() == (first.sideways() != second.sideways()),
        forall|x: int, y: int|
            #[trigger] through(first, second, x, y, r) == both.source(
                x,
                y,
                r.width as int,
                r.height as int,
            ),
    ensures
        turned(turned(r, first), second) == turned(r, both),
{
    let m = turned(r, first);
    let a = turned(m, second);
    let b = turned(r, both);
    lemma_turned(r, first);
    lemma_turned(m, second);
    lemma_turned(r, both);
    assert forall|x: int, y: int, c: int| 0 <= x < a.width && 0 <= y < a.height && 0 <= c < 4 implies
        #[trigger] a.channel(x, y, c) == b.channel(x, y, c) by {
        let middle = second.source(x, y, m.width as int, m.height as int);
        assert(a.channel(x, y, c) == m.channel(middle.0, middle.1, c));
        let source = both.source(x, y, r.width as int, r.height as int);
        assert(through(first, second, x, y, r) == source);
        assert(m.channel(middle.0, middle.1, c) == r.channel(source.0, source.1, c));
    }
    lemma_same_channels(a, b);
}

proof fn lemma_untouched(r: Raster)
    requires
        r.wf(),
    ensures
        turned(r, Orientation::NoTransforms) == r,
{
    lemma_turned(r, Orientation::NoTransforms);
    lemma_same_channels(turned(r, Orientation::NoTransforms), r);
}

proof fn lemma_undone(r: Raster, first: Orientation, second: Orientation)
    requires
        r.wf(),
        first.sideways() == second.sideways(),
        forall|x: int, y: int| #[trigger] through(first, second, x, y, r) == (x, y),
    ensures
        turned(turned(r, first), second) == r,
{
    lemma_composed(r, first, second, Orientation::NoTransforms);
    lemma_untouched(r);
}

/// A quarter turn one way and a quarter turn the other way cancel out.
pub proof fn law_turning_there_and_back(r: Raster)
    requires
        r.wf(),
    ensures
        turned(turned(r, Orientation::Rotate90), Orientation::Rotate270) == r,
        turned(turned(r, Orientation::Rotate270), Orientation::Rotate90) == r,
{
    lemma_undone(r, Orientation::Rotate90, Orientation::Rotate270);
    lemma_undone(r, Orientation::Rotate270, Orientation::Rotate90);
}

/// Two quarter turns make a half turn, and four bring the picture back.
pub proof fn law_quarter_turns_add_up(r: Raster)
    requires
        r.wf(),
    ensures
        turned(turned(r, Orientation::Rotate90), Orientation::Rotate90) == turned(
            r,
            Orientation::Rotate180,
        ),
        turned(
            turned(turned(turned(r, Orientation::Rotate90), Orientation::Rotate90), Orientation::Rotate90),
            Orientation::Rotate90,
        ) == r,
{
    lemma_composed(r, Orientation::Rotate90, Orientation::Rotate90, Orientation::Rotate180);
    let half = turned(r, Orientation::Rotate180);
    lemma_turned(r, Orientation::Rotate180);
    lemma_composed(half, Orientation::Rotate90, Orientation::Rotate90, Orientation::Rotate180);
    law_mirroring_twice_changes_nothing(r);
}

/// Mirroring both ways is a half turn, in either order.
pub proof fn law_mirroring_both_ways_is_a_half_turn(r: Raster)
    requires
        r.wf(),
    ensures
        turned(turned(r, Orientation::FlipHorizontal), Orientation::FlipVertical) == turned(
            r,
            Orientation::Rotate180,
        ),
        turned(turned(r, Orientation::FlipVertical), Orientation::FlipHorizontal) == turned(
            r,
            Orientation::Rotate180,
        ),
{
    lemma_composed(r, Orientation::FlipHorizontal, Orientation::FlipVertical, Orientation::Rotate180);
    lemma_composed(r, Orientation::FlipVertical, Orientation::FlipHorizontal, Orientation::Rotate180);
}

/// The two mirrored quarter turns are what their names say: a quarter turn, and
/// then a mirroring left to right.
pub proof fn law_mirrored_turns_are_two_steps(r: Raster)
    requires
        r.wf(),
    ensures
        turned(r, Orientation::Rotate90FlipH) == turned(
            turned(r, Orientation::Rotate90),
            Orientation::FlipHorizontal,
        ),
        turned(r, Orientation::Rotate270FlipH) == turned(
            turned(r, Orientation::Rotate270),
            Orientation::FlipHorizontal,
        ),
{
    lemma_composed(r, Orientation::Rotate90, Orientation::FlipHorizontal, Orientation::Rotate90FlipH);
    lemma_composed(r, Orientation::Rotate270, Orientation::FlipHorizontal, Orientation::Rotate270FlipH);
}

/// Where each pixel of a picture goes when it is turned or mirrored: left and right
/// change places, or top and bottom do, and a quarter turn clockwise takes the top
/// edge to the right.
pub proof fn law_where_pixels_go(r: Raster, x: int, y: int, c: int)
    requires
        r.wf(),
        0 <= x < r.width,
        0 <= y < r.height,
        0 <= c < 4,
    ensures
        ({
            let (w, h) = (r.width as int, r.height as int);
            let it = r.rgba[(y * w + x) * 4 + c];
            &&& turned(r, Orientation::NoTransforms).channel(x, y, c) == it
            &&& turned(r, Orientation::FlipHorizontal).channel(w - 1 - x, y, c) == it
            &&& turned(r, Orientation::FlipVertical).channel(x, h - 1 - y, c) == it
            &&& turned(r, Orientation::Rotate180).channel(w - 1 - x, h - 1 - y, c) == it
            &&& turned(r, Orientation::Rotate90).channel(h - 1 - y, x, c) == it
            &&& turned(r, Orientation::Rotate270).channel(y, w - 1 - x, c) == it
            &&& turned(r, Orientation::Rotate90FlipH).channel(y, x, c) == it
            &&& turned(r, Orientation::Rotate270FlipH).channel(h - 1 - y, w - 1 - x, c) == it
        }),
        turned(r, Orientation::Rotate90).width == r.height,
        turned(r, Orientation::Rotate90).height == r.width,
        turned(r, Orientation::Rotate270).width == r.height,
        turned(r, Orientation::Rotate270).height == r.width,
        turned(r, Orientation::Rotate90FlipH).width == r.height,
        turned(r, Orientation::Rotate90FlipH).height == r.width,
        turned(r, Orientation::Rotate270FlipH).width == r.height,
        turned(r, Orientation::Rotate270FlipH).height == r.width,
        turned(r, Orientation::FlipHorizontal).width == r.width,
        turned(r, Orientation::FlipHorizontal).height == r.height,
        turned(r, Orientation::FlipVertical).width == r.width,
        turned(r, Orientation::FlipVertical).height == r.height,
        turned(r, Orientation::Rotate180).width == r.width,
        turned(r, Orientation::Rotate180).height == r.height,
{
    lemma_turned(r, Orientation::NoTransforms);
    lemma_turned(r, Orientation::FlipHorizontal);
    lemma_turned(r, Orientation::FlipVertical);
    lemma_turned(r, Orientation::Rotate180);
    lemma_turned(r, Orientation::Rotate90);
    lemma_turned(r, Orientation::Rotate270);
    lemma_turned(r, Orientation::Rotate90FlipH);
    lemma_turned(r, Orientation::Rotate270FlipH);
    assert(r.channel(x, y, c) == r.rgba[(y * r.width + x) * 4 + c]);
}

/// A camera numbers its orientations by where the first row and the first column of
/// what it stored are to be seen: at the top and at the left, at the top and at the
/// right, and so on. Any other number says nothing.
pub proof fn law_a_camera_numbers_the_corners(r: Raster, value: int, x: int, y: int, c: int)
    requires
        r.wf(),
        0 <= x < r.width,
        0 <= y < r.height,
        0 <= c < 4,
    ensures
        exif_orientation(value) is Some <==> 1 <= value <= 8,
        1 <= value <= 8 ==> ({
            let shown = turned(r, exif_orientation(value)->0);
            // How far the pixel is from where the first column and the first row are seen.
            let (w, h) = (r.width as int, r.height as int);
            let place = if value == 1 {
                (x, y)
            } else if value == 2 {
                (w - 1 - x, y)
            } else if value == 3 {
                (w - 1 - x, h - 1 - y)
            } else if value == 4 {
                (x, h - 1 - y)
            } else if value == 5 {
                (y, x)
            } else if value == 6 {
                (h - 1 - y, x)
            } else if value == 7 {
                (h - 1 - y, w - 1 - x)
            } else {
                (y, w - 1 - x)
            };
            &&& shown.rgba[(place.1 * shown.width + place.0) * 4 + c] == r.rgba[(y * r.width + x) * 4
                + c]
            &&& value <= 4 ==> shown.width == r.width && shown.height == r.height
            &&& value >= 5 ==> shown.width == r.height && shown.height == r.width
        }),
{
    law_where_pixels_go(r, x, y, c);
}

/// A part that is cut out holds the pixels that lie behind its corner, and nothing
/// else.
pub proof fn law_a_part_is_where_it_was(
    r: Raster,
    left: nat,
    top: nat,
    width: nat,
    height: nat,
    x: int,
    y: int,
    c: int,
)
    requires
        r.wf(),
        left + width <= r.width,
        top + height <= r.height,
        0 <= x < width,
        0 <= y < height,
        0 <= c < 4,
    ensures
        ({
            let part = cropped(r, left, top, width, height);
            &&& part.width == width && part.height == height
            &&& part.rgba.len() == width * height * 4
            &&& part.rgba[(y * width + x) * 4 + c] == r.rgba[((top + y) * r.width + left + x) * 4 + c]
        }),
{
    lemma_cropped(r, left, top, width, height);
    let part = cropped(r, left, top, width, height);
    assert(part.channel(x, y, c) == r.channel(left + x, top + y, c));
}

/// A picture whose channels fit in memory as four-byte numbers: what resampling
/// to this width and height works with on the way.
pub open spec fn roomy(width: nat, height: nat) -> bool {
    width * height * 16 <= isize::MAX
}

/// Whether the Lanczos filter may make some pixels of others, which have this width
/// and this height, for a new width and height. Its kernel takes sines, which
/// differ between machines, so it may make more than one thing of the same pixels.
pub uninterp spec fn may_scale_to(
    width: u32,
    height: u32,
    rgba: Seq<u8>,
    new_width: u32,
    new_height: u32,
    out: Seq<u8>,
) -> bool;

/// `DynamicImage::resize_exact` with the Lanczos filter.
///
/// The result has the size that was asked for, and a picture that already has
/// it comes back as it was. The channels of another size are among those that the
/// filter may make of the picture; which of them is left open, since sines differ
/// between machines.
#[verifier::external_body]
pub(crate) fn resample(image: &Picture, width: u32, height: u32) -> (r: Picture)
    requires
        image.wf(),
        width > 0 && height > 0,
        roomy(image.width as nat, height as nat),
        roomy(width as nat, height as nat),
    ensures
        r.wf(),
        r.width == width,
        r.height == height,
        (image.width == width && image.height == height) ==> r@ == image@,
        may_scale_to(image.width, image.height, image.rgba@, width, height, r.rgba@),
{
    let buffer = image::RgbaImage::from_raw(image.width, image.height, image.rgba.clone()).unwrap();
    let filter = image::imageops::FilterType::Lanczos3;
    let scaled = image::DynamicImage::ImageRgba8(buffer).resize_exact(width, height, filter);
    Picture { width, height, rgba: scaled.into_rgba8().into_raw() }
}

} // verus!
