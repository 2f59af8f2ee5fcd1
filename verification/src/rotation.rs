//! Turning a picture by any angle.
//!
//! The angle comes as its sine and its cosine. Where a pixel of the result comes
//! from, and how much of its neighbours it takes, is worked out in double
//! precision, each step rounding as that does.

use vstd::arithmetic::div_mod::{
    lemma_fundamental_div_mod, lemma_fundamental_div_mod_converse, lemma_mod_bound,
};
use vstd::arithmetic::power2::{
    lemma_pow2_pos, lemma_pow2_strictly_increases, lemma_pow2_unfold, pow2,
};
use vstd::prelude::*;

use crate::double::{full, half_up, whole};
use crate::floating::{
    add_up, floor, from_whole, kept, lemma_divided, lemma_whole_is_near, lemma_whole_of_short,
    lemma_whole_shifts, lift, multiply, negated, nothing, of_whole, one, plus, shade, signed, times,
    rounded, to_shade, Number,
};
use crate::export::Quarters;
use crate::picture::{
    lemma_build, lemma_next_pixel, lemma_same_channels, push_pixel, turned, Picture, Raster,
};
use crate::tone::{factor, is_moderate, read};

verus! {

/// So many halves, as a number.
pub open spec fn halves(n: int) -> int {
    n * pow2(1999)
}

/// So many halves, as a number.
pub(crate) fn from_halves(n: i64) -> (r: Number)
    requires
        -0x10_0000_0000_0000 < n < 0x10_0000_0000_0000,
    ensures
        r.wf(),
        r@ == halves(n as int),
        r.within(-53, -1),
{
    proof {
        assert(0 * pow2(1999) == 0) by (nonlinear_arith);
    }
    if n == 0 {
        return nothing();
    }
    let r = if n < 0 {
        lift(true, (-n) as u64, -1)
    } else {
        lift(false, n as u64, -1)
    };
    proof {
        if n < 0 {
            assert(-((-n) * pow2(1999)) == n * pow2(1999)) by (nonlinear_arith);
        }
    }
    r
}

/// Where a pixel of the result comes from, across, for distances from the middle
/// in halves.
pub open spec fn source_x(dx: int, dy: int, sin: int, cos: int, width: int) -> int {
    plus(plus(times(halves(dx), cos), times(halves(dy), sin)), halves(width))
}

/// Where a pixel of the result comes from, down.
pub open spec fn source_y(dx: int, dy: int, sin: int, cos: int, height: int) -> int {
    plus(plus(times(halves(-dx), sin), times(halves(dy), cos)), halves(height))
}

/// A channel of a raster, nothing outside of it.
pub open spec fn channel_or_clear(r: Raster, x: int, y: int, c: int) -> u8 {
    if 0 <= x < r.width && 0 <= y < r.height {
        r.channel(x, y, c)
    } else {
        0
    }
}

/// A mix of two neighbours, `part` being how much the second one counts.
pub open spec fn blend(a: int, b: int, part: int) -> int {
    plus(times(a, plus(one() as int, -part)), times(b, part))
}

/// A channel sampled between four pixels. A pixel's place is its middle, half a
/// pixel in, so a sample landing squarely on one takes nothing of the others.
pub open spec fn sampled(r: Raster, x: int, y: int, c: int) -> u8 {
    if x < 0 || y < 0 || x >= of_whole(r.width as int) || y >= of_whole(r.height as int) {
        0
    } else {
        let (bx, by) = (plus(x, halves(-1)), plus(y, halves(-1)));
        let (x0, y0) = (bx / one() as int, by / one() as int);
        let (fx, fy) = (plus(bx, of_whole(-x0)), plus(by, of_whole(-y0)));
        let top = blend(
            of_whole(channel_or_clear(r, x0, y0, c) as int),
            of_whole(channel_or_clear(r, x0 + 1, y0, c) as int),
            fx,
        );
        let bottom = blend(
            of_whole(channel_or_clear(r, x0, y0 + 1, c) as int),
            of_whole(channel_or_clear(r, x0 + 1, y0 + 1, c) as int),
            fx,
        );
        shade(blend(top, bottom, fy)) as u8
    }
}

/// A number without its sign.
pub open spec fn size_of(a: int) -> int {
    if a < 0 {
        -a
    } else {
        a
    }
}

/// How long a side of the result is: long enough to hold the turned picture.
pub open spec fn turned_side(along: nat, across: nat, by: int, aside: int) -> nat {
    let exact = plus(
        times(of_whole(along as int), size_of(by)),
        times(of_whole(across as int), size_of(aside)),
    );
    let near = if exact < 0 {
        0
    } else {
        half_up(exact as nat, one())
    };
    if near < 1 {
        1
    } else if near > u32::MAX {
        u32::MAX as nat
    } else {
        near
    }
}

/// A raster turned by an angle, clockwise, on a canvas that holds all of it. The
/// way is walked backwards, so that every pixel of the result is filled.
pub open spec fn freely_turned(r: Raster, sin: int, cos: int) -> Raster {
    let width = turned_side(r.width, r.height, cos, sin);
    let height = turned_side(r.height, r.width, cos, sin);
    Raster::build(
        width,
        height,
        |x: int, y: int, c: int|
            {
                let (dx, dy) = (2 * x + 1 - width, 2 * y + 1 - height);
                sampled(
                    r,
                    source_x(dx, dy, sin, cos, r.width as int),
                    source_y(dx, dy, sin, cos, r.height as int),
                    c,
                )
            },
    )
}

/// A number below 2^52 in size has places behind its last bit.
proof fn lemma_small(a: Number)
    requires
        a.wf(),
        -(full() as int) * one() < a@ < full() as int * one(),
    ensures
        a.within(-2000, -1),
{
    if a.significand > 0 && a.exponent >= 0 {
        let p = pow2((a.exponent + 2000) as nat);
        lemma_pow2_pos(2000);
        if a.exponent > 0 {
            lemma_pow2_strictly_increases(2000, (a.exponent + 2000) as nat);
        }
        assert(a.significand * p >= full() * one()) by (nonlinear_arith)
            requires
                a.significand >= full(),
                p >= one(),
        ;
        assert(-(full() as int) * one() == -(full() as int * one())) by (nonlinear_arith);
    }
}

/// A number of 2^52 or more.
proof fn lemma_vast(a: Number)
    requires
        a.wf(),
        a.significand > 0,
        !a.negative,
        a.exponent >= 0,
    ensures
        a@ >= full() * one(),
{
    let p = pow2((a.exponent + 2000) as nat);
    lemma_pow2_pos(2000);
    if a.exponent > 0 {
        lemma_pow2_strictly_increases(2000, (a.exponent + 2000) as nat);
    }
    assert(a.significand * p >= full() * one()) by (nonlinear_arith)
        requires
            a.significand >= full(),
            p >= one(),
    ;
}

/// Whether a number lies in a side of so many pixels.
fn inside(v: Number, limit: u32) -> (r: bool)
    requires
        v.wf(),
    ensures
        r == (0 <= v@ < of_whole(limit as int)),
{
    let ghost d = one() as int;
    proof {
        lemma_pow2_pos(2000);
        lemma_pow2_pos((v.exponent + 2000) as nat);
        let p = pow2((v.exponent + 2000) as nat);
        assert(v.significand > 0 ==> v.significand * p > 0) by (nonlinear_arith)
            requires
                p > 0,
        ;
    }
    if v.negative {
        return false;
    }
    if v.significand > 0 && v.exponent >= 0 {
        proof {
            lemma_vast(v);
            assert(full() * one() >= limit * d) by (nonlinear_arith)
                requires
                    full() >= limit,
                    one() == d,
                    d > 0,
            ;
        }
        return false;
    }
    proof {
        lemma_fundamental_div_mod(v@, d);
        lemma_mod_bound(v@, d);
        let q = v@ / d;
        assert(q < limit <==> v@ < limit * d) by (nonlinear_arith)
            requires
                v@ == d * q + v@ % d,
                0 <= v@ % d < d,
        ;
    }
    floor(v) < limit as i64
}

/// Where a sample falls between two pixels: the one before it, how much the one
/// behind it counts, and how much the first one does.
fn weigh(v: Number, limit: u32) -> (r: (i64, Number, Number))
    requires
        v.wf(),
        v.within(-509, 217),
        0 <= v@ < of_whole(limit as int),
    ensures
        r.0 == plus(v@, halves(-1)) / one() as int,
        -1 <= r.0 <= 0x2_0000_0000,
        r.1.wf(),
        r.1.within(-613, 349),
        r.1@ == plus(plus(v@, halves(-1)), of_whole(-(r.0 as int))),
        r.2.wf(),
        r.2.within(-665, 415),
        r.2@ == plus(one() as int, -r.1@),
{
    let half = from_halves(-1);
    proof {
        assert(v.within(-509, 217) && half.within(-509, 217));
    }
    let b = add_up(v, half);
    proof {
        assert(b.within(-561, 283));
        lemma_shifted_in(v@, limit as int, b@);
        lemma_small(b);
    }
    let at: i64 = floor(b);
    let back = from_whole(-at);
    proof {
        assert(b.within(-561, 283) && back.within(-561, 283));
    }
    let part = add_up(b, back);
    proof {
        assert(part.within(-613, 349));
    }
    let whole_one = from_whole(1);
    let less = negated(part);
    proof {
        assert(whole_one.within(-613, 349) && less.within(-613, 349));
        assert(of_whole(1) == one()) by (nonlinear_arith);
    }
    let rest = add_up(whole_one, less);
    (at, part, rest)
}

/// A place in a side, moved half a pixel back, is still near it.
proof fn lemma_shifted_in(v: int, limit: int, b: int)
    requires
        0 <= v < of_whole(limit),
        0 <= limit <= u32::MAX,
        b == plus(v, halves(-1)),
    ensures
        -(full() as int) * one() < b < full() as int * one(),
        -1 <= b / one() as int <= 0x2_0000_0000,
{
    let d = one() as int;
    let half = pow2(1999) as int;
    lemma_pow2_unfold(2000);
    lemma_pow2_pos(1999);
    assert((-1) * half == -half) by (nonlinear_arith);
    let exact = v - half;
    assert(v < u32::MAX * d) by (nonlinear_arith)
        requires
            v < limit * d,
            limit <= u32::MAX,
            d > 0,
    ;
    if exact < 0 {
        lemma_whole_is_near((-exact) as nat);
        let near = whole((-exact) as nat);
        lemma_whole_of_short(1);
        lemma_whole_shifts(1, 1999);
        assert(near <= d) by (nonlinear_arith)
            requires
                2 * full() * near <= (2 * full() + 1) * (-exact),
                -exact <= half,
                d == 2 * half,
                half > 0,
                full() == 0x10_0000_0000_0000,
        ;
        assert(b >= -d);
    } else {
        lemma_whole_is_near(exact as nat);
        let near = whole(exact as nat);
        assert(near <= 2 * exact) by (nonlinear_arith)
            requires
                2 * full() * near <= (2 * full() + 1) * exact,
                exact >= 0,
                full() == 0x10_0000_0000_0000,
        ;
    }
    assert(-d <= b < 0x2_0000_0000 * d);
    assert(-(full() as int) * d < -d && 0x2_0000_0000 * d < full() as int * d) by (nonlinear_arith)
        requires
            d > 0,
            full() == 0x10_0000_0000_0000,
    ;
    lemma_fundamental_div_mod(b, d);
    lemma_mod_bound(b, d);
    let q = b / d;
    assert(-1 <= q <= 0x2_0000_0000) by (nonlinear_arith)
        requires
            b == d * q + b % d,
            0 <= b % d < d,
            -d <= b < 0x2_0000_0000 * d,
    ;
}

/// Mixes two neighbours.
fn mix(a: Number, b: Number, part: Number, rest: Number) -> (r: Number)
    requires
        a.wf() && a.within(-821, 547),
        b.wf() && b.within(-821, 547),
        part.wf() && part.within(-613, 349),
        rest.wf() && rest.within(-665, 415),
        rest@ == plus(one() as int, -part@),
    ensures
        r.wf(),
        r@ == blend(a@, b@, part@),
        a.within(-52, 0) && b.within(-52, 0) ==> r.within(-821, 547),
{
    let first = multiply(a, rest);
    let second = multiply(b, part);
    proof {
        if a.within(-52, 0) && b.within(-52, 0) {
            assert(first.within(-769, 481) && second.within(-769, 481));
        }
    }
    add_up(first, second)
}

/// The sine and the cosine of an angle.
pub struct Angle {
    pub sin: Number,
    pub cos: Number,
}

/// A number without its sign.
fn unsigned(a: Number) -> (r: Number)
    requires
        a.wf(),
    ensures
        r.wf(),
        r@ == size_of(a@),
        !r.negative,
        r.exponent == a.exponent,
        r.significand == a.significand,
{
    proof {
        lemma_pow2_pos((a.exponent + 2000) as nat);
        let p = pow2((a.exponent + 2000) as nat);
        assert(a.significand * p >= 0) by (nonlinear_arith)
            requires
                p > 0,
                a.significand >= 0,
        ;
    }
    Number { negative: false, significand: a.significand, exponent: a.exponent }
}

/// A number of 2^52 or more is past any side.
proof fn lemma_too_long(a: Number)
    requires
        a.wf(),
        a.significand > 0,
        !a.negative,
        a.exponent >= 0,
    ensures
        half_up(a@ as nat, one()) > u32::MAX,
{
    lemma_vast(a);
    lemma_pow2_pos(2000);
    let (n, d) = (a@, one() as int);
    assert((2 * n + d) / (2 * d) > u32::MAX) by (nonlinear_arith)
        requires
            n >= full() * d,
            full() == 0x10_0000_0000_0000,
            d > 0,
    ;
}

/// Works out how long a side of the result is.
fn side(along: u32, across: u32, by: Number, aside: Number) -> (r: u32)
    requires
        is_moderate(by),
        is_moderate(aside),
    ensures
        r == turned_side(along as nat, across as nat, by@, aside@),
        r >= 1,
{
    let first = multiply(from_whole(along as i64), unsigned(by));
    let second = multiply(from_whole(across as i64), unsigned(aside));
    proof {
        assert(first.within(-404, 86) && second.within(-404, 86));
    }
    let exact = add_up(first, second);
    proof {
        lemma_pow2_pos((exact.exponent + 2000) as nat);
        let p = pow2((exact.exponent + 2000) as nat);
        assert(exact.significand > 0 ==> exact.significand * p > 0) by (nonlinear_arith)
            requires
                p > 0,
        ;
        assert(0 * p == 0) by (nonlinear_arith);
    }
    if exact.negative {
        return 1;
    }
    if exact.significand > 0 && exact.exponent >= 0 {
        proof {
            lemma_too_long(exact);
        }
        return 0xFFFF_FFFF;
    }
    let near: u64 = rounded(exact);
    if near < 1 {
        1
    } else if near > 0xFFFF_FFFF {
        0xFFFF_FFFF
    } else {
        near as u32
    }
}

/// Looks a channel up, nothing outside of the picture.
fn look_up(image: &Picture, x: i64, y: i64, c: usize) -> (r: u8)
    requires
        image.wf(),
        c < 4,
    ensures
        r == channel_or_clear(image@, x as int, y as int, c as int),
{
    if 0 <= x && x < image.width as i64 && 0 <= y && y < image.height as i64 {
        let at: usize = image.offset(x as u32, y as u32);
        image.rgba[at + c]
    } else {
        0
    }
}

/// All shades as numbers.
fn all_shades() -> (r: Vec<Number>)
    ensures
        are_shades(r@),
{
    let mut list: Vec<Number> = Vec::new();
    let mut byte: u16 = 0;
    while byte < 256
        invariant
            byte <= 256,
            list@.len() == byte,
            forall|b: int|
                0 <= b < byte ==> (#[trigger] list@[b]).wf() && list@[b].within(-52, 0) && list@[b]@
                    == of_whole(b),
        decreases 256 - byte,
    {
        list.push(from_whole(byte as i64));
        byte = byte + 1;
    }
    list
}

/// Whether a list holds all shades as numbers.
spec fn are_shades(list: Seq<Number>) -> bool {
    &&& list.len() == 256
    &&& forall|b: int|
        0 <= b < 256 ==> (#[trigger] list[b]).wf() && list[b].within(-52, 0) && list[b]@ == of_whole(b)
}

/// Samples a channel between four pixels.
fn sample_channel(
    image: &Picture,
    shades: &Vec<Number>,
    across: &(i64, Number, Number),
    down: &(i64, Number, Number),
    c: usize,
) -> (r: u8)
    requires
        image.wf(),
        c < 4,
        are_shades(shades@),
        -1 <= across.0 <= 0x2_0000_0000,
        -1 <= down.0 <= 0x2_0000_0000,
        across.1.wf() && across.1.within(-613, 349),
        across.2.wf() && across.2.within(-665, 415) && across.2@ == plus(one() as int, -across.1@),
        down.1.wf() && down.1.within(-613, 349),
        down.2.wf() && down.2.within(-665, 415) && down.2@ == plus(one() as int, -down.1@),
    ensures
        r == shade(
            blend(
                blend(
                    of_whole(channel_or_clear(image@, across.0 as int, down.0 as int, c as int) as int),
                    of_whole(channel_or_clear(image@, across.0 + 1, down.0 as int, c as int) as int),
                    across.1@,
                ),
                blend(
                    of_whole(channel_or_clear(image@, across.0 as int, down.0 + 1, c as int) as int),
                    of_whole(channel_or_clear(image@, across.0 + 1, down.0 + 1, c as int) as int),
                    across.1@,
                ),
                down.1@,
            ),
        ),
{
    let (x, y): (i64, i64) = (across.0, down.0);
    let p00: u8 = look_up(image, x, y, c);
    let p10: u8 = look_up(image, x + 1, y, c);
    let p01: u8 = look_up(image, x, y + 1, c);
    let p11: u8 = look_up(image, x + 1, y + 1, c);
    let top = mix(shades[p00 as usize], shades[p10 as usize], across.1, across.2);
    let bottom = mix(shades[p01 as usize], shades[p11 as usize], across.1, across.2);
    to_shade(mix(top, bottom, down.1, down.2))
}

/// Samples a pixel.
fn sample(image: &Picture, shades: &Vec<Number>, x: Number, y: Number) -> (r: Vec<u8>)
    requires
        image.wf(),
        are_shades(shades@),
        x.wf() && x.within(-509, 217),
        y.wf() && y.within(-509, 217),
    ensures
        r@.len() == 4,
        forall|c: int| 0 <= c < 4 ==> #[trigger] r@[c] == sampled(image@, x@, y@, c),
{
    if !inside(x, image.width) || !inside(y, image.height) {
        return vec![0, 0, 0, 0];
    }
    let across = weigh(x, image.width);
    let down = weigh(y, image.height);
    vec![
        sample_channel(image, shades, &across, &down, 0),
        sample_channel(image, shades, &across, &down, 1),
        sample_channel(image, shades, &across, &down, 2),
        sample_channel(image, shades, &across, &down, 3),
    ]
}

impl Angle {
    /// Both numbers are of a size that sines have.
    pub open spec fn wf(self) -> bool {
        is_moderate(self.sin) && is_moderate(self.cos)
    }

    /// Reads a sine and a cosine from the bits of doubles. Nothing where one of
    /// them is out of all proportion.
    pub fn from_bits(sin: u64, cos: u64) -> (r: Option<Angle>)
        ensures
            match r {
                Some(angle) => angle.wf() && factor(sin) == Some(angle.sin@) && factor(cos)
                    == Some(angle.cos@),
                None => factor(sin) is None || factor(cos) is None,
            },
    {
        match (read(sin), read(cos)) {
            (Some(sin), Some(cos)) => Some(Angle { sin, cos }),
            _ => None,
        }
    }

    /// The size of the canvas that holds a turned picture.
    pub fn size(&self, width: u32, height: u32) -> (r: (u32, u32))
        requires
            self.wf(),
        ensures
            r.0 == turned_side(width as nat, height as nat, self.cos@, self.sin@),
            r.1 == turned_side(height as nat, width as nat, self.cos@, self.sin@),
            r.0 >= 1,
            r.1 >= 1,
    {
        (side(width, height, self.cos, self.sin), side(height, width, self.cos, self.sin))
    }
}

/// The place in the picture that a place on the canvas comes from: distances from
/// the middle, in halves, turned, and counted from the corner.
fn place(first: i64, by: Number, second: i64, aside: Number, middle: u32) -> (r: Number)
    requires
        -0x10_0000_0000_0000 < first < 0x10_0000_0000_0000,
        -0x10_0000_0000_0000 < second < 0x10_0000_0000_0000,
        is_moderate(by),
        is_moderate(aside),
    ensures
        r.wf(),
        r.within(-509, 217),
        r@ == plus(
            plus(times(halves(first as int), by@), times(halves(second as int), aside@)),
            halves(middle as int),
        ),
{
    let a = multiply(from_halves(first), by);
    let b = multiply(from_halves(second), aside);
    proof {
        assert(a.within(-405, 85) && b.within(-405, 85));
    }
    let turned = add_up(a, b);
    let corner = from_halves(middle as i64);
    proof {
        assert(turned.within(-457, 151) && corner.within(-457, 151));
    }
    add_up(turned, corner)
}

/// The channels of the result are samples of the picture.
proof fn lemma_freely_turned(r: Raster, sin: int, cos: int)
    ensures
        freely_turned(r, sin, cos).wf(),
        ({
            let goal = freely_turned(r, sin, cos);
            forall|x: int, y: int, c: int|
                0 <= x < goal.width && 0 <= y < goal.height && 0 <= c < 4 ==> #[trigger] goal.channel(
                    x,
                    y,
                    c,
                ) == sampled(
                    r,
                    source_x(2 * x + 1 - goal.width, 2 * y + 1 - goal.height, sin, cos, r.width as int),
                    source_y(2 * x + 1 - goal.width, 2 * y + 1 - goal.height, sin, cos, r.height as int),
                    c,
                )
        }),
{
    let width = turned_side(r.width, r.height, cos, sin);
    let height = turned_side(r.height, r.width, cos, sin);
    lemma_build(
        width,
        height,
        |x: int, y: int, c: int|
            {
                let (dx, dy) = (2 * x + 1 - width, 2 * y + 1 - height);
                sampled(
                    r,
                    source_x(dx, dy, sin, cos, r.width as int),
                    source_y(dx, dy, sin, cos, r.height as int),
                    c,
                )
            },
    );
}

/// Samples the pixel that a place on the canvas shows.
fn pixel_at(image: &Picture, angle: &Angle, shades: &Vec<Number>, dx: i64, dy: i64) -> (r: Vec<u8>)
    requires
        image.wf(),
        angle.wf(),
        are_shades(shades@),
        -0x10_0000_0000_0000 < dx < 0x10_0000_0000_0000,
        -0x10_0000_0000_0000 < dy < 0x10_0000_0000_0000,
    ensures
        r@.len() == 4,
        forall|c: int|
            0 <= c < 4 ==> #[trigger] r@[c] == sampled(
                image@,
                source_x(dx as int, dy as int, angle.sin@, angle.cos@, image.width as int),
                source_y(dx as int, dy as int, angle.sin@, angle.cos@, image.height as int),
                c,
            ),
{
    let x = place(dx, angle.cos, dy, angle.sin, image.width);
    let y = place(-dx, angle.sin, dy, angle.cos, image.height);
    sample(image, shades, x, y)
}

/// Turns a picture by an angle onto a canvas big enough to hold the result,
/// mixing neighbours so that edges do not come out jagged.
pub fn rotate_freely(image: &Picture, angle: &Angle) -> (r: Picture)
    requires
        image.wf(),
        angle.wf(),
    ensures
        r.wf(),
        r@ == freely_turned(image@, angle.sin@, angle.cos@),
{
    let (width, height): (u32, u32) = angle.size(image.width, image.height);
    let shades = all_shades();
    let ghost goal = freely_turned(image@, angle.sin@, angle.cos@);
    let mut rgba: Vec<u8> = Vec::new();
    let mut y: u32 = 0;
    proof {
        lemma_freely_turned(image@, angle.sin@, angle.cos@);
    }
    while y < height
        invariant
            image.wf(),
            angle.wf(),
            are_shades(shades@),
            y <= height,
            goal == freely_turned(image@, angle.sin@, angle.cos@),
            goal.wf(),
            goal.width == width,
            goal.height == height,
            rgba@ == goal.rgba.subrange(0, y * width * 4),
            y * width * 4 <= goal.rgba.len(),
        decreases height - y,
    {
        let mut x: u32 = 0;
        proof {
            assert((y * width + 0) * 4 == y * width * 4);
        }
        while x < width
            invariant
                image.wf(),
                angle.wf(),
                are_shades(shades@),
                x <= width,
                y < height,
                goal == freely_turned(image@, angle.sin@, angle.cos@),
                goal.wf(),
                goal.width == width,
                goal.height == height,
                rgba@ == goal.rgba.subrange(0, (y * width + x) * 4),
                0 <= (y * width + x) * 4 <= goal.rgba.len(),
            decreases width - x,
        {
            let dx: i64 = 2 * x as i64 + 1 - width as i64;
            let dy: i64 = 2 * y as i64 + 1 - height as i64;
            let pixel = pixel_at(image, angle, &shades, dx, dy);
            proof {
                lemma_freely_turned(image@, angle.sin@, angle.cos@);
                lemma_next_pixel(goal, pixel@, 0, x as int, y as int);
            }
            push_pixel(&mut rgba, &pixel, 0);
            x = x + 1;
        }
        y = y + 1;
        proof {
            assert((y - 1) * width + width == y * width) by (nonlinear_arith);
        }
    }
    proof {
        assert(height * width == width * height) by (nonlinear_arith);
        assert(rgba@ =~= goal.rgba);
    }
    Picture { width, height, rgba }
}

/// Halves are exact, and so are their products with one, with minus one and with
/// nothing.
proof fn lemma_halves(n: int)
    requires
        -0x10_0000_0000_0000 < n < 0x10_0000_0000_0000,
    ensures
        kept(halves(n)) == halves(n),
        times(halves(n), one() as int) == halves(n),
        times(halves(n), -(one() as int)) == halves(-n),
        times(halves(n), 0) == 0,
{
    let unit = pow2(1999);
    let negative = n < 0;
    let m: nat = if negative { (-n) as nat } else { n as nat };
    lemma_pow2_pos(1999);
    lemma_pow2_pos(2000);
    lemma_whole_of_short(m);
    lemma_whole_of_short(0);
    lemma_whole_shifts(m, 1999);
    lemma_whole_shifts(m * unit, 2000);
    assert((-n) * unit == -(n * unit)) by (nonlinear_arith);
    assert(m * unit >= 0) by (nonlinear_arith)
        requires
            m >= 0,
            unit > 0,
    ;
    assert(halves(n) == signed(negative, m * unit));
    let d = one() as int;
    let size = (m * unit) * one();
    assert(halves(n) * d == signed(negative, size) && halves(n) * (-d) == signed(!negative, size))
        by (nonlinear_arith)
        requires
            halves(n) == signed(negative, m * unit),
            signed(negative, m * unit) == (if negative { -((m * unit) as int) } else { (m * unit) as int }),
            signed(negative, size) == (if negative { -(size as int) } else { size as int }),
            signed(!negative, size) == (if negative { size as int } else { -(size as int) }),
            size == (m * unit) * one(),
            d == one(),
    ;
    lemma_divided(negative, m * unit, kept(halves(n) * d));
    lemma_divided(!negative, m * unit, kept(halves(n) * (-d)));
    assert(halves(n) * 0 == 0) by (nonlinear_arith);
    lemma_divided(false, 0, 0);
}

/// A sum of halves is exact.
proof fn lemma_halves_add(a: int, b: int)
    requires
        -0x10_0000_0000_0000 < a + b < 0x10_0000_0000_0000,
    ensures
        plus(halves(a), halves(b)) == halves(a + b),
{
    let unit = pow2(1999);
    assert(a * unit + b * unit == (a + b) * unit) by (nonlinear_arith);
    lemma_halves(a + b);
}

/// A whole number is twice as many halves.
proof fn lemma_whole_halves(n: int)
    ensures
        of_whole(n) == halves(2 * n),
{
    lemma_pow2_unfold(2000);
    let unit = pow2(1999);
    assert(n * (2 * unit) == (2 * n) * unit) by (nonlinear_arith);
}

/// A whole number divided by one.
proof fn lemma_whole_back(n: int)
    ensures
        of_whole(n) / one() as int == n,
        n >= 0 ==> half_up(of_whole(n) as nat, one()) == n,
        n >= 0 ==> of_whole(n) >= 0,
{
    lemma_pow2_pos(2000);
    let d = one() as int;
    assert(n * d == d * n) by (nonlinear_arith);
    lemma_fundamental_div_mod_converse(n * d, d, n, 0);
    if n >= 0 {
        assert(n * d >= 0) by (nonlinear_arith)
            requires
                n >= 0,
                d > 0,
        ;
        assert(2 * (n * d) + d == n * (2 * d) + d) by (nonlinear_arith);
        lemma_fundamental_div_mod_converse(2 * (n * d) + d, 2 * d, n, d);
    }
}

/// A sample squarely on a pixel is that pixel.
proof fn lemma_sampled_at_middle(r: Raster, i: int, j: int, c: int)
    requires
        r.wf(),
        r.width <= u32::MAX,
        r.height <= u32::MAX,
        0 <= i < r.width,
        0 <= j < r.height,
        0 <= c < 4,
    ensures
        sampled(r, halves(2 * i + 1), halves(2 * j + 1), c) == r.channel(i, j, c),
{
    lemma_pow2_pos(1999);
    lemma_pow2_pos(2000);
    let unit = pow2(1999) as int;
    assert(halves(2 * i + 1) >= 0 && halves(2 * j + 1) >= 0) by (nonlinear_arith)
        requires
            halves(2 * i + 1) == (2 * i + 1) * unit,
            halves(2 * j + 1) == (2 * j + 1) * unit,
            i >= 0,
            j >= 0,
            unit > 0,
    ;
    lemma_whole_halves(r.width as int);
    lemma_whole_halves(r.height as int);
    assert((2 * i + 1) * unit < (2 * r.width) * unit && (2 * j + 1) * unit < (2 * r.height) * unit)
        by (nonlinear_arith)
        requires
            i < r.width,
            j < r.height,
            unit > 0,
    ;
    lemma_halves_add(2 * i + 1, -1);
    lemma_halves_add(2 * j + 1, -1);
    lemma_whole_halves(i);
    lemma_whole_halves(j);
    lemma_whole_back(i);
    lemma_whole_back(j);
    lemma_whole_halves(-i);
    lemma_whole_halves(-j);
    lemma_halves_add(2 * i, -2 * i);
    lemma_halves_add(2 * j, -2 * j);
    lemma_halves(0);
    assert(halves(0) == 0) by (nonlinear_arith)
        requires
            halves(0) == 0 * pow2(1999),
    ;
    lemma_first_only(channel_or_clear(r, i, j, c), channel_or_clear(r, i + 1, j, c));
    lemma_first_only(channel_or_clear(r, i, j + 1, c), channel_or_clear(r, i + 1, j + 1, c));
    lemma_first_only(channel_or_clear(r, i, j, c), channel_or_clear(r, i, j + 1, c));
    lemma_whole_back(channel_or_clear(r, i, j, c) as int);
}

/// A mix in which the second neighbour counts for nothing is the first one.
proof fn lemma_first_only(a: u8, b: u8)
    ensures
        blend(of_whole(a as int), of_whole(b as int), 0) == of_whole(a as int),
{
    lemma_whole_halves(a as int);
    lemma_whole_halves(b as int);
    lemma_whole_halves(1);
    lemma_halves(2 * a);
    lemma_halves(2 * b);
    lemma_halves(2);
    assert(of_whole(1) == one()) by (nonlinear_arith)
        requires
            of_whole(1) == 1 * one(),
    ;
}

/// The sine of so many quarter turns.
pub open spec fn sine(turns: Quarters) -> int {
    match turns {
        Quarters::Zero => 0,
        Quarters::One => one() as int,
        Quarters::Two => 0,
        Quarters::Three => -(one() as int),
    }
}

/// The cosine of so many quarter turns.
pub open spec fn cosine(turns: Quarters) -> int {
    match turns {
        Quarters::Zero => one() as int,
        Quarters::One => 0,
        Quarters::Two => -(one() as int),
        Quarters::Three => 0,
    }
}

/// A side of a picture turned by quarters is a side of the picture.
proof fn lemma_quarter_side(along: nat, across: nat, turns: Quarters)
    requires
        1 <= along <= u32::MAX,
        1 <= across <= u32::MAX,
    ensures
        turned_side(along, across, cosine(turns), sine(turns)) == (if turns is Zero || turns is Two {
            along
        } else {
            across
        }),
{
    lemma_pow2_pos(2000);
    lemma_whole_halves(along as int);
    lemma_whole_halves(across as int);
    lemma_halves(2 * along as int);
    lemma_halves(2 * across as int);
    lemma_whole_back(along as int);
    lemma_whole_back(across as int);
}

/// Turning freely by a quarter, or by any number of them, gives exactly what the
/// quarter turn gives: nothing is mixed, and nothing is lost.
pub proof fn law_a_free_quarter_turn_is_exact(r: Raster, turns: Quarters)
    requires
        r.wf(),
        1 <= r.width <= u32::MAX,
        1 <= r.height <= u32::MAX,
    ensures
        freely_turned(r, sine(turns), cosine(turns)) == turned(r, turns.orientation()),
{
    let (sin, cos) = (sine(turns), cosine(turns));
    let orientation = turns.orientation();
    let (free, exact) = (freely_turned(r, sin, cos), turned(r, orientation));
    lemma_quarter_side(r.width, r.height, turns);
    lemma_quarter_side(r.height, r.width, turns);
    lemma_freely_turned(r, sin, cos);
    crate::picture::lemma_turned(r, orientation);
    assert(free.width == exact.width && free.height == exact.height);
    assert forall|x: int, y: int, c: int|
        0 <= x < free.width && 0 <= y < free.height && 0 <= c < 4 implies #[trigger] free.channel(
        x,
        y,
        c,
    ) == exact.channel(x, y, c) by {
        let (i, j) = orientation.source(x, y, r.width as int, r.height as int);
        let (dx, dy) = (2 * x + 1 - free.width, 2 * y + 1 - free.height);
        lemma_quarter_source(dx, dy, turns, r.width as int, r.height as int);
        assert(source_x(dx, dy, sin, cos, r.width as int) == halves(2 * i + 1));
        assert(source_y(dx, dy, sin, cos, r.height as int) == halves(2 * j + 1));
        lemma_sampled_at_middle(r, i, j, c);
    }
    lemma_same_channels(free, exact);
}

/// Where a pixel comes from when turning by quarters.
proof fn lemma_quarter_source(dx: int, dy: int, turns: Quarters, width: int, height: int)
    requires
        -0x2_0000_0000 < dx < 0x2_0000_0000,
        -0x2_0000_0000 < dy < 0x2_0000_0000,
        0 < width <= u32::MAX,
        0 < height <= u32::MAX,
    ensures
        source_x(dx, dy, sine(turns), cosine(turns), width) == halves(
            width + match turns {
                Quarters::Zero => dx,
                Quarters::One => dy,
                Quarters::Two => -dx,
                Quarters::Three => -dy,
            },
        ),
        source_y(dx, dy, sine(turns), cosine(turns), height) == halves(
            height + match turns {
                Quarters::Zero => dy,
                Quarters::One => -dx,
                Quarters::Two => -dy,
                Quarters::Three => dx,
            },
        ),
{
    lemma_halves(dx);
    lemma_halves(dy);
    lemma_halves(-dx);
    lemma_halves(-dy);
    lemma_halves(0);
    assert(halves(0) == 0) by (nonlinear_arith)
        requires
            halves(0) == 0 * pow2(1999),
    ;
    let (x, y) = match turns {
        Quarters::Zero => (dx, dy),
        Quarters::One => (dy, -dx),
        Quarters::Two => (-dx, -dy),
        Quarters::Three => (-dy, dx),
    };
    lemma_halves_add(x, width);
    lemma_halves_add(y, height);
}

} // verus!
