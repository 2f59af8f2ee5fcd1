//! The edit sidebar: which section is open, what its boxes mean, and what it
//! says about them.

use crate::compress::{describe, described, Fit, KB, MB};
use crate::crop::{held, Aspect, End, Handle, PIXEL};
use crate::double::{
    divided_by, divided_side, full, half_even, half_up, lemma_half_even_is_near, lemma_ratio_places, nearest,
    nearest_double, places_for, rounded, rounded_to_even, scaled_by, scaled_side, Double,
};
use crate::draw::{tool_order, tools, Tool};
use crate::export::{refusal_text, Target};
use crate::paths::{lossy_text, read_lossily, stem_of, FilePath};
use crate::wording::{append_decimal, decimal};
use vstd::arithmetic::power2::*;
use vstd::prelude::*;

verus! {

/// The largest number a size box takes.
pub const LARGEST_SIDE: u32 = 30000;

/// The double nearest to a picture's width over its height.
fn shape_of(natural: (u32, u32)) -> (r: Double)
    requires
        natural.0 > 0,
        natural.1 > 0,
    ensures
        r@ == nearest(natural.0 as nat, natural.1 as nat),
        full() <= r.numerator <= 2 * full(),
        0x10_0000 <= pow2(r.places as nat) < 0x1_0000_0000 * (2 * full()),
        r.places <= 85,
{
    proof {
        lemma_ratio_places(natural.0 as nat, natural.1 as nat);
        assert((natural.0 as nat) < 2 * (natural.1 as nat) * full()) by (nonlinear_arith)
            requires
                natural.0 <= u32::MAX,
                natural.1 >= 1,
                full() == 0x10_0000_0000_0000,
        ;
    }
    nearest_double(natural.0 as u128, natural.1 as u128)
}

/// A side in pixels with one of its ends pulled so far, in units: to the nearest
/// pixel, and no further than the boxes go.
pub open spec fn pulled_side(side: int, delta: int, end: End) -> int {
    let moved = match end {
        End::Low => side * PIXEL - delta,
        End::High => side * PIXEL + delta,
        End::Neither => side * PIXEL,
    };
    held((2 * moved + PIXEL) / (2 * PIXEL as int), 1, LARGEST_SIDE as int)
}

/// How far apart two lengths are.
pub open spec fn gap(a: int, b: int) -> int {
    if a >= b {
        a - b
    } else {
        b - a
    }
}

/// The size that pulling a grip on the picture asks for, from the size that it had
/// when the grip was taken. Where the shape is kept, the side that was pulled leads;
/// at a corner, the one that changed by more of itself.
pub open spec fn pulled_size(
    natural: (u32, u32),
    start: (u32, u32),
    grip: Handle,
    dx: int,
    dy: int,
    keep_shape: bool,
) -> (nat, nat) {
    let width = pulled_side(start.0 as int, dx, grip.across());
    let height = pulled_side(start.1 as int, dy, grip.down());
    let width_led = match (grip.across(), grip.down()) {
        (End::Neither, End::Neither) => true,
        (End::Neither, _) => false,
        (_, End::Neither) => true,
        _ => gap(width, start.0 as int) * start.1 >= gap(height, start.1 as int) * start.0,
    };
    typed_size(natural, width as u32, height as u32, keep_shape, width_led)
}

/// Works out a side with one of its ends pulled.
fn pull_side(side: u32, delta: i64, end: End) -> (r: u32)
    ensures
        r == pulled_side(side as int, delta as int, end),
        1 <= r <= LARGEST_SIDE,
{
    let whole: i128 = side as i128 * 65_536;
    let moved: i128 = match end {
        End::Low => whole - delta as i128,
        End::High => whole + delta as i128,
        End::Neither => whole,
    };
    if moved <= 0 {
        proof {
            let far: int = 2 * (moved as int) + PIXEL;
            assert(far / (2 * PIXEL as int) <= 0) by (nonlinear_arith)
                requires
                    far <= PIXEL,
                    PIXEL == 65_536,
            ;
        }
        return 1;
    }
    let near: i128 = (2 * moved + 65_536) / 131_072;
    if near < 1 {
        1
    } else if near > 30_000 {
        30_000
    } else {
        near as u32
    }
}

/// Works out the size that pulling a grip asks for.
pub fn size_pulled(
    natural: (u32, u32),
    start: (u32, u32),
    grip: Handle,
    dx: i64,
    dy: i64,
    keep_shape: bool,
) -> (r: (u32, u32))
    requires
        natural.0 > 0,
        natural.1 > 0,
    ensures
        (r.0 as nat, r.1 as nat) == pulled_size(
            natural,
            start,
            grip,
            dx as int,
            dy as int,
            keep_shape,
        ),
        r.0 >= 1,
        r.1 >= 1,
{
    let across = grip.horizontal();
    let down = grip.vertical();
    let width: u32 = pull_side(start.0, dx, across);
    let height: u32 = pull_side(start.1, dy, down);
    let wider: u32 = if width >= start.0 { width - start.0 } else { start.0 - width };
    let taller: u32 = if height >= start.1 { height - start.1 } else { start.1 - height };
    proof {
        assert(wider * start.1 <= 0xFFFF_FFFF * 0xFFFF_FFFF) by (nonlinear_arith)
            requires
                0 <= wider <= 0xFFFF_FFFF,
                0 <= start.1 <= 0xFFFF_FFFF,
        ;
        assert(taller * start.0 <= 0xFFFF_FFFF * 0xFFFF_FFFF) by (nonlinear_arith)
            requires
                0 <= taller <= 0xFFFF_FFFF,
                0 <= start.0 <= 0xFFFF_FFFF,
        ;
    }
    let width_led = match (across, down) {
        (End::Neither, End::Neither) => true,
        (End::Neither, _) => false,
        (_, End::Neither) => true,
        _ => wider as u64 * start.1 as u64 >= taller as u64 * start.0 as u64,
    };
    size_typed(natural, width, height, keep_shape, width_led)
}

/// A grip on an edge changes one side only, where the picture may stretch.
pub proof fn law_an_edge_stretches_one_side(
    natural: (u32, u32),
    start: (u32, u32),
    grip: Handle,
    dx: int,
    dy: int,
)
    requires
        1 <= start.0 <= LARGEST_SIDE,
        1 <= start.1 <= LARGEST_SIDE,
    ensures
        grip.across() is Neither ==> pulled_size(natural, start, grip, dx, dy, false).0 == start.0,
        grip.down() is Neither ==> pulled_size(natural, start, grip, dx, dy, false).1 == start.1,
        pulled_size(natural, start, grip, 0, 0, false) == (start.0 as nat, start.1 as nat),
{
    lemma_pulled_by_pixels(start.0 as int, 0, End::Low);
    lemma_pulled_by_pixels(start.0 as int, 0, End::High);
    lemma_pulled_by_pixels(start.0 as int, 0, End::Neither);
    lemma_pulled_by_pixels(start.1 as int, 0, End::Low);
    lemma_pulled_by_pixels(start.1 as int, 0, End::High);
    lemma_pulled_by_pixels(start.1 as int, 0, End::Neither);
    assert(pulled_side(start.0 as int, dx, End::Neither) == pulled_side(
        start.0 as int,
        0,
        End::Neither,
    ));
    assert(pulled_side(start.1 as int, dy, End::Neither) == pulled_side(
        start.1 as int,
        0,
        End::Neither,
    ));
}

/// What a pull of whole pixels does to a side.
proof fn lemma_pulled_by_pixels(side: int, pixels: int, end: End)
    ensures
        pulled_side(side, pixels * PIXEL, end) == held(
            match end {
                End::Low => side - pixels,
                End::High => side + pixels,
                End::Neither => side,
            },
            1,
            LARGEST_SIDE as int,
        ),
{
    assert(side * PIXEL == 65_536 * side && pixels * PIXEL == 65_536 * pixels);
    let moved = match end {
        End::Low => side - pixels,
        End::High => side + pixels,
        End::Neither => side,
    };
    assert((2 * (65_536 * moved) + 65_536) / 131_072 == moved);
}

/// Pulling a grip away from the picture grows it by as many pixels as it was pulled,
/// pushing it in shrinks it, and the sides stay between one pixel and the most that a
/// box takes.
pub proof fn law_a_grip_adds_what_it_is_pulled(
    natural: (u32, u32),
    start: (u32, u32),
    x: int,
    y: int,
)
    ensures
        ({
            let pulled = |grip: Handle|
                pulled_size(natural, start, grip, x * PIXEL, y * PIXEL, false);
            let fits = |side: int|
                if side < 1 {
                    1
                } else if side > 30_000 {
                    30_000
                } else {
                    side
                };
            let (w, h): (int, int) = (start.0 as int, start.1 as int);
            &&& pulled(Handle::East) == (fits(w + x) as nat, fits(h) as nat)
            &&& pulled(Handle::West) == (fits(w - x) as nat, fits(h) as nat)
            &&& pulled(Handle::South) == (fits(w) as nat, fits(h + y) as nat)
            &&& pulled(Handle::North) == (fits(w) as nat, fits(h - y) as nat)
            &&& pulled(Handle::SouthEast) == (fits(w + x) as nat, fits(h + y) as nat)
            &&& pulled(Handle::NorthEast) == (fits(w + x) as nat, fits(h - y) as nat)
            &&& pulled(Handle::SouthWest) == (fits(w - x) as nat, fits(h + y) as nat)
            &&& pulled(Handle::NorthWest) == (fits(w - x) as nat, fits(h - y) as nat)
        }),
{
    let (w, h): (int, int) = (start.0 as int, start.1 as int);
    lemma_pulled_by_pixels(w, x, End::Low);
    lemma_pulled_by_pixels(w, x, End::High);
    lemma_pulled_by_pixels(w, x, End::Neither);
    lemma_pulled_by_pixels(h, y, End::Low);
    lemma_pulled_by_pixels(h, y, End::High);
    lemma_pulled_by_pixels(h, y, End::Neither);
}

/// As much of a number as 32 bits hold.
pub open spec fn capped(n: nat) -> nat {
    if n > u32::MAX {
        u32::MAX as nat
    } else {
        n
    }
}

/// The size that two boxes ask for. Where the shape is kept, whichever box was
/// touched leads and the other follows.
pub open spec fn typed_size(
    natural: (u32, u32),
    width: u32,
    height: u32,
    keep_shape: bool,
    width_led: bool,
) -> (nat, nat) {
    let shape = nearest(natural.0 as nat, natural.1 as nat);
    if !keep_shape {
        (width as nat, height as nat)
    } else if width_led {
        (width as nat, capped(divided_side(width as nat, shape)))
    } else {
        (capped(scaled_side(height as nat, shape)), height as nat)
    }
}

/// Works out the size that two boxes ask for.
pub fn size_typed(natural: (u32, u32), width: u32, height: u32, keep_shape: bool, width_led: bool) -> (r: (
    u32,
    u32,
))
    requires
        natural.0 > 0,
        natural.1 > 0,
        1 <= width <= LARGEST_SIDE,
        1 <= height <= LARGEST_SIDE,
    ensures
        (r.0 as nat, r.1 as nat) == typed_size(natural, width, height, keep_shape, width_led),
        r.0 >= 1,
        r.1 >= 1,
{
    if !keep_shape {
        return (width, height);
    }
    let shape = shape_of(natural);
    if width_led {
        proof {
            assert(width * pow2(shape.places as nat) < 2 * shape.numerator * full())
                by (nonlinear_arith)
                requires
                    width <= 30000,
                    pow2(shape.places as nat) < 0x1_0000_0000 * (2 * full()),
                    shape.numerator >= full(),
                    full() == 0x10_0000_0000_0000,
            ;
        }
        let near: u128 = rounded(divided_by(width, shape));
        let height: u32 = if near < 1 {
            1
        } else if near > 0xFFFF_FFFF {
            0xFFFF_FFFF
        } else {
            near as u32
        };
        (width, height)
    } else {
        proof {
            assert(height * shape.numerator < 2 * pow2(shape.places as nat) * full())
                by (nonlinear_arith)
                requires
                    height <= 30000,
                    pow2(shape.places as nat) >= 0x10_0000,
                    shape.numerator <= 2 * full(),
                    full() == 0x10_0000_0000_0000,
            ;
        }
        let near: u128 = rounded(scaled_by(height, shape));
        let width: u32 = if near < 1 {
            1
        } else if near > 0xFFFF_FFFF {
            0xFFFF_FFFF
        } else {
            near as u32
        };
        (width, height)
    }
}

/// Where the shape is kept, typing a side of the picture's own size into either
/// box asks for the picture's own size.
pub proof fn law_the_own_size_keeps_its_shape(
    natural: (u32, u32),
    width: u32,
    height: u32,
    width_led: bool,
)
    requires
        natural.0 > 0,
        natural.1 > 0,
        width_led ==> width == natural.0,
        !width_led ==> height == natural.1,
    ensures
        typed_size(natural, width, height, true, width_led) == (natural.0 as nat, natural.1 as nat),
{
    let (w, h) = (natural.0 as nat, natural.1 as nat);
    if width_led {
        lemma_dividing_brings_back(w, h);
    } else {
        lemma_multiplying_brings_back(w, h);
    }
}

proof fn lemma_shape_is_near(w: nat, h: nat)
    requires
        0 < w <= u32::MAX,
        0 < h <= u32::MAX,
    ensures
        ({
            let (r, unit) = (nearest(w, h).0, pow2(nearest(w, h).1));
            &&& r >= full()
            &&& unit >= 1
            &&& w * unit >= h * full()
            &&& 2 * (r * h) <= 2 * (w * unit) + h
            &&& 2 * (w * unit) <= 2 * (r * h) + h
        }),
{
    let r: nat = nearest(w, h).0;
    let unit: nat = pow2(nearest(w, h).1);
    lemma_ratio_places(w, h);
    lemma_half_even_is_near(w * unit, h);
    assert(r >= full()) by (nonlinear_arith)
        requires
            w * unit >= h * full(),
            2 * (w * unit) <= 2 * (r * h) + h,
            h > 0,
    ;
}

proof fn lemma_dividing_brings_back(w: nat, h: nat)
    requires
        0 < w <= u32::MAX,
        0 < h <= u32::MAX,
    ensures
        divided_side(w, nearest(w, h)) == h,
{
    let r: nat = nearest(w, h).0;
    let unit: nat = pow2(nearest(w, h).1);
    lemma_shape_is_near(w, h);
    let n: nat = w * unit;
    let exact = nearest(n, r);
    let fine: nat = pow2(exact.1);
    lemma_pow2_pos(exact.1);
    lemma2_to64();
    assert(0 < n) by (nonlinear_arith)
        requires
            n == w * unit,
            w > 0,
            unit >= 1,
    ;
    assert(2 * n < r * full()) by (nonlinear_arith)
        requires
            2 * n <= 2 * (r * h) + h,
            h <= u32::MAX,
            r >= full(),
            full() == 0x10_0000_0000_0000,
    ;
    assert(exact.1 == 1 + places_for(2 * n, r));
    assert(places_for(2 * n, r) >= 1);
    lemma_pow2_unfold(exact.1);
    lemma_pow2_unfold((exact.1 - 1) as nat);
    lemma_pow2_pos((exact.1 - 2) as nat);
    lemma_half_even_is_near(n * fine, r);
    lemma_near_after_two(exact.0, n, r, fine, h);
}

proof fn lemma_multiplying_brings_back(w: nat, h: nat)
    requires
        0 < w <= u32::MAX,
        0 < h <= u32::MAX,
    ensures
        scaled_side(h, nearest(w, h)) == w,
{
    let r: nat = nearest(w, h).0;
    let unit: nat = pow2(nearest(w, h).1);
    lemma_shape_is_near(w, h);
    let m: nat = h * r;
    let exact = nearest(m, unit);
    let fine: nat = pow2(exact.1);
    lemma_pow2_pos(exact.1);
    lemma2_to64();
    assert(h * 0x10_0000 <= unit) by (nonlinear_arith)
        requires
            w * unit >= h * full(),
            w <= u32::MAX,
            full() == 0x10_0000_0000_0000,
    ;
    assert(m == r * h) by (nonlinear_arith)
        requires
            m == h * r,
    ;
    assert(unit * w == w * unit) by (nonlinear_arith);
    assert(0 < m) by (nonlinear_arith)
        requires
            m == h * r,
            h > 0,
            r >= full(),
            full() == 0x10_0000_0000_0000,
    ;
    assert(2 * m < unit * full()) by (nonlinear_arith)
        requires
            2 * m <= 2 * (w * unit) + h,
            h * 0x10_0000 <= unit,
            w <= u32::MAX,
            full() == 0x10_0000_0000_0000,
            unit >= 1,
    ;
    assert(exact.1 == 1 + places_for(2 * m, unit));
    assert(places_for(2 * m, unit) >= 1);
    lemma_pow2_unfold(exact.1);
    lemma_pow2_unfold((exact.1 - 1) as nat);
    lemma_pow2_pos((exact.1 - 2) as nat);
    lemma_half_even_is_near(m * fine, unit);
    lemma_near_after_one(exact.0, m, unit, fine, w, h);
}

/// A fraction `n / r` a little off `h`, rounded to `e / fine`, still rounds to `h`.
proof fn lemma_near_after_two(e: nat, n: nat, r: nat, fine: nat, h: nat)
    requires
        0 < h <= u32::MAX,
        r >= full(),
        fine >= 4,
        2 * n <= 2 * (r * h) + h,
        2 * (r * h) <= 2 * n + h,
        2 * (e * r) <= 2 * (n * fine) + r,
        2 * (n * fine) <= 2 * (e * r) + r,
    ensures
        half_up(e, fine) == h,
{
    lemma_near_after_one(e, n, r, fine, h, h);
}

/// A fraction `n / d` off `w` by no more than `slack / 2 d`, rounded to
/// `e / fine`, still rounds to `w`.
proof fn lemma_near_after_one(e: nat, n: nat, d: nat, fine: nat, w: nat, slack: nat)
    requires
        w > 0,
        d > 0,
        slack * 0x10_0000 <= d,
        fine >= 4,
        2 * n <= 2 * (d * w) + slack,
        2 * (d * w) <= 2 * n + slack,
        2 * (e * d) <= 2 * (n * fine) + d,
        2 * (n * fine) <= 2 * (e * d) + d,
    ensures
        half_up(e, fine) == w,
{
    assert(2 * (n * fine) <= 2 * (d * w) * fine + slack * fine) by (nonlinear_arith)
        requires
            2 * n <= 2 * (d * w) + slack,
    ;
    assert(2 * (d * w) * fine <= 2 * (n * fine) + slack * fine) by (nonlinear_arith)
        requires
            2 * (d * w) <= 2 * n + slack,
    ;
    assert(4 * (slack * fine) <= d * fine) by (nonlinear_arith)
        requires
            slack * 0x10_0000 <= d,
    ;
    assert(4 * d <= d * fine) by (nonlinear_arith)
        requires
            fine >= 4,
    ;
    assert(2 * (d * w) * fine == d * (2 * w * fine)) by (nonlinear_arith);
    assert(4 * (d * (2 * w * fine)) - 2 * (d * fine) <= 4 * (2 * (e * d)));
    assert(4 * (2 * (e * d)) <= 4 * (d * (2 * w * fine)) + 2 * (d * fine));
    assert(2 * w * fine - fine <= 2 * e) by (nonlinear_arith)
        requires
            4 * (d * (2 * w * fine)) - 2 * (d * fine) <= 4 * (2 * (e * d)),
            d > 0,
            fine >= 4,
    ;
    assert(2 * e < 2 * w * fine + fine) by (nonlinear_arith)
        requires
            4 * (2 * (e * d)) <= 4 * (d * (2 * w * fine)) + 2 * (d * fine),
            d > 0,
            fine >= 4,
    ;
    assert((2 * e + fine) as int / (2 * fine) as int == w) by (nonlinear_arith)
        requires
            2 * w * fine - fine <= 2 * e,
            2 * e < 2 * w * fine + fine,
            fine > 0,
    ;
}

/// A size as it is written out.
pub open spec fn size_text(width: nat, height: nat) -> Seq<char> {
    decimal(width) + " × "@ + decimal(height)
}

/// Adds a size to the end of a text.
pub(crate) fn append_size(text: &mut String, width: u32, height: u32)
    ensures
        final(text)@ == old(text)@ + size_text(width as nat, height as nat),
{
    append_decimal(text, width as u64);
    text.append(" × ");
    append_decimal(text, height as u64);
    proof {
        assert(text@ =~= old(text)@ + size_text(width as nat, height as nat));
    }
}

/// How many hundredths of its own width a picture is to have, to the nearest one.
pub open spec fn percent(width: nat, natural_width: nat) -> nat {
    let ratio = nearest(width, natural_width);
    let exact = nearest(100 * ratio.0, pow2(ratio.1));
    half_even(exact.0, pow2(exact.1))
}

/// What the line under the size boxes says.
pub open spec fn size_note(size: (u32, u32), natural: (u32, u32)) -> Seq<char> {
    let own = size_text(natural.0 as nat, natural.1 as nat);
    if size == natural {
        "Original size, "@ + own
    } else {
        "From "@ + own + " — "@ + decimal(percent(size.0 as nat, natural.0 as nat))
            + "% of the width"@
    }
}

/// Says how the size asked for relates to the picture's own.
pub fn describe_size(size: (u32, u32), natural: (u32, u32)) -> (r: String)
    requires
        size.0 > 0,
        natural.0 > 0,
    ensures
        r@ == size_note(size, natural),
{
    if size.0 == natural.0 && size.1 == natural.1 {
        let mut text = "Original size, ".to_owned();
        append_size(&mut text, natural.0, natural.1);
        return text;
    }
    let ratio = shape_of((size.0, natural.0));
    proof {
        assert(100 * ratio.numerator < 2 * pow2(ratio.places as nat) * full())
            by (nonlinear_arith)
            requires
                pow2(ratio.places as nat) >= 0x10_0000,
                ratio.numerator <= 2 * full(),
                full() == 0x10_0000_0000_0000,
        ;
    }
    let hundredths: u64 = rounded_to_even(scaled_by(100, ratio));
    let mut text = "From ".to_owned();
    append_size(&mut text, natural.0, natural.1);
    text.append(" — ");
    append_decimal(&mut text, hundredths);
    text.append("% of the width");
    text
}

/// What the crop tool says about the selection.
pub open spec fn selection_note(size: Option<(u32, u32)>) -> Seq<char> {
    match size {
        Some((width, height)) => "Selection: "@ + size_text(width as nat, height as nat) + " px"@,
        None => "Draw an area to keep"@,
    }
}

/// Says how large the selection is.
pub fn describe_selection(size: Option<(u32, u32)>) -> (r: String)
    ensures
        r@ == selection_note(size),
{
    match size {
        Some((width, height)) => {
            let mut text = "Selection: ".to_owned();
            append_size(&mut text, width, height);
            text.append(" px");
            text
        },
        None => "Draw an area to keep".to_owned(),
    }
}

/// The file size that a number and a unit ask for. A number below one counts as
/// one, and a size past what can be counted as the largest there is.
pub open spec fn aimed_at(value: nat, megabytes: bool) -> nat {
    let count = if value < 1 {
        1
    } else {
        value
    };
    let size = count * if megabytes {
        MB as nat
    } else {
        KB as nat
    };
    if size > u64::MAX {
        u64::MAX as nat
    } else {
        size
    }
}

/// The size an export should aim for, if one was asked for.
pub fn size_wanted(asked: bool, value: u64, megabytes: bool) -> (r: Option<u64>)
    ensures
        match r {
            Some(size) => asked && size == aimed_at(value as nat, megabytes),
            None => !asked,
        },
{
    if !asked {
        return None;
    }
    let count: u64 = if value < 1 {
        1
    } else {
        value
    };
    let unit: u64 = if megabytes {
        MB
    } else {
        KB
    };
    match count.checked_mul(unit) {
        Some(size) => Some(size),
        None => Some(u64::MAX),
    }
}

/// The quality to write with, where the format has a dial: what the dial shows,
/// held between 1 and 100.
pub fn quality(lossy: bool, shown: i64) -> (r: Option<u8>)
    ensures
        match r {
            Some(q) => lossy && q == (if shown < 1 {
                1
            } else if shown > 100 {
                100
            } else {
                shown as int
            }),
            None => !lossy,
        },
{
    if !lossy {
        None
    } else if shown < 1 {
        Some(1)
    } else if shown > 100 {
        Some(100)
    } else {
        Some(shown as u8)
    }
}

/// Whether the quality dial can be turned: only a lossy format has a quality,
/// and a file size to aim at chooses it.
pub fn quality_can_be_set(lossy: bool, aiming: bool) -> (r: bool)
    ensures
        r == (lossy && !aiming),
{
    lossy && !aiming
}

/// What the export section says about the size of the file: what aiming at a
/// size will mean for the format, or how large the file is now, where that is
/// known.
pub open spec fn target_size_note(wanted: Option<u64>, lossy: bool, on_disk: Option<u64>) -> Option<
    Seq<char>,
> {
    match (wanted, on_disk) {
        (Some(size), _) => Some(
            if lossy {
                "Quality will be dialled to land just under "@ + described(size as nat)
                    + ", and the picture scaled down only if quality alone cannot get there."@
            } else {
                "This format has no quality dial, so "@ + described(size as nat)
                    + " can only be reached by scaling the picture down. JPEG will hold more detail at a size."@
            },
        ),
        (None, Some(size)) => Some("This file is "@ + described(size as nat) + " on disk."@),
        (None, None) => None,
    }
}

/// Says what the size aimed at will mean, or how large the file is.
pub fn describe_target_size(wanted: Option<u64>, lossy: bool, on_disk: Option<u64>) -> (r: Option<
    String,
>)
    ensures
        match r {
            Some(text) => target_size_note(wanted, lossy, on_disk) == Some(text@),
            None => target_size_note(wanted, lossy, on_disk) is None,
        },
{
    match wanted {
        Some(size) => {
            let amount = describe(size);
            if lossy {
                let mut text = "Quality will be dialled to land just under ".to_owned();
                text.append(amount.as_str());
                text.append(
                    ", and the picture scaled down only if quality alone cannot get there.",
                );
                Some(text)
            } else {
                let mut text = "This format has no quality dial, so ".to_owned();
                text.append(amount.as_str());
                text.append(
                    " can only be reached by scaling the picture down. JPEG will hold more detail at a size.",
                );
                Some(text)
            }
        },
        None => match on_disk {
            Some(size) => {
                let mut text = "This file is ".to_owned();
                text.append(describe(size).as_str());
                text.append(" on disk.");
                Some(text)
            },
            None => None,
        },
    }
}

/// The parts of what an export took, one after the other.
pub open spec fn joined(parts: Seq<Seq<char>>) -> Seq<char>
    decreases parts.len(),
{
    if parts.len() == 0 {
        Seq::empty()
    } else if parts.len() == 1 {
        " — "@ + parts[0]
    } else {
        joined(parts.drop_last()) + ", "@ + parts.last()
    }
}

/// What it took to write a file of a given size: anything that is not the
/// picture as it was is named, filler among it.
pub open spec fn parts_taken(fit: Fit, original: (u32, u32)) -> Seq<Seq<char>> {
    let dial = match fit.quality {
        Some(quality) => seq!["quality "@ + decimal(quality as nat)],
        None => Seq::empty(),
    };
    let scaled = if (fit.width, fit.height) != original {
        seq!["scaled to "@ + size_text(fit.width as nat, fit.height as nat)]
    } else {
        Seq::empty()
    };
    let filler = if fit.padding > 0 {
        seq![described(fit.padding as nat) + " of padding"@]
    } else {
        Seq::empty()
    };
    dial + scaled + filler
}

/// Adds one more part to a list that is being written out.
fn append_part(text: &mut String, part: &str, written: Ghost<Seq<Seq<char>>>, first: bool)
    requires
        first == (written@.len() == 0),
    ensures
        forall|start: Seq<char>|
            old(text)@ == start + joined(written@) ==> final(text)@ == start + #[trigger] joined(
                written@.push(part@),
            ),
{
    if first {
        text.append(" — ");
    } else {
        text.append(", ");
    }
    text.append(part);
    proof {
        let ghost_parts = written@.push(part@);
        assert(ghost_parts.drop_last() =~= written@);
        assert forall|start: Seq<char>| old(text)@ == start + joined(written@) implies text@
            == start + #[trigger] joined(ghost_parts) by {
            assert(text@ =~= start + joined(ghost_parts));
        }
    }
}

/// Says what was written, and exactly what it took.
pub fn describe_fit(fit: &Fit, original: (u32, u32)) -> (r: String)
    ensures
        r@ == "Wrote "@ + described(fit.bytes@.len()) + joined(parts_taken(*fit, original)) + "."@,
{
    let mut text = "Wrote ".to_owned();
    text.append(describe(fit.size()).as_str());
    let ghost start = text@;
    let ghost mut parts: Seq<Seq<char>> = Seq::empty();
    let mut first: bool = true;
    proof {
        assert(text@ =~= start + joined(parts));
    }
    if let Some(quality) = fit.quality {
        let mut part = "quality ".to_owned();
        append_decimal(&mut part, quality as u64);
        append_part(&mut text, part.as_str(), Ghost(parts), first);
        proof {
            parts = parts.push(part@);
        }
        first = false;
    }
    if fit.width != original.0 || fit.height != original.1 {
        let mut part = "scaled to ".to_owned();
        append_size(&mut part, fit.width, fit.height);
        append_part(&mut text, part.as_str(), Ghost(parts), first);
        proof {
            parts = parts.push(part@);
        }
        first = false;
    }
    if fit.padding > 0 {
        let mut part = describe(fit.padding);
        part.append(" of padding");
        append_part(&mut text, part.as_str(), Ghost(parts), first);
        proof {
            parts = parts.push(part@);
        }
    }
    proof {
        assert(parts =~= parts_taken(*fit, original));
    }
    text.append(".");
    text
}

/// A section of the sidebar.
#[derive(Clone, Copy, PartialEq, Eq, Structural, Debug)]
pub enum Section {
    Rotate,
    Crop,
    Resize,
    Adjust,
    Draw,
    Text,
    Export,
}

/// The sections in the order they stand in, and what they are called.
pub open spec fn section_list() -> Seq<(Section, Seq<char>)> {
    seq![
        (Section::Rotate, "Rotate & Flip"@),
        (Section::Crop, "Crop"@),
        (Section::Resize, "Resize"@),
        (Section::Adjust, "Adjust"@),
        (Section::Draw, "Draw"@),
        (Section::Text, "Text"@),
        (Section::Export, "Export"@),
    ]
}

/// Lists the sections.
pub fn sections() -> (r: Vec<(Section, &'static str)>)
    ensures
        r@.map_values(|entry: (Section, &'static str)| (entry.0, entry.1@)) == section_list(),
{
    let list: Vec<(Section, &'static str)> = vec![
        (Section::Rotate, "Rotate & Flip"),
        (Section::Crop, "Crop"),
        (Section::Resize, "Resize"),
        (Section::Adjust, "Adjust"),
        (Section::Draw, "Draw"),
        (Section::Text, "Text"),
        (Section::Export, "Export"),
    ];
    proof {
        assert(list@.map_values(|entry: (Section, &'static str)| (entry.0, entry.1@))
            =~= section_list());
    }
    list
}

/// Which section is open. One at a time: only one of them can be used anyway.
pub struct Sections {
    open: Option<Section>,
}

/// Whether a section stays open as another file comes up.
pub open spec fn outlasts_the_file(section: Section) -> bool {
    section != Section::Resize && section != Section::Text && section != Section::Draw
}

/// Whether a section stays open as the pixels are replaced by others.
pub open spec fn outlasts_the_pixels(section: Section) -> bool {
    section != Section::Resize && section != Section::Text
}

impl Sections {
    /// Whether a section is open.
    pub closed spec fn shows(self, section: Section) -> bool {
        self.open == Some(section)
    }

    /// The sidebar with every section closed.
    pub fn new() -> (r: Sections)
        ensures
            forall|s: Section| !r.shows(s),
    {
        Sections { open: None }
    }

    /// Whether a section is open.
    pub fn is_open(&self, section: Section) -> (r: bool)
        ensures
            r == self.shows(section),
    {
        match self.open {
            Some(open) => open == section,
            None => false,
        }
    }

    /// A section's button was pressed in or let out. Opening one closes the
    /// others; closing one leaves them as they are.
    pub fn toggle(&mut self, section: Section, on: bool)
        ensures
            forall|s: Section| #[trigger]
                final(self).shows(s) == (if on {
                    s == section
                } else {
                    s != section && old(self).shows(s)
                }),
    {
        if on {
            self.open = Some(section);
        } else if self.is_open(section) {
            self.open = None;
        }
    }

    /// Leaving the sidebar puts the tools away with it. How to write a copy is
    /// no tool, and stays.
    pub fn leave(&mut self)
        ensures
            forall|s: Section| #[trigger]
                final(self).shows(s) == (s == Section::Export && old(self).shows(s)),
    {
        if !self.is_open(Section::Export) {
            self.open = None;
        }
    }

    /// A session that starts anew has nothing to resize, write or draw on yet.
    pub fn start_anew(&mut self)
        ensures
            forall|s: Section| #[trigger]
                final(self).shows(s) == (old(self).shows(s) && outlasts_the_file(s)),
    {
        self.toggle(Section::Resize, false);
        self.toggle(Section::Text, false);
        self.toggle(Section::Draw, false);
    }

    /// Pixels that take the place of the ones on screen have a size of their
    /// own and the words burnt in, so those two tools go; the pen stays in hand.
    pub fn pixels_replaced(&mut self)
        ensures
            forall|s: Section| #[trigger]
                final(self).shows(s) == (old(self).shows(s) && outlasts_the_pixels(s)),
    {
        self.toggle(Section::Resize, false);
        self.toggle(Section::Text, false);
    }
}

/// Every section is in the list, once.
pub proof fn law_every_section_is_listed(section: Section)
    ensures
        exists|i: int| 0 <= i < 7 && (#[trigger] section_list()[i]).0 == section,
        forall|i: int, j: int|
            0 <= i < j < 7 ==> (#[trigger] section_list()[i]).0 != (#[trigger] section_list()[j]).0,
{
    let list = section_list();
    match section {
        Section::Rotate => assert(list[0].0 == section),
        Section::Crop => assert(list[1].0 == section),
        Section::Resize => assert(list[2].0 == section),
        Section::Adjust => assert(list[3].0 == section),
        Section::Draw => assert(list[4].0 == section),
        Section::Text => assert(list[5].0 == section),
        Section::Export => assert(list[6].0 == section),
    }
}

/// No two sections are ever open together.
pub proof fn law_one_section_at_a_time(sections: Sections, a: Section, b: Section)
    requires
        sections.shows(a),
        sections.shows(b),
    ensures
        a == b,
{
}

/// A shape on offer for cropping; none means any.
pub struct Shape {
    pub label: &'static str,
    pub aspect: Option<Aspect>,
}

impl Shape {
    /// Whether the entry holds this text and this shape.
    pub open spec fn reads(self, label: Seq<char>, aspect: Option<Aspect>) -> bool {
        self.label@ == label && self.aspect == aspect
    }
}

/// The shapes on offer, by what they are called.
pub open spec fn shape_list() -> Seq<(Seq<char>, Option<Aspect>)> {
    seq![
        ("Free"@, None),
        ("1:1"@, Some(Aspect { across: 1, down: 1 })),
        ("4:5"@, Some(Aspect { across: 4, down: 5 })),
        ("5:4"@, Some(Aspect { across: 5, down: 4 })),
        ("3:2"@, Some(Aspect { across: 3, down: 2 })),
        ("2:3"@, Some(Aspect { across: 2, down: 3 })),
        ("16:9"@, Some(Aspect { across: 16, down: 9 })),
        ("9:16"@, Some(Aspect { across: 9, down: 16 })),
    ]
}

/// The ratios people actually crop to, plus unconstrained.
pub fn shapes() -> (r: Vec<Shape>)
    ensures
        r@.len() == 8,
        r@[0].reads("Free"@, None),
        r@[1].reads("1:1"@, Some((Aspect { across: 1, down: 1 }))),
        r@[2].reads("4:5"@, Some((Aspect { across: 4, down: 5 }))),
        r@[3].reads("5:4"@, Some((Aspect { across: 5, down: 4 }))),
        r@[4].reads("3:2"@, Some((Aspect { across: 3, down: 2 }))),
        r@[5].reads("2:3"@, Some((Aspect { across: 2, down: 3 }))),
        r@[6].reads("16:9"@, Some((Aspect { across: 16, down: 9 }))),
        r@[7].reads("9:16"@, Some((Aspect { across: 9, down: 16 }))),
        forall|i: int|
            0 <= i < 8 ==> (#[trigger] r@[i]).reads(shape_list()[i].0, shape_list()[i].1),
{
    vec![
        Shape { label: "Free", aspect: None },
        Shape { label: "1:1", aspect: Some(Aspect { across: 1, down: 1 }) },
        Shape { label: "4:5", aspect: Some(Aspect { across: 4, down: 5 }) },
        Shape { label: "5:4", aspect: Some(Aspect { across: 5, down: 4 }) },
        Shape { label: "3:2", aspect: Some(Aspect { across: 3, down: 2 }) },
        Shape { label: "2:3", aspect: Some(Aspect { across: 2, down: 3 }) },
        Shape { label: "16:9", aspect: Some(Aspect { across: 16, down: 9 }) },
        Shape { label: "9:16", aspect: Some(Aspect { across: 9, down: 16 }) },
    ]
}

/// Whether this is the tool in hand: the first whose button is down, while the section
/// is open.
pub open spec fn is_tool_in_hand(drawing: bool, pressed: Seq<bool>, r: Option<Tool>) -> bool {
    match r {
        Some(tool) => drawing && exists|i: int|
            #![trigger pressed[i]]
            0 <= i < pressed.len() && i < 6 && pressed[i] && (forall|k: int|
                0 <= k < i ==> !#[trigger] pressed[k]) && tool == tool_order()[i],
        None => !drawing || forall|i: int|
            0 <= i < pressed.len() && i < 6 ==> !#[trigger] pressed[i],
    }
}

/// Which tool is in hand: the first whose button is pressed in, while the
/// drawing section is open.
pub fn chosen_tool(drawing: bool, pressed: &Vec<bool>) -> (r: Option<Tool>)
    ensures
        is_tool_in_hand(drawing, pressed@, r),
{
    if !drawing {
        return None;
    }
    let list = tools();
    let mut at: usize = 0;
    while at < pressed.len() && at < list.len()
        invariant
            at <= pressed@.len(),
            at <= 6,
            list@ == tool_order(),
            drawing,
            forall|k: int| 0 <= k < at ==> !#[trigger] pressed@[k],
        decreases pressed@.len() - at,
    {
        if pressed[at] {
            return Some(list[at]);
        }
        at = at + 1;
    }
    None
}

/// What the drawing section says about the tool in hand.
pub open spec fn draw_note(chosen: Option<Tool>) -> Seq<char> {
    match chosen {
        Some(Tool::Pen) | Some(Tool::Highlighter) => "Drag on the picture to draw."@,
        Some(_) => "Drag on the picture from one corner to the other."@,
        None => "Pick a tool, then drag on the picture."@,
    }
}

/// Says how the tool in hand is used.
pub fn describe_tool(chosen: Option<Tool>) -> (r: &'static str)
    ensures
        r@ == draw_note(chosen),
{
    match chosen {
        Some(Tool::Pen) | Some(Tool::Highlighter) => "Drag on the picture to draw.",
        Some(_) => "Drag on the picture from one corner to the other.",
        None => "Pick a tool, then drag on the picture.",
    }
}

/// What the text section says.
pub open spec fn words_note(selected: bool, any: bool) -> Seq<char> {
    if selected {
        "Drag it into place on the picture."@
    } else if any {
        "Click a piece of text on the picture to select it."@
    } else {
        "Add lays a new line in the middle of the view."@
    }
}

/// Says what can be done with the words on the picture.
pub fn describe_words(selected: bool, any: bool) -> (r: &'static str)
    ensures
        r@ == words_note(selected, any),
{
    if selected {
        "Drag it into place on the picture."
    } else if any {
        "Click a piece of text on the picture to select it."
    } else {
        "Add lays a new line in the middle of the view."
    }
}

/// What asking for a copy in some format comes to.
pub enum ExportStep {
    /// There is no file, or no such format.
    Nothing,
    /// The format cannot hold the picture, for this reason.
    Refused { reason: String },
    /// A name is to be asked for, starting from this one.
    Ask { title: String, initial_name: String },
}

/// The name a copy starts out with.
pub open spec fn copy_name(path: Seq<u8>, extension: Seq<char>) -> Seq<char> {
    (match stem_of(path) {
        Some(stem) => lossy_text(stem),
        None => "image"@,
    }) + "."@ + extension
}

/// Plans a copy. The format is asked before a name is: a refusal after choosing
/// one would arrive too late to be useful.
pub fn plan_export(source: Option<&FilePath>, target: Option<&Target>, size: Option<(u32, u32)>) -> (r:
    ExportStep)
    ensures
        match (source, target) {
            (Some(path), Some(target)) => if size is Some && target.max_dimension is Some && (
            (size->0).0 > target.max_dimension->0 || (size->0).1 > target.max_dimension->0) {
                r matches ExportStep::Refused { reason } && reason@ == refusal_text(
                    target.label@,
                    target.max_dimension->0 as nat,
                    (size->0).0 as nat,
                    (size->0).1 as nat,
                )
            } else {
                r matches ExportStep::Ask { title, initial_name } && title@ == "Export as "@
                    + target.label@ && initial_name@ == copy_name(path@, target.extension@)
            },
            _ => r is Nothing,
        },
{
    let path = match source {
        Some(path) => path,
        None => return ExportStep::Nothing,
    };
    let target = match target {
        Some(target) => target,
        None => return ExportStep::Nothing,
    };
    if let Some((width, height)) = size {
        if let Some(reason) = target.refusal(width, height) {
            return ExportStep::Refused { reason };
        }
    }
    let mut title = "Export as ".to_owned();
    title.append(target.label);
    let mut initial_name = match path.stem_bytes() {
        Some(stem) => read_lossily(stem.as_slice()),
        None => "image".to_owned(),
    };
    initial_name.append(".");
    initial_name.append(target.extension);
    ExportStep::Ask { title, initial_name }
}

/// What the export section says while it works towards a size.
pub fn describe_aim(wanted: u64) -> (r: String)
    ensures
        r@ == "Working towards "@ + described(wanted as nat) + "…"@,
{
    let mut text = "Working towards ".to_owned();
    text.append(describe(wanted).as_str());
    text.append("…");
    text
}

/// A shape is called by its sides, across and then down, and the free one has none.
pub proof fn law_shapes_are_called_by_their_sides(i: int)
    requires
        0 <= i < shape_list().len(),
    ensures
        match shape_list()[i].1 {
            Some(aspect) => aspect.across > 0 && aspect.down > 0 && shape_list()[i].0 == decimal(
                aspect.across as nat,
            ) + ":"@ + decimal(aspect.down as nat),
            None => shape_list()[i].0 == "Free"@,
        },
{
    reveal_strlit(":");
    reveal_strlit("1:1");
    reveal_strlit("4:5");
    reveal_strlit("5:4");
    reveal_strlit("3:2");
    reveal_strlit("2:3");
    reveal_strlit("16:9");
    reveal_strlit("9:16");
    reveal_with_fuel(decimal, 2);
    if let Some(aspect) = shape_list()[i].1 {
        assert(shape_list()[i].0 =~= decimal(aspect.across as nat) + ":"@ + decimal(
            aspect.down as nat,
        ));
    }
}

/// For every shape that is offered the same one is offered upright or lying down.
pub proof fn law_shapes_come_both_ways(i: int) -> (j: int)
    requires
        0 <= i < shape_list().len(),
    ensures
        0 <= j < shape_list().len(),
        shape_list()[i].1 is Some == shape_list()[j].1 is Some,
        shape_list()[i].1 matches Some(aspect) ==> shape_list()[j].1 == Some(
            Aspect { across: aspect.down, down: aspect.across },
        ),
{
    if i < 2 {
        i
    } else if i % 2 == 0 {
        i + 1
    } else {
        i - 1
    }
}

/// Each section bears its name.
pub proof fn law_sections_bear_their_names(i: int)
    requires
        0 <= i < section_list().len(),
    ensures
        section_list()[i].1 == (match section_list()[i].0 {
            Section::Rotate => "Rotate & Flip"@,
            Section::Crop => "Crop"@,
            Section::Resize => "Resize"@,
            Section::Adjust => "Adjust"@,
            Section::Draw => "Draw"@,
            Section::Text => "Text"@,
            Section::Export => "Export"@,
        }),
{
}

/// The tool in hand is the one whose button is down, and none is where the section
/// is closed or no button is down.
pub proof fn law_the_button_down_is_the_tool(
    drawing: bool,
    pressed: Seq<bool>,
    i: int,
    chosen: Option<Tool>,
)
    requires
        pressed.len() == 6,
        0 <= i < 6,
        forall|k: int| 0 <= k < 6 && k != i ==> !#[trigger] pressed[k],
        is_tool_in_hand(drawing, pressed, chosen),
    ensures
        chosen is Some <==> drawing && pressed[i],
        chosen matches Some(tool) ==> tool.name() == seq![
            "Pen"@,
            "Highlighter"@,
            "Line"@,
            "Arrow"@,
            "Rectangle"@,
            "Ellipse"@,
        ][i],
{
}

/// A section whose boxes are about the picture on screen closes with it: the size and
/// the text as soon as the pixels change, the drawing with the file. The others stay.
pub proof fn law_sections_close_with_what_they_are_about(section: Section)
    ensures
        outlasts_the_file(section) ==> outlasts_the_pixels(section),
        match section {
            Section::Rotate | Section::Crop | Section::Adjust | Section::Export => outlasts_the_file(
                section,
            ),
            Section::Draw => outlasts_the_pixels(section) && !outlasts_the_file(section),
            Section::Resize | Section::Text => !outlasts_the_pixels(section),
        },
{
}

/// The hint goes by what a tool does: a pen draws where it is dragged, anything else is
/// pulled from one corner to the other, and without a tool one is to be picked.
pub proof fn law_the_hint_goes_by_the_tool(tool: Tool)
    ensures
        tool.is_freehand() ==> draw_note(Some(tool)) == "Drag on the picture to draw."@,
        !tool.is_freehand() ==> draw_note(Some(tool))
            == "Drag on the picture from one corner to the other."@,
        tool.is_freehand() <==> tool == Tool::Pen || tool == Tool::Highlighter,
        draw_note(None) == "Pick a tool, then drag on the picture."@,
{
}

/// At a corner with the shape kept, the side that was pulled by the larger share of
/// itself leads and the other follows; on an edge the side that was pulled leads.
pub proof fn law_the_larger_change_leads(
    natural: (u32, u32),
    start: (u32, u32),
    grip: Handle,
    x: int,
    y: int,
)
    requires
        1 <= start.0 <= 30_000,
        1 <= start.1 <= 30_000,
    ensures
        ({
            let (w, h): (int, int) = (start.0 as int, start.1 as int);
            let r = pulled_size(natural, start, grip, x * PIXEL, y * PIXEL, true);
            let fits = |side: int|
                if side < 1 {
                    1
                } else if side > 30_000 {
                    30_000
                } else {
                    side
                };
            let far = |n: int|
                if n < 0 {
                    -n
                } else {
                    n
                };
            &&& grip == Handle::East ==> r.0 == fits(w + x)
            &&& grip == Handle::West ==> r.0 == fits(w - x)
            &&& grip == Handle::South ==> r.1 == fits(h + y)
            &&& grip == Handle::North ==> r.1 == fits(h - y)
            &&& grip == Handle::SouthEast ==> {
                let (nw, nh) = (fits(w + x), fits(h + y));
                &&& far(nw - w) * h > far(nh - h) * w ==> r.0 == nw
                &&& far(nw - w) * h < far(nh - h) * w ==> r.1 == nh
            }
            &&& grip == Handle::NorthWest ==> {
                let (nw, nh) = (fits(w - x), fits(h - y));
                &&& far(nw - w) * h > far(nh - h) * w ==> r.0 == nw
                &&& far(nw - w) * h < far(nh - h) * w ==> r.1 == nh
            }
            &&& grip == Handle::NorthEast ==> {
                let (nw, nh) = (fits(w + x), fits(h - y));
                &&& far(nw - w) * h > far(nh - h) * w ==> r.0 == nw
                &&& far(nw - w) * h < far(nh - h) * w ==> r.1 == nh
            }
            &&& grip == Handle::SouthWest ==> {
                let (nw, nh) = (fits(w - x), fits(h + y));
                &&& far(nw - w) * h > far(nh - h) * w ==> r.0 == nw
                &&& far(nw - w) * h < far(nh - h) * w ==> r.1 == nh
            }
        }),
{
    let (w, h): (int, int) = (start.0 as int, start.1 as int);
    lemma_pulled_by_pixels(w, x, End::Low);
    lemma_pulled_by_pixels(w, x, End::High);
    lemma_pulled_by_pixels(w, x, End::Neither);
    lemma_pulled_by_pixels(h, y, End::Low);
    lemma_pulled_by_pixels(h, y, End::High);
    lemma_pulled_by_pixels(h, y, End::Neither);
}

} // verus!
