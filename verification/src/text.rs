//! Laying what was drawn over the picture: text, and marks alike.

use vstd::arithmetic::power2::{
    lemma2_to64, lemma2_to64_rest, lemma_pow2_pos, lemma_pow2_strictly_increases, pow2,
};
use vstd::prelude::*;

use crate::double::lemma_half_even_is_near;
use crate::picture::{
    lemma_build, lemma_index, lemma_same_channels, Picture, Raster,
};
use crate::single::{
    at_least, at_most, complement, divide, lemma_near_is_exact, lemma_near_nothing, lemma_near_self,
    lemma_part_of_255, multiply, near, near_to, part_of_255, plus, product, quotient, rest_of_one,
    sum, to_byte, to_whole, Single,
};

verus! {

/// Pixels already drawn, ready to be laid over the picture with their corner at
/// a place in it.
///
/// Drawing has to happen where the fonts and the renderer live; laying over
/// does not, so the two are separated here and the pixels travel between them.
pub struct RenderedText {
    pub pixels: Picture,
    pub x: i64,
    pub y: i64,
}

/// How much shows of two layers, the upper one over the lower one.
pub open spec fn joint_alpha(upper: u8, lower: u8) -> (nat, nat) {
    let sa = near(upper as nat, 255);
    let da = near(lower as nat, 255);
    sum(sa, product(da, rest_of_one(sa)))
}

/// A single times 255, as a byte.
pub open spec fn as_byte(share: (nat, nat)) -> u8 {
    let n = to_whole(product(share, near(255, 1)));
    if n > 255 {
        255
    } else {
        n as u8
    }
}

/// One colour channel of two layers, each weighted by how much of it shows.
pub open spec fn blended(upper: u8, lower: u8, upper_alpha: u8, lower_alpha: u8) -> u8 {
    let sa = near(upper_alpha as nat, 255);
    let da = near(lower_alpha as nat, 255);
    let s = near(upper as nat, 255);
    let d = near(lower as nat, 255);
    let weighted = sum(product(s, sa), product(product(d, da), rest_of_one(sa)));
    as_byte(quotient(weighted, joint_alpha(upper_alpha, lower_alpha)))
}

/// A pixel laid over another: source-over for straight alpha.
pub open spec fn laid_over(src: Seq<u8>, dst: Seq<u8>) -> Seq<u8> {
    if src[3] == 0 && dst[3] == 0 {
        seq![0u8, 0, 0, 0]
    } else {
        seq![
            blended(src[0], dst[0], src[3], dst[3]),
            blended(src[1], dst[1], src[3], dst[3]),
            blended(src[2], dst[2], src[3], dst[3]),
            as_byte(joint_alpha(src[3], dst[3])),
        ]
    }
}

/// A larger bound from below holds where a smaller one does.
proof fn lemma_looser(a: (nat, nat), k: nat, more: nat)
    requires
        at_least(a, k),
        k <= more,
    ensures
        at_least(a, more),
{
    if k < more {
        lemma_pow2_strictly_increases(k, more);
        assert(a.0 * pow2(more) >= a.0 * pow2(k))
            by (nonlinear_arith)
            requires
                pow2(more) >= pow2(k),
        ;
    }
}

/// The factor that turns a share into a byte.
fn byte_scale() -> (r: Single)
    ensures
        r@ == near(255, 1),
        0 < r.numerator <= 0x100_0000,
        at_most(r@, 8),
        at_least(r@, 1),
        r.places <= 24,
{
    proof {
        lemma2_to64();
    }
    near_to(255, 1, 8, 0)
}

/// How much shows of two layers that are not both clear.
fn join_alpha(upper: u8, lower: u8) -> (r: Single)
    requires
        upper > 0 || lower > 0,
    ensures
        r@ == joint_alpha(upper, lower),
        0 < r.numerator <= 0x100_0000,
        at_most(r@, 1),
        at_least(r@, 12),
        r.places <= 44,
{
    let sa = part_of_255(upper);
    let da = part_of_255(lower);
    let rest = complement(sa, upper);
    if upper > 0 {
        let under = multiply(da, rest, 0, 9, 0, 10);
        let r = plus(sa, under, 0, 9);
        proof {
            lemma_looser(r@, 10, 12);
        }
        r
    } else {
        let under = multiply(da, rest, 0, 9, 0, 1);
        plus(sa, under, 0, 11)
    }
}

/// Source-over for straight alpha, in 0..255.
pub fn over(src: [u8; 4], dst: [u8; 4]) -> (r: [u8; 4])
    ensures
        r@ == laid_over(src@, dst@),
{
    if src[3] == 0 && dst[3] == 0 {
        let clear: [u8; 4] = [0, 0, 0, 0];
        proof {
            assert(clear@ =~= seq![0u8, 0, 0, 0]);
        }
        return clear;
    }
    let alpha = join_alpha(src[3], dst[3]);
    let scale = byte_scale();
    let r: [u8; 4] = [
        blend(src[0], dst[0], src[3], dst[3], alpha, scale),
        blend(src[1], dst[1], src[3], dst[3], alpha, scale),
        blend(src[2], dst[2], src[3], dst[3], alpha, scale),
        to_byte(multiply(alpha, scale, 1, 12, 8, 1)),
    ];
    proof {
        assert(r@ =~= laid_over(src@, dst@));
    }
    r
}

/// One colour channel of two layers.
fn blend(upper: u8, lower: u8, upper_alpha: u8, lower_alpha: u8, alpha: Single, scale: Single) -> (r: u8)
    requires
        alpha@ == joint_alpha(upper_alpha, lower_alpha),
        0 < alpha.numerator <= 0x100_0000,
        at_most(alpha@, 1),
        at_least(alpha@, 12),
        alpha.places <= 44,
        scale@ == near(255, 1),
        0 < scale.numerator <= 0x100_0000,
        at_most(scale@, 8),
        at_least(scale@, 1),
        scale.places <= 24,
    ensures
        r == blended(upper, lower, upper_alpha, lower_alpha),
{
    let sa = part_of_255(upper_alpha);
    let da = part_of_255(lower_alpha);
    let s = part_of_255(upper);
    let d = part_of_255(lower);
    let rest = complement(sa, upper_alpha);
    let above = multiply(s, sa, 0, 9, 0, 9);
    let under = multiply(multiply(d, da, 0, 9, 0, 9), rest, 0, 19, 0, 10);
    proof {
        if above.numerator > 0 {
            lemma_looser(above@, 19, 30);
        }
    }
    let weighted = plus(above, under, 0, 30);
    let share = divide(weighted, alpha, 1, 31, 1, 12);
    to_byte(multiply(share, scale, 13, 33, 8, 1))
}

/// A byte taken as a share of 255 and back is the same byte.
pub proof fn law_a_byte_survives_the_round_trip(c: u8)
    ensures
        as_byte(near(c as nat, 255)) == c,
{
    let s = near(c as nat, 255);
    let b = near(255, 1);
    lemma2_to64();
    lemma2_to64_rest();
    lemma_near_is_exact(255, 1, 0xFF_0000, 16);
    lemma_pow2_pos(s.1);
    let unit: nat = pow2(s.1);
    let n: nat = s.0 * b.0;
    let d: nat = unit * pow2(b.1);
    assert(d > 0) by (nonlinear_arith)
        requires
            d == unit * pow2(b.1),
            unit > 0,
            pow2(b.1) > 0,
    ;
    if c == 0 {
        lemma_near_nothing(255);
        assert(n == 0) by (nonlinear_arith)
            requires
                n == s.0 * b.0,
                s.0 == 0,
        ;
        lemma_near_nothing(d);
        vstd::arithmetic::div_mod::lemma_basic_div(1, 2);
    } else {
        lemma_part_of_255(c as nat);
        let t = near(n, d);
        let fine: nat = pow2(t.1);
        lemma_pow2_pos(t.1);
        lemma_half_even_is_near(n * fine, d);
        assert(b.0 == 0xFF_0000 && pow2(b.1) == 0x1_0000);
        let e: nat = 255 * s.0;
        assert(n == e * 0x1_0000) by (nonlinear_arith)
            requires
                n == s.0 * b.0,
                b.0 == 0xFF_0000,
                e == 255 * s.0,
        ;
        assert(2 * (t.0 * unit) <= 2 * (e * fine) + unit && 2 * (e * fine) <= 2 * (t.0 * unit) + unit)
            by (nonlinear_arith)
            requires
                2 * (t.0 * d) <= 2 * (n * fine) + d,
                2 * (n * fine) <= 2 * (t.0 * d) + d,
                n == e * 0x1_0000,
                d == unit * 0x1_0000,
        ;
        // The share is at most 1, so the product has places to spare.
        assert(n < 256 * d) by (nonlinear_arith)
            requires
                n == e * 0x1_0000,
                d == unit * 0x1_0000,
                2 * e <= 2 * c * unit + 255,
                c <= 255,
                unit >= 0x80_0000,
        ;
        lemma_reached(n, d);
        assert(fine >= 0x8000) by (nonlinear_arith)
            requires
                n * fine >= d * 0x80_0000,
                n < 256 * d,
                d > 0,
        ;
        lemma_round_trip(t.0, e, unit, fine, c as nat);
    }
}

proof fn lemma_reached(n: nat, d: nat)
    requires
        d > 0,
        n > 0,
    ensures
        n * pow2(near(n, d).1) >= d * 0x80_0000,
{
    crate::single::lemma_short_places_reached(n, d);
}

/// A number that is nearly `c * fine` rounds to `c` once the places are dropped.
proof fn lemma_round_trip(t: nat, e: nat, unit: nat, fine: nat, c: nat)
    requires
        unit >= 0x80_0000,
        fine >= 0x8000,
        c <= 255,
        2 * (t * unit) <= 2 * (e * fine) + unit,
        2 * (e * fine) <= 2 * (t * unit) + unit,
        2 * e <= 2 * c * unit + 255,
        2 * c * unit <= 2 * e + 255,
    ensures
        (2 * t + fine) / (2 * fine) == c,
{
    assert(4 * t <= 4 * (c * fine) + fine) by (nonlinear_arith)
        requires
            2 * (t * unit) <= 2 * (e * fine) + unit,
            2 * e <= 2 * c * unit + 255,
            unit >= 0x80_0000,
            fine >= 0x8000,
    ;
    assert(4 * (c * fine) <= 4 * t + fine) by (nonlinear_arith)
        requires
            2 * (e * fine) <= 2 * (t * unit) + unit,
            2 * c * unit <= 2 * e + 255,
            unit >= 0x80_0000,
            fine >= 0x8000,
    ;
    assert(c * (2 * fine) == 2 * (c * fine)) by (nonlinear_arith);
    vstd::arithmetic::div_mod::lemma_fundamental_div_mod_converse(
        (2 * t + fine) as int,
        (2 * fine) as int,
        c as int,
        (2 * t + fine - 2 * (c * fine)) as int,
    );
}

/// The single that stands for 1.
spec fn one() -> (nat, nat) {
    (0x80_0000, 23)
}

/// A share of 255 that is neither cleared nor weighted stays what it is.
proof fn lemma_one_changes_nothing(c: nat)
    requires
        c <= 255,
    ensures
        near(255, 255) == one(),
        near(1, 1) == one(),
        near(0, 255) == (0nat, 0nat),
        product(near(c, 255), one()) == near(c, 255),
        quotient(near(c, 255), one()) == near(c, 255),
        sum(near(c, 255), (0nat, 0nat)) == near(c, 255),
        sum((0nat, 0nat), near(c, 255)) == near(c, 255),
        product(near(c, 255), (0nat, 0nat)) == (0nat, 0nat),
        product(one(), one()) == one(),
        quotient((0nat, 0nat), one()) == (0nat, 0nat),
        sum((0nat, 0nat), (0nat, 0nat)) == (0nat, 0nat),
        product((0nat, 0nat), one()) == (0nat, 0nat),
        rest_of_one(one()) == (0nat, 0nat),
        rest_of_one((0nat, 0nat)) == one(),
{
    lemma2_to64();
    lemma_near_is_exact(255, 255, 0x80_0000, 23);
    lemma_near_is_exact(1, 1, 0x80_0000, 23);
    lemma_near_nothing(255);
    lemma_near_nothing(0x80_0000);
    lemma_near_nothing(1);
    let s = near(c, 255);
    let unit: nat = pow2(s.1);
    lemma_pow2_pos(s.1);
    assert(pow2(23) == 0x80_0000);
    assert(unit * 1 == unit && 1 * unit == unit && s.0 * 1 == s.0 && 0 * unit == 0 && 0 * 1 == 0 && s.0
        * 0 == 0) by (nonlinear_arith);
    assert(0x80_0000 * unit == unit * 0x80_0000);
    assert(unit * 0x80_0000 > 0);
    lemma_near_nothing(unit);
    lemma_near_nothing((unit * 0x80_0000) as nat);
    if c == 0 {
        assert(0 * pow2(23) == 0) by (nonlinear_arith);
    } else {
        lemma_part_of_255(c);
        assert((s.0 * 0x80_0000) * unit == s.0 * (unit * 0x80_0000)) by (nonlinear_arith);
        lemma_near_is_exact((s.0 * 0x80_0000) as nat, (unit * 0x80_0000) as nat, s.0, s.1);
        lemma_near_self(s.0, s.1);
    }
    lemma_near_is_exact(0x80_0000 * 0x80_0000, 0x80_0000 * 0x80_0000, 0x80_0000, 23);
    assert(0 * 0x80_0000 == 0);
}

/// An opaque pixel replaces what is under it.
pub proof fn law_opaque_replaces(src: Seq<u8>, dst: Seq<u8>)
    requires
        src.len() == 4,
        dst.len() == 4,
        src[3] == 255,
    ensures
        laid_over(src, dst) == src,
{
    lemma_one_changes_nothing(dst[3] as nat);
    assert(joint_alpha(255, dst[3]) == one()) by {
        lemma_one_changes_nothing(255);
    }
    assert forall|i: int| 0 <= i < 3 implies blended(#[trigger] src[i], dst[i], 255, dst[3]) == src[i] by {
        lemma_one_changes_nothing(src[i] as nat);
        lemma_nothing_times(product(near(dst[i] as nat, 255), near(dst[3] as nat, 255)));
        law_a_byte_survives_the_round_trip(src[i]);
    }
    law_a_byte_survives_the_round_trip(255);
    assert(laid_over(src, dst) =~= src);
}

proof fn lemma_nothing_times(a: (nat, nat))
    ensures
        product(a, (0nat, 0nat)) == (0nat, 0nat),
{
    lemma2_to64();
    lemma_pow2_pos(a.1);
    assert(pow2(a.1) * 1 == pow2(a.1) && a.0 * 0 == 0) by (nonlinear_arith);
    lemma_near_nothing(pow2(a.1));
}

/// A clear pixel leaves an opaque one as it is.
pub proof fn law_clear_leaves_the_picture_alone(src: Seq<u8>, dst: Seq<u8>)
    requires
        src.len() == 4,
        dst.len() == 4,
        src[3] == 0,
        dst[3] == 255,
    ensures
        laid_over(src, dst) == dst,
{
    lemma_one_changes_nothing(255);
    assert(joint_alpha(0, 255) == one());
    assert forall|i: int| 0 <= i < 3 implies blended(src[i], #[trigger] dst[i], 0, 255) == dst[i] by {
        lemma_one_changes_nothing(src[i] as nat);
        lemma_one_changes_nothing(dst[i] as nat);
        law_a_byte_survives_the_round_trip(dst[i]);
    }
    law_a_byte_survives_the_round_trip(255);
    assert(laid_over(src, dst) =~= dst);
}

/// Whether a patch has something to show at a place in the picture.
pub open spec fn shows_at(patch: RenderedText, x: int, y: int) -> bool {
    let (px, py) = (x - patch.x, y - patch.y);
    &&& 0 <= px < patch.pixels.width
    &&& 0 <= py < patch.pixels.height
    &&& patch.pixels@.channel(px, py, 3) != 0
}

/// A raster with a patch laid over it. What hangs off an edge is not drawn.
pub open spec fn patched(base: Raster, patch: RenderedText) -> Raster {
    Raster::build(
        base.width,
        base.height,
        |x: int, y: int, c: int|
            if shows_at(patch, x, y) {
                laid_over(patch.pixels@.pixel(x - patch.x, y - patch.y), base.pixel(x, y))[c]
            } else {
                base.channel(x, y, c)
            },
    )
}

/// A raster with several patches laid over it, the first one lowest.
pub open spec fn composed(base: Raster, patches: Seq<RenderedText>) -> Raster
    decreases patches.len(),
{
    if patches.len() == 0 {
        base
    } else {
        patched(composed(base, patches.drop_last()), patches.last())
    }
}

proof fn lemma_patched(base: Raster, patch: RenderedText)
    ensures
        patched(base, patch).wf(),
        forall|x: int, y: int, c: int|
            0 <= x < base.width && 0 <= y < base.height && 0 <= c < 4 ==> #[trigger] patched(
                base,
                patch,
            ).channel(x, y, c) == (if shows_at(patch, x, y) {
                laid_over(patch.pixels@.pixel(x - patch.x, y - patch.y), base.pixel(x, y))[c]
            } else {
                base.channel(x, y, c)
            }),
{
    lemma_build(
        base.width,
        base.height,
        |x: int, y: int, c: int|
            if shows_at(patch, x, y) {
                laid_over(patch.pixels@.pixel(x - patch.x, y - patch.y), base.pixel(x, y))[c]
            } else {
                base.channel(x, y, c)
            },
    );
}

/// Whether a run of `length` from `start` reaches `i`, inside `0..extent`.
spec fn covers(start: int, length: int, extent: int, i: int) -> bool {
    0 <= i < extent && start <= i < start + length
}

/// The part of `0..extent` that a run of `length` from `start` covers.
fn overlap(start: i64, length: u32, extent: u32) -> (r: (u32, u32))
    ensures
        r.0 <= r.1 <= extent,
        forall|i: int|
            #[trigger] covers(start as int, length as int, extent as int, i) <==> r.0 <= i < r.1,
{
    let end: i128 = start as i128 + length as i128;
    let from: u32 = if start <= 0 {
        0
    } else if start >= extent as i64 {
        extent
    } else {
        start as u32
    };
    let to: u32 = if end <= from as i128 {
        from
    } else if end >= extent as i128 {
        extent
    } else {
        end as u32
    };
    (from, to)
}

/// Lays one patch over a picture.
fn lay(base: &mut Picture, patch: &RenderedText)
    requires
        old(base).wf(),
        patch.pixels.wf(),
    ensures
        final(base).wf(),
        final(base)@ == patched(old(base)@, *patch),
{
    let ghost before = base@;
    let ghost goal = patched(before, *patch);
    let (left, right) = overlap(patch.x, patch.pixels.width, base.width);
    let (top, bottom) = overlap(patch.y, patch.pixels.height, base.height);
    proof {
        lemma_patched(before, *patch);
        assert forall|i: int, j: int, c: int|
            0 <= i < base.width && 0 <= j < base.height && 0 <= c < 4 implies #[trigger] base@.channel(
            i,
            j,
            c,
        ) == (if top <= j < bottom && left <= i < right {
            before.channel(i, j, c)
        } else {
            goal.channel(i, j, c)
        }) by {
            assert(goal.channel(i, j, c) == patched(before, *patch).channel(i, j, c));
            assert(covers(patch.x as int, patch.pixels.width as int, base.width as int, i) <==> left <= i
                < right);
            assert(covers(patch.y as int, patch.pixels.height as int, base.height as int, j) <==> top
                <= j < bottom);
        }
    }
    let mut y: u32 = top;
    while y < bottom
        invariant
            base.wf(),
            before.wf(),
            patch.pixels.wf(),
            base.width == before.width,
            base.height == before.height,
            goal == patched(before, *patch),
            top <= y <= bottom <= base.height,
            left <= right <= base.width,
            forall|i: int|
                #[trigger] covers(
                    patch.x as int,
                    patch.pixels.width as int,
                    base.width as int,
                    i,
                ) <==> left <= i < right,
            forall|i: int|
                #[trigger] covers(
                    patch.y as int,
                    patch.pixels.height as int,
                    base.height as int,
                    i,
                ) <==> top <= i < bottom,
            forall|i: int, j: int, c: int|
                0 <= i < base.width && 0 <= j < base.height && 0 <= c < 4 ==> #[trigger] base@.channel(
                    i,
                    j,
                    c,
                ) == (if y <= j < bottom && left <= i < right {
                    before.channel(i, j, c)
                } else {
                    goal.channel(i, j, c)
                }),
        decreases bottom - y,
    {
        let mut x: u32 = left;
        while x < right
            invariant
                base.wf(),
                before.wf(),
                patch.pixels.wf(),
                base.width == before.width,
                base.height == before.height,
                goal == patched(before, *patch),
                top <= y < bottom <= base.height,
                left <= x <= right <= base.width,
                forall|i: int|
                    #[trigger] covers(
                        patch.x as int,
                        patch.pixels.width as int,
                        base.width as int,
                        i,
                    ) <==> left <= i < right,
                forall|i: int|
                    #[trigger] covers(
                        patch.y as int,
                        patch.pixels.height as int,
                        base.height as int,
                        i,
                    ) <==> top <= i < bottom,
                forall|i: int, j: int, c: int|
                    0 <= i < base.width && 0 <= j < base.height && 0 <= c < 4 ==> #[trigger] base@.channel(
                        i,
                        j,
                        c,
                    ) == (if y <= j < bottom && left <= i < right && !(j == y && i < x) {
                        before.channel(i, j, c)
                    } else {
                        goal.channel(i, j, c)
                    }),
            decreases right - x,
        {
            proof {
                assert(covers(
                    patch.x as int,
                    patch.pixels.width as int,
                    base.width as int,
                    x as int,
                ));
                assert(covers(
                    patch.y as int,
                    patch.pixels.height as int,
                    base.height as int,
                    y as int,
                ));
                assert(0 <= x - patch.x < patch.pixels.width);
                assert(0 <= y - patch.y < patch.pixels.height);
            }
            let px: u32 = (x as i64 - patch.x) as u32;
            let py: u32 = (y as i64 - patch.y) as u32;
            let src = patch.pixels.get_pixel(px, py);
            let under = base.get_pixel(x, y);
            proof {
                lemma_patched(before, *patch);
                lemma_pixel(patch.pixels@, px as int, py as int);
                lemma_pixel(base@, x as int, y as int);
                lemma_pixel(before, x as int, y as int);
                assert(base@.channel(x as int, y as int, 0) == before.channel(x as int, y as int, 0));
                assert(base@.channel(x as int, y as int, 1) == before.channel(x as int, y as int, 1));
                assert(base@.channel(x as int, y as int, 2) == before.channel(x as int, y as int, 2));
                assert(base@.channel(x as int, y as int, 3) == before.channel(x as int, y as int, 3));
                assert(under@ =~= before.pixel(x as int, y as int));
            }
            if src[3] != 0 {
                let ghost was = base@;
                let mixed = over(src, under);
                base.set_pixel(x, y, mixed);
            }
            x = x + 1;
        }
        y = y + 1;
    }
    proof {
        lemma_same_channels(base@, goal);
    }
}

/// The channels of a pixel, one by one.
proof fn lemma_pixel(r: Raster, x: int, y: int)
    requires
        r.wf(),
        0 <= x < r.width,
        0 <= y < r.height,
    ensures
        r.pixel(x, y).len() == 4,
        forall|c: int| 0 <= c < 4 ==> #[trigger] r.pixel(x, y)[c] == r.channel(x, y, c),
{
    lemma_index(x, y, 0, r.width as int, r.height as int);
    lemma_index(x, y, 3, r.width as int, r.height as int);
}

/// Lay what was drawn over an image, in place.
///
/// Straight alpha on both sides, source-over. Anything hanging off an edge is
/// simply not drawn.
pub fn composite(base: &mut Picture, texts: &Vec<RenderedText>)
    requires
        old(base).wf(),
        forall|i: int| 0 <= i < texts@.len() ==> (#[trigger] texts@[i]).pixels.wf(),
    ensures
        final(base).wf(),
        final(base)@ == composed(old(base)@, texts@),
{
    let ghost before = base@;
    let mut at: usize = 0;
    proof {
        assert(texts@.subrange(0, 0) =~= Seq::<RenderedText>::empty());
    }
    while at < texts.len()
        invariant
            at <= texts@.len(),
            base.wf(),
            base@ == composed(before, texts@.subrange(0, at as int)),
            forall|i: int| 0 <= i < texts@.len() ==> (#[trigger] texts@[i]).pixels.wf(),
        decreases texts@.len() - at,
    {
        lay(base, &texts[at]);
        at = at + 1;
        proof {
            let upto = texts@.subrange(0, at as int);
            assert(upto.drop_last() =~= texts@.subrange(0, at - 1));
            assert(upto.last() == texts@[at - 1]);
        }
    }
    proof {
        assert(texts@.subrange(0, at as int) =~= texts@);
    }
}

/// A patch changes no pixel that it does not show at: nothing wraps round to
/// the other side, and clear pixels leave what is under them.
pub proof fn law_a_patch_stays_in_its_place(base: Raster, patch: RenderedText, x: int, y: int, c: int)
    requires
        base.wf(),
        0 <= x < base.width,
        0 <= y < base.height,
        0 <= c < 4,
        !shows_at(patch, x, y),
    ensures
        patched(base, patch).channel(x, y, c) == base.channel(x, y, c),
{
    lemma_patched(base, patch);
}

/// Laying nothing over a picture, or a patch that lies wholly outside it,
/// changes nothing.
pub proof fn law_what_lies_outside_changes_nothing(base: Raster, patch: RenderedText)
    requires
        base.wf(),
        patch.x >= base.width || patch.y >= base.height || patch.x + patch.pixels.width <= 0 || patch.y
            + patch.pixels.height <= 0,
    ensures
        patched(base, patch) == base,
        composed(base, Seq::empty()) == base,
{
    lemma_patched(base, patch);
    lemma_same_channels(patched(base, patch), base);
}

/// An opaque pixel of a patch shows as it is, so far right of and below the patch's
/// corner as it is in the patch; a clear one leaves the picture as it was, whatever was
/// there.
pub proof fn law_a_patch_shows_where_it_is_put(
    base: Raster,
    patch: RenderedText,
    px: int,
    py: int,
    c: int,
)
    requires
        base.wf(),
        patch.pixels.wf(),
        0 <= px < patch.pixels.width,
        0 <= py < patch.pixels.height,
        0 <= patch.x + px < base.width,
        0 <= patch.y + py < base.height,
        0 <= c < 4,
    ensures
        ({
            let (x, y): (int, int) = (patch.x + px, patch.y + py);
            let pixels = patch.pixels@;
            &&& patched(base, patch).width == base.width && patched(base, patch).height
                == base.height
            &&& pixels.channel(px, py, 3) == 255 ==> patched(base, patch).channel(x, y, c)
                == pixels.channel(px, py, c)
            &&& pixels.channel(px, py, 3) == 0 ==> patched(base, patch).channel(x, y, c)
                == base.channel(x, y, c)
        }),
{
    let (x, y): (int, int) = (patch.x + px, patch.y + py);
    let f = |x: int, y: int, c: int|
        if shows_at(patch, x, y) {
            laid_over(patch.pixels@.pixel(x - patch.x, y - patch.y), base.pixel(x, y))[c]
        } else {
            base.channel(x, y, c)
        };
    lemma_build(base.width, base.height, f);
    assert(patched(base, patch) == Raster::build(base.width, base.height, f));
    let src = patch.pixels@.pixel(px, py);
    lemma_index(px, py, 3, patch.pixels.width as int, patch.pixels.height as int);
    lemma_index(px, py, 0, patch.pixels.width as int, patch.pixels.height as int);
    lemma_index(x, y, 3, base.width as int, base.height as int);
    lemma_index(x, y, 0, base.width as int, base.height as int);
    if patch.pixels@.channel(px, py, 3) == 255 {
        assert(src[3] == 255);
        law_opaque_replaces(src, base.pixel(x, y));
        assert(src[c] == patch.pixels@.channel(px, py, c));
    }
}

/// Of two patches on one spot the later one is on top.
pub proof fn law_the_later_patch_is_on_top(
    base: Raster,
    patches: Seq<RenderedText>,
    patch: RenderedText,
    px: int,
    py: int,
    c: int,
)
    requires
        base.wf(),
        patch.pixels.wf(),
        0 <= px < patch.pixels.width,
        0 <= py < patch.pixels.height,
        0 <= patch.x + px < base.width,
        0 <= patch.y + py < base.height,
        0 <= c < 4,
        patch.pixels@.channel(px, py, 3) == 255,
    ensures
        composed(base, patches.push(patch)).channel(patch.x + px, patch.y + py, c)
            == patch.pixels@.channel(px, py, c),
{
    let all = patches.push(patch);
    assert(all.drop_last() =~= patches);
    lemma_composed(base, patches);
    law_a_patch_shows_where_it_is_put(composed(base, patches), patch, px, py, c);
}

/// Patches change no size.
proof fn lemma_composed(base: Raster, patches: Seq<RenderedText>)
    requires
        base.wf(),
    ensures
        composed(base, patches).wf(),
        composed(base, patches).width == base.width,
        composed(base, patches).height == base.height,
    decreases patches.len(),
{
    if patches.len() > 0 {
        lemma_composed(base, patches.drop_last());
        let under = composed(base, patches.drop_last());
        let patch = patches.last();
        let f = |x: int, y: int, c: int|
            if shows_at(patch, x, y) {
                laid_over(patch.pixels@.pixel(x - patch.x, y - patch.y), under.pixel(x, y))[c]
            } else {
                under.channel(x, y, c)
            };
        lemma_build(under.width, under.height, f);
        assert(patched(under, patch) == Raster::build(under.width, under.height, f));
    }
}

} // verus!
