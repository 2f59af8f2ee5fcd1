//! Brightness, contrast and saturation, baked into pixels.
//!
//! The three sliders come to a matrix of three rows, one to a channel, and an
//! offset that they share. What a channel becomes is worked out in double
//! precision, each step rounding as that does, so that the pixels that are saved
//! are the ones that the same matrix shows on screen.

use vstd::arithmetic::power2::{
    lemma2_to64, lemma2_to64_rest, lemma_pow2_adds, lemma_pow2_pos, lemma_pow2_strictly_increases, pow2,
};
use vstd::arithmetic::div_mod::lemma_basic_div;
use vstd::prelude::*;

use crate::double::{full, lemma_half_even_is_near, lemma_ratio_places, nearest, nearest_double, whole};
use crate::floating::{
    add_up, exponent_field, from_bits, from_whole, kept, lemma_divided, lemma_whole_is_near,
    lemma_whole_shifts, multiply, negated, nothing, of_whole, one, plus, read_bits, settle, shade, times,
    to_bits, to_shade, Number,
};
use crate::rotation::{from_halves, halves};
use crate::picture::{
    cropped, lemma_cropped, lemma_index, lemma_same_channels, lemma_turned, turned, Orientation, Picture,
    Raster,
};

verus! {

/// A matrix and an offset for straight values from zero to one.
pub struct Tone {
    /// The nine numbers of the matrix, row by row.
    pub rows: Vec<Number>,
    pub offset: Number,
}

/// A matrix and an offset, as numbers.
pub struct Curve {
    pub rows: Seq<int>,
    pub offset: int,
}

impl View for Tone {
    type V = Curve;

    open spec fn view(&self) -> Curve {
        Curve { rows: self.rows@.map_values(|number: Number| number@), offset: self.offset@ }
    }
}

/// Whether a factor is nothing, or of a size that tone controls and sines have.
pub open spec fn is_moderate(number: Number) -> bool {
    number.wf() && number.within(-300, 20)
}

/// Whether a coefficient is of a size that moderate factors come to.
pub open spec fn is_coefficient(number: Number) -> bool {
    number.wf() && number.within(-864, 304)
}

impl Tone {
    /// Nine coefficients and an offset of a size to go on with.
    pub open spec fn wf(self) -> bool {
        &&& self.rows@.len() == 9
        &&& forall|i: int| 0 <= i < 9 ==> is_coefficient(#[trigger] self.rows@[i])
        &&& is_coefficient(self.offset)
    }
}

/// A byte as a part of one: the double nearest to its share of 255.
pub open spec fn share(byte: u8) -> int {
    let (n, places) = nearest(byte as nat, 255);
    (n * pow2((2000 - places) as nat)) as int
}

/// The share of a byte.
fn share_of(byte: u8) -> (r: Number)
    ensures
        r.wf(),
        r@ == share(byte),
        r.within(-180, 66),
{
    if byte == 0 {
        proof {
            lemma_nearest_nothing();
            assert(0 * pow2(2000) == 0) by (nonlinear_arith);
        }
        return nothing();
    }
    let near = nearest_double(byte as u128, 255);
    let r = settle(false, near.numerator, -(near.places as i32));
    proof {
        lemma_barely_whole(near.numerator as nat);
    }
    r
}

proof fn lemma_nearest_nothing()
    ensures
        nearest(0, 255) == (0nat, 0nat),
{
    lemma2_to64();
    assert(0 * pow2(0) == 0) by (nonlinear_arith);
}

/// A significand that was rounded up to one more bit is a whole double still.
proof fn lemma_barely_whole(n: nat)
    requires
        n <= 2 * full(),
    ensures
        whole(n) == n,
{
    if n == 2 * full() {
        crate::floating::lemma_whole_doubles(full());
        crate::floating::lemma_whole_of_short(full());
    } else {
        crate::floating::lemma_whole_of_short(n);
    }
}

/// A value held between zero and one.
pub open spec fn held(value: int) -> int {
    if value < 0 {
        0
    } else if value > one() {
        one() as int
    } else {
        value
    }
}

/// What a row of the matrix and the offset make of the shares of a pixel.
pub open spec fn mixed(curve: Curve, channel: int, r: u8, g: u8, b: u8) -> int {
    plus(
        plus(
            plus(
                times(curve.rows[3 * channel], share(r)),
                times(curve.rows[3 * channel + 1], share(g)),
            ),
            times(curve.rows[3 * channel + 2], share(b)),
        ),
        curve.offset,
    )
}

/// What a channel of a pixel becomes.
#[verifier::opaque]
pub open spec fn toned_channel(curve: Curve, channel: int, r: u8, g: u8, b: u8) -> nat {
    shade(times(held(mixed(curve, channel, r, g, b)), of_whole(255)))
}

/// What the channels of some pixels become. Alpha is left alone: these are tone
/// controls, not an opacity slider.
pub open spec fn toned(curve: Curve, rgba: Seq<u8>) -> Seq<u8> {
    Seq::new(
        rgba.len(),
        |i: int|
            if i % 4 == 3 {
                rgba[i]
            } else {
                let base = i - i % 4;
                toned_channel(curve, i % 4, rgba[base], rgba[base + 1], rgba[base + 2]) as u8
            },
    )
}

/// The factor that the bits of a double stand for, where it is nothing or of a
/// moderate size: its last bit worth 2^-300 to 2^20.
pub open spec fn factor(bits: u64) -> Option<int> {
    if bits % 0x8000_0000_0000_0000 == 0 || 775 <= exponent_field(bits) <= 1095 {
        read_bits(bits)
    } else {
        None
    }
}

/// Reads the bits of a factor.
pub(crate) fn read(bits: u64) -> (r: Option<Number>)
    ensures
        match r {
            Some(number) => is_moderate(number) && factor(bits) == Some(number@),
            None => factor(bits) is None,
        },
{
    let field: u64 = (bits / 0x10_0000_0000_0000) % 0x800;
    if bits % 0x8000_0000_0000_0000 == 0 {
        proof {
            assert(bits == 0 || bits == 0x8000_0000_0000_0000);
        }
        return Some(nothing());
    }
    if 775 <= field && field <= 1095 {
        from_bits(bits)
    } else {
        None
    }
}

/// How much a colour counts for the brightness that is seen: the weights that sRGB
/// is defined against. A flat average would turn saturated reds muddy and greens
/// too bright. These are the bits of 0.2126, 0.7152 and 0.0722.
pub const RED_WEIGHT: u64 = 0x3FCB_367A_0F90_96BC;

pub const GREEN_WEIGHT: u64 = 0x3FE6_E2EB_1C43_2CA5;

pub const BLUE_WEIGHT: u64 = 0x3FB2_7BB2_FEC5_6D5D;

/// The weight of a channel, as a number.
pub open spec fn weight(channel: int) -> int {
    if channel == 0 {
        read_bits(RED_WEIGHT)->0
    } else if channel == 1 {
        read_bits(GREEN_WEIGHT)->0
    } else {
        read_bits(BLUE_WEIGHT)->0
    }
}

/// A number of the matrix: each channel is mixed towards the brightness that is
/// seen, and what comes out is scaled by the contrast.
pub open spec fn cell(contrast: int, saturation: int, row: int, column: int) -> int {
    let own = if row == column { one() as int } else { 0 };
    times(
        contrast,
        plus(weight(column), times(saturation, plus(own, -weight(column)))),
    )
}

/// The offset: contrast is about mid grey, and brightness shifts what comes out.
pub open spec fn shift(contrast: int, brightness: int) -> int {
    plus(plus(halves(1), -times(halves(1), contrast)), brightness)
}

/// The matrix and the offset of some tone controls: `contrast` is how many times
/// as much there is to be, `saturation` is nothing for grey and one for as it is,
/// and `brightness` is what is added.
pub open spec fn curve_of(contrast: int, saturation: int, brightness: int) -> Curve {
    Curve {
        rows: Seq::new(9, |k: int| cell(contrast, saturation, k / 3, k % 3)),
        offset: shift(contrast, brightness),
    }
}

/// The weight of a channel.
fn weight_of(channel: usize) -> (r: Number)
    requires
        channel < 3,
    ensures
        r.wf(),
        r.within(-56, -53),
        r@ == weight(channel as int),
{
    let bits: u64 = if channel == 0 {
        RED_WEIGHT
    } else if channel == 1 {
        GREEN_WEIGHT
    } else {
        BLUE_WEIGHT
    };
    proof {
        assert(exponent_field(RED_WEIGHT) == 1020);
        assert(exponent_field(GREEN_WEIGHT) == 1022);
        assert(exponent_field(BLUE_WEIGHT) == 1019);
    }
    match from_bits(bits) {
        Some(number) => number,
        None => nothing(),
    }
}

/// Works a number of the matrix out.
fn cell_of(contrast: Number, saturation: Number, row: usize, column: usize) -> (r: Number)
    requires
        is_moderate(contrast),
        is_moderate(saturation),
        row < 3,
        column < 3,
    ensures
        is_coefficient(r),
        r@ == cell(contrast@, saturation@, row as int, column as int),
{
    let part = weight_of(column);
    let own = if row == column {
        from_whole(1)
    } else {
        nothing()
    };
    let less = negated(part);
    proof {
        assert(of_whole(1) == one()) by (nonlinear_arith)
            requires
                of_whole(1) == 1 * one(),
        ;
        assert(own.within(-56, 0) && less.within(-56, 0));
    }
    let apart = add_up(own, less);
    proof {
        assert(apart.within(-108, 66));
    }
    let mixed_in = multiply(saturation, apart);
    proof {
        assert(mixed_in.within(-460, 152) && part.within(-460, 152));
    }
    let sum = add_up(part, mixed_in);
    proof {
        assert(sum.within(-512, 218));
    }
    multiply(contrast, sum)
}

/// Works the offset out.
fn shift_of(contrast: Number, brightness: Number) -> (r: Number)
    requires
        is_moderate(contrast),
        is_moderate(brightness),
    ensures
        is_coefficient(r),
        r@ == shift(contrast@, brightness@),
{
    let half = from_halves(1);
    let scaled = negated(multiply(half, contrast));
    proof {
        assert(half.within(-405, 85) && scaled.within(-405, 85));
    }
    let middle = add_up(half, scaled);
    proof {
        assert(middle.within(-457, 151) && brightness.within(-457, 151));
    }
    add_up(middle, brightness)
}

impl Tone {
    /// The tone of some controls, from the bits of doubles: how many times the
    /// contrast is, how many times the saturation is, and what is added to the
    /// brightness. Nothing where one of them is out of all proportion.
    pub fn of(contrast: u64, saturation: u64, brightness: u64) -> (r: Option<Tone>)
        ensures
            match r {
                Some(tone) => tone.wf() && factor(contrast) is Some && factor(saturation) is Some
                    && factor(brightness) is Some && tone@ == curve_of(
                    factor(contrast)->0,
                    factor(saturation)->0,
                    factor(brightness)->0,
                ),
                None => factor(contrast) is None || factor(saturation) is None || factor(
                    brightness,
                ) is None,
            },
    {
        let contrast = match read(contrast) {
            Some(number) => number,
            None => return None,
        };
        let saturation = match read(saturation) {
            Some(number) => number,
            None => return None,
        };
        let brightness = match read(brightness) {
            Some(number) => number,
            None => return None,
        };
        let mut rows: Vec<Number> = Vec::new();
        let mut at: usize = 0;
        while at < 9
            invariant
                at <= 9,
                is_moderate(contrast),
                is_moderate(saturation),
                rows@.len() == at,
                forall|k: int|
                    0 <= k < at ==> is_coefficient(#[trigger] rows@[k]) && rows@[k]@ == cell(
                        contrast@,
                        saturation@,
                        k / 3,
                        k % 3,
                    ),
            decreases 9 - at,
        {
            rows.push(cell_of(contrast, saturation, at / 3, at % 3));
            at = at + 1;
        }
        let tone = Tone { rows, offset: shift_of(contrast, brightness) };
        proof {
            assert(tone@.rows =~= curve_of(contrast@, saturation@, brightness@).rows);
        }
        Some(tone)
    }

    /// A number of the matrix, row by row, or the offset behind them, as the bits
    /// of a double, so that the screen can show the same matrix.
    pub fn bits(&self, place: usize) -> (r: u64)
        requires
            self.wf(),
            place <= 9,
        ensures
            read_bits(r) == Some(
                if place < 9 {
                    self@.rows[place as int]
                } else {
                    self@.offset
                },
            ),
    {
        let number: Number = if place < 9 {
            self.rows[place]
        } else {
            self.offset
        };
        proof {
            assert(is_coefficient(number));
        }
        match to_bits(number) {
            Some(bits) => bits,
            None => 0,
        }
    }
}

/// Whether a list holds the products of a coefficient with the shares of all bytes.
spec fn holds_products(list: Seq<Number>, factor: int) -> bool {
    &&& list.len() == 256
    &&& forall|b: int|
        0 <= b < 256 ==> (#[trigger] list[b]).wf() && list[b].within(-1096, 436) && list[b]@ == times(
            factor,
            share(b as u8),
        )
}

/// The products of one coefficient with the shares of all bytes.
fn products(factor: Number) -> (r: Vec<Number>)
    requires
        is_coefficient(factor),
    ensures
        holds_products(r@, factor@),
{
    let mut list: Vec<Number> = Vec::new();
    let mut byte: u16 = 0;
    while byte < 256
        invariant
            byte <= 256,
            is_coefficient(factor),
            list@.len() == byte,
            forall|b: int|
                0 <= b < byte ==> (#[trigger] list@[b]).wf() && list@[b].within(-1096, 436)
                    && list@[b]@ == times(factor@, share(b as u8)),
        decreases 256 - byte,
    {
        let part = share_of(byte as u8);
        let product = multiply(factor, part);
        list.push(product);
        byte = byte + 1;
    }
    list
}

/// What a channel becomes, out of the products for its row.
fn finish(a: Number, b: Number, c: Number, offset: Number) -> (r: u8)
    requires
        a.wf() && a.within(-1096, 436),
        b.wf() && b.within(-1096, 436),
        c.wf() && c.within(-1096, 436),
        is_coefficient(offset),
    ensures
        r == shade(times(held(plus(plus(plus(a@, b@), c@), offset@)), of_whole(255))),
{
    let two = add_up(a, b);
    proof {
        assert(two.within(-1148, 502));
        assert(c.within(-1148, 502));
    }
    let three = add_up(two, c);
    proof {
        assert(three.within(-1200, 568));
        assert(offset.within(-1200, 568));
    }
    let value = add_up(three, offset);
    proof {
        assert(value.within(-1252, 634));
    }
    let kept_in = hold(value);
    to_shade(multiply(kept_in, from_whole(255)))
}

/// Holds a value between zero and one.
fn hold(value: Number) -> (r: Number)
    requires
        value.wf(),
        value.within(-1252, 634),
    ensures
        r.wf(),
        r.within(-1252, 634),
        r@ == held(value@),
{
    let ghost unit = pow2((value.exponent + 2000) as nat);
    proof {
        lemma_pow2_pos((value.exponent + 2000) as nat);
        lemma_pow2_pos(2000);
        assert(value.significand > 0 ==> value.significand * unit > 0) by (nonlinear_arith)
            requires
                unit > 0,
        ;
        assert(0 * unit == 0) by (nonlinear_arith);
    }
    if value.significand == 0 || value.negative {
        return nothing();
    }
    if value.exponent >= -52 {
        proof {
            lemma_at_least_one(value);
        }
        return from_whole(1);
    }
    proof {
        lemma_below_one(value);
    }
    value
}

proof fn lemma_at_least_one(value: Number)
    requires
        value.wf(),
        value.significand > 0,
        !value.negative,
        value.exponent >= -52,
    ensures
        value@ >= one(),
{
    let unit = pow2((value.exponent + 2000) as nat);
    let least = pow2(1948);
    lemma_pow2_pos(1948);
    lemma_pow2_adds(1948, 52);
    if value.exponent > -52 {
        lemma_pow2_strictly_increases(1948, (value.exponent + 2000) as nat);
    }
    assert(pow2(52) == full()) by {
        lemma2_to64_rest();
    }
    assert(value.significand * unit >= one()) by (nonlinear_arith)
        requires
            value.significand >= full(),
            unit >= least,
            one() == least * full(),
    ;
}

proof fn lemma_below_one(value: Number)
    requires
        value.wf(),
        value.exponent < -52,
    ensures
        value@ <= one(),
{
    let unit = pow2((value.exponent + 2000) as nat);
    let most = pow2(1947);
    lemma_pow2_pos(1947);
    lemma_pow2_adds(1947, 53);
    if value.exponent < -53 {
        lemma_pow2_strictly_increases((value.exponent + 2000) as nat, 1947);
    }
    assert(pow2(53) == 2 * full()) by {
        lemma2_to64_rest();
    }
    assert(value.significand * unit <= one()) by (nonlinear_arith)
        requires
            0 <= value.significand < 2 * full(),
            unit <= most,
            one() == most * (2 * full()),
    ;
}

/// The bytes of a pixel, once it is toned.
proof fn lemma_next_toned(curve: Curve, rgba: Seq<u8>, at: int)
    requires
        0 <= at,
        at % 4 == 0,
        at + 4 <= rgba.len(),
    ensures
        ({
            let (r, g, b) = (rgba[at], rgba[at + 1], rgba[at + 2]);
            let goal = toned(curve, rgba);
            &&& goal.len() == rgba.len()
            &&& goal[at] == toned_channel(curve, 0, r, g, b) as u8
            &&& goal[at + 1] == toned_channel(curve, 1, r, g, b) as u8
            &&& goal[at + 2] == toned_channel(curve, 2, r, g, b) as u8
            &&& goal[at + 3] == rgba[at + 3]
        }),
{
    assert((at + 1) % 4 == 1 && (at + 2) % 4 == 2 && (at + 3) % 4 == 3);
}

/// The products of all coefficients with the shares of all bytes.
struct Products {
    lists: Vec<Vec<Number>>,
}

impl Products {
    /// Whether these are the products of a matrix.
    #[verifier::opaque]
    spec fn belong_to(self, curve: Curve) -> bool {
        &&& self.lists@.len() == 9
        &&& forall|k: int|
            0 <= k < 9 ==> holds_products((#[trigger] self.lists@[k])@, curve.rows[k])
    }

    /// Works the products of a matrix out.
    fn of(tone: &Tone) -> (r: Products)
        requires
            tone.wf(),
        ensures
            r.belong_to(tone@),
    {
        let mut lists: Vec<Vec<Number>> = Vec::new();
        let mut at: usize = 0;
        while at < 9
            invariant
                at <= 9,
                tone.wf(),
                lists@.len() == at,
                forall|k: int|
                    0 <= k < at ==> holds_products((#[trigger] lists@[k])@, tone@.rows[k]),
            decreases 9 - at,
        {
            lists.push(products(tone.rows[at]));
            at = at + 1;
        }
        let r = Products { lists };
        proof {
            reveal(Products::belong_to);
        }
        r
    }

    /// What a channel of a pixel becomes.
    fn toned(&self, tone: &Tone, channel: usize, r: u8, g: u8, b: u8) -> (shown: u8)
        requires
            tone.wf(),
            channel < 3,
            self.belong_to(tone@),
        ensures
            shown == toned_channel(tone@, channel as int, r, g, b),
    {
        proof {
            reveal(Products::belong_to);
            reveal(toned_channel);
            assert(holds_products(self.lists@[3 * channel]@, tone@.rows[3 * channel]));
            assert(holds_products(self.lists@[3 * channel + 1]@, tone@.rows[3 * channel + 1]));
            assert(holds_products(self.lists@[3 * channel + 2]@, tone@.rows[3 * channel + 2]));
        }
        let (r_at, g_at, b_at): (usize, usize, usize) = (r as usize, g as usize, b as usize);
        let x: Number = self.lists[3 * channel][r_at];
        let y: Number = self.lists[3 * channel + 1][g_at];
        let z: Number = self.lists[3 * channel + 2][b_at];
        finish(x, y, z, tone.offset)
    }

    /// Adds a toned pixel to the end of some bytes.
    fn push_toned(&self, out: &mut Vec<u8>, tone: &Tone, rgba: &Vec<u8>, at: usize)
        requires
            tone.wf(),
            self.belong_to(tone@),
            at % 4 == 0,
            at + 4 <= rgba@.len(),
        ensures
            final(out)@ == old(out)@ + toned(tone@, rgba@).subrange(at as int, at + 4),
    {
        proof {
            assert(rgba.len() <= usize::MAX);
        }
        let ghost before = out@;
        let (r, g, b): (u8, u8, u8) = (rgba[at], rgba[at + 1], rgba[at + 2]);
        out.push(self.toned(tone, 0, r, g, b));
        out.push(self.toned(tone, 1, r, g, b));
        out.push(self.toned(tone, 2, r, g, b));
        out.push(rgba[at + 3]);
        proof {
            lemma_next_toned(tone@, rgba@, at as int);
            assert(out@ =~= before + toned(tone@, rgba@).subrange(at as int, at + 4));
        }
    }
}

impl Tone {
    /// Bakes the adjustment into pixels. Straight alpha in, straight alpha out.
    pub fn bake(&self, image: &Picture) -> (r: Picture)
        requires
            self.wf(),
            image.wf(),
        ensures
            r.wf(),
            r@ == toned_raster(self@, image@),
    {
        let products = Products::of(self);
        let ghost goal = toned(self@, image.rgba@);
        let mut rgba: Vec<u8> = Vec::new();
        let mut at: usize = 0;
        proof {
            assert(image.rgba@.len() % 4 == 0);
            assert(rgba@ =~= goal.subrange(0, 0));
        }
        while at < image.rgba.len()
            invariant
                self.wf(),
                products.belong_to(self@),
                at % 4 == 0,
                at <= image.rgba@.len(),
                image.rgba@.len() % 4 == 0,
                goal == toned(self@, image.rgba@),
                goal.len() == image.rgba@.len(),
                rgba@ == goal.subrange(0, at as int),
            decreases image.rgba@.len() - at,
        {
            products.push_toned(&mut rgba, self, &image.rgba, at);
            proof {
                assert(rgba@ =~= goal.subrange(0, at + 4));
                assert(image.rgba.len() <= usize::MAX);
            }
            at = at + 4;
        }
        proof {
            assert(rgba@ =~= goal);
        }
        Picture { width: image.width, height: image.height, rgba }
    }
}

/// Where the three rows of a matrix are the same, whatever comes out is grey.
pub proof fn law_equal_rows_make_grey(curve: Curve, rgba: Seq<u8>, at: int)
    requires
        curve.rows.len() == 9,
        forall|k: int| 0 <= k < 6 ==> #[trigger] curve.rows[k] == curve.rows[k + 3],
        0 <= at,
        at % 4 == 0,
        at + 4 <= rgba.len(),
    ensures
        toned(curve, rgba)[at] == toned(curve, rgba)[at + 1],
        toned(curve, rgba)[at + 1] == toned(curve, rgba)[at + 2],
{
    reveal(toned_channel);
    lemma_next_toned(curve, rgba, at);
    assert(curve.rows[0] == curve.rows[3] && curve.rows[3] == curve.rows[6]);
    assert(curve.rows[1] == curve.rows[4] && curve.rows[4] == curve.rows[7]);
    assert(curve.rows[2] == curve.rows[5] && curve.rows[5] == curve.rows[8]);
}

/// The matrix that takes each channel as it is.
pub open spec fn plain_curve() -> Curve {
    let one = one() as int;
    Curve { rows: seq![one, 0, 0, 0, one, 0, 0, 0, one], offset: 0 }
}

/// The plain matrix changes nothing.
pub proof fn law_the_plain_matrix_changes_nothing(rgba: Seq<u8>)
    requires
        rgba.len() % 4 == 0,
    ensures
        toned(plain_curve(), rgba) == rgba,
{
    let curve = plain_curve();
    assert forall|i: int| 0 <= i < rgba.len() implies toned(curve, rgba)[i] == rgba[i] by {
        if i % 4 != 3 {
            let base = i - i % 4;
            let (r, g, b) = (rgba[base], rgba[base + 1], rgba[base + 2]);
            lemma_plain_channel(i % 4, r, g, b);
        }
    }
    assert(toned(curve, rgba) =~= rgba);
}

proof fn lemma_plain_channel(channel: int, r: u8, g: u8, b: u8)
    requires
        0 <= channel < 3,
    ensures
        toned_channel(plain_curve(), channel, r, g, b) == (if channel == 0 {
            r
        } else if channel == 1 {
            g
        } else {
            b
        }),
{
    reveal(toned_channel);
    let curve = plain_curve();
    lemma_share(r);
    lemma_share(g);
    lemma_share(b);
    lemma_no_share(r);
    lemma_no_share(g);
    lemma_no_share(b);
    crate::floating::lemma_whole_of_short(0);
    assert(mixed(curve, 0, r, g, b) == share(r));
    assert(mixed(curve, 1, r, g, b) == share(g));
    assert(mixed(curve, 2, r, g, b) == share(b));
    lemma_share_comes_back(r);
    lemma_share_comes_back(g);
    lemma_share_comes_back(b);
}

proof fn lemma_no_share(byte: u8)
    ensures
        times(0, share(byte)) == 0,
{
    lemma_pow2_pos(2000);
    assert(0 * share(byte) == 0) by (nonlinear_arith);
    crate::floating::lemma_whole_of_short(0);
    lemma_divided(false, 0, 0);
}

/// A share is a number, between zero and one, and one times it is itself.
proof fn lemma_share(byte: u8)
    ensures
        kept(share(byte)) == share(byte),
        times(one() as int, share(byte)) == share(byte),
        0 <= share(byte) <= one(),
        nearest(byte as nat, 255).0 <= 2 * full(),
        nearest(byte as nat, 255).0 <= pow2(nearest(byte as nat, 255).1),
        nearest(byte as nat, 255).1 <= 85,
        byte > 0 ==> nearest(byte as nat, 255).1 >= 52,
{
    lemma2_to64();
    lemma2_to64_rest();
    if byte == 0 {
        lemma_nearest_nothing();
        assert(0 * pow2(2000) == 0) by (nonlinear_arith);
        crate::floating::lemma_whole_of_short(0);
        lemma_pow2_pos(2000);
        assert(one() * 0 == 0) by (nonlinear_arith);
        lemma_divided(false, 0, 0);
    } else {
        let (n, places) = nearest(byte as nat, 255);
        let unit = pow2(places);
        lemma_ratio_places(byte as nat, 255);
        lemma_half_even_is_near(byte as nat * unit, 255);
        assert(n <= 2 * full());
        assert(byte * unit <= 255 * unit) by (nonlinear_arith)
            requires
                0 < byte <= 255,
                unit >= 1,
        ;
        assert(n <= unit);
        if places < 52 {
            lemma_pow2_strictly_increases(places, 52);
        }
        let rest = pow2((2000 - places) as nat);
        lemma_pow2_pos((2000 - places) as nat);
        lemma_pow2_adds(places, (2000 - places) as nat);
        assert(n * rest <= one()) by (nonlinear_arith)
            requires
                n <= unit,
                one() == unit * rest,
        ;
        lemma_barely_whole(n);
        lemma_whole_shifts(n, (2000 - places) as nat);
        lemma_whole_shifts(n * rest, 2000);
        assert(one() * (n * rest) == (n * rest) * one()) by (nonlinear_arith);
        lemma_divided(false, n * rest, kept(one() as int * share(byte)));
    }
}

/// A byte's share of 255, times 255, rounds to the byte.
proof fn lemma_share_comes_back(byte: u8)
    ensures
        shade(times(held(share(byte)), of_whole(255))) == byte,
{
    lemma_share(byte);
    lemma2_to64();
    lemma_pow2_pos(2000);
    if byte == 0 {
        lemma_nearest_nothing();
        assert(0 * pow2(2000) == 0) by (nonlinear_arith);
        assert(0 * of_whole(255) == 0) by (nonlinear_arith);
        crate::floating::lemma_whole_of_short(0);
        lemma_divided(false, 0, 0);
        lemma_basic_div(one() as int, 2 * one() as int);
    } else {
        let (n, places) = nearest(byte as nat, 255);
        let unit = pow2(places);
        let rest = pow2((2000 - places) as nat);
        lemma_pow2_pos((2000 - places) as nat);
        lemma_pow2_adds(places, (2000 - places) as nat);
        lemma_half_even_is_near(byte as nat * unit, 255);
        let m: nat = 255 * n;
        let near = whole(m);
        lemma_whole_is_near(m);
        lemma_whole_shifts(m, (2000 - places) as nat);
        lemma_whole_shifts(m * rest, 2000);
        assert((n * rest) * (255 * one()) == (m * rest) * one()) by (nonlinear_arith)
            requires
                m == 255 * n,
        ;
        lemma_divided(false, near * rest, kept(share(byte) * of_whole(255)));
        assert(times(share(byte), of_whole(255)) == near * rest);
        // What is left out on the way is less than half of what a shade is worth.
        let goal = byte as nat * unit;
        assert(2 * near + 1024 > 2 * goal && 2 * near < 2 * goal + 1024) by {
            assert(n * 255 == m);
            assert(m <= 255 * (2 * full()));
            assert(near <= m + 255 && m <= near + 255) by (nonlinear_arith)
                requires
                    2 * full() * near <= (2 * full() + 1) * m,
                    (2 * full() - 1) * m <= 2 * full() * near,
                    m <= 255 * (2 * full()),
                    full() == 0x10_0000_0000_0000,
            ;
        }
        assert(unit >= full()) by {
            lemma2_to64_rest();
            if places > 52 {
                lemma_pow2_strictly_increases(52, places);
            }
        }
        let value: int = (near * rest) as int;
        let d: int = one() as int;
        assert((2 * value + d) / (2 * d) == byte) by (nonlinear_arith)
            requires
                value == near * rest,
                d == unit * rest,
                rest > 0,
                goal == byte as nat * unit,
                2 * near + 1024 > 2 * goal,
                2 * near < 2 * goal + 1024,
                unit >= 2048,
        ;
    }
}

/// A raster with its tone changed.
pub open spec fn toned_raster(curve: Curve, r: Raster) -> Raster {
    Raster { rgba: toned(curve, r.rgba), ..r }
}

/// What a pixel becomes depends on that pixel alone.
proof fn lemma_toned_at(curve: Curve, r: Raster, x: int, y: int, c: int)
    requires
        r.wf(),
        0 <= x < r.width,
        0 <= y < r.height,
        0 <= c < 4,
    ensures
        toned_raster(curve, r).channel(x, y, c) == (if c == 3 {
            r.channel(x, y, 3)
        } else {
            toned_channel(curve, c, r.channel(x, y, 0), r.channel(x, y, 1), r.channel(x, y, 2)) as u8
        }),
{
    lemma_index(x, y, c, r.width as int, r.height as int);
    lemma_index(x, y, 0, r.width as int, r.height as int);
    lemma_index(x, y, 3, r.width as int, r.height as int);
    lemma_next_toned(curve, r.rgba, (y * r.width + x) * 4);
}

/// Changing the tone and turning or mirroring can go in either order.
pub proof fn law_tone_and_turns_commute(curve: Curve, r: Raster, o: Orientation)
    requires
        r.wf(),
    ensures
        toned_raster(curve, turned(r, o)) == turned(toned_raster(curve, r), o),
{
    let (a, b) = (toned_raster(curve, turned(r, o)), turned(toned_raster(curve, r), o));
    lemma_turned(r, o);
    lemma_turned(toned_raster(curve, r), o);
    assert forall|x: int, y: int, c: int|
        0 <= x < a.width && 0 <= y < a.height && 0 <= c < 4 implies #[trigger] a.channel(x, y, c)
        == b.channel(x, y, c) by {
        let (sx, sy) = o.source(x, y, r.width as int, r.height as int);
        lemma_toned_at(curve, turned(r, o), x, y, c);
        lemma_toned_at(curve, r, sx, sy, c);
        assert(turned(r, o).channel(x, y, 0) == r.channel(sx, sy, 0));
        assert(turned(r, o).channel(x, y, 1) == r.channel(sx, sy, 1));
        assert(turned(r, o).channel(x, y, 2) == r.channel(sx, sy, 2));
        assert(turned(r, o).channel(x, y, 3) == r.channel(sx, sy, 3));
    }
    lemma_same_channels(a, b);
}

/// Changing the tone and cutting a part out can go in either order.
pub proof fn law_tone_and_cuts_commute(
    curve: Curve,
    r: Raster,
    left: nat,
    top: nat,
    width: nat,
    height: nat,
)
    requires
        r.wf(),
        left + width <= r.width,
        top + height <= r.height,
    ensures
        toned_raster(curve, cropped(r, left, top, width, height)) == cropped(
            toned_raster(curve, r),
            left,
            top,
            width,
            height,
        ),
{
    let part = cropped(r, left, top, width, height);
    let a = toned_raster(curve, part);
    let b = cropped(toned_raster(curve, r), left, top, width, height);
    lemma_cropped(r, left, top, width, height);
    lemma_cropped(toned_raster(curve, r), left, top, width, height);
    assert forall|x: int, y: int, c: int|
        0 <= x < a.width && 0 <= y < a.height && 0 <= c < 4 implies #[trigger] a.channel(x, y, c)
        == b.channel(x, y, c) by {
        lemma_toned_at(curve, part, x, y, c);
        lemma_toned_at(curve, r, left + x, top + y, c);
        assert(part.channel(x, y, 0) == r.channel(left + x, top + y, 0));
        assert(part.channel(x, y, 1) == r.channel(left + x, top + y, 1));
        assert(part.channel(x, y, 2) == r.channel(left + x, top + y, 2));
        assert(part.channel(x, y, 3) == r.channel(left + x, top + y, 3));
    }
    lemma_same_channels(a, b);
}

/// Without any saturation, whatever comes out is grey: each channel lands on the
/// brightness that is seen.
pub proof fn law_no_saturation_makes_grey(contrast: int, brightness: int, rgba: Seq<u8>, at: int)
    requires
        0 <= at,
        at % 4 == 0,
        at + 4 <= rgba.len(),
    ensures
        ({
            let grey = toned(curve_of(contrast, 0, brightness), rgba);
            grey[at] == grey[at + 1] && grey[at + 1] == grey[at + 2] && grey[at + 3] == rgba[at + 3]
        }),
{
    let curve = curve_of(contrast, 0, brightness);
    lemma_nothing_times();
    assert forall|k: int| 0 <= k < 6 implies #[trigger] curve.rows[k] == curve.rows[k + 3] by {
        assert((k + 3) % 3 == k % 3);
    }
    law_equal_rows_make_grey(curve, rgba, at);
    lemma_next_toned(curve, rgba, at);
}

/// Nothing times anything is nothing.
proof fn lemma_nothing_times()
    ensures
        forall|a: int| #[trigger] times(0, a) == 0,
{
    lemma_pow2_pos(2000);
    crate::floating::lemma_whole_of_short(0);
    lemma_divided(false, 0, 0);
    assert forall|a: int| #[trigger] times(0, a) == 0 by {
        assert(0 * a == 0) by (nonlinear_arith);
    }
}

} // verus!
