//! Colour management.
//!
//! A photograph carries an ICC profile saying what its numbers mean. Without
//! reading it, a wide-gamut shot is drawn as though its numbers were sRGB, and
//! everything comes out a little flat. Conversion happens once, at decode,
//! straight to sRGB, which keeps one meaning for a pixel everywhere else.

use vstd::arithmetic::power2::{lemma2_to64, lemma_pow2_unfold, pow2};
use vstd::prelude::*;

verus! {

/// The significand of 0.0001 as a double. Colorants and white points this close
/// together are the same profile: the difference is far below a single step of
/// eight bits.
pub const SAME_COLORANT: u64 = 0x1A_36E2_EB1C_432D;

/// The exponent field of a double, and its sign above it.
pub open spec fn exponent_of(bits: u64) -> int {
    bits as int / 0x10_0000_0000_0000
}

/// The significand of a double.
pub open spec fn significand_of(bits: u64) -> int {
    bits as int % 0x10_0000_0000_0000 + 0x10_0000_0000_0000
}

/// Whether a double is positive, and at least 2^-8 but below 4.
pub open spec fn in_reach(bits: u64) -> bool {
    1015 <= exponent_of(bits) <= 1024
}

/// Whether a double is at least 2^-7 but below 2.
pub open spec fn is_ordinary(bits: u64) -> bool {
    1016 <= exponent_of(bits) <= 1023
}

/// A double in reach, times 2^60: a whole number.
pub open spec fn fixed(bits: u64) -> int {
    significand_of(bits) * pow2((exponent_of(bits) - 1015) as nat)
}

/// Whether a double is within 0.0001 of one that is ordinary. One that is out
/// of reach is further off than that, and one that is no number is not close to
/// anything.
pub open spec fn close(a: u64, b: u64) -> bool {
    in_reach(a) && 64 * (fixed(a) - fixed(b)) < SAME_COLORANT && 64 * (fixed(b) - fixed(a))
        < SAME_COLORANT
}

/// A double in reach, times 2^60.
fn to_fixed(bits: u64) -> (r: u128)
    requires
        in_reach(bits),
    ensures
        r == fixed(bits),
        r < 0x4000_0000_0000_0000,
{
    let significand: u64 = bits % 0x10_0000_0000_0000 + 0x10_0000_0000_0000;
    let steps: u64 = bits / 0x10_0000_0000_0000 - 1015;
    let mut r: u128 = significand as u128;
    let mut done: u64 = 0;
    proof {
        lemma2_to64();
        assert(significand * pow2(0) == significand) by (nonlinear_arith)
            requires
                pow2(0) == 1,
        ;
    }
    while done < steps
        invariant
            done <= steps <= 9,
            significand < 0x20_0000_0000_0000,
            pow2(done as nat) <= 512,
            r == significand * pow2(done as nat),
        decreases steps - done,
    {
        proof {
            lemma_pow2_unfold((done + 1) as nat);
            lemma2_to64();
            assert(significand * (2 * pow2(done as nat)) == 2 * (significand * pow2(done as nat)))
                by (nonlinear_arith);
            assert(significand * pow2(done as nat) <= 0x20_0000_0000_0000 * 512) by (nonlinear_arith)
                requires
                    significand < 0x20_0000_0000_0000,
                    pow2(done as nat) <= 512,
            ;
            vstd::arithmetic::power2::lemma_pow2_strictly_increases(done as nat, 9);
            if done + 1 < 9 {
                vstd::arithmetic::power2::lemma_pow2_strictly_increases((done + 1) as nat, 9);
            }
        }
        r = r * 2;
        done = done + 1;
    }
    proof {
        assert(significand * pow2(done as nat) < 0x20_0000_0000_0000 * 512) by (nonlinear_arith)
            requires
                significand < 0x20_0000_0000_0000,
                0 < pow2(done as nat) <= 512,
        ;
    }
    r
}

/// Whether a double is within 0.0001 of one that is ordinary.
fn is_close(a: u64, b: u64) -> (r: bool)
    requires
        is_ordinary(b),
    ensures
        r == close(a, b),
{
    let exponent: u64 = a / 0x10_0000_0000_0000;
    if exponent < 1015 || exponent > 1024 {
        return false;
    }
    let x: u128 = to_fixed(a);
    let y: u128 = to_fixed(b);
    let gap: u128 = if x >= y { x - y } else { y - x };
    64 * gap < SAME_COLORANT as u128
}

/// Whether a profile is sRGB in all but name: its red, green and blue colorants
/// and its white point, three coordinates each, are those of sRGB.
pub open spec fn same_primaries(profile: Seq<u64>, srgb: Seq<u64>) -> bool {
    &&& profile.len() == srgb.len()
    &&& forall|i: int| 0 <= i < profile.len() ==> close(#[trigger] profile[i], srgb[i])
}

/// Whether a profile is sRGB in all but name.
///
/// Most cameras and phones tag their output sRGB, and converting sRGB to sRGB
/// is a pass over every pixel to change nothing. Comparing the colorants is
/// cheap and catches the common case.
pub fn is_srgb(profile: &Vec<u64>, srgb: &Vec<u64>) -> (r: bool)
    requires
        forall|i: int| 0 <= i < srgb@.len() ==> is_ordinary(#[trigger] srgb@[i]),
    ensures
        r == same_primaries(profile@, srgb@),
{
    if profile.len() != srgb.len() {
        return false;
    }
    let mut at: usize = 0;
    while at < profile.len()
        invariant
            at <= profile@.len() == srgb@.len(),
            forall|i: int| 0 <= i < srgb@.len() ==> is_ordinary(#[trigger] srgb@[i]),
            forall|i: int| 0 <= i < at ==> close(#[trigger] profile@[i], srgb@[i]),
        decreases profile@.len() - at,
    {
        if !is_close(profile[at], srgb[at]) {
            return false;
        }
        at = at + 1;
    }
    true
}

/// The colorants and the white point that a profile records, as the bits of
/// doubles, where it is a profile.
pub uninterp spec fn primaries_of(profile: Seq<u8>) -> Option<Seq<u64>>;

/// `ColorProfile::new_from_slice`, and the bits of the colorants and the white
/// point that it read. They depend on the profile alone.
#[verifier::external_body]
fn profile_primaries(profile: &[u8]) -> (r: Option<Vec<u64>>)
    ensures
        primaries_of(profile@) == (match r {
            Some(numbers) => Some(numbers@),
            None => None,
        }),
        r is Some ==> r->0@.len() == 12,
{
    let parsed = moxcms::ColorProfile::new_from_slice(profile).ok()?;
    let (r, g, b) = (parsed.red_colorant, parsed.green_colorant, parsed.blue_colorant);
    let w = parsed.white_point;
    let numbers = [r.x, r.y, r.z, g.x, g.y, g.z, b.x, b.y, b.z, w.x, w.y, w.z];
    Some(numbers.map(|number| number.to_bits()).to_vec())
}

/// The colorants and the white point of sRGB, in millionths: red, green, blue and
/// white, three coordinates each.
pub open spec fn srgb_millionths() -> Seq<int> {
    seq![
        435_844,
        222_373,
        13_929,
        385_309,
        717_028,
        97_157,
        143_060,
        60_598,
        714_103,
        963_906,
        1_000_000,
        824_746,
    ]
}

/// Whether a double in reach is less than a millionth away from a number of
/// millionths.
pub open spec fn is_about(bits: u64, millionths: int) -> bool {
    let gap = 1_000_000 * fixed(bits) - millionths * 0x1000_0000_0000_0000;
    -0x1000_0000_0000_0000 < gap < 0x1000_0000_0000_0000
}

/// Whether some doubles are the colorants and the white point of sRGB, up to what
/// a machine's rounding makes of them.
pub open spec fn are_srgb(numbers: Seq<u64>) -> bool {
    &&& numbers.len() == 12
    &&& forall|i: int|
        0 <= i < 12 ==> is_ordinary(#[trigger] numbers[i]) && is_about(
            numbers[i],
            srgb_millionths()[i],
        )
}

/// The bits of the colorants and the white point of `ColorProfile::new_srgb`.
/// They are the colorants of BT.709 under D65, adapted to D50, and the white of
/// 5003 kelvin. Their last bits are left open, since they are worked out with
/// fused multiplications where the machine has them; each is known to a millionth.
#[verifier::external_body]
fn srgb_primaries() -> (r: Vec<u64>)
    ensures
        are_srgb(r@),
{
    let srgb = moxcms::ColorProfile::new_srgb();
    let (r, g, b) = (srgb.red_colorant, srgb.green_colorant, srgb.blue_colorant);
    let w = srgb.white_point;
    let numbers = [r.x, r.y, r.z, g.x, g.y, g.z, b.x, b.y, b.z, w.x, w.y, w.z];
    numbers.map(|number| number.to_bits()).to_vec()
}

/// Whether a conversion to sRGB can be made from a profile: it is one, it
/// describes RGB by colorants and curves, and its curves can be read.
pub uninterp spec fn is_convertible(profile: Seq<u8>) -> bool;

/// Whether a conversion from a profile to sRGB may turn one colour, as red, green
/// and blue, into another. Machines round differently, so a colour may turn into
/// more than one.
pub uninterp spec fn may_become(profile: Seq<u8>, from: Seq<u8>, to: Seq<u8>) -> bool;

/// The red, green and blue of a pixel.
pub open spec fn colour_at(rgba: Seq<u8>, pixel: int) -> Seq<u8> {
    rgba.subrange(4 * pixel, 4 * pixel + 3)
}

/// `create_in_place_transform_8bit` from a profile to sRGB, and its `transform`.
///
/// Whether a transform can be built depends on the profile alone, and one that was
/// built refuses only a length that is no multiple of four, ahead of the first
/// pixel. It works on whole RGBA pixels in place, each on its own, and carries
/// alpha through. Which of the colours that it may become a colour does become is
/// left open, since the transform runs on whatever vector instructions the machine
/// has, and those round differently.
#[verifier::external_body]
fn convert(rgba: &mut Vec<u8>, profile: &[u8]) -> (r: bool)
    ensures
        final(rgba)@.len() == old(rgba)@.len(),
        r == (is_convertible(profile@) && old(rgba)@.len() % 4 == 0),
        !r ==> final(rgba)@ == old(rgba)@,
        r ==> forall|pixel: int|
            0 <= pixel < old(rgba)@.len() / 4 ==> may_become(
                profile@,
                #[trigger] colour_at(old(rgba)@, pixel),
                colour_at(final(rgba)@, pixel),
            ),
        forall|i: int| 0 <= i < old(rgba)@.len() && i % 4 == 3 ==> #[trigger] final(rgba)@[i] == old(rgba)@[i],
{
    let Ok(source) = moxcms::ColorProfile::new_from_slice(profile) else {
        return false;
    };
    let srgb = moxcms::ColorProfile::new_srgb();
    let options = moxcms::TransformOptions::default();
    match source.create_in_place_transform_8bit(moxcms::Layout::Rgba, &srgb, options) {
        Ok(transform) => transform.transform(rgba).is_ok(),
        Err(_) => false,
    }
}

/// Whether pixels in a profile's colours have to be converted and can be: the
/// profile is one, is not sRGB in all but name and can be converted from, and the
/// pixels are whole.
pub open spec fn calls_for_conversion(rgba: Seq<u8>, profile: Seq<u8>, srgb: Seq<u64>) -> bool {
    &&& primaries_of(profile) is Some
    &&& !same_primaries(primaries_of(profile)->0, srgb)
    &&& is_convertible(profile)
    &&& rgba.len() % 4 == 0
}

/// Whether some pixels are others, converted from a profile: as many of them, each
/// in a colour that its own may become, with the same alpha.
pub open spec fn is_conversion(before: Seq<u8>, profile: Seq<u8>, after: Seq<u8>) -> bool {
    &&& after.len() == before.len()
    &&& forall|pixel: int|
        0 <= pixel < before.len() / 4 ==> may_become(
            profile,
            #[trigger] colour_at(before, pixel),
            colour_at(after, pixel),
        )
    &&& forall|i: int| 0 <= i < before.len() && i % 4 == 3 ==> #[trigger] after[i] == before[i]
}

/// Whether some pixels are what is made of others that are in a profile's colours,
/// against these numbers of sRGB: converted where that is called for, and as they
/// were where it is not.
pub open spec fn is_made(
    before: Seq<u8>,
    profile: Seq<u8>,
    after: Seq<u8>,
    srgb: Seq<u64>,
) -> bool {
    &&& are_srgb(srgb)
    &&& if calls_for_conversion(before, profile, srgb) {
        is_conversion(before, profile, after)
    } else {
        after == before
    }
}

/// Convert straight RGBA pixels from `profile` into sRGB, in place.
///
/// Returns whether anything was done. A file that is already sRGB, or a profile
/// we cannot make sense of, leaves the pixels alone: being wrong in a new way is
/// worse than being wrong in the way everyone expects.
pub fn to_srgb(rgba: &mut Vec<u8>, profile: &[u8]) -> (r: bool)
    ensures
        exists|srgb: Seq<u64>|
            #[trigger] is_made(old(rgba)@, profile@, final(rgba)@, srgb) && r
                == calls_for_conversion(old(rgba)@, profile@, srgb),
        final(rgba)@.len() == old(rgba)@.len(),
        forall|i: int|
            0 <= i < old(rgba)@.len() && i % 4 == 3 ==> #[trigger] final(rgba)@[i] == old(rgba)@[i],
        !r ==> final(rgba)@ == old(rgba)@,
        primaries_of(profile@) is None ==> !r,
        !is_convertible(profile@) ==> !r,
        old(rgba)@.len() % 4 != 0 ==> !r,
{
    let ghost before = rgba@;
    let srgb = srgb_primaries();
    let source = match profile_primaries(profile) {
        Some(source) => source,
        None => {
            proof {
                assert(is_made(before, profile@, rgba@, srgb@));
            }
            return false;
        },
    };
    if is_srgb(&source, &srgb) {
        proof {
            assert(is_made(before, profile@, rgba@, srgb@));
        }
        return false;
    }
    let done = convert(rgba, profile);
    proof {
        assert(is_made(before, profile@, rgba@, srgb@));
    }
    done
}

/// Whether some pixels are what may be made of others that are in a profile's
/// colours.
pub open spec fn may_convert(before: Seq<u8>, profile: Seq<u8>, after: Seq<u8>) -> bool {
    exists|srgb: Seq<u64>| #[trigger] is_made(before, profile, after, srgb)
}

/// The pixels of a file in sRGB. A file without a profile is left exactly alone.
pub open spec fn in_srgb(before: Seq<u8>, profile: Option<Seq<u8>>, after: Seq<u8>) -> bool {
    match profile {
        Some(profile) => may_convert(before, profile, after),
        None => after == before,
    }
}

/// Converts the pixels of a file to sRGB, where it carries a profile.
pub fn honour(rgba: Vec<u8>, profile: &Option<Vec<u8>>) -> (r: Vec<u8>)
    ensures
        in_srgb(rgba@, profile_bytes(*profile), r@),
        r@.len() == rgba@.len(),
{
    let mut pixels = rgba;
    if let Some(bytes) = profile {
        to_srgb(&mut pixels, bytes.as_slice());
        proof {
            assert(may_convert(rgba@, bytes@, pixels@));
        }
    }
    pixels
}

/// The bytes of a profile that may be missing.
pub open spec fn profile_bytes(profile: Option<Vec<u8>>) -> Option<Seq<u8>> {
    match profile {
        Some(bytes) => Some(bytes@),
        None => None,
    }
}

/// Two colorants are the same where they lie less than a ten-thousandth apart, and not
/// the same where they lie further apart, whichever is the larger.
pub proof fn law_colorants_are_compared_to_a_ten_thousandth(a: u64, b: u64)
    requires
        in_reach(a),
        in_reach(b),
    ensures
        ({
            let gap = if fixed(a) >= fixed(b) {
                fixed(a) - fixed(b)
            } else {
                fixed(b) - fixed(a)
            };
            &&& 10_001 * gap <= 0x1000_0000_0000_0000 ==> close(a, b)
            &&& 9_999 * gap >= 0x1000_0000_0000_0000 ==> !close(a, b)
        }),
        close(a, b) == close(b, a),
        close(a, a),
{
}

/// One colorant out of place is enough for a profile not to be sRGB.
pub proof fn law_every_colorant_has_to_match(profile: Seq<u64>, srgb: Seq<u64>, i: int)
    requires
        0 <= i < profile.len(),
        profile.len() == srgb.len(),
    ensures
        !close(profile[i], srgb[i]) ==> !same_primaries(profile, srgb),
{
}

} // verus!
