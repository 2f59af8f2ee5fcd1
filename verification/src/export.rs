//! Turning the pending edits into the bytes of a file.

use vstd::arithmetic::power2::{lemma_pow2_pos, lemma_pow2_strictly_increases, pow2};
use vstd::prelude::*;

use crate::crop::{CropSelection, Point, Selected, REACH};
use crate::double::{full, half_even, half_up, lemma_half_even_is_near, whole};
use crate::floating::{
    add_up, divide, excess_ratio, from_whole, kept, lemma_divided, lemma_sign, lemma_whole_is_near,
    lemma_whole_of_short, lemma_whole_shifts, less, lift, multiply, negated, nothing, of_whole, one,
    plus, quotient, rounded, signed, size, times, whole_ratio, Number,
};
use crate::loader::LoadedImage;
use crate::picture::{
    cropped, law_a_part_is_where_it_was, law_mirroring_both_ways_is_a_half_turn,
    law_mirroring_twice_changes_nothing, law_where_pixels_go, lemma_build, lemma_same_channels,
    lemma_turned, may_scale_to, resample, roomy, turned, Orientation, Picture, Raster,
};
use crate::rotation::{freely_turned, from_halves, halves, rotate_freely, Angle};
use crate::text::{composed, composite, RenderedText};
use crate::tone::{toned_raster, Tone};
use crate::wording::{append_decimal, decimal, lowercase, outcome, same};

verus! {

/// Where the quality dial sits when nobody has moved it. High enough that a
/// photograph keeps its detail, low enough that the file is not absurd.
pub const DEFAULT_QUALITY: u8 = 85;

/// A format an edited image can be written to.
///
/// Every one is a raster format: an image that has been decoded is pixels, and
/// pixels can be written as any of these. A photograph cannot become a drawing,
/// because nothing can recover the shapes it never had.
pub struct Target {
    pub label: &'static str,
    pub extension: &'static str,
    /// Encoders with a size limit of their own. ICO is the only common one.
    pub max_dimension: Option<u32>,
    /// Shown beside the name when the format costs the picture something.
    pub caveat: Option<&'static str>,
}

/// Whether an extension belongs to the one format with a quality to choose.
pub open spec fn is_jpeg(extension: Seq<char>) -> bool {
    extension == "jpg"@ || extension == "jpeg"@
}

/// Why an image of one size does not fit under a limit.
pub open spec fn refusal_text(label: Seq<char>, limit: nat, width: nat, height: nat) -> Seq<char> {
    label + " cannot hold an image larger than "@ + decimal(limit) + " × "@ + decimal(limit)
        + "; this one is "@ + decimal(width) + " × "@ + decimal(height)
        + ". Resize it first, or pick another format."@
}

/// Whether a picture is past the most that a format holds.
pub open spec fn is_past(limit: Option<u32>, width: int, height: int) -> bool {
    limit is Some && (width > limit->0 || height > limit->0)
}

/// The formats on offer: what each is called, the extension of its files, the most it
/// holds either way, and what it costs.
pub open spec fn target_list() -> Seq<(Seq<char>, Seq<char>, Option<u32>, Option<Seq<char>>)> {
    seq![
        ("PNG"@, "png"@, None, None),
        ("JPEG"@, "jpg"@, None, Some("no transparency"@)),
        ("WebP"@, "webp"@, None, None),
        ("TIFF"@, "tiff"@, None, None),
        ("BMP"@, "bmp"@, None, None),
        ("GIF"@, "gif"@, None, Some("256 colours, one frame"@)),
        ("ICO"@, "ico"@, Some(256), None),
    ]
}

impl Target {
    /// Whether the entry holds these texts and this limit.
    pub open spec fn reads(
        self,
        label: Seq<char>,
        extension: Seq<char>,
        max_dimension: Option<u32>,
        caveat: Option<Seq<char>>,
    ) -> bool {
        &&& self.label@ == label
        &&& self.extension@ == extension
        &&& self.max_dimension == max_dimension
        &&& match self.caveat {
            Some(text) => caveat == Some(text@),
            None => caveat is None,
        }
    }

    /// Whether this format has a quality to choose. Only JPEG does here: the
    /// others in the list are lossless, and this build writes WebP losslessly
    /// too.
    pub fn lossy(&self) -> (r: bool)
        ensures
            r == is_jpeg(self.extension@),
    {
        same(self.extension, "jpg") || same(self.extension, "jpeg")
    }

    /// Why this format cannot take an image of this size, if it cannot.
    ///
    /// Asked before the file dialog opens rather than after, so the refusal
    /// arrives while there is still something to do about it.
    pub fn refusal(&self, width: u32, height: u32) -> (r: Option<String>)
        ensures
            match r {
                None => !is_past(self.max_dimension, width as int, height as int),
                Some(text) => is_past(self.max_dimension, width as int, height as int) && text@
                    == refusal_text(
                    self.label@,
                    self.max_dimension->0 as nat,
                    width as nat,
                    height as nat,
                ),
            },
    {
        let limit: u32 = match self.max_dimension {
            Some(limit) => limit,
            None => return None,
        };
        if width <= limit && height <= limit {
            return None;
        }
        let mut text = self.label.to_owned();
        text.append(" cannot hold an image larger than ");
        append_decimal(&mut text, limit as u64);
        text.append(" × ");
        append_decimal(&mut text, limit as u64);
        text.append("; this one is ");
        append_decimal(&mut text, width as u64);
        text.append(" × ");
        append_decimal(&mut text, height as u64);
        text.append(". Resize it first, or pick another format.");
        Some(text)
    }
}

/// The formats on offer, ordered by how likely someone is to want them.
pub fn targets() -> (r: Vec<Target>)
    ensures
        r@.len() == 7,
        r@[0].reads("PNG"@, "png"@, None, None),
        r@[1].reads("JPEG"@, "jpg"@, None, Some("no transparency"@)),
        r@[2].reads("WebP"@, "webp"@, None, None),
        r@[3].reads("TIFF"@, "tiff"@, None, None),
        r@[4].reads("BMP"@, "bmp"@, None, None),
        r@[5].reads("GIF"@, "gif"@, None, Some("256 colours, one frame"@)),
        r@[6].reads("ICO"@, "ico"@, Some(256), None),
        forall|i: int|
            0 <= i < 7 ==> (#[trigger] r@[i]).reads(
                target_list()[i].0,
                target_list()[i].1,
                target_list()[i].2,
                target_list()[i].3,
            ),
{
    vec![
        Target { label: "PNG", extension: "png", max_dimension: None, caveat: None },
        Target {
            label: "JPEG",
            extension: "jpg",
            max_dimension: None,
            caveat: Some("no transparency"),
        },
        Target { label: "WebP", extension: "webp", max_dimension: None, caveat: None },
        Target { label: "TIFF", extension: "tiff", max_dimension: None, caveat: None },
        Target { label: "BMP", extension: "bmp", max_dimension: None, caveat: None },
        Target {
            label: "GIF",
            extension: "gif",
            max_dimension: None,
            caveat: Some("256 colours, one frame"),
        },
        Target { label: "ICO", extension: "ico", max_dimension: Some(256), caveat: None },
    ]
}

/// Makes the buffer that editing works on out of a decoded file. Anything behind
/// the pixels that the size asks for is left out.
pub fn open(decoded: LoadedImage) -> (r: Result<Picture, String>)
    ensures
        match r {
            Ok(picture) => decoded.rgba@.len() >= decoded.width * decoded.height * 4 && picture@ == (
            Raster {
                width: decoded.width as nat,
                height: decoded.height as nat,
                rgba: decoded.rgba@.subrange(0, decoded.width * decoded.height * 4),
            }) && picture.wf(),
            Err(message) => decoded.rgba@.len() < decoded.width * decoded.height * 4 && message@
                == "The decoder reported a size that does not match its data."@,
        },
{
    proof {
        assert(decoded.width * decoded.height <= 0xFFFF_FFFF * 0xFFFF_FFFF) by (nonlinear_arith)
            requires
                decoded.width <= 0xFFFF_FFFF,
                decoded.height <= 0xFFFF_FFFF,
        ;
    }
    let wanted: u128 = decoded.width as u128 * decoded.height as u128 * 4;
    if (decoded.rgba.len() as u128) < wanted {
        return Err("The decoder reported a size that does not match its data.".to_owned());
    }
    let mut rgba = decoded.rgba;
    rgba.truncate(wanted as usize);
    let picture = Picture { width: decoded.width, height: decoded.height, rgba };
    proof {
        assert(picture@.rgba =~= decoded.rgba@.subrange(0, wanted as int));
    }
    Ok(picture)
}

/// A channel of a pixel laid over white, `alpha` saying how much of it shows.
pub open spec fn over_white(channel: u8, alpha: u8) -> u8 {
    half_up((channel * alpha + 255 * (255 - alpha)) as nat, 255) as u8
}

/// The red, green and blue of every pixel of a raster laid over white.
pub open spec fn flattened(r: Raster) -> Seq<u8> {
    Seq::new(
        r.width * r.height * 3,
        |i: int| over_white(r.rgba[(i / 3) * 4 + i % 3], r.rgba[(i / 3) * 4 + 3]),
    )
}

/// One channel over white.
fn whiten(channel: u8, alpha: u8) -> (r: u8)
    ensures
        r == over_white(channel, alpha),
{
    proof {
        assert(channel * alpha <= 255 * alpha) by (nonlinear_arith)
            requires
                channel <= 255,
                alpha >= 0,
        ;
        assert(channel * alpha >= 0) by (nonlinear_arith)
            requires
                channel >= 0,
                alpha >= 0,
        ;
    }
    let sum: u32 = channel as u32 * alpha as u32 + 255 * (255 - alpha as u32);
    ((2 * sum + 255) / 510) as u8
}

/// Lays a picture over white and drops the alpha channel.
///
/// JPEG cannot carry transparency, so anything a freehand cut removed would
/// otherwise come out black.
pub fn flatten(image: &Picture) -> (r: Vec<u8>)
    requires
        image.wf(),
    ensures
        r@ == flattened(image@),
{
    let mut rgb: Vec<u8> = Vec::new();
    let count: usize = image.rgba.len() / 4;
    let ghost goal = flattened(image@);
    proof {
        assert(image.rgba.len() <= usize::MAX);
    }
    let mut at: usize = 0;
    while at < count
        invariant
            at <= count,
            image.rgba@.len() == count * 4,
            count * 4 <= usize::MAX,
            goal == flattened(image@),
            goal.len() == count * 3,
            rgb@ == goal.subrange(0, at * 3),
        decreases count - at,
    {
        let alpha: u8 = image.rgba[at * 4 + 3];
        rgb.push(whiten(image.rgba[at * 4], alpha));
        rgb.push(whiten(image.rgba[at * 4 + 1], alpha));
        rgb.push(whiten(image.rgba[at * 4 + 2], alpha));
        proof {
            assert((at * 3) / 3 == at && (at * 3) % 3 == 0);
            assert((at * 3 + 1) / 3 == at && (at * 3 + 1) % 3 == 1);
            assert((at * 3 + 2) / 3 == at && (at * 3 + 2) % 3 == 2);
            assert(rgb@ =~= goal.subrange(0, (at + 1) * 3));
        }
        at = at + 1;
    }
    proof {
        assert(rgb@ =~= goal);
    }
    rgb
}

/// The file that the JPEG encoder makes of an RGB image at a quality, or its
/// message when it makes none.
pub uninterp spec fn jpeg_file(width: u32, height: u32, rgb: Seq<u8>, quality: u8) -> Result<
    Seq<u8>,
    Seq<char>,
>;

/// `JpegEncoder::new_with_quality` and its `encode_image`, writing to memory.
///
/// The file depends on the pixels, the size and the quality alone. It refuses
/// exactly the sizes that the two-byte fields of the frame header cannot hold,
/// zero among them, and every file starts with the start-of-image marker.
#[verifier::external_body]
fn encode_jpeg(width: u32, height: u32, rgb: Vec<u8>, quality: u8) -> (r: Result<Vec<u8>, String>)
    requires
        rgb@.len() == width as nat * height as nat * 3,
    ensures
        outcome(r) == jpeg_file(width, height, rgb@, quality),
        r is Ok <==> (1 <= width <= 65535 && 1 <= height <= 65535),
        r is Ok ==> (r->Ok_0@.len() >= 2 && r->Ok_0@[0] == 0xFF && r->Ok_0@[1] == 0xD8),
{
    let buffer = image::RgbImage::from_raw(width, height, rgb).unwrap();
    let mut out = std::io::Cursor::new(Vec::new());
    let mut encoder = image::codecs::jpeg::JpegEncoder::new_with_quality(&mut out, quality);
    match encoder.encode_image(&buffer) {
        Ok(()) => Ok(out.into_inner()),
        Err(error) => Err(error.to_string()),
    }
}

/// The name that a file format goes by: the first of its extensions. The
/// argument is an extension in lower case.
pub open spec fn format_of(extension: Seq<char>) -> Option<Seq<char>> {
    if extension == "jpg"@ || extension == "jpeg"@ || extension == "jfif"@ {
        Some("jpg"@)
    } else if extension == "png"@ || extension == "apng"@ {
        Some("png"@)
    } else if extension == "tif"@ || extension == "tiff"@ {
        Some("tiff"@)
    } else if extension == "pbm"@ || extension == "pam"@ || extension == "ppm"@ || extension == "pgm"@
        || extension == "pnm"@ {
        Some("pbm"@)
    } else if extension == "gif"@ || extension == "webp"@ || extension == "tga"@ || extension == "dds"@
        || extension == "bmp"@ || extension == "ico"@ || extension == "hdr"@ || extension == "exr"@
        || extension == "ff"@ || extension == "qoi"@ || extension == "avif"@ {
        Some(extension)
    } else {
        None
    }
}

/// `ImageFormat::from_extension` knows these extensions, in capitals too. The
/// format is handed on under the first entry of its `extensions_str`.
#[verifier::external_body]
pub(crate) fn format_from_extension(extension: &str) -> (r: Option<&'static str>)
    ensures
        match r {
            Some(name) => format_of(lowercase(extension@)) == Some(name@),
            None => format_of(lowercase(extension@)) is None,
        },
{
    image::ImageFormat::from_extension(extension).map(|format| format.extensions_str()[0])
}

/// The file that an encoder makes of a raster, or its message when it makes none.
pub uninterp spec fn image_file(width: u32, height: u32, rgba: Seq<u8>, format: Seq<char>) -> Result<
    Seq<u8>,
    Seq<char>,
>;

/// `DynamicImage::write_to`, writing to memory in the format that an extension names.
///
/// The file depends on the pixels, the size and the format alone; a TIFF is in the
/// byte order that the program was built for, which is the same in all its files. A
/// PNG is the signature and then chunks up to the end chunk.
#[verifier::external_body]
fn write_to(image: &Picture, format: &str) -> (r: Result<Vec<u8>, String>)
    requires
        image.wf(),
        format_of(format@) == Some(format@),
    ensures
        outcome(r) == image_file(image.width, image.height, image.rgba@, format@),
        r is Ok ==> (format@ == "png"@ ==> end_chunk(r->Ok_0@, 8) is Some),
{
    let buffer = image::RgbaImage::from_raw(image.width, image.height, image.rgba.clone()).unwrap();
    let mut out = std::io::Cursor::new(Vec::new());
    let format = image::ImageFormat::from_extension(format).unwrap();
    match image::DynamicImage::ImageRgba8(buffer).write_to(&mut out, format) {
        Ok(()) => Ok(out.into_inner()),
        Err(error) => Err(error.to_string()),
    }
}

/// A number of four bytes, the most significant first.
pub open spec fn big_endian(bytes: Seq<u8>) -> nat {
    (bytes[0] * 0x100_0000 + bytes[1] * 0x1_0000 + bytes[2] * 0x100 + bytes[3]) as nat
}

/// Where the end chunk of a PNG begins, looking from the chunk at `at` on.
///
/// A chunk is four bytes of length, four of type, the data and four of check
/// value.
pub open spec fn end_chunk(bytes: Seq<u8>, at: int) -> Option<int>
    decreases (if at > bytes.len() { 0 } else { bytes.len() - at }),
{
    if at + 8 > bytes.len() {
        None
    } else if bytes.subrange(at + 4, at + 8) == seq![0x49u8, 0x45, 0x4E, 0x44] {
        Some(at)
    } else {
        end_chunk(bytes, at + 12 + big_endian(bytes.subrange(at, at + 4)))
    }
}

/// What the image library says of an extension that it does not know, or of
/// none at all.
pub uninterp spec fn unknown_format_text(extension: Option<Seq<char>>) -> Seq<char>;

/// The message of an `UnsupportedError` made from an `ImageFormatHint`: that of
/// a path's extension, or that of nothing to go by, which is a fixed sentence. It
/// depends on the extension alone.
#[verifier::external_body]
pub(crate) fn unknown_format(extension: Option<&str>) -> (r: String)
    ensures
        r@ == unknown_format_text(
            match extension {
                Some(text) => Some(text@),
                None => None,
            },
        ),
        extension is None ==> r@ == "The image format could not be determined"@,
{
    let hint = match extension {
        Some(text) => image::error::ImageFormatHint::PathExtension(text.into()),
        None => image::error::ImageFormatHint::Unknown,
    };
    image::error::UnsupportedError::from(hint).to_string()
}

/// An encoder's outcome, its message introduced.
pub open spec fn introduced(r: Result<Seq<u8>, Seq<char>>, introduction: Seq<char>) -> Result<
    Seq<u8>,
    Seq<char>,
> {
    match r {
        Ok(bytes) => Ok(bytes),
        Err(message) => Err(introduction + message),
    }
}

/// Puts an introduction in front of a message.
fn introduce(r: Result<Vec<u8>, String>, introduction: &str) -> (s: Result<Vec<u8>, String>)
    ensures
        outcome(s) == introduced(outcome(r), introduction@),
{
    match r {
        Ok(bytes) => Ok(bytes),
        Err(message) => {
            let mut text = introduction.to_owned();
            text.append(message.as_str());
            Err(text)
        },
    }
}

/// The file that a raster makes as a target, at a quality where the target has one.
pub open spec fn encoded(image: Picture, label: Seq<char>, extension: Seq<char>, quality: u8) -> Result<
    Seq<u8>,
    Seq<char>,
> {
    if is_jpeg(extension) {
        introduced(
            jpeg_file(image.width, image.height, flattened(image@), quality),
            "Could not encode: "@,
        )
    } else {
        match format_of(lowercase(extension)) {
            Some(format) => introduced(
                image_file(image.width, image.height, image.rgba@, format),
                "Could not encode: "@,
            ),
            None => Err(label + " cannot be written."@),
        }
    }
}

/// Encodes a picture as `target`, at `quality` where the target has a dial.
pub fn encode(image: &Picture, target: &Target, quality: u8) -> (r: Result<Vec<u8>, String>)
    requires
        image.wf(),
    ensures
        outcome(r) == encoded(*image, target.label@, target.extension@, quality),
        is_jpeg(target.extension@) ==> (r is Ok <==> 1 <= image.width <= 65535 && 1 <= image.height
            <= 65535),
        is_jpeg(target.extension@) && r is Ok ==> r->Ok_0@.len() >= 2 && r->Ok_0@[0] == 0xFF
            && r->Ok_0@[1] == 0xD8,
        format_of(lowercase(target.extension@)) == Some("png"@) && r is Ok ==> end_chunk(
            r->Ok_0@,
            8,
        ) is Some,
{
    if target.lossy() {
        proof {
            lemma_jpeg_is_not_png(target.extension@);
        }
        let rgb = flatten(image);
        introduce(encode_jpeg(image.width, image.height, rgb, quality), "Could not encode: ")
    } else {
        match format_from_extension(target.extension) {
            Some(format) => {
                proof {
                    lemma_formats_name_themselves(lowercase(target.extension@));
                }
                introduce(write_to(image, format), "Could not encode: ")
            },
            None => {
                let mut text = target.label.to_owned();
                text.append(" cannot be written.");
                Err(text)
            },
        }
    }
}

/// The file that a picture is saved as, under an extension.
pub open spec fn saved_file(
    image: Picture,
    extension: Option<Seq<char>>,
    quality: Option<u8>,
) -> Result<Seq<u8>, Seq<char>> {
    introduced(
        match extension {
            None => Err(unknown_format_text(None)),
            Some(text) => if is_jpeg(lowercase(text)) {
                jpeg_file(
                    image.width,
                    image.height,
                    flattened(image@),
                    match quality {
                        Some(q) => q,
                        None => DEFAULT_QUALITY,
                    },
                )
            } else {
                match format_of(lowercase(text)) {
                    Some(format) => image_file(image.width, image.height, image.rgba@, format),
                    None => Err(unknown_format_text(Some(text))),
                }
            },
        },
        "Could not save: "@,
    )
}

/// Encodes a picture for a file with this extension. `quality` is honoured by
/// the formats that have a dial; the rest are lossless and ignore it.
pub fn write(image: &Picture, extension: Option<&str>, quality: Option<u8>) -> (r: Result<
    Vec<u8>,
    String,
>)
    requires
        image.wf(),
    ensures
        outcome(r) == saved_file(
            *image,
            match extension {
                Some(text) => Some(text@),
                None => None,
            },
            quality,
        ),
{
    let made = match extension {
        None => Err(unknown_format(None)),
        Some(text) => {
            let small = text.to_ascii_lowercase();
            if same(small.as_str(), "jpg") || same(small.as_str(), "jpeg") {
                let rgb = flatten(image);
                let quality: u8 = match quality {
                    Some(q) => q,
                    None => DEFAULT_QUALITY,
                };
                encode_jpeg(image.width, image.height, rgb, quality)
            } else {
                match format_from_extension(text) {
                    Some(format) => {
                        proof {
                            lemma_formats_name_themselves(lowercase(text@));
                        }
                        write_to(image, format)
                    },
                    None => Err(unknown_format(Some(text))),
                }
            }
        },
    };
    introduce(made, "Could not save: ")
}

/// The name of a format is one of its extensions.
pub proof fn lemma_formats_name_themselves(extension: Seq<char>)
    requires
        format_of(extension) is Some,
    ensures
        format_of(format_of(extension)->0) == format_of(extension),
{
    reveal_strlit("jpg");
    reveal_strlit("jpeg");
    reveal_strlit("jfif");
    reveal_strlit("png");
    reveal_strlit("apng");
    reveal_strlit("tif");
    reveal_strlit("tiff");
    reveal_strlit("pbm");
    reveal_strlit("pam");
    reveal_strlit("ppm");
    reveal_strlit("pgm");
    reveal_strlit("pnm");
    let name = format_of(extension)->0;
    assert("tiff"@.len() == 4 && "jpg"@.len() == 3 && "png"@.len() == 3 && "pbm"@.len() == 3);
    assert("jpg"@[0] == 'j' && "png"@[0] == 'p' && "png"@[1] == 'n' && "pbm"@[0] == 'p' && "pbm"@[1] == 'b');
    assert("jpeg"@.len() == 4 && "jpeg"@[0] == 'j' && "jfif"@.len() == 4 && "jfif"@[0] == 'j');
    assert("apng"@.len() == 4 && "apng"@[0] == 'a' && "tiff"@[0] == 't' && "tif"@.len() == 3 && "tif"@[0]
        == 't');
}

proof fn lemma_jpeg_is_not_png(extension: Seq<char>)
    requires
        is_jpeg(extension),
    ensures
        format_of(lowercase(extension)) != Some("png"@),
{
    reveal_strlit("jpg");
    reveal_strlit("jpeg");
    reveal_strlit("png");
    reveal_strlit("apng");
    assert(lowercase(extension) =~= extension);
    assert("png"@[0] == 'p' && "jpg"@[0] == 'j' && "jpeg"@[0] == 'j' && "apng"@[0] == 'a');
}

/// A place in pixels, each coordinate a number.
#[derive(Clone, Copy)]
pub struct Spot {
    pub x: Number,
    pub y: Number,
}

impl View for Spot {
    type V = (int, int);

    open spec fn view(&self) -> (int, int) {
        (self.x@, self.y@)
    }
}

impl Spot {
    /// The coordinates are of a size that leaves room to work with them.
    pub open spec fn wf(self) -> bool {
        &&& self.x.wf() && self.x.within(-270, 180)
        &&& self.y.wf() && self.y.within(-270, 180)
    }
}

/// The places of an outline.
pub open spec fn spots(polygon: Seq<Spot>) -> Seq<(int, int)> {
    polygon.map_values(|spot: Spot| spot@)
}

/// Where an edge between two places meets a level, each step rounding as a double
/// does.
pub open spec fn meeting(a: (int, int), b: (int, int), level: int) -> int {
    let along = times(plus(b.0, -a.0), plus(level, -a.1));
    plus(quotient(along, plus(b.1, -a.1)), a.0)
}

/// The place before another one, going round.
pub open spec fn before(polygon: Seq<(int, int)>, i: int) -> (int, int) {
    if i == 0 {
        polygon.last()
    } else {
        polygon[i - 1]
    }
}

/// Where those of the first edges that lie on both sides of a level meet it.
pub open spec fn meetings(polygon: Seq<(int, int)>, count: nat, level: int) -> Seq<int>
    decreases count,
{
    if count == 0 {
        Seq::empty()
    } else {
        let fewer = meetings(polygon, (count - 1) as nat, level);
        let (a, b) = (polygon[count - 1], before(polygon, count - 1));
        if (a.1 > level) != (b.1 > level) {
            fewer.push(meeting(a, b, level))
        } else {
            fewer
        }
    }
}

/// How many of some places lie beyond another one.
pub open spec fn beyond(places: Seq<int>, x: int) -> nat
    decreases places.len(),
{
    if places.len() == 0 {
        0
    } else {
        beyond(places.drop_last(), x) + if x < places.last() {
            1nat
        } else {
            0nat
        }
    }
}

/// Whether a place lies inside an outline: a ray from it to the right crosses the
/// edges an odd number of times.
pub open spec fn inside(polygon: Seq<(int, int)>, p: (int, int)) -> bool {
    beyond(meetings(polygon, polygon.len(), p.1), p.0) % 2 == 1
}

/// What some numbers stand for.
pub open spec fn numbers(list: Seq<Number>) -> Seq<int> {
    list.map_values(|number: Number| number@)
}

/// Works out where an edge meets a level that it lies on both sides of.
fn meet(a: Spot, b: Spot, level: Number) -> (r: Number)
    requires
        a.wf(),
        b.wf(),
        level.wf() && level.within(-270, 180),
        (a.y@ > level@) != (b.y@ > level@),
    ensures
        r.wf(),
        r@ == meeting(a@, b@, level@),
{
    let (left, top) = (negated(a.x), negated(a.y));
    proof {
        assert(b.x.within(-270, 180) && left.within(-270, 180));
        assert(level.within(-270, 180) && top.within(-270, 180));
        assert(b.y.within(-270, 180));
    }
    let dx = add_up(b.x, left);
    let py = add_up(level, top);
    let dy = add_up(b.y, top);
    proof {
        assert(dx.within(-322, 246) && py.within(-322, 246) && dy.within(-322, 246));
        let apart = size(b.y@ - a.y@);
        let near = whole(apart);
        lemma_whole_is_near(apart);
        assert(near > 0) by (nonlinear_arith)
            requires
                apart > 0,
                (2 * full() - 1) * apart <= 2 * full() * near,
                full() == 0x10_0000_0000_0000,
        ;
        lemma_sign(dy);
    }
    let along = multiply(dx, py);
    add_up(divide(along, dy), a.x)
}

/// Works out where the edges of an outline meet a level.
fn meet_all(polygon: &Vec<Spot>, level: Number) -> (r: Vec<Number>)
    requires
        polygon@.len() > 0,
        forall|i: int| 0 <= i < polygon@.len() ==> (#[trigger] polygon@[i]).wf(),
        level.wf() && level.within(-270, 180),
    ensures
        numbers(r@) == meetings(spots(polygon@), polygon@.len(), level@),
        forall|i: int| 0 <= i < r@.len() ==> (#[trigger] r@[i]).wf(),
{
    let mut r: Vec<Number> = Vec::new();
    let mut at: usize = 0;
    let mut last: usize = polygon.len() - 1;
    proof {
        assert(numbers(r@) =~= Seq::empty());
    }
    while at < polygon.len()
        invariant
            at <= polygon@.len(),
            polygon@.len() > 0,
            last == (if at == 0 { polygon@.len() - 1 } else { at - 1 }),
            forall|i: int| 0 <= i < polygon@.len() ==> (#[trigger] polygon@[i]).wf(),
            level.wf() && level.within(-270, 180),
            numbers(r@) == meetings(spots(polygon@), at as nat, level@),
            forall|i: int| 0 <= i < r@.len() ==> (#[trigger] r@[i]).wf(),
        decreases polygon@.len() - at,
    {
        let (a, b) = (polygon[at], polygon[last]);
        proof {
            assert(spots(polygon@)[at as int] == a@);
            assert(before(spots(polygon@), at as int) == b@);
        }
        if less(level, a.y) != less(level, b.y) {
            let ghost fewer = r@;
            r.push(meet(a, b, level));
            proof {
                assert(numbers(r@) =~= numbers(fewer).push(meeting(a@, b@, level@)));
            }
        }
        last = at;
        at = at + 1;
    }
    r
}

/// Counts whether an odd number of places lies beyond another one.
fn odd_beyond(places: &Vec<Number>, x: Number) -> (r: bool)
    requires
        forall|i: int| 0 <= i < places@.len() ==> (#[trigger] places@[i]).wf(),
        x.wf(),
    ensures
        r == (beyond(numbers(places@), x@) % 2 == 1),
{
    let mut odd = false;
    let mut at: usize = 0;
    proof {
        assert(numbers(places@).subrange(0, 0) =~= Seq::<int>::empty());
    }
    while at < places.len()
        invariant
            at <= places@.len(),
            forall|i: int| 0 <= i < places@.len() ==> (#[trigger] places@[i]).wf(),
            x.wf(),
            odd == (beyond(numbers(places@).subrange(0, at as int), x@) % 2 == 1),
        decreases places@.len() - at,
    {
        proof {
            let upto = numbers(places@).subrange(0, at + 1);
            assert(upto.drop_last() =~= numbers(places@).subrange(0, at as int));
            assert(upto.last() == places@[at as int]@);
        }
        if less(x, places[at]) {
            odd = !odd;
        }
        at = at + 1;
    }
    proof {
        assert(numbers(places@).subrange(0, at as int) =~= numbers(places@));
    }
    odd
}

/// Ray casting: count how many edges a ray to the right crosses.
pub fn contains(polygon: &Vec<Spot>, p: Spot) -> (r: bool)
    requires
        polygon@.len() > 0,
        forall|i: int| 0 <= i < polygon@.len() ==> (#[trigger] polygon@[i]).wf(),
        p.wf(),
    ensures
        r == inside(spots(polygon@), p@),
{
    odd_beyond(&meet_all(polygon, p.y), p.x)
}

/// No place above or below all of an outline lies inside it.
pub proof fn law_off_the_level_is_outside(polygon: Seq<(int, int)>, p: (int, int), top: int, bottom: int)
    requires
        polygon.len() > 0,
        forall|i: int| 0 <= i < polygon.len() ==> top <= (#[trigger] polygon[i]).1 <= bottom,
        p.1 < top || p.1 > bottom,
    ensures
        !inside(polygon, p),
{
    lemma_never_met(polygon, polygon.len(), p.1, top, bottom);
}

proof fn lemma_never_met(polygon: Seq<(int, int)>, count: nat, level: int, top: int, bottom: int)
    requires
        count <= polygon.len(),
        polygon.len() > 0,
        forall|i: int| 0 <= i < polygon.len() ==> top <= (#[trigger] polygon[i]).1 <= bottom,
        level < top || level > bottom,
    ensures
        meetings(polygon, count, level) == Seq::<int>::empty(),
    decreases count,
{
    if count > 0 {
        lemma_never_met(polygon, (count - 1) as nat, level, top, bottom);
        let b = before(polygon, count - 1);
        assert(b == polygon[if count == 1 { polygon.len() - 1 } else { count - 2 }]);
        assert(top <= polygon[count - 1].1 <= bottom);
    }
}

/// How far rounding can take the place where an edge meets a level past its ends, in
/// an outline that lies between two columns.
pub open spec fn slack(left: int, right: int) -> int {
    (32 * (right - left) + size(left) + size(right)) / 0x20_0000_0000_0000 + 8
}

/// No place lies inside an outline that is outside the box around it, to the left or
/// the right by more than rounding can make up for.
pub proof fn law_outside_the_box_is_outside(
    polygon: Seq<Spot>,
    p: Spot,
    box_: (int, int, int, int),
)
    requires
        polygon.len() > 0,
        p.wf(),
        forall|i: int| 0 <= i < polygon.len() ==> (#[trigger] polygon[i]).wf(),
        forall|i: int|
            0 <= i < polygon.len() ==> box_.0 <= (#[trigger] polygon[i]).x@ <= box_.2 && box_.1
                <= polygon[i].y@ <= box_.3,
        p.x@ < box_.0 - slack(box_.0, box_.2) || p.x@ > box_.2 + slack(box_.0, box_.2) || p.y@
            < box_.1 || p.y@ > box_.3,
    ensures
        !inside(spots(polygon), p@),
{
    let places = spots(polygon);
    if p.y@ < box_.1 || p.y@ > box_.3 {
        assert forall|i: int| 0 <= i < places.len() implies box_.1 <= (#[trigger] places[i]).1
            <= box_.3 by {
            assert(places[i] == polygon[i]@);
        }
        law_off_the_level_is_outside(places, p@, box_.1, box_.3);
    } else {
        lemma_all_on_one_side(polygon, polygon.len(), p, box_.0, box_.2);
        if p.x@ < box_.0 - slack(box_.0, box_.2) {
            lemma_met_an_even_number_of_times(places, places.len(), p.y@);
        }
    }
}

/// Left of an outline a ray goes past every place where the edges meet its level,
/// right of it past none.
proof fn lemma_all_on_one_side(polygon: Seq<Spot>, count: nat, p: Spot, left: int, right: int)
    requires
        count <= polygon.len(),
        polygon.len() > 0,
        p.wf(),
        forall|i: int| 0 <= i < polygon.len() ==> (#[trigger] polygon[i]).wf(),
        forall|i: int| 0 <= i < polygon.len() ==> left <= (#[trigger] polygon[i]).x@ <= right,
    ensures
        ({
            let met = meetings(spots(polygon), count, p.y@);
            &&& p.x@ < left - slack(left, right) ==> beyond(met, p.x@) == met.len()
            &&& p.x@ > right + slack(left, right) ==> beyond(met, p.x@) == 0
        }),
    decreases count,
{
    if count > 0 {
        lemma_all_on_one_side(polygon, (count - 1) as nat, p, left, right);
        let places = spots(polygon);
        let last: int = if count == 1 { polygon.len() - 1 } else { count - 2 };
        let (a, b) = (polygon[count - 1], polygon[last]);
        assert(places[count - 1] == a@ && before(places, count - 1) == b@);
        assert(left <= a.x@ <= right && left <= b.x@ <= right);
        let fewer = meetings(places, (count - 1) as nat, p.y@);
        if (a.y@ > p.y@) != (b.y@ > p.y@) {
            lemma_meeting_is_near(a, b, p, left, right);
            assert(fewer.push(meeting(a@, b@, p.y@)).drop_last() =~= fewer);
        }
    }
}

/// Going round an outline, one comes back to the side of a level that one started
/// from.
proof fn lemma_met_an_even_number_of_times(polygon: Seq<(int, int)>, count: nat, level: int)
    requires
        0 < count <= polygon.len(),
    ensures
        meetings(polygon, count, level).len() % 2 == (if (polygon[count - 1].1 > level) != (
        polygon.last().1 > level) {
            1nat
        } else {
            0nat
        }),
    decreases count,
{
    if count > 1 {
        lemma_met_an_even_number_of_times(polygon, (count - 1) as nat, level);
    } else {
        assert(meetings(polygon, 0, level).len() == 0);
    }
}

/// What rounding a number to its nearest costs.
proof fn lemma_kept_is_near(n: int)
    ensures
        0x20_0000_0000_0000 * size(kept(n)) <= 0x20_0000_0000_0001 * size(n),
        0x1F_FFFF_FFFF_FFFF * size(n) <= 0x20_0000_0000_0000 * size(kept(n)),
        n >= 0 ==> kept(n) >= 0,
        n <= 0 ==> kept(n) <= 0,
{
    lemma_whole_is_near(size(n));
    lemma_whole_of_short(0);
}

/// What rounding a ratio to its nearest costs.
proof fn lemma_ratio_is_near(n: nat, d: nat)
    requires
        d > 0,
    ensures
        0x20_0000_0000_0000 * (whole_ratio(n, d) * d) <= 0x20_0000_0000_0001 * n
            + 0x20_0000_0000_0000 * d,
{
    let e = excess_ratio(n, d);
    let unit = pow2(e);
    let long = d * unit;
    lemma_pow2_pos(e);
    assert(long > 0) by (nonlinear_arith)
        requires
            long == d * unit,
            d > 0,
            unit > 0,
    ;
    let h = half_even(n, long);
    lemma_half_even_is_near(n, long);
    assert((h * unit) * d == h * long) by (nonlinear_arith)
        requires
            long == d * unit,
    ;
    lemma_excess_is_due(n, d);
    if e == 0 {
        vstd::arithmetic::power2::lemma2_to64();
        assert(long == d) by (nonlinear_arith)
            requires
                long == d * unit,
                unit == 1,
        ;
    }
}

/// A ratio with bits to spare has all of those that are kept.
proof fn lemma_excess_is_due(n: nat, d: nat)
    requires
        d > 0,
    ensures
        excess_ratio(n, d) > 0 ==> 0x10_0000_0000_0000 * (d * pow2(excess_ratio(n, d))) <= n,
    decreases n - d,
{
    vstd::arithmetic::power2::lemma2_to64();
    if n >= 0x20_0000_0000_0000 * d {
        lemma_excess_is_due(n, 2 * d);
        let rest = excess_ratio(n, 2 * d);
        vstd::arithmetic::power2::lemma_pow2_unfold(rest + 1);
        assert((2 * d) * pow2(rest) == d * (2 * pow2(rest))) by (nonlinear_arith);
        if rest == 0 {
            assert(d * 2 == 2 * d);
        }
    }
}

/// A spot's coordinates are whole numbers of a small part.
proof fn lemma_in_parts(a: Number)
    requires
        a.wf(),
        a.within(-270, 180),
    ensures
        exists|k: int| a@ == #[trigger] (k * pow2(1000)),
{
    let k = signed(a.negative, (a.significand * pow2((a.exponent + 1000) as nat)) as nat);
    let (p, g) = (pow2((a.exponent + 1000) as nat), pow2(1000));
    vstd::arithmetic::power2::lemma_pow2_adds((a.exponent + 1000) as nat, 1000);
    lemma_pow2_pos((a.exponent + 1000) as nat);
    assert(0 <= a.significand * p) by (nonlinear_arith)
        requires
            p > 0,
            a.significand >= 0,
    ;
    assert(a.significand * (p * g) == (a.significand * p) * g) by (nonlinear_arith);
    assert(-((a.significand * p) * g) == (-(a.significand * p)) * g) by (nonlinear_arith);
    assert(a@ == k * pow2(1000));
}

/// The difference of two numbers of parts, kept, is a number of parts.
proof fn lemma_difference_in_parts(a: int, b: int)
    requires
        exists|k: int| a == #[trigger] (k * pow2(1000)),
        exists|k: int| b == #[trigger] (k * pow2(1000)),
    ensures
        exists|m: nat| size(plus(a, -b)) == #[trigger] (m * pow2(1000)),
{
    let g = pow2(1000);
    let j = choose|k: int| a == #[trigger] (k * pow2(1000));
    let k = choose|k: int| b == #[trigger] (k * pow2(1000));
    let m = size(j - k);
    lemma_pow2_pos(1000);
    assert(a - b == (j - k) * g) by (nonlinear_arith)
        requires
            a == j * g,
            b == k * g,
    ;
    assert(size(a - b) == m * g) by (nonlinear_arith)
        requires
            a - b == (j - k) * g,
            g > 0,
            m == (if j - k < 0 { k - j } else { j - k }),
            size(a - b) == (if a - b < 0 { b - a } else { a - b }),
    ;
    lemma_whole_shifts(m, 1000);
    lemma_whole_of_short(0);
    assert(size(plus(a, -b)) == whole(m) * pow2(1000));
}

/// The product of two such differences loses nothing to its smallest part.
proof fn lemma_product_in_parts(a: int, b: int)
    requires
        exists|m: nat| size(a) == #[trigger] (m * pow2(1000)),
        exists|m: nat| size(b) == #[trigger] (m * pow2(1000)),
    ensures
        size(times(a, b)) * one() == whole(size(a) * size(b)),
        a == 0 || b == 0 ==> times(a, b) == 0,
        (a >= 0) == (b >= 0) ==> times(a, b) >= 0,
        (a >= 0) != (b >= 0) ==> times(a, b) <= 0,
{
    let g = pow2(1000);
    let i = choose|m: nat| size(a) == #[trigger] (m * pow2(1000));
    let j = choose|m: nat| size(b) == #[trigger] (m * pow2(1000));
    vstd::arithmetic::power2::lemma_pow2_adds(1000, 1000);
    lemma_pow2_pos(2000);
    assert((i * g) * (j * g) == (i * j) * (g * g)) by (nonlinear_arith);
    lemma_whole_shifts(i * j, 2000);
    let q: nat = whole(i * j);
    let negative = a * b < 0;
    assert(size(a * b) == size(a) * size(b) && (a == 0 || b == 0 ==> a * b == 0) && ((a >= 0) == (b
        >= 0) ==> a * b >= 0) && ((a >= 0) != (b >= 0) ==> a * b <= 0)) by (nonlinear_arith)
        requires
            size(a) == (if a < 0 { -a } else { a }),
            size(b) == (if b < 0 { -b } else { b }),
            size(a * b) == (if a * b < 0 { -(a * b) } else { a * b }),
    ;
    lemma_whole_of_short(0);
    assert(kept(a * b) == signed(negative, q * one()));
    lemma_divided(negative, q, kept(a * b));
}

/// Where an edge meets a level is between its ends, but for rounding.
proof fn lemma_meeting_is_near(a: Spot, b: Spot, p: Spot, left: int, right: int)
    requires
        a.wf(),
        b.wf(),
        p.wf(),
        (a.y@ > p.y@) != (b.y@ > p.y@),
        left <= a.x@ <= right,
        left <= b.x@ <= right,
    ensures
        left - slack(left, right) <= meeting(a@, b@, p.y@) <= right + slack(left, right),
{
    lemma_in_parts(a.x);
    lemma_in_parts(a.y);
    lemma_in_parts(b.x);
    lemma_in_parts(b.y);
    lemma_in_parts(p.y);
    let (d, u, v) = (b.x@ - a.x@, p.y@ - a.y@, b.y@ - a.y@);
    let (dx, py, dy) = (plus(b.x@, -a.x@), plus(p.y@, -a.y@), plus(b.y@, -a.y@));
    assert(dx == kept(d) && py == kept(u) && dy == kept(v));
    lemma_difference_in_parts(b.x@, a.x@);
    lemma_difference_in_parts(p.y@, a.y@);
    lemma_kept_is_near(d);
    lemma_kept_is_near(u);
    lemma_kept_is_near(v);
    lemma_product_in_parts(dx, py);
    let along = times(dx, py);
    let (w, h, t, y) = (size(dx), size(py), size(along), size(dy));
    lemma_whole_is_near(w * h);
    assert(size(u) <= size(v) && size(v) > 0);
    assert(y > 0);
    lemma_ratio_is_near(t * one(), y);
    let q = quotient(along, dy);
    let far = whole_ratio(t * one(), y);
    assert(size(q) == far);
    lemma_far(w, h, y, whole(w * h), far, size(d), size(u), size(v));
    if along == 0 {
        assert(far <= 1) by (nonlinear_arith)
            requires
                0x20_0000_0000_0000 * (far * y) <= 0x20_0000_0000_0001 * (t * one())
                    + 0x20_0000_0000_0000 * y,
                t == 0,
                y > 0,
        ;
    }
    assert(py > 0 ==> dy > 0);
    assert(py < 0 ==> dy < 0);
    assert(py == 0 ==> along == 0);
    let c = kept(q + a.x@);
    lemma_kept_is_near(q + a.x@);
    lemma_ends(q, a.x@, d, left, right, c);
}

/// A meeting that lies on the way from one end of an edge to the other, but for
/// rounding, lies between the ends, but for rounding.
proof fn lemma_ends(q: int, x: int, d: int, left: int, right: int, c: int)
    requires
        left <= x <= right,
        left <= x + d <= right,
        size(q) <= size(d) + size(d) / 0x2_0000_0000_0000 + 2,
        d >= 0 ==> q >= -1,
        d <= 0 ==> q <= 1,
        0x20_0000_0000_0000 * size(c) <= 0x20_0000_0000_0001 * size(q + x),
        0x1F_FFFF_FFFF_FFFF * size(q + x) <= 0x20_0000_0000_0000 * size(c),
        q + x >= 0 ==> c >= 0,
        q + x <= 0 ==> c <= 0,
    ensures
        left - slack(left, right) <= c <= right + slack(left, right),
{
    let span = right - left;
    let over = size(d) as int / 0x2_0000_0000_0000 + 2;
    assert(left - over <= q + x <= right + over);
    assert(0x20_0000_0000_0000 * (c - (q + x)) <= size(q + x));
    assert(0x20_0000_0000_0000 * ((q + x) - c) <= size(q + x));
    assert(size(q + x) <= size(left) + size(right) + over);
}

/// How far along an edge a meeting can lie, from what each step can cost.
proof fn lemma_far(w: nat, h: nat, y: nat, k: nat, far: nat, d: nat, u: nat, v: nat)
    requires
        0x20_0000_0000_0000 * w <= 0x20_0000_0000_0001 * d,
        0x20_0000_0000_0000 * h <= 0x20_0000_0000_0001 * u,
        u <= v,
        0x1F_FFFF_FFFF_FFFF * v <= 0x20_0000_0000_0000 * y,
        2 * full() * k <= (2 * full() + 1) * (w * h),
        0x20_0000_0000_0000 * (far * y) <= 0x20_0000_0000_0001 * k + 0x20_0000_0000_0000 * y,
        y > 0,
    ensures
        far <= d + d / 0x2_0000_0000_0000 + 2,
{
    // The part of the edge is no more than all of it, to within three roundings.
    assert(0x1F_FFFF_FFFF_FFFF * h <= 0x20_0000_0000_0001 * y);
    let whole_way: nat = w * y;
    assert(0x1F_FFFF_FFFF_FFFF * (w * h) <= 0x20_0000_0000_0001 * whole_way) by (nonlinear_arith)
        requires
            0x1F_FFFF_FFFF_FFFF * h <= 0x20_0000_0000_0001 * y,
            whole_way == w * y,
    ;
    let there: nat = far * y;
    let area: nat = w * h;
    assert(0x20_0000_0000_0000 * k <= 0x20_0000_0000_0001 * area) by (nonlinear_arith)
        requires
            2 * full() * k <= (2 * full() + 1) * area,
            full() == 0x10_0000_0000_0000,
    ;
    assert(0x20_0000_0000_0000 * there <= 0x20_0000_0000_0001 * k + 0x20_0000_0000_0000 * y);
    assert(0x1F_FFFF_FFFF_FFFF * area <= 0x20_0000_0000_0001 * whole_way);
    assert(0x4_0000_0000_0000 * there <= 0x4_0000_0000_0001 * whole_way + 0x4_0000_0000_0000 * y);
    assert(0x4_0000_0000_0000 * far <= 0x4_0000_0000_0001 * w + 0x4_0000_0000_0000) by (nonlinear_arith)
        requires
            0x4_0000_0000_0000 * there <= 0x4_0000_0000_0001 * whole_way + 0x4_0000_0000_0000 * y,
            there == far * y,
            whole_way == w * y,
            y > 0,
    ;
}

/// So many units, as a number of pixels.
pub open spec fn of_units(n: int) -> int {
    n * pow2(1984)
}

/// So many units, as a number of pixels.
fn from_units(n: i64) -> (r: Number)
    requires
        -0x10_0000_0000_0000 < n < 0x10_0000_0000_0000,
    ensures
        r.wf(),
        r@ == of_units(n as int),
        r.within(-68, -16),
        n != 0 ==> r.significand > 0,
{
    proof {
        assert(0 * pow2(1984) == 0) by (nonlinear_arith);
    }
    if n == 0 {
        return nothing();
    }
    let r = if n < 0 {
        lift(true, (-n) as u64, -16)
    } else {
        lift(false, n as u64, -16)
    };
    proof {
        if n < 0 {
            assert(-((-n) * pow2(1984)) == n * pow2(1984)) by (nonlinear_arith);
        }
    }
    r
}

/// How many pixels of an image there are to one as it is displayed.
///
/// A drawing is rasterised at a size of its own choosing, so display units are
/// converted rather than assumed to match.
pub open spec fn display_scale(image_width: int, display_width: int) -> int {
    quotient(of_whole(image_width), of_units(display_width))
}

/// A length in display space as pixels of an image, to the nearest, the larger
/// of two as near; none where it is negative.
pub open spec fn on_pixels(length: int, image_width: int, display_width: int) -> int {
    if length < 0 {
        0
    } else {
        half_up(
            times(of_units(length), display_scale(image_width, display_width)) as nat,
            one(),
        ) as int
    }
}

/// The part of an image that a selection covers: where it starts, and how large
/// it is.
pub open spec fn cut_area(image: Raster, crop: Selected, display: (int, int)) -> (int, int, int, int) {
    let x = on_pixels(crop.rect.x as int, image.width as int, display.0);
    let y = on_pixels(crop.rect.y as int, image.width as int, display.0);
    let w = on_pixels(crop.rect.width as int, image.width as int, display.0);
    let h = on_pixels(crop.rect.height as int, image.width as int, display.0);
    let room = if image.width >= x { image.width - x } else { 0 };
    let below = if image.height >= y { image.height - y } else { 0 };
    (x, y, if w <= room { w } else { room }, if h <= below { h } else { below })
}

/// A point of an outline in the pixels of the part that is cut.
pub open spec fn on_part(p: Point, image_width: int, display_width: int, x: int, y: int) -> (int, int) {
    let scale = display_scale(image_width, display_width);
    (
        plus(times(of_units(p.x as int), scale), -of_whole(x)),
        plus(times(of_units(p.y as int), scale), -of_whole(y)),
    )
}

/// The middle of a pixel.
pub open spec fn middle_of(x: int, y: int) -> (int, int) {
    (halves(2 * x + 1), halves(2 * y + 1))
}

/// A raster in which everything outside an outline is transparent.
pub open spec fn masked(r: Raster, polygon: Seq<(int, int)>) -> Raster {
    Raster::build(
        r.width,
        r.height,
        |x: int, y: int, c: int|
            if inside(polygon, middle_of(x, y)) {
                r.channel(x, y, c)
            } else {
                0
            },
    )
}

/// What cutting a selection out of an image gives; nothing where it covers no
/// pixel.
pub open spec fn cut_out(image: Raster, crop: Selected, display: (int, int)) -> Option<Raster> {
    let (x, y, w, h) = cut_area(image, crop, display);
    if w == 0 || h == 0 {
        None
    } else {
        let part = cropped(image, x as nat, y as nat, w as nat, h as nat);
        if crop.path.len() > 2 {
            Some(
                masked(
                    part,
                    crop.path.map_values(
                        |p: Point| on_part(p, image.width as int, display.0, x, y),
                    ),
                ),
            )
        } else {
            Some(part)
        }
    }
}

/// A selection and a display whose numbers are of an ordinary size.
pub open spec fn belongs(crop: Selected, display: (int, int)) -> bool {
    &&& -REACH <= crop.rect.x <= REACH && -REACH <= crop.rect.y <= REACH
    &&& -REACH <= crop.rect.width <= REACH && -REACH <= crop.rect.height <= REACH
    &&& display.0 <= REACH && display.1 <= REACH
    &&& forall|i: int|
        0 <= i < crop.path.len() ==> -REACH <= (#[trigger] crop.path[i]).x <= REACH && -REACH
            <= crop.path[i].y <= REACH
}

/// Works out how many pixels of an image there are to one as it is displayed.
fn scale_for(image_width: u32, display_width: i64) -> (r: Number)
    requires
        0 < display_width <= REACH,
    ensures
        r.wf(),
        r@ == display_scale(image_width as int, display_width as int),
        r@ >= 0,
        r.within(-89, 16),
{
    let wide = from_whole(image_width as i64);
    let shown = from_units(display_width);
    let r = divide(wide, shown);
    proof {
        lemma_pow2_pos(2000);
        lemma_pow2_pos(1984);
        assert(wide@ >= 0) by (nonlinear_arith)
            requires
                wide@ == image_width * one(),
                one() > 0,
                image_width >= 0,
        ;
        assert(shown@ >= 0) by (nonlinear_arith)
            requires
                shown@ == display_width * pow2(1984),
                pow2(1984) > 0,
                display_width > 0,
        ;
    }
    r
}

/// A length in display space as pixels of an image; any number past the largest
/// picture where there are so many.
fn to_image_pixels(length: i64, scale: Number) -> (r: u64)
    requires
        -REACH <= length <= REACH,
        scale.wf(),
        scale@ >= 0,
        scale.within(-89, 16),
    ensures
        length < 0 ==> r == 0,
        length >= 0 ==> ({
            let near = half_up(times(of_units(length as int), scale@) as nat, one());
            r == near || (r > u32::MAX && near > u32::MAX)
        }),
{
    if length < 0 {
        return 0;
    }
    let long = from_units(length);
    let a = multiply(long, scale);
    proof {
        lemma_pow2_pos(2000);
        lemma_pow2_pos(1984);
        let (n, m) = (long@, scale@);
        assert(n >= 0) by (nonlinear_arith)
            requires
                n == length * pow2(1984),
                pow2(1984) > 0,
                length >= 0,
        ;
        assert(n * m >= 0) by (nonlinear_arith)
            requires
                n >= 0,
                m >= 0,
        ;
        let k = kept(n * m);
        assert(k / one() as int >= 0) by (nonlinear_arith)
            requires
                k >= 0,
                one() > 0,
        ;
        lemma_sign(a);
    }
    if a.significand > 0 && a.exponent >= 0 {
        proof {
            lemma_many_pixels(a);
        }
        return u64::MAX;
    }
    rounded(a)
}

/// A number with no places behind its point is past the largest picture.
proof fn lemma_many_pixels(a: Number)
    requires
        a.wf(),
        a.significand > 0,
        !a.negative,
        a.exponent >= 0,
    ensures
        half_up(a@ as nat, one()) > u32::MAX,
{
    let p = pow2((a.exponent + 2000) as nat);
    lemma_pow2_pos(2000);
    if a.exponent > 0 {
        lemma_pow2_strictly_increases(2000, (a.exponent + 2000) as nat);
    }
    assert(a.significand * p >= 0x1_0000_0000 * one()) by (nonlinear_arith)
        requires
            a.significand >= 0x10_0000_0000_0000,
            p >= one(),
            one() > 0,
    ;
    let (n, d) = (a@, one() as int);
    assert((2 * n + d) / (2 * d) >= 0x1_0000_0000) by (nonlinear_arith)
        requires
            n >= 0x1_0000_0000 * d,
            d > 0,
    ;
}

/// One coordinate of an outline's point in the pixels of the part that is cut.
fn to_part(v: i64, scale: Number, start: u32) -> (r: Number)
    requires
        -REACH <= v <= REACH,
        scale.wf(),
        scale.within(-89, 16),
    ensures
        r.wf() && r.within(-270, 180),
        r@ == plus(times(of_units(v as int), scale@), -of_whole(start as int)),
{
    let there = multiply(from_units(v), scale);
    let back = negated(from_whole(start as i64));
    proof {
        assert(there.within(-209, 66) && back.within(-209, 66));
    }
    add_up(there, back)
}

/// Makes everything outside an outline transparent.
fn mask(part: &mut Picture, polygon: &Vec<Spot>)
    requires
        old(part).wf(),
        polygon@.len() > 0,
        forall|i: int| 0 <= i < polygon@.len() ==> (#[trigger] polygon@[i]).wf(),
    ensures
        final(part).wf(),
        final(part)@ == masked(old(part)@, spots(polygon@)),
{
    let ghost before = part@;
    let ghost goal = masked(before, spots(polygon@));
    proof {
        lemma_masked(before, spots(polygon@));
    }
    let mut y: u32 = 0;
    while y < part.height
        invariant
            part.wf(),
            y <= part.height,
            part.width == before.width,
            part.height == before.height,
            goal == masked(before, spots(polygon@)),
            polygon@.len() > 0,
            forall|i: int| 0 <= i < polygon@.len() ==> (#[trigger] polygon@[i]).wf(),
            forall|i: int, j: int, c: int|
                0 <= i < part.width && 0 <= j < part.height && 0 <= c < 4 ==> #[trigger] part@.channel(
                    i,
                    j,
                    c,
                ) == (if j < y {
                    goal.channel(i, j, c)
                } else {
                    before.channel(i, j, c)
                }),
        decreases part.height - y,
    {
        let level = from_halves(2 * y as i64 + 1);
        let places = meet_all(polygon, level);
        let mut x: u32 = 0;
        while x < part.width
            invariant
                numbers(places@) == meetings(spots(polygon@), polygon@.len(), halves(2 * y + 1)),
                forall|i: int| 0 <= i < places@.len() ==> (#[trigger] places@[i]).wf(),
                part.wf(),
                x <= part.width,
                y < part.height,
                part.width == before.width,
                part.height == before.height,
                goal == masked(before, spots(polygon@)),
                polygon@.len() > 0,
                forall|i: int| 0 <= i < polygon@.len() ==> (#[trigger] polygon@[i]).wf(),
                forall|i: int, j: int, c: int|
                    0 <= i < part.width && 0 <= j < part.height && 0 <= c < 4 ==> #[trigger] part@.channel(
                        i,
                        j,
                        c,
                    ) == (if j < y || (j == y && i < x) {
                        goal.channel(i, j, c)
                    } else {
                        before.channel(i, j, c)
                    }),
            decreases part.width - x,
        {
            let across = from_halves(2 * x as i64 + 1);
            proof {
                lemma_masked(before, spots(polygon@));
                assert((across@, halves(2 * y + 1)) == middle_of(x as int, y as int));
                assert(spots(polygon@).len() == polygon@.len());
            }
            if !odd_beyond(&places, across) {
                part.set_pixel(x, y, [0, 0, 0, 0]);
            }
            x = x + 1;
        }
        y = y + 1;
    }
    proof {
        lemma_same_channels(part@, goal);
    }
}

proof fn lemma_masked(r: Raster, polygon: Seq<(int, int)>)
    ensures
        masked(r, polygon).wf(),
        forall|x: int, y: int, c: int|
            0 <= x < r.width && 0 <= y < r.height && 0 <= c < 4 ==> #[trigger] masked(
                r,
                polygon,
            ).channel(x, y, c) == (if inside(polygon, middle_of(x, y)) {
                r.channel(x, y, c)
            } else {
                0
            }),
{
    lemma_build(
        r.width,
        r.height,
        |x: int, y: int, c: int|
            if inside(polygon, middle_of(x, y)) {
                r.channel(x, y, c)
            } else {
                0
            },
    );
}

/// Cuts a selection out of an image. `display` is the size of the image as the
/// selection was made on it.
pub fn cut(image: Picture, crop: &CropSelection, display: (i64, i64)) -> (r: Result<Picture, String>)
    requires
        image.wf(),
        display.0 > 0 && display.1 > 0 ==> belongs(crop@, (display.0 as int, display.1 as int)),
    ensures
        r matches Ok(part) ==> part.wf(),
        if display.0 <= 0 || display.1 <= 0 {
            r matches Ok(part) && part@ == image@
        } else {
            match cut_out(image@, crop@, (display.0 as int, display.1 as int)) {
                Some(raster) => r matches Ok(part) && part@ == raster,
                None => r matches Err(text) && text@ == "The crop area is empty."@,
            }
        },
{
    let (wide, high) = display;
    if wide <= 0 || high <= 0 {
        return Ok(image);
    }
    let scale = scale_for(image.width, wide);
    let left: u64 = to_image_pixels(crop.rect.x, scale);
    let top: u64 = to_image_pixels(crop.rect.y, scale);
    let w: u64 = to_image_pixels(crop.rect.width, scale);
    let h: u64 = to_image_pixels(crop.rect.height, scale);
    if left >= image.width as u64 || top >= image.height as u64 || w == 0 || h == 0 {
        return Err("The crop area is empty.".to_owned());
    }
    let x: u32 = left as u32;
    let y: u32 = top as u32;
    let width: u32 = if w <= (image.width - x) as u64 { w as u32 } else { image.width - x };
    let height: u32 = if h <= (image.height - y) as u64 { h as u32 } else { image.height - y };
    let mut part = image.crop(x, y, width, height);
    if crop.path.len() > 2 {
        let mut polygon: Vec<Spot> = Vec::new();
        let mut at: usize = 0;
        while at < crop.path.len()
            invariant
                at <= crop.path@.len(),
                belongs(crop@, (wide as int, high as int)),
                scale.wf(),
                scale.within(-89, 16),
                scale@ == display_scale(image.width as int, wide as int),
                polygon@.len() == at,
                forall|i: int|
                    0 <= i < at ==> (#[trigger] polygon@[i]).wf() && polygon@[i]@ == on_part(
                        crop.path@[i],
                        image.width as int,
                        wide as int,
                        x as int,
                        y as int,
                    ),
            decreases crop.path@.len() - at,
        {
            let p: Point = crop.path[at];
            proof {
                assert(crop@.path[at as int] == p);
            }
            polygon.push(Spot { x: to_part(p.x, scale, x), y: to_part(p.y, scale, y) });
            at = at + 1;
        }
        mask(&mut part, &polygon);
        proof {
            assert(spots(polygon@) =~= crop@.path.map_values(
                |p: Point| on_part(p, image.width as int, wide as int, x as int, y as int),
            ));
        }
    }
    Ok(part)
}

/// How many quarter turns clockwise a picture is shown at.
#[derive(Clone, Copy, PartialEq, Eq, Structural, Debug)]
pub enum Quarters {
    Zero,
    One,
    Two,
    Three,
}

impl Quarters {
    /// The way so many quarter turns leave a picture.
    pub open spec fn orientation(self) -> Orientation {
        match self {
            Quarters::Zero => Orientation::NoTransforms,
            Quarters::One => Orientation::Rotate90,
            Quarters::Two => Orientation::Rotate180,
            Quarters::Three => Orientation::Rotate270,
        }
    }
}

/// How far a picture is turned.
pub enum Turn {
    /// By quarters, which loses nothing, so they are taken whenever they fit.
    Quarters(Quarters),
    /// By any other angle.
    Free(Angle),
}

impl Turn {
    /// The angle is one.
    pub open spec fn wf(self) -> bool {
        self matches Turn::Free(angle) ==> angle.wf()
    }
}

/// Everything the view is showing that is not yet in the pixels.
///
/// Travelling together keeps the exporter honest: loose arguments of two bools
/// and a number are easy to hand over in the wrong order.
pub struct LiveEdits {
    pub resize: Option<(u32, u32)>,
    pub flip_h: bool,
    pub flip_v: bool,
    pub turn: Turn,
    pub overlays: Vec<RenderedText>,
    /// The tone, where a slider is off its middle.
    pub tone: Option<Tone>,
}

impl LiveEdits {
    /// The turn and the tone are in order.
    pub open spec fn wf(self) -> bool {
        &&& self.turn.wf()
        &&& self.tone matches Some(tone) ==> tone.wf()
    }
}

/// A picture that can be brought to a size.
pub open spec fn can_resize(image: Raster, resize: Option<(u32, u32)>) -> bool {
    resize matches Some((width, height)) ==> 0 < width && 0 < height && roomy(
        image.width,
        height as nat,
    ) && roomy(width as nat, height as nat)
}

/// Whether a raster is another one brought to a size, where one is asked for.
pub open spec fn is_resized(image: Raster, resize: Option<(u32, u32)>, sized: Raster) -> bool {
    &&& sized.wf()
    &&& match resize {
        Some((width, height)) => sized.width == width && sized.height == height && if image.width
            == width && image.height == height {
            sized == image
        } else {
            may_scale_to(
                image.width as u32,
                image.height as u32,
                image.rgba,
                width,
                height,
                sized.rgba,
            )
        },
        None => sized == image,
    }
}

/// A raster mirrored left to right, top to bottom, or both.
pub open spec fn mirrored(image: Raster, flip_h: bool, flip_v: bool) -> Raster {
    let across = if flip_h { turned(image, Orientation::FlipHorizontal) } else { image };
    if flip_v {
        turned(across, Orientation::FlipVertical)
    } else {
        across
    }
}

/// The first part of replaying edits: the size, and then the mirroring.
///
/// Resizing comes first because the crop is recorded against the size on screen,
/// which is the resized one; cutting first would take the wrong part.
pub fn resize_and_mirror(image: Picture, live: &LiveEdits) -> (r: Picture)
    requires
        image.wf(),
        can_resize(image@, live.resize),
    ensures
        r.wf(),
        exists|sized: Raster|
            #![trigger is_resized(image@, live.resize, sized)]
            is_resized(image@, live.resize, sized) && r@ == mirrored(sized, live.flip_h, live.flip_v),
{
    let mut working = image;
    let ghost before = image@;
    if let Some((width, height)) = live.resize {
        if width != working.width || height != working.height {
            working = resample(&working, width, height);
        }
    }
    let ghost sized = working@;
    proof {
        assert(is_resized(before, live.resize, sized));
    }
    if live.flip_h {
        working = working.turn(Orientation::FlipHorizontal);
    }
    if live.flip_v {
        working = working.turn(Orientation::FlipVertical);
    }
    working
}

/// Turns a picture.
pub fn rotate(image: Picture, turn: &Turn) -> (r: Picture)
    requires
        image.wf(),
        turn.wf(),
    ensures
        r.wf(),
        r@ == rotated(image@, *turn),
{
    match turn {
        Turn::Quarters(Quarters::Zero) => image,
        Turn::Quarters(Quarters::One) => image.turn(Orientation::Rotate90),
        Turn::Quarters(Quarters::Two) => image.turn(Orientation::Rotate180),
        Turn::Quarters(Quarters::Three) => image.turn(Orientation::Rotate270),
        Turn::Free(angle) => rotate_freely(&image, angle),
    }
}

/// A raster turned.
pub open spec fn rotated(image: Raster, turn: Turn) -> Raster {
    match turn {
        Turn::Quarters(Quarters::Zero) => image,
        Turn::Quarters(turns) => turned(image, turns.orientation()),
        Turn::Free(angle) => freely_turned(image, angle.sin@, angle.cos@),
    }
}

/// A raster with its tone changed, where it is to be.
pub open spec fn adjusted(image: Raster, tone: Option<Tone>) -> Raster {
    match tone {
        Some(tone) => toned_raster(tone@, image),
        None => image,
    }
}

/// What laying overlays on a raster and cutting a selection out of it gives.
pub open spec fn laid_and_cut(
    image: Raster,
    overlays: Seq<RenderedText>,
    crop: Option<Selected>,
    display: (int, int),
) -> Option<Raster> {
    let whole = composed(image, overlays);
    match crop {
        Some(selection) => if display.0 <= 0 || display.1 <= 0 {
            Some(whole)
        } else {
            cut_out(whole, selection, display)
        },
        None => Some(whole),
    }
}

/// What a selection is, where there is one.
pub open spec fn chosen(crop: Option<&CropSelection>) -> Option<Selected> {
    match crop {
        Some(selection) => Some(selection@),
        None => None,
    }
}

/// The last part of replaying edits: what was drawn over the picture, and then
/// the cut.
///
/// Text and marks go on once the picture is in display space, which is the frame
/// their positions were recorded in, and before the crop, so that a cut through
/// a caption or an arrow cuts it exactly as it looked.
pub fn lay_and_cut(
    image: Picture,
    overlays: &Vec<RenderedText>,
    crop: Option<&CropSelection>,
    display: (i64, i64),
) -> (r: Result<Picture, String>)
    requires
        image.wf(),
        forall|i: int| 0 <= i < overlays@.len() ==> (#[trigger] overlays@[i]).pixels.wf(),
        crop matches Some(selection) ==> display.0 > 0 && display.1 > 0 ==> belongs(
            selection@,
            (display.0 as int, display.1 as int),
        ),
    ensures
        match laid_and_cut(image@, overlays@, chosen(crop), (display.0 as int, display.1 as int)) {
            Some(raster) => r matches Ok(part) && part@ == raster && part.wf(),
            None => r matches Err(text) && text@ == "The crop area is empty."@,
        },
{
    let mut working = image;
    composite(&mut working, overlays);
    proof {
        lemma_composed_size(image@, overlays@);
    }
    match crop {
        Some(selection) => cut(working, selection, display),
        None => Ok(working),
    }
}

/// What is laid over a picture does not change its size.
proof fn lemma_composed_size(image: Raster, overlays: Seq<RenderedText>)
    ensures
        composed(image, overlays).width == image.width,
        composed(image, overlays).height == image.height,
    decreases overlays.len(),
{
    if overlays.len() > 0 {
        lemma_composed_size(image, overlays.drop_last());
    }
}

/// Whether edits can be applied: the picture and what lies over it have all their
/// pixels, the sizes are ones that memory holds, and the selection's numbers are of an
/// ordinary size.
pub open spec fn can_apply(
    image: Raster,
    live: LiveEdits,
    crop: Option<Selected>,
    display: (int, int),
) -> bool {
    &&& image.wf()
    &&& can_resize(image, live.resize)
    &&& forall|i: int| 0 <= i < live.overlays@.len() ==> (#[trigger] live.overlays@[i]).pixels.wf()
    &&& crop matches Some(selection) ==> display.0 > 0 && display.1 > 0 ==> belongs(
        selection,
        display,
    )
}

/// Whether a picture has all its pixels, and no more.
fn complete(picture: &Picture) -> (r: bool)
    ensures
        r == picture.wf(),
{
    proof {
        assert(picture.width * picture.height <= 0xFFFF_FFFF * 0xFFFF_FFFF) by (nonlinear_arith)
            requires
                0 <= picture.width <= 0xFFFF_FFFF,
                0 <= picture.height <= 0xFFFF_FFFF,
        ;
    }
    picture.rgba.len() as u128 == picture.width as u128 * picture.height as u128 * 4
}

/// Whether resampling to a width and a height has the room it needs.
fn has_room(width: u32, height: u32) -> (r: bool)
    ensures
        r == roomy(width as nat, height as nat),
{
    proof {
        assert(width * height <= 0xFFFF_FFFF * 0xFFFF_FFFF) by (nonlinear_arith)
            requires
                0 <= width <= 0xFFFF_FFFF,
                0 <= height <= 0xFFFF_FFFF,
        ;
        assert(0 <= width * height) by (nonlinear_arith)
            requires
                0 <= width,
                0 <= height,
        ;
    }
    width as u128 * height as u128 * 16 <= isize::MAX as u128
}

/// Whether the numbers of a selection and a display are of an ordinary size.
fn fits_display(crop: &CropSelection, display: (i64, i64)) -> (r: bool)
    ensures
        r == belongs(crop@, (display.0 as int, display.1 as int)),
{
    let rect = &crop.rect;
    if rect.x < -REACH || rect.x > REACH || rect.y < -REACH || rect.y > REACH || rect.width < -REACH
        || rect.width > REACH || rect.height < -REACH || rect.height > REACH || display.0 > REACH
        || display.1 > REACH {
        return false;
    }
    let mut at: usize = 0;
    while at < crop.path.len()
        invariant
            at <= crop.path@.len(),
            forall|i: int|
                0 <= i < at ==> -REACH <= (#[trigger] crop.path@[i]).x <= REACH && -REACH
                    <= crop.path@[i].y <= REACH,
        decreases crop.path@.len() - at,
    {
        let p: Point = crop.path[at];
        if p.x < -REACH || p.x > REACH || p.y < -REACH || p.y > REACH {
            proof {
                assert(!(-REACH <= crop@.path[at as int].x <= REACH && -REACH
                    <= crop@.path[at as int].y <= REACH));
            }
            return false;
        }
        at = at + 1;
    }
    true
}

/// Finds out whether edits can be applied.
pub fn ready_to_apply(
    image: &Picture,
    live: &LiveEdits,
    crop: Option<&CropSelection>,
    display: (i64, i64),
) -> (r: bool)
    requires
        live.wf(),
    ensures
        r == can_apply(image@, *live, chosen(crop), (display.0 as int, display.1 as int)),
{
    if !complete(image) {
        return false;
    }
    if let Some((width, height)) = live.resize {
        if width == 0 || height == 0 || !has_room(image.width, height) || !has_room(width, height) {
            return false;
        }
    }
    let mut at: usize = 0;
    while at < live.overlays.len()
        invariant
            at <= live.overlays@.len(),
            forall|i: int| 0 <= i < at ==> (#[trigger] live.overlays@[i]).pixels.wf(),
        decreases live.overlays@.len() - at,
    {
        if !complete(&live.overlays[at].pixels) {
            proof {
                assert(!live.overlays@[at as int].pixels.wf());
            }
            return false;
        }
        at = at + 1;
    }
    match crop {
        Some(selection) => display.0 <= 0 || display.1 <= 0 || fits_display(selection, display),
        None => true,
    }
}

/// What replaying edits on a raster that has its size gives: mirrored, turned, with
/// everything laid over it, cut, and with its tone changed; nothing where the cut
/// covers no pixel.
pub open spec fn replayed(
    sized: Raster,
    flips: (bool, bool),
    turn: Turn,
    overlays: Seq<RenderedText>,
    crop: Option<Selected>,
    display: (int, int),
    tone: Option<Tone>,
) -> Option<Raster> {
    match laid_and_cut(rotated(mirrored(sized, flips.0, flips.1), turn), overlays, crop, display) {
        Some(raster) => Some(adjusted(raster, tone)),
        None => None,
    }
}

/// Apply the live edits, and optionally a crop, to an image already in memory.
///
/// Order matters and mirrors what the view does: resize, flip, rotate, lay on
/// the text and drawings, then cut. Tone comes last because it is per-pixel and
/// commutes with all of it, so it may as well run on the fewest pixels.
pub fn apply(image: Picture, live: &LiveEdits, crop: Option<&CropSelection>, display: (i64, i64)) -> (r: Result<
    Picture,
    String,
>)
    requires
        live.wf(),
        can_apply(image@, *live, chosen(crop), (display.0 as int, display.1 as int)),
    ensures
        exists|sized: Raster|
            #![trigger is_resized(image@, live.resize, sized)]
            is_resized(image@, live.resize, sized) && match replayed(
                sized,
                (live.flip_h, live.flip_v),
                live.turn,
                live.overlays@,
                chosen(crop),
                (display.0 as int, display.1 as int),
                live.tone,
            ) {
                Some(raster) => r matches Ok(part) && part@ == raster && part.wf(),
                None => r matches Err(text) && text@ == "The crop area is empty."@,
            },
{
    let working = resize_and_mirror(image, live);
    let turned_picture = rotate(working, &live.turn);
    let made = lay_and_cut(turned_picture, &live.overlays, crop, display);
    match (made, &live.tone) {
        (Ok(picture), Some(tone)) => Ok(tone.bake(&picture)),
        (made, _) => made,
    }
}

/// With nothing pending the picture comes out as it went in.
pub proof fn law_nothing_pending_changes_nothing(image: Raster, sized: Raster, display: (int, int))
    requires
        is_resized(image, None, sized),
    ensures
        laid_and_cut(
            rotated(mirrored(sized, false, false), Turn::Quarters(Quarters::Zero)),
            Seq::empty(),
            None,
            display,
        ) == Some(image),
        adjusted(image, None) == image,
{
}

/// Mirroring takes each pixel to the other end of its row where it is left to right,
/// and to the other end of its column where it is top to bottom, the two having
/// nothing to do with each other; the size stays.
pub proof fn law_mirroring_swaps_ends(
    image: Raster,
    flip_h: bool,
    flip_v: bool,
    x: int,
    y: int,
    c: int,
)
    requires
        image.wf(),
        0 <= x < image.width,
        0 <= y < image.height,
        0 <= c < 4,
    ensures
        ({
            let r = mirrored(image, flip_h, flip_v);
            let u = if flip_h { image.width - 1 - x } else { x };
            let v = if flip_v { image.height - 1 - y } else { y };
            &&& r.width == image.width && r.height == image.height
            &&& r.rgba.len() == image.rgba.len()
            &&& r.rgba[(y * image.width + x) * 4 + c] == image.rgba[(v * image.width + u) * 4 + c]
        }),
{
    let across = if flip_h { turned(image, Orientation::FlipHorizontal) } else { image };
    let r = mirrored(image, flip_h, flip_v);
    let v = if flip_v { image.height - 1 - y } else { y };
    lemma_turned(image, Orientation::FlipHorizontal);
    lemma_turned(across, Orientation::FlipVertical);
    assert(r.channel(x, y, c) == across.channel(x, v, c));
    let u = if flip_h { image.width - 1 - x } else { x };
    assert(across.channel(x, v, c) == image.channel(u, v, c));
}

/// Mirroring both ways is a half turn, and mirroring the same way again undoes it.
pub proof fn law_mirroring_both_ways_turns_upside_down(image: Raster, flip_h: bool, flip_v: bool)
    requires
        image.wf(),
    ensures
        mirrored(image, true, true) == turned(image, Orientation::Rotate180),
        mirrored(image, false, false) == image,
        mirrored(mirrored(image, flip_h, flip_v), flip_h, flip_v) == image,
        mirrored(mirrored(image, true, false), false, true) == mirrored(image, true, true),
        mirrored(mirrored(image, false, true), true, false) == mirrored(image, true, true),
{
    law_mirroring_both_ways_is_a_half_turn(image);
    law_mirroring_twice_changes_nothing(image);
    lemma_turned(image, Orientation::FlipHorizontal);
    lemma_turned(image, Orientation::FlipVertical);
    lemma_turned(image, Orientation::Rotate180);
    law_mirroring_both_ways_is_a_half_turn(turned(image, Orientation::Rotate180));
}

/// The quarter turns go clockwise: one takes the top edge to the right, two upside
/// down, three to the left.
pub proof fn law_quarters_go_clockwise(image: Raster, x: int, y: int, c: int)
    requires
        image.wf(),
        0 <= x < image.width,
        0 <= y < image.height,
        0 <= c < 4,
    ensures
        ({
            let (w, h) = (image.width as int, image.height as int);
            let it = image.rgba[(y * w + x) * 4 + c];
            &&& rotated(image, Turn::Quarters(Quarters::Zero)) == image
            &&& rotated(image, Turn::Quarters(Quarters::One)).channel(h - 1 - y, x, c) == it
            &&& rotated(image, Turn::Quarters(Quarters::Two)).channel(w - 1 - x, h - 1 - y, c) == it
            &&& rotated(image, Turn::Quarters(Quarters::Three)).channel(y, w - 1 - x, c) == it
            &&& rotated(image, Turn::Quarters(Quarters::One)).width == h
            &&& rotated(image, Turn::Quarters(Quarters::Two)).width == w
            &&& rotated(image, Turn::Quarters(Quarters::Three)).width == h
        }),
{
    law_where_pixels_go(image, x, y, c);
}

/// Edits are replayed in the order of the view: the mirroring, the turn, what was
/// laid over the picture, the cut, and the tone. Each step works on what the steps
/// before it give.
pub proof fn law_edits_are_replayed_in_order(
    sized: Raster,
    flips: (bool, bool),
    turn: Turn,
    overlays: Seq<RenderedText>,
    crop: Option<Selected>,
    display: (int, int),
    tone: Option<Tone>,
)
    requires
        sized.wf(),
    ensures
        ({
            let upright = Turn::Quarters(Quarters::Zero);
            let none = Seq::<RenderedText>::empty();
            let flat = replayed(sized, flips, upright, none, None, display, None);
            let turned_too = replayed(sized, flips, turn, none, None, display, None);
            let laid = replayed(sized, flips, turn, overlays, None, display, None);
            let cut_too = replayed(sized, flips, turn, overlays, crop, display, None);
            let all = replayed(sized, flips, turn, overlays, crop, display, tone);
            &&& flat == Some(mirrored(sized, flips.0, flips.1))
            &&& turned_too == replayed(flat->0, (false, false), turn, none, None, display, None)
            &&& laid == replayed(turned_too->0, (false, false), upright, overlays, None, display, None)
            &&& cut_too == replayed(laid->0, (false, false), upright, none, crop, display, None)
            &&& (crop is Some && display.0 > 0 && display.1 > 0) ==> cut_too == cut_out(
                laid->0,
                crop->0,
                display,
            )
            &&& crop is None || display.0 <= 0 || display.1 <= 0 ==> cut_too == laid
            &&& all is Some <==> cut_too is Some
            &&& all is Some ==> all == replayed(
                cut_too->0,
                (false, false),
                upright,
                none,
                None,
                display,
                tone,
            )
        }),
{
}

/// A pixel laid over white: an opaque one keeps its colour, a clear one is white,
/// and one in between lies between the two, as near to its colour as it is opaque.
pub proof fn law_flattening_lays_over_white(channel: u8, alpha: u8)
    ensures
        alpha == 255 ==> over_white(channel, alpha) == channel,
        alpha == 0 ==> over_white(channel, alpha) == 255,
        channel <= over_white(channel, alpha),
        -255 <= 2 * (255 * (255 - over_white(channel, alpha)) - alpha * (255 - channel)) <= 255,
{
    let n: int = channel * alpha + 255 * (255 - alpha);
    let white: int = alpha * (255 - channel);
    assert(n == 255 * 255 - white && 0 <= white <= alpha * 255) by (nonlinear_arith)
        requires
            n == channel * alpha + 255 * (255 - alpha),
            white == alpha * (255 - channel),
            0 <= channel <= 255,
            0 <= alpha,
    ;
    assert(white <= 255 * (255 - channel)) by (nonlinear_arith)
        requires
            white == alpha * (255 - channel),
            0 <= alpha <= 255,
            0 <= channel <= 255,
    ;
    let q = (2 * n + 255) / 510;
    assert(half_up(n as nat, 255) == q);
    assert(0 <= q <= 255);
}

/// What is left of a picture for a format without transparency: each pixel's red,
/// green and blue, in its place and order, laid over white.
pub proof fn law_flattening_keeps_the_places(image: Raster, x: int, y: int, c: int)
    requires
        image.wf(),
        0 <= x < image.width,
        0 <= y < image.height,
        0 <= c < 3,
    ensures
        flattened(image).len() == image.width * image.height * 3,
        ({
            let place = y * image.width + x;
            let (colour, alpha) = (image.rgba[place * 4 + c], image.rgba[place * 4 + 3]);
            let flat = flattened(image)[place * 3 + c];
            &&& 0 <= place * 3 + c < flattened(image).len()
            &&& alpha == 255 ==> flat == colour
            &&& alpha == 0 ==> flat == 255
            &&& -255 <= 2 * (255 * (255 - flat) - alpha * (255 - colour)) <= 255
        }),
{
    let place = y * image.width + x;
    assert(0 <= place < image.width * image.height) by (nonlinear_arith)
        requires
            place == y * image.width + x,
            0 <= x < image.width,
            0 <= y < image.height,
    ;
    assert((place * 3 + c) / 3 == place && (place * 3 + c) % 3 == c);
    law_flattening_lays_over_white(image.rgba[place * 4 + c], image.rgba[place * 4 + 3]);
}

/// What is cut out of a picture is a part of it, no larger than what is there: each
/// pixel is the one that lies as far behind the selection's corner, or, outside a
/// freehand outline, clear.
pub proof fn law_a_cut_is_a_part(
    image: Raster,
    crop: Selected,
    display: (int, int),
    x: int,
    y: int,
    c: int,
)
    requires
        image.wf(),
        display.0 > 0,
        cut_out(image, crop, display) is Some,
        0 <= x < cut_out(image, crop, display)->0.width,
        0 <= y < cut_out(image, crop, display)->0.height,
        0 <= c < 4,
    ensures
        ({
            let part = cut_out(image, crop, display)->0;
            let left = on_pixels(crop.rect.x as int, image.width as int, display.0);
            let top = on_pixels(crop.rect.y as int, image.width as int, display.0);
            let here = part.rgba[(y * part.width + x) * 4 + c];
            let there = image.rgba[((top + y) * image.width + left + x) * 4 + c];
            let outline = crop.path.map_values(
                |p: Point| on_part(p, image.width as int, display.0, left, top),
            );
            &&& 0 <= left && left + part.width <= image.width
            &&& 0 <= top && top + part.height <= image.height
            &&& part.width <= on_pixels(crop.rect.width as int, image.width as int, display.0)
            &&& part.height <= on_pixels(crop.rect.height as int, image.width as int, display.0)
            &&& crop.path.len() <= 2 ==> here == there
            &&& crop.path.len() > 2 && inside(outline, (halves(2 * x + 1), halves(2 * y + 1))) ==> here
                == there
            &&& crop.path.len() > 2 && !inside(outline, (halves(2 * x + 1), halves(2 * y + 1)))
                ==> here == 0
        }),
{
    let (left, top, w, h) = cut_area(image, crop, display);
    let part = cropped(image, left as nat, top as nat, w as nat, h as nat);
    lemma_not_negative(crop.rect.x as int, image.width as int, display.0);
    lemma_not_negative(crop.rect.y as int, image.width as int, display.0);
    lemma_not_negative(crop.rect.width as int, image.width as int, display.0);
    lemma_not_negative(crop.rect.height as int, image.width as int, display.0);
    law_a_part_is_where_it_was(image, left as nat, top as nat, w as nat, h as nat, x, y, c);
    let outline = crop.path.map_values(
        |p: Point| on_part(p, image.width as int, display.0, left, top),
    );
    lemma_masked(part, outline);
    if crop.path.len() > 2 {
        assert(masked(part, outline).channel(x, y, c) == if inside(outline, middle_of(x, y)) {
            part.channel(x, y, c)
        } else {
            0
        });
    }
}

/// A length in pixels is not negative.
proof fn lemma_not_negative(length: int, image_width: int, display_width: int)
    ensures
        on_pixels(length, image_width, display_width) >= 0,
{
}

/// On a picture that is shown at its own size, a pixel of the display is a pixel of
/// the picture: a selection is cut out exactly where it was drawn.
pub proof fn law_a_pixel_on_screen_is_a_pixel(n: int, width: int)
    requires
        0 <= n <= REACH,
        0 < width <= REACH,
    ensures
        on_pixels(n * 0x1_0000, width, width * 0x1_0000) == n,
{
    lemma_pow2_pos(2000);
    lemma_pow2_pos(1984);
    vstd::arithmetic::power2::lemma2_to64();
    vstd::arithmetic::power2::lemma_pow2_adds(1984, 16);
    assert(pow2(2000) == pow2(1984) * 0x1_0000);
    let p = pow2(1984);
    assert((width * 0x1_0000) * p == width * (p * 0x1_0000)) by (nonlinear_arith);
    assert((n * 0x1_0000) * p == n * (p * 0x1_0000)) by (nonlinear_arith);
    assert(of_units(width * 0x1_0000) == of_whole(width));
    assert(of_units(n * 0x1_0000) == of_whole(n));
    let a: nat = (width * one()) as nat;
    assert(width * one() > 0) by (nonlinear_arith)
        requires
            width > 0,
            one() > 0,
    ;
    assert(n * one() >= 0) by (nonlinear_arith)
        requires
            n >= 0,
            one() > 0,
    ;
    lemma_same_over_same(a);
    assert(display_scale(width, width * 0x1_0000) == one());
    // A whole number times one is itself.
    let k: nat = n as nat;
    assert(of_whole(n) * one() == k * one() * one());
    lemma_whole_of_short(k);
    lemma_whole_shifts(k, 2000);
    lemma_whole_shifts((k * one()) as nat, 2000);
    assert(kept(of_whole(n) * one() as int) == signed(false, (k * one()) as nat * one()));
    lemma_divided(false, (k * one()) as nat, kept(of_whole(n) * one() as int));
    assert(times(of_whole(n), one() as int) == k * one());
    let d = one() as int;
    assert((2 * (k * d) + d) / (2 * d) == k) by {
        assert(2 * (k * d) + d == k * (2 * d) + d) by (nonlinear_arith);
        vstd::arithmetic::div_mod::lemma_fundamental_div_mod_converse(
            2 * (k * d) + d,
            2 * d,
            k as int,
            d,
        );
    }
}

/// A number over itself is one.
proof fn lemma_same_over_same(a: nat)
    requires
        a > 0,
    ensures
        quotient(a as int, a as int) == one(),
{
    let n: nat = a * one();
    // The ratio is 2^2000, and 53 of its bits are kept.
    lemma_excess_of_power(a, 0, 2000);
    let e: nat = 1948;
    let unit = pow2(e);
    vstd::arithmetic::power2::lemma2_to64();
    vstd::arithmetic::power2::lemma2_to64_rest();
    vstd::arithmetic::power2::lemma_pow2_adds(1948, 52);
    lemma_pow2_pos(e);
    assert(pow2(52) == full());
    assert(n == full() * (a * unit)) by (nonlinear_arith)
        requires
            n == a * one(),
            one() == unit * full(),
    ;
    assert(a * unit > 0) by (nonlinear_arith)
        requires
            a > 0,
            unit > 0,
    ;
    vstd::arithmetic::div_mod::lemma_fundamental_div_mod_converse(
        n as int,
        (a * unit) as int,
        full() as int,
        0,
    );
    assert(half_even(n, a * unit) == full());
    assert(full() * unit == one()) by (nonlinear_arith)
        requires
            one() == unit * full(),
    ;
}

/// How many bits a power of two over one has past those that are kept.
proof fn lemma_excess_of_power(a: nat, done: nat, power: nat)
    requires
        a > 0,
        power >= 52,
        done <= power - 52,
    ensures
        excess_ratio(a * pow2(power), a * pow2(done)) == power - 52 - done,
    decreases power - done,
{
    vstd::arithmetic::power2::lemma2_to64();
    vstd::arithmetic::power2::lemma2_to64_rest();
    let gap: nat = (power - done) as nat;
    vstd::arithmetic::power2::lemma_pow2_adds(done, gap);
    lemma_pow2_pos(done);
    let (p, g) = (pow2(done), pow2(gap));
    assert(a * (p * g) == (a * p) * g) by (nonlinear_arith);
    assert(a * p > 0) by (nonlinear_arith)
        requires
            a > 0,
            p > 0,
    ;
    if gap == 52 {
        assert((a * p) * 0x10_0000_0000_0000 < 0x20_0000_0000_0000 * (a * p)) by (nonlinear_arith)
            requires
                a * p > 0,
        ;
    } else {
        if gap > 53 {
            lemma_pow2_strictly_increases(53, gap);
        }
        assert((a * p) * g >= 0x20_0000_0000_0000 * (a * p)) by (nonlinear_arith)
            requires
                g >= 0x20_0000_0000_0000,
                a * p > 0,
        ;
        vstd::arithmetic::power2::lemma_pow2_unfold(done + 1);
        assert(a * (2 * p) == 2 * (a * p)) by (nonlinear_arith);
        lemma_excess_of_power(a, done + 1, power);
    }
}

/// A format refuses a picture by its longer side, whichever way up the picture is.
pub proof fn law_a_limit_holds_both_ways(limit: Option<u32>, width: int, height: int)
    ensures
        is_past(limit, width, height) == is_past(limit, height, width),
        limit is None ==> !is_past(limit, width, height),
        limit matches Some(most) ==> (is_past(limit, width, height) <==> (if width >= height {
            width
        } else {
            height
        }) > most),
{
}

/// Only JPEG and GIF cost the picture something, only JPEG has a quality, and only ICO
/// has a size of its own to answer to, of two hundred and fifty-six pixels.
pub proof fn law_formats_say_what_they_cost(i: int)
    requires
        0 <= i < target_list().len(),
    ensures
        ({
            let (label, extension, limit, caveat) = target_list()[i];
            &&& label == "JPEG"@ ==> is_jpeg(extension) && caveat == Some("no transparency"@)
            &&& label == "GIF"@ ==> caveat == Some("256 colours, one frame"@)
            &&& label == "ICO"@ ==> limit == Some(256u32)
            &&& label == "PNG"@ || label == "WebP"@ || label == "TIFF"@ || label == "BMP"@ ==> limit
                is None && caveat is None
            &&& label != "JPEG"@ ==> !is_jpeg(extension)
        }),
{
    reveal_strlit("PNG");
    reveal_strlit("JPEG");
    reveal_strlit("WebP");
    reveal_strlit("TIFF");
    reveal_strlit("BMP");
    reveal_strlit("GIF");
    reveal_strlit("ICO");
    reveal_strlit("png");
    reveal_strlit("jpg");
    reveal_strlit("jpeg");
    reveal_strlit("webp");
    reveal_strlit("tiff");
    reveal_strlit("bmp");
    reveal_strlit("gif");
    reveal_strlit("ico");
    assert("PNG"@[0] == 'P' && "JPEG"@[0] == 'J' && "WebP"@[0] == 'W' && "TIFF"@[0] == 'T');
    assert("BMP"@[0] == 'B' && "GIF"@[0] == 'G' && "ICO"@[0] == 'I');
    assert("jpg"@[0] == 'j' && "jpeg"@[0] == 'j' && "png"@[0] == 'p' && "webp"@[0] == 'w');
    assert("tiff"@[0] == 't' && "bmp"@[0] == 'b' && "gif"@[0] == 'g' && "ico"@[0] == 'i');
}

/// An extension names the format whose files bear it, under each of its spellings.
pub proof fn law_extensions_name_their_formats()
    ensures
        format_of("jpg"@) == Some("jpg"@),
        format_of("jpeg"@) == Some("jpg"@),
        format_of("jfif"@) == Some("jpg"@),
        format_of("png"@) == Some("png"@),
        format_of("apng"@) == Some("png"@),
        format_of("tif"@) == Some("tiff"@),
        format_of("tiff"@) == Some("tiff"@),
        format_of("pbm"@) == Some("pbm"@),
        format_of("pam"@) == Some("pbm"@),
        format_of("ppm"@) == Some("pbm"@),
        format_of("pgm"@) == Some("pbm"@),
        format_of("pnm"@) == Some("pbm"@),
        format_of("gif"@) == Some("gif"@),
        format_of("webp"@) == Some("webp"@),
        format_of("tga"@) == Some("tga"@),
        format_of("dds"@) == Some("dds"@),
        format_of("bmp"@) == Some("bmp"@),
        format_of("ico"@) == Some("ico"@),
        format_of("hdr"@) == Some("hdr"@),
        format_of("exr"@) == Some("exr"@),
        format_of("ff"@) == Some("ff"@),
        format_of("qoi"@) == Some("qoi"@),
        format_of("avif"@) == Some("avif"@),
{
    reveal_strlit("jpg");
    reveal_strlit("jpeg");
    reveal_strlit("jfif");
    reveal_strlit("png");
    reveal_strlit("apng");
    reveal_strlit("tif");
    reveal_strlit("tiff");
    reveal_strlit("pbm");
    reveal_strlit("pam");
    reveal_strlit("ppm");
    reveal_strlit("pgm");
    reveal_strlit("pnm");
    reveal_strlit("gif");
    reveal_strlit("webp");
    reveal_strlit("tga");
    reveal_strlit("dds");
    reveal_strlit("bmp");
    reveal_strlit("ico");
    reveal_strlit("hdr");
    reveal_strlit("exr");
    reveal_strlit("ff");
    reveal_strlit("qoi");
    reveal_strlit("avif");
    assert("jpg"@.len() == 3 && "jpg"@[0] == 'j' && "jpg"@[1] == 'p' && "jpg"@[2] == 'g');
    assert("jpeg"@.len() == 4 && "jpeg"@[0] == 'j' && "jpeg"@[1] == 'p' && "jpeg"@[2] == 'e');
    assert("jfif"@.len() == 4 && "jfif"@[0] == 'j' && "jfif"@[1] == 'f' && "jfif"@[2] == 'i');
    assert("png"@.len() == 3 && "png"@[0] == 'p' && "png"@[1] == 'n' && "png"@[2] == 'g');
    assert("apng"@.len() == 4 && "apng"@[0] == 'a' && "apng"@[1] == 'p' && "apng"@[2] == 'n');
    assert("tif"@.len() == 3 && "tif"@[0] == 't' && "tif"@[1] == 'i' && "tif"@[2] == 'f');
    assert("tiff"@.len() == 4 && "tiff"@[0] == 't' && "tiff"@[1] == 'i' && "tiff"@[2] == 'f');
    assert("pbm"@.len() == 3 && "pbm"@[0] == 'p' && "pbm"@[1] == 'b' && "pbm"@[2] == 'm');
    assert("pam"@.len() == 3 && "pam"@[0] == 'p' && "pam"@[1] == 'a' && "pam"@[2] == 'm');
    assert("ppm"@.len() == 3 && "ppm"@[0] == 'p' && "ppm"@[1] == 'p' && "ppm"@[2] == 'm');
    assert("pgm"@.len() == 3 && "pgm"@[0] == 'p' && "pgm"@[1] == 'g' && "pgm"@[2] == 'm');
    assert("pnm"@.len() == 3 && "pnm"@[0] == 'p' && "pnm"@[1] == 'n' && "pnm"@[2] == 'm');
    assert("gif"@.len() == 3 && "gif"@[0] == 'g' && "gif"@[1] == 'i' && "gif"@[2] == 'f');
    assert("webp"@.len() == 4 && "webp"@[0] == 'w' && "webp"@[1] == 'e' && "webp"@[2] == 'b');
    assert("tga"@.len() == 3 && "tga"@[0] == 't' && "tga"@[1] == 'g' && "tga"@[2] == 'a');
    assert("dds"@.len() == 3 && "dds"@[0] == 'd' && "dds"@[1] == 'd' && "dds"@[2] == 's');
    assert("bmp"@.len() == 3 && "bmp"@[0] == 'b' && "bmp"@[1] == 'm' && "bmp"@[2] == 'p');
    assert("ico"@.len() == 3 && "ico"@[0] == 'i' && "ico"@[1] == 'c' && "ico"@[2] == 'o');
    assert("hdr"@.len() == 3 && "hdr"@[0] == 'h' && "hdr"@[1] == 'd' && "hdr"@[2] == 'r');
    assert("exr"@.len() == 3 && "exr"@[0] == 'e' && "exr"@[1] == 'x' && "exr"@[2] == 'r');
    assert("ff"@.len() == 2 && "ff"@[0] == 'f' && "ff"@[1] == 'f');
    assert("qoi"@.len() == 3 && "qoi"@[0] == 'q' && "qoi"@[1] == 'o' && "qoi"@[2] == 'i');
    assert("avif"@.len() == 4 && "avif"@[0] == 'a' && "avif"@[1] == 'v' && "avif"@[2] == 'i');
}

/// Only a JPEG is laid over white and has a quality: any other format is given the
/// pixels as they are, their alpha included, whatever quality was asked for, and saving
/// and exporting make the same file.
pub proof fn law_other_formats_keep_the_pixels(
    image: Picture,
    label: Seq<char>,
    extension: Seq<char>,
    format: Seq<char>,
    quality: Option<u8>,
    q: u8,
)
    requires
        !is_jpeg(extension),
        !is_jpeg(lowercase(extension)),
        format_of(lowercase(extension)) == Some(format),
    ensures
        saved_file(image, Some(extension), quality) == saved_file(image, Some(extension), None),
        encoded(image, label, extension, q) == encoded(image, label, extension, 85),
        match image_file(image.width, image.height, image.rgba@, format) {
            Ok(bytes) => saved_file(image, Some(extension), quality) == Ok::<Seq<u8>, Seq<char>>(bytes)
                && encoded(image, label, extension, q) == Ok::<Seq<u8>, Seq<char>>(bytes),
            Err(message) => saved_file(image, Some(extension), quality) == Err::<Seq<u8>, Seq<char>>(
                "Could not save: "@ + message,
            ) && encoded(image, label, extension, q) == Err::<Seq<u8>, Seq<char>>(
                "Could not encode: "@ + message,
            ),
        },
{
}

/// A JPEG is made of the pixels over white at the quality asked for, eighty-five where
/// none was, under either spelling and in capitals or not.
pub proof fn law_a_jpeg_is_made_at_its_quality(
    image: Picture,
    label: Seq<char>,
    text: Seq<char>,
    q: u8,
)
    requires
        lowercase(text) == "jpg"@ || lowercase(text) == "jpeg"@,
    ensures
        saved_file(image, Some(text), None) == saved_file(image, Some(text), Some(85)),
        jpeg_file(image.width, image.height, flattened(image@), q) matches Ok(bytes) ==> saved_file(
            image,
            Some(text),
            Some(q),
        ) == Ok::<Seq<u8>, Seq<char>>(bytes) && encoded(image, label, "jpg"@, q) == Ok::<
            Seq<u8>,
            Seq<char>,
        >(bytes) && encoded(image, label, "jpeg"@, q) == Ok::<Seq<u8>, Seq<char>>(bytes),
{
}

} // verus!
