//! PNG, JPEG, GIF, WebP, TIFF, BMP and the rest of the image library's formats.

use vstd::prelude::*;

use crate::colour::{honour, in_srgb, profile_bytes};
use crate::export::{
    format_from_extension, format_of, law_extensions_name_their_formats,
    lemma_formats_name_themselves, target_list, unknown_format,
};
use crate::loader::{unsupported, unsupported_text, AnimationFrame, Failure, LoadedImage};
use crate::paths::{extension_of, lossy_text, part, read_lossily, FilePath};
use crate::picture::{exif_orientation, from_exif, turned, Orientation, Picture, Raster};
use crate::wording::{append_decimal, decimal, lowercase, same};

verus! {

/// A very long animation could otherwise hold a lot of decoded frames at once,
/// so collecting stops past this and what was gathered is shown.
pub const MAX_ANIMATION_BYTES: u64 = 512 * 1024 * 1024;

pub const MAX_FRAMES: usize = 2000;

/// Browsers treat absurdly short frame delays as a mistake and slow them down;
/// matching that keeps old animations looking the way they are meant to. In
/// nanoseconds.
pub const MIN_DELAY: u64 = 20_000_000;

pub const SLOW_DELAY: u64 = 100_000_000;

/// The format that the start of a file shows, under the first of its extensions.
pub uninterp spec fn guessed(bytes: Seq<u8>) -> Option<Seq<char>>;

/// `image::guess_format` looks for a signature at the start of the bytes. Which
/// signatures there are is left to it; the answer depends on the bytes alone,
/// and is one of the formats that an extension can name.
#[verifier::external_body]
fn guess_format(bytes: &[u8]) -> (r: Option<&'static str>)
    ensures
        guessed(bytes@) == (match r {
            Some(name) => Some(name@),
            None => None,
        }),
        r is Some ==> format_of(r->0@) == Some(r->0@),
{
    image::guess_format(bytes).ok().map(|format| format.extensions_str()[0])
}

/// The width, the height, the orientation number and the colour profile that a
/// file of a format records of its picture.
pub uninterp spec fn recorded_shape(bytes: Seq<u8>, format: Seq<char>) -> (
    u32,
    u32,
    u8,
    Option<Seq<u8>>,
);

/// A picture as it is stored, and what its file records of it.
pub struct Stored {
    pub picture: Picture,
    /// The orientation number, from one to eight.
    pub orientation: u8,
    /// The colour profile, where there is one.
    pub profile: Option<Vec<u8>>,
}

/// Whether a file of a format decodes.
pub uninterp spec fn opens(bytes: Seq<u8>, format: Seq<char>) -> bool;

/// The pixels in a file of a format that holds no JPEG data.
pub uninterp spec fn stored_pixels(bytes: Seq<u8>, format: Seq<char>) -> Seq<u8>;

/// Whether a file of a format may decode to a picture of this width and height with
/// these pixels. Machines round differently, so JPEG data may decode to more than
/// one.
pub uninterp spec fn may_decode(
    bytes: Seq<u8>,
    format: Seq<char>,
    width: u32,
    height: u32,
    rgba: Seq<u8>,
) -> bool;

/// Whether files of a format can hold JPEG data: JPEG files, and TIFF ones.
pub open spec fn can_hold_jpeg(format: Seq<char>) -> bool {
    format == "jpg"@ || format == "tiff"@
}

/// `ImageReader::into_decoder`, the decoder's `orientation` and `icc_profile`,
/// and `DynamicImage::from_decoder` with its pixels taken as eight-bit RGBA.
///
/// Whether a file decodes depends on its bytes and its format alone. What decodes
/// has the size, the orientation and the profile that the file records, and all of
/// its pixels. Those depend on the bytes alone too, except for JPEG data, which is
/// decoded with whatever vector instructions the machine has: of that, the pixels
/// are among those that the file may decode to. What the error says is left open.
#[verifier::external_body]
fn decode_still(bytes: &[u8], format: &str) -> (r: Result<Stored, String>)
    requires
        format_of(format@) == Some(format@),
    ensures
        r is Ok <==> opens(bytes@, format@),
        (r is Ok && !can_hold_jpeg(format@)) ==> r->Ok_0.picture.rgba@ == stored_pixels(bytes@, format@),
        r is Ok ==> may_decode(
            bytes@,
            format@,
            r->Ok_0.picture.width,
            r->Ok_0.picture.height,
            r->Ok_0.picture.rgba@,
        ),
        r is Ok ==> (r->Ok_0.picture.wf() && recorded_shape(bytes@, format@) == (
            r->Ok_0.picture.width,
            r->Ok_0.picture.height,
            r->Ok_0.orientation,
            profile_bytes(r->Ok_0.profile),
        )),
        r is Ok ==> 1 <= r->Ok_0.orientation <= 8,
{
    let mut reader = image::ImageReader::new(std::io::Cursor::new(bytes));
    reader.set_format(image::ImageFormat::from_extension(format).unwrap());
    let mut decoder = reader.into_decoder().map_err(|error| error.to_string())?;
    let none = image::metadata::Orientation::NoTransforms;
    let orientation = image::ImageDecoder::orientation(&mut decoder).unwrap_or(none).to_exif();
    let profile = image::ImageDecoder::icc_profile(&mut decoder).unwrap_or(None);
    let image = image::DynamicImage::from_decoder(decoder).map_err(|error| error.to_string())?;
    let rgba = image.into_rgba8();
    let (width, height) = rgba.dimensions();
    let picture = Picture { width, height, rgba: rgba.into_raw() };
    Ok(Stored { picture, orientation, profile })
}

/// A frame as an animation decoder hands it out. Its delay is a fraction of
/// milliseconds.
pub struct RawFrame {
    pub width: u32,
    pub height: u32,
    pub rgba: Vec<u8>,
    pub numerator: u32,
    pub denominator: u32,
}

/// The values of a frame.
pub struct FrameValue {
    pub width: u32,
    pub height: u32,
    pub rgba: Seq<u8>,
    pub numerator: u32,
    pub denominator: u32,
}

impl View for RawFrame {
    type V = FrameValue;

    open spec fn view(&self) -> FrameValue {
        FrameValue {
            width: self.width,
            height: self.height,
            rgba: self.rgba@,
            numerator: self.numerator,
            denominator: self.denominator,
        }
    }
}

/// The image library's row of frames, decoded one by one.
#[verifier::external_type_specification]
#[verifier::external_body]
pub struct ExFrames<'a>(image::Frames<'a>);

/// A frame of the image library, as a row of frames yields it.
#[verifier::external_type_specification]
#[verifier::external_body]
pub struct ExFrame(image::Frame);

/// The image library's error, as a row of frames yields it.
#[verifier::external_type_specification]
#[verifier::external_body]
pub struct ExImageError(image::ImageError);

/// The frames that are still to come, `None` standing for one that fails. Those
/// behind a failure do not count.
pub uninterp spec fn frames_left(frames: image::Frames<'static>) -> Seq<Option<FrameValue>>;

/// The frames of a GIF, where the decoder takes it.
pub uninterp spec fn gif_frames(bytes: Seq<u8>) -> Option<Seq<Option<FrameValue>>>;

/// `GifDecoder::new` and `into_frames`. The frames depend on the bytes alone.
#[verifier::external_body]
fn open_gif(bytes: Vec<u8>) -> (r: Option<image::Frames<'static>>)
    ensures
        gif_frames(bytes@) == (match r {
            Some(frames) => Some(frames_left(frames)),
            None => None,
        }),
{
    let file = std::io::Cursor::new(bytes);
    image::codecs::gif::GifDecoder::new(file).ok().map(image::AnimationDecoder::into_frames)
}

/// Whether a file is a WebP that says that it is animated.
pub uninterp spec fn is_animated_webp(bytes: Seq<u8>) -> bool;

/// `WebPDecoder::new` and `has_animation`. The answer depends on the bytes alone.
#[verifier::external_body]
fn has_animation(bytes: &[u8]) -> (r: bool)
    ensures
        r == is_animated_webp(bytes@),
{
    let file = std::io::Cursor::new(bytes);
    image::codecs::webp::WebPDecoder::new(file).is_ok_and(|decoder| decoder.has_animation())
}

/// The frames of an animated WebP, where the decoder takes it.
pub uninterp spec fn webp_frames(bytes: Seq<u8>) -> Option<Seq<Option<FrameValue>>>;

/// `WebPDecoder::new` and `into_frames`. The frames depend on the bytes alone. Those
/// of a file that does not say that it is animated must not be asked for.
#[verifier::external_body]
fn open_webp(bytes: Vec<u8>) -> (r: Option<image::Frames<'static>>)
    requires
        is_animated_webp(bytes@),
    ensures
        webp_frames(bytes@) == (match r {
            Some(frames) => Some(frames_left(frames)),
            None => None,
        }),
{
    let file = std::io::Cursor::new(bytes);
    image::codecs::webp::WebPDecoder::new(file).ok().map(image::AnimationDecoder::into_frames)
}

/// The frames of a file of a format, where an animation decoder takes it.
pub open spec fn frames_of(bytes: Seq<u8>, format: Seq<char>) -> Option<Seq<Option<FrameValue>>> {
    if format == "gif"@ {
        gif_frames(bytes)
    } else if is_animated_webp(bytes) {
        webp_frames(bytes)
    } else {
        None
    }
}

/// Opens the frames of a GIF or of a WebP.
fn open_frames(bytes: &Vec<u8>, gif: bool) -> (r: Option<image::Frames<'static>>)
    ensures
        frames_of(bytes@, if gif { "gif"@ } else { "webp"@ }) == (match r {
            Some(frames) => Some(frames_left(frames)),
            None => None,
        }),
{
    proof {
        reveal_strlit("gif");
        reveal_strlit("webp");
        assert("gif"@.len() != "webp"@.len());
        assert(bytes@.subrange(0, bytes@.len() as int) =~= bytes@);
    }
    if gif {
        open_gif(part(bytes, 0, bytes.len()))
    } else if has_animation(bytes.as_slice()) {
        open_webp(part(bytes, 0, bytes.len()))
    } else {
        None
    }
}

/// The `next` of `image::Frames`, its frame taken apart by `delay` and
/// `into_buffer`. A frame has a channel for every pixel, and the fraction of its
/// delay is one.
#[verifier::external_body]
fn next_frame(frames: &mut image::Frames<'static>) -> (r: Option<Option<RawFrame>>)
    ensures
        r is None <==> frames_left(*old(frames)).len() == 0,
        r is Some ==> frames_left(*old(frames))[0] == (match r->0 {
            Some(frame) => Some(frame@),
            None => None,
        }),
        (r is Some && r->0 is Some) ==> frames_left(*final(frames)) == frames_left(*old(frames)).drop_first(),
        (r is Some && r->0 is Some) ==> (r->0->0.rgba@.len() == r->0->0.width as nat * r->0->0.height as nat * 4
            && r->0->0.denominator > 0),
{
    let frame = match frames.next()? {
        Ok(frame) => frame,
        Err(_) => return Some(None),
    };
    let (numerator, denominator) = frame.delay().numer_denom_ms();
    let buffer = frame.into_buffer();
    let (width, height) = buffer.dimensions();
    Some(Some(RawFrame { width, height, rgba: buffer.into_raw(), numerator, denominator }))
}

/// What a format is called in the header bar.
pub open spec fn format_label(format: Option<Seq<char>>) -> Seq<char> {
    match format {
        None => "Image"@,
        Some(name) => if name == "png"@ {
            "PNG"@
        } else if name == "jpg"@ {
            "JPEG"@
        } else if name == "gif"@ {
            "GIF"@
        } else if name == "webp"@ {
            "WebP"@
        } else if name == "tiff"@ {
            "TIFF"@
        } else if name == "bmp"@ {
            "BMP"@
        } else if name == "ico"@ {
            "ICO"@
        } else if name == "qoi"@ {
            "QOI"@
        } else if name == "tga"@ {
            "TGA"@
        } else if name == "pbm"@ {
            "PNM"@
        } else {
            "Image"@
        },
    }
}

/// Names a format for the header bar.
pub fn label_for(format: Option<&str>) -> (r: &'static str)
    ensures
        r@ == format_label(
            match format {
                Some(name) => Some(name@),
                None => None,
            },
        ),
{
    let name = match format {
        Some(name) => name,
        None => return "Image",
    };
    if same(name, "png") {
        "PNG"
    } else if same(name, "jpg") {
        "JPEG"
    } else if same(name, "gif") {
        "GIF"
    } else if same(name, "webp") {
        "WebP"
    } else if same(name, "tiff") {
        "TIFF"
    } else if same(name, "bmp") {
        "BMP"
    } else if same(name, "ico") {
        "ICO"
    } else if same(name, "qoi") {
        "QOI"
    } else if same(name, "tga") {
        "TGA"
    } else if same(name, "pbm") {
        "PNM"
    } else {
        "Image"
    }
}

/// How long a frame with this delay stays up, in nanoseconds.
pub open spec fn shown_delay(numerator: nat, denominator: nat) -> nat {
    let exact = (numerator / denominator) * 1_000_000 + ((numerator % denominator) * 1_000_000)
        / denominator;
    if exact < MIN_DELAY {
        SLOW_DELAY as nat
    } else {
        exact
    }
}

/// Works out how long a frame stays up.
pub fn delay_of(numerator: u32, denominator: u32) -> (r: u64)
    requires
        denominator > 0,
    ensures
        r == shown_delay(numerator as nat, denominator as nat),
{
    let whole: u64 = (numerator / denominator) as u64 * 1_000_000;
    let rest: u64 = ((numerator % denominator) as u64 * 1_000_000) / denominator as u64;
    proof {
        assert(rest <= 0xFFFF_FFFFu64 * 1_000_000) by (nonlinear_arith)
            requires
                rest == ((numerator % denominator) * 1_000_000) as int / denominator as int,
                denominator > 0,
                0 <= numerator % denominator <= 0xFFFF_FFFF,
        ;
    }
    if whole + rest < MIN_DELAY {
        SLOW_DELAY
    } else {
        whole + rest
    }
}

/// How many bytes some frames take up.
pub open spec fn total_bytes(frames: Seq<FrameValue>) -> nat
    decreases frames.len(),
{
    if frames.len() == 0 {
        0
    } else {
        total_bytes(frames.drop_last()) + frames.last().rgba.len()
    }
}

/// Whether collecting stops with these frames.
pub open spec fn enough(frames: Seq<FrameValue>) -> bool {
    frames.len() >= MAX_FRAMES || total_bytes(frames) >= MAX_ANIMATION_BYTES
}

/// The frames that are kept of those to come, beside some that were kept
/// already: all of them, or as many as are enough. One that fails before that
/// spoils the lot.
pub open spec fn gathered(coming: Seq<Option<FrameValue>>, kept: Seq<FrameValue>) -> Option<
    Seq<FrameValue>,
>
    decreases coming.len(),
{
    if coming.len() == 0 {
        Some(kept)
    } else {
        match coming[0] {
            None => None,
            Some(frame) => if enough(kept.push(frame)) {
                Some(kept.push(frame))
            } else {
                gathered(coming.drop_first(), kept.push(frame))
            },
        }
    }
}

/// Frames being collected.
pub struct Gathering {
    pub width: u32,
    pub height: u32,
    pub frames: Vec<AnimationFrame>,
    pub bytes: u128,
}

/// Whether a frame that was kept is one that came.
pub open spec fn keeps(kept: AnimationFrame, came: FrameValue) -> bool {
    kept.rgba@ == came.rgba && kept.delay == shown_delay(
        came.numerator as nat,
        came.denominator as nat,
    )
}

impl Gathering {
    /// Whether these are the frames collected so far.
    pub open spec fn holds(self, kept: Seq<FrameValue>) -> bool {
        &&& self.frames@.len() == kept.len()
        &&& forall|i: int| 0 <= i < kept.len() ==> keeps(#[trigger] self.frames@[i], kept[i])
        &&& kept.len() > 0 ==> self.width == kept[0].width && self.height == kept[0].height
        &&& self.bytes == total_bytes(kept)
    }

    /// Nothing collected yet.
    pub fn new() -> (r: Gathering)
        ensures
            r.holds(Seq::empty()),
    {
        Gathering { width: 0, height: 0, frames: Vec::new(), bytes: 0 }
    }

    /// Takes one more frame, and says whether that is enough. The size of the
    /// first frame is that of the animation.
    pub fn take(&mut self, frame: RawFrame) -> (r: bool)
        requires
            old(self).bytes < MAX_ANIMATION_BYTES,
            frame.denominator > 0,
        ensures
            forall|kept: Seq<FrameValue>| #[trigger]
                old(self).holds(kept) ==> final(self).holds(kept.push(frame@)) && r == enough(
                    kept.push(frame@),
                ),
    {
        if self.frames.len() == 0 {
            self.width = frame.width;
            self.height = frame.height;
        }
        let ghost value = frame@;
        let delay: u64 = delay_of(frame.numerator, frame.denominator);
        let size: u128 = frame.rgba.len() as u128;
        self.bytes = self.bytes + size;
        self.frames.push(AnimationFrame { rgba: frame.rgba, delay });
        proof {
            assert forall|kept: Seq<FrameValue>| #[trigger] old(self).holds(kept) implies self.holds(
                kept.push(value),
            ) by {
                assert(kept.push(value).drop_last() =~= kept);
            }
        }
        self.frames.len() >= MAX_FRAMES || self.bytes >= MAX_ANIMATION_BYTES as u128
    }

    /// The animation that was collected; a single frame is just a picture.
    pub fn finish(self, label: &str) -> (r: Option<LoadedImage>)
        ensures
            forall|kept: Seq<FrameValue>| #[trigger]
                self.holds(kept) ==> match r {
                    Some(image) => kept.len() >= 2 && animates(image, kept, label@),
                    None => kept.len() < 2,
                },
    {
        if self.frames.len() < 2 {
            return None;
        }
        let first: &AnimationFrame = &self.frames[0];
        let rgba = part(&first.rgba, 0, first.rgba.len());
        let mut text = label.to_owned();
        text.append(" · ");
        append_decimal(&mut text, self.frames.len() as u64);
        text.append(" frames");
        proof {
            assert(rgba@ =~= first.rgba@);
        }
        Some(
            LoadedImage {
                width: self.width,
                height: self.height,
                rgba,
                premultiplied: false,
                label: text,
                animation: self.frames,
            },
        )
    }
}

/// Whether an image is the animation of some frames, the first of them showing.
pub open spec fn animates(image: LoadedImage, kept: Seq<FrameValue>, label: Seq<char>) -> bool {
    &&& image.width == kept[0].width
    &&& image.height == kept[0].height
    &&& image.rgba@ == kept[0].rgba
    &&& !image.premultiplied
    &&& image.label@ == label + " · "@ + decimal(kept.len()) + " frames"@
    &&& image.animation@.len() == kept.len()
    &&& forall|i: int| 0 <= i < kept.len() ==> keeps(#[trigger] image.animation@[i], kept[i])
}

/// Decodes the frames of an animation. `None` for a single-frame file, which
/// then takes the still path.
pub fn decode_animation(bytes: &Vec<u8>, gif: bool, label: &str) -> (r: Option<LoadedImage>)
    ensures
        match frames_of(bytes@, if gif { "gif"@ } else { "webp"@ }) {
            None => r is None,
            Some(frames) => match (gathered(frames, Seq::empty()), r) {
                (Some(kept), Some(image)) => kept.len() >= 2 && animates(image, kept, label@),
                (Some(kept), None) => kept.len() < 2,
                (None, None) => true,
                (None, Some(_)) => false,
            },
        },
        r matches Some(image) ==> image.raster().wf(),
{
    let ghost name = if gif { "gif"@ } else { "webp"@ };
    let mut frames = match open_frames(bytes, gif) {
        Some(frames) => frames,
        None => return None,
    };
    let ghost all = frames_left(frames);
    let ghost mut kept: Seq<FrameValue> = Seq::empty();
    let mut gathering = Gathering::new();
    loop
        invariant_except_break
            !enough(kept),
            gathered(all, Seq::empty()) == gathered(frames_left(frames), kept),
        invariant
            gathering.holds(kept),
            frames_of(bytes@, if gif { "gif"@ } else { "webp"@ }) == Some(all),
            forall|i: int|
                0 <= i < kept.len() ==> (#[trigger] kept[i]).rgba.len() == kept[i].width as nat
                    * kept[i].height as nat * 4,
        ensures
            gathered(all, Seq::empty()) == Some(kept),
        decreases frames_left(frames).len(),
    {
        match next_frame(&mut frames) {
            None => {
                break;
            },
            Some(None) => {
                return None;
            },
            Some(Some(frame)) => {
                let ghost before = kept;
                proof {
                    kept = kept.push(frame@);
                }
                let done = gathering.take(frame);
                proof {
                    assert(gathering.holds(kept));
                }
                if done {
                    break;
                }
            },
        }
    }
    let r = gathering.finish(label);
    proof {
        if kept.len() > 0 {
            assert(kept[0].rgba.len() == kept[0].width as nat * kept[0].height as nat * 4);
        }
    }
    r
}

/// The format of a file: what its start shows, or else what its extension says.
pub open spec fn file_format(path: Seq<u8>, bytes: Seq<u8>) -> Option<Seq<char>> {
    match guessed(bytes) {
        Some(format) => Some(format),
        None => match extension_of(path) {
            Some(extension) => format_of(lowercase(lossy_text(extension))),
            None => None,
        },
    }
}

/// The way a recorded orientation turns a picture.
pub open spec fn turn_of(orientation: u8) -> Orientation {
    match exif_orientation(orientation as int) {
        Some(turn) => turn,
        None => Orientation::NoTransforms,
    }
}

/// Whether an image shows a stored picture: its pixels in sRGB, `converted`,
/// turned the way that it records.
pub open spec fn shows_stored(
    image: LoadedImage,
    stored: Raster,
    orientation: u8,
    profile: Option<Seq<u8>>,
    label: Seq<char>,
    converted: Raster,
) -> bool {
    &&& converted.wf()
    &&& converted.width == stored.width
    &&& converted.height == stored.height
    &&& in_srgb(stored.rgba, profile, converted.rgba)
    &&& image.is_still(turned(converted, turn_of(orientation)), false, label)
}

/// Makes an image of a stored picture: converted to sRGB, so that a pixel means
/// one thing everywhere else, and turned upright. Cameras write portrait shots as
/// landscape plus a rotation tag, and ignoring it shows them sideways.
pub fn still(stored: Stored, label: &str) -> (r: LoadedImage)
    requires
        stored.picture.wf(),
    ensures
        exists|converted: Raster| #[trigger]
            shows_stored(
                r,
                stored.picture@,
                stored.orientation,
                profile_bytes(stored.profile),
                label@,
                converted,
            ),
        stored.profile is None ==> r.is_still(
            turned(stored.picture@, turn_of(stored.orientation)),
            false,
            label@,
        ),
        r.raster().wf(),
{
    let ghost before = stored.picture@;
    let ghost profile = profile_bytes(stored.profile);
    let turn = match from_exif(stored.orientation as u16) {
        Some(turn) => turn,
        None => Orientation::NoTransforms,
    };
    let picture = Picture {
        width: stored.picture.width,
        height: stored.picture.height,
        rgba: honour(stored.picture.rgba, &stored.profile),
    };
    let upright = picture.turn(turn);
    let image = LoadedImage {
        width: upright.width,
        height: upright.height,
        rgba: upright.rgba,
        premultiplied: false,
        label: label.to_owned(),
        animation: Vec::new(),
    };
    proof {
        assert(shows_stored(image, before, stored.orientation, profile, label@, picture@));
    }
    image
}

/// Whether an image is the still of a file: of the size and with the pixels that
/// the file records, in sRGB by the profile that it records, turned as it records, under the
/// format's label.
pub open spec fn shows_still(
    image: LoadedImage,
    bytes: Seq<u8>,
    format: Seq<char>,
    decoded: Raster,
    converted: Raster,
) -> bool {
    let (width, height, turn, profile) = recorded_shape(bytes, format);
    &&& decoded.wf()
    &&& decoded.width == width
    &&& decoded.height == height
    &&& may_decode(bytes, format, width, height, decoded.rgba)
    &&& !can_hold_jpeg(format) ==> decoded.rgba == stored_pixels(bytes, format)
    &&& exif_orientation(turn as int) is Some
    &&& shows_stored(image, decoded, turn, profile, format_label(Some(format)), converted)
}

/// Whether an image is a still of a file.
pub open spec fn is_still_of(image: LoadedImage, bytes: Seq<u8>, format: Seq<char>) -> bool {
    exists|decoded: Raster, converted: Raster| #[trigger]
        shows_still(image, bytes, format, decoded, converted)
}

/// The animation in a file, where it holds more than one frame. Only GIF and
/// WebP may; everything else is a still.
pub open spec fn frames_in(bytes: Seq<u8>, format: Seq<char>) -> Option<Seq<FrameValue>> {
    if format != "gif"@ && format != "webp"@ {
        None
    } else {
        match frames_of(bytes, format) {
            None => None,
            Some(coming) => match gathered(coming, Seq::empty()) {
                Some(kept) => if kept.len() >= 2 {
                    Some(kept)
                } else {
                    None
                },
                None => None,
            },
        }
    }
}

/// Whether this is what decoding a file comes to: an animation where the file
/// holds one, and else a still where it decodes, or a message that names the file.
pub open spec fn is_decoded(path: Seq<u8>, bytes: Seq<u8>, r: Result<LoadedImage, Failure>) -> bool {
    &&& r matches Err(failure) ==> failure.message@ == unsupported_text(path)
    &&& r matches Ok(image) ==> image.raster().wf() && !image.premultiplied
    &&& match file_format(path, bytes) {
        None => r matches Err(failure) && failure.detail@ == "The image format could not be determined"@,
        Some(format) => match frames_in(bytes, format) {
            Some(kept) => r matches Ok(image) && animates(image, kept, format_label(Some(format))),
            None => match r {
                Ok(image) => opens(bytes, format) && is_still_of(image, bytes, format),
                Err(_) => !opens(bytes, format),
            },
        },
    }
}

/// Decodes a file of the image library's formats.
pub fn decode(path: &FilePath, bytes: &Vec<u8>) -> (r: Result<LoadedImage, Failure>)
    ensures
        is_decoded(path@, bytes@, r),
{
    let format: &'static str = match guess_format(bytes.as_slice()) {
        Some(format) => format,
        None => {
            let from_name = match path.extension_bytes() {
                Some(extension) => format_from_extension(read_lossily(extension.as_slice()).as_str()),
                None => None,
            };
            match from_name {
                Some(format) => format,
                None => return Err(unsupported(path, unknown_format(None))),
            }
        },
    };
    proof {
        if guessed(bytes@) is None {
            lemma_formats_name_themselves(lowercase(lossy_text(extension_of(path@)->0)));
        }
    }
    let label: &'static str = label_for(Some(format));
    let gif = same(format, "gif");
    if gif || same(format, "webp") {
        if let Some(image) = decode_animation(bytes, gif, label) {
            return Ok(image);
        }
    }
    proof {
        assert(file_format(path@, bytes@) == Some(format@));
        assert(frames_in(bytes@, format@) is None);
    }
    match decode_still(bytes.as_slice(), format) {
        Ok(stored) => {
            let ghost decoded = stored.picture@;
            let ghost (turn, profile) = (stored.orientation, profile_bytes(stored.profile));
            let image = still(stored, label);
            proof {
                let shown = choose|converted: Raster| #[trigger]
                    shows_stored(image, decoded, turn, profile, label@, converted);
                assert(shows_still(image, bytes@, format@, decoded, shown));
                assert(is_still_of(image, bytes@, format@));
            }
            Ok(image)
        },
        Err(detail) => Err(unsupported(path, detail)),
    }
}

/// A format is called by its own name.
pub proof fn law_formats_are_called_by_name(format: Seq<char>)
    ensures
        format == "png"@ ==> format_label(Some(format)) == "PNG"@,
        format == "jpg"@ ==> format_label(Some(format)) == "JPEG"@,
        format == "gif"@ ==> format_label(Some(format)) == "GIF"@,
        format == "webp"@ ==> format_label(Some(format)) == "WebP"@,
        format == "tiff"@ ==> format_label(Some(format)) == "TIFF"@,
        format == "bmp"@ ==> format_label(Some(format)) == "BMP"@,
        format == "ico"@ ==> format_label(Some(format)) == "ICO"@,
        format == "qoi"@ ==> format_label(Some(format)) == "QOI"@,
        format == "tga"@ ==> format_label(Some(format)) == "TGA"@,
        format == "pbm"@ ==> format_label(Some(format)) == "PNM"@,
        format_label(None) == "Image"@,
{
    reveal_strlit("png");
    reveal_strlit("jpg");
    reveal_strlit("gif");
    reveal_strlit("webp");
    reveal_strlit("tiff");
    reveal_strlit("bmp");
    reveal_strlit("ico");
    reveal_strlit("qoi");
    reveal_strlit("tga");
    reveal_strlit("pbm");
    assert("png"@[0] == 'p' && "png"@[1] == 'n' && "pbm"@[1] == 'b');
    assert("jpg"@[0] == 'j' && "gif"@[0] == 'g' && "webp"@[0] == 'w' && "bmp"@[0] == 'b');
    assert("ico"@[0] == 'i' && "qoi"@[0] == 'q' && "tiff"@.len() == 4 && "tga"@.len() == 3);
    assert("tiff"@[0] == 't' && "tga"@[0] == 't' && "png"@.len() == 3 && "pbm"@[0] == 'p');
}

/// A frame stays up for as many milliseconds as its file says, to the nanosecond below,
/// unless that is under fifty frames a second: then it stays up for a tenth of one.
pub proof fn law_frames_stay_up_as_long_as_they_say(numerator: nat, denominator: nat)
    requires
        denominator > 0,
    ensures
        numerator < 20 * denominator ==> shown_delay(numerator, denominator) == 100_000_000,
        numerator >= 20 * denominator ==> shown_delay(numerator, denominator) * denominator
            <= 1_000_000 * numerator < (shown_delay(numerator, denominator) + 1) * denominator,
{
    let (n, d): (int, int) = (numerator as int, denominator as int);
    let whole: int = n / d;
    let rest: int = n % d;
    let part: int = (rest * 1_000_000) / d;
    vstd::arithmetic::div_mod::lemma_fundamental_div_mod(n, d);
    vstd::arithmetic::div_mod::lemma_fundamental_div_mod(rest * 1_000_000, d);
    vstd::arithmetic::div_mod::lemma_mod_bound(n, d);
    vstd::arithmetic::div_mod::lemma_mod_bound(rest * 1_000_000, d);
    let exact: int = whole * 1_000_000 + part;
    assert(exact * d == 1_000_000 * (d * whole) + d * part) by (nonlinear_arith)
        requires
            exact == whole * 1_000_000 + part,
    ;
    assert((exact + 1) * d == exact * d + d) by (nonlinear_arith);
    assert(numerator < 20 * denominator ==> exact < 20_000_000) by (nonlinear_arith)
        requires
            exact * d <= 1_000_000 * n,
            d > 0,
            d == denominator,
            n == numerator,
    ;
    assert(numerator >= 20 * denominator ==> exact >= 20_000_000) by (nonlinear_arith)
        requires
            1_000_000 * n < (exact + 1) * d,
            d > 0,
            d == denominator,
            n == numerator,
    ;
}

/// An animation keeps its first frames, every one of them and in order, until it has
/// enough; one frame that fails before that spoils it.
pub proof fn law_frames_are_kept_in_order(coming: Seq<Option<FrameValue>>, kept: Seq<FrameValue>)
    ensures
        match gathered(coming, kept) {
            Some(all) => {
                &&& kept.len() <= all.len() <= kept.len() + coming.len()
                &&& forall|i: int| 0 <= i < kept.len() ==> #[trigger] all[i] == kept[i]
                &&& forall|i: int|
                    kept.len() <= i < all.len() ==> coming[i - kept.len()] == Some(
                        #[trigger] all[i],
                    )
                &&& all.len() < kept.len() + coming.len() ==> enough(all)
                &&& forall|n: int|
                    kept.len() < n < all.len() ==> !enough(#[trigger] all.subrange(0, n))
            },
            None => exists|i: int| 0 <= i < coming.len() && #[trigger] coming[i] is None,
        },
    decreases coming.len(),
{
    if coming.len() > 0 {
        if let Some(frame) = coming[0] {
            let more = kept.push(frame);
            let rest = coming.drop_first();
            if !enough(more) {
                law_frames_are_kept_in_order(rest, more);
                match gathered(rest, more) {
                    Some(all) => {
                        assert forall|i: int| 0 <= i < kept.len() implies #[trigger] all[i]
                            == kept[i] by {
                            assert(all[i] == more[i]);
                        }
                        assert forall|i: int| kept.len() <= i < all.len() implies coming[i
                            - kept.len()] == Some(#[trigger] all[i]) by {
                            if i == kept.len() {
                                assert(all[i] == more[i]);
                            } else {
                                assert(rest[i - more.len()] == Some(all[i]));
                            }
                        }
                        assert forall|n: int| kept.len() < n < all.len() implies !enough(
                            #[trigger] all.subrange(0, n),
                        ) by {
                            if n == more.len() {
                                assert(all.subrange(0, n) =~= more);
                            }
                        }
                    },
                    None => {
                        let i: int = choose|i: int| 0 <= i < rest.len() && #[trigger] rest[i] is None;
                        assert(coming[i + 1] is None);
                    },
                }
            } else {
                assert forall|i: int| 0 <= i < kept.len() implies #[trigger] more[i]
                    == kept[i] by {}
            }
        }
    }
}

/// A file that was exported under a name is read under the same name.
pub proof fn law_exports_are_read_under_their_name(i: int)
    requires
        0 <= i < target_list().len(),
    ensures
        ({
            let (label, extension, limit, caveat) = target_list()[i];
            let format = format_of(extension);
            format is Some && format_label(format) == label
        }),
{
    law_extensions_name_their_formats();
    law_formats_are_called_by_name(target_list()[i].1);
}

} // verus!
