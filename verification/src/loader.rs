//! What opening a file gives: a plain RGBA buffer, or a message to show.

use vstd::prelude::*;

use crate::decoders::raster::is_decoded;
use crate::decoders::raster;
use crate::format::{detect, format_for, Format};
use crate::paths::{lossy_text, name_of, part, read_lossily, FilePath};
use crate::picture::Raster;

verus! {

/// One frame of an animation, as large as the image it belongs to.
pub struct AnimationFrame {
    pub rgba: Vec<u8>,
    /// How long the frame stays up, in nanoseconds.
    pub delay: u64,
}

/// A decoded file.
pub struct LoadedImage {
    pub width: u32,
    pub height: u32,
    pub rgba: Vec<u8>,
    /// Drawings come with premultiplied alpha; the others do not. Getting this
    /// wrong shows up as dark fringes around transparent edges.
    pub premultiplied: bool,
    /// Shown in the header bar, e.g. "PNG" or "RAW (preview)".
    pub label: String,
    /// The frames of an animation; none for a still.
    pub animation: Vec<AnimationFrame>,
}

impl LoadedImage {
    /// What the image shows.
    pub open spec fn raster(self) -> Raster {
        Raster { width: self.width as nat, height: self.height as nat, rgba: self.rgba@ }
    }

    /// Whether this is a still that shows a raster under a label.
    pub open spec fn is_still(self, raster: Raster, premultiplied: bool, label: Seq<char>) -> bool {
        &&& self.raster() == raster
        &&& self.premultiplied == premultiplied
        &&& self.label@ == label
        &&& self.animation@.len() == 0
    }
}

/// Why a file did not open: what to show, and what helps when looking into it.
///
/// The message stays short and human. The technical detail goes to the log,
/// where it helps without being shoved in the user's face.
pub struct Failure {
    pub message: String,
    pub detail: String,
}

/// The name of a file in a message.
pub open spec fn shown_name(path: Seq<u8>) -> Seq<char> {
    match name_of(path) {
        Some(name) => lossy_text(name),
        None => "this file"@,
    }
}

/// The name of a file, for a message.
pub fn file_name(path: &FilePath) -> (r: String)
    ensures
        r@ == shown_name(path@),
{
    match path.name_bytes() {
        Some(name) => read_lossily(name.as_slice()),
        None => "this file".to_owned(),
    }
}

/// What kept a file from being opened.
#[derive(Clone, Copy, PartialEq, Eq, Structural, Debug)]
pub enum Obstacle {
    NotFound,
    PermissionDenied,
    Other,
}

/// What to show when a file cannot be opened.
pub open spec fn open_error_text(path: Seq<u8>, obstacle: Obstacle) -> Seq<char> {
    match obstacle {
        Obstacle::NotFound => "“"@ + shown_name(path) + "” no longer exists."@,
        Obstacle::PermissionDenied => "You do not have permission to read “"@ + shown_name(path)
            + "”."@,
        Obstacle::Other => "Could not open “"@ + shown_name(path) + "”."@,
    }
}

/// Says why a file cannot be opened.
pub fn open_error(path: &FilePath, obstacle: Obstacle) -> (r: String)
    ensures
        r@ == open_error_text(path@, obstacle),
{
    let name = file_name(path);
    let (before, after) = match obstacle {
        Obstacle::NotFound => ("“", "” no longer exists."),
        Obstacle::PermissionDenied => ("You do not have permission to read “", "”."),
        Obstacle::Other => ("Could not open “", "”."),
    };
    let mut text = before.to_owned();
    text.append(name.as_str());
    text.append(after);
    text
}

/// What to show when a file cannot be decoded.
pub open spec fn unsupported_text(path: Seq<u8>) -> Seq<char> {
    "“"@ + shown_name(path) + "” is not a supported image, or the file is damaged."@
}

/// Says that a file cannot be decoded, with the detail for the log.
pub fn unsupported(path: &FilePath, detail: String) -> (r: Failure)
    ensures
        r.message@ == unsupported_text(path@),
        r.detail@ == detail@,
{
    let name = file_name(path);
    let mut message = "“".to_owned();
    message.append(name.as_str());
    message.append("” is not a supported image, or the file is damaged.");
    Failure { message, detail }
}

/// How much of a file tells which decoder it belongs to.
pub const HEAD_LENGTH: usize = 1024;

/// What opening a file comes to, as far as its bytes alone decide it.
pub enum Opened {
    /// The image, or why there is none.
    Decoded(Result<LoadedImage, Failure>),
    /// The HEIF library has to decode it.
    Heif { avif: bool },
    /// A drawing, which has no pixels of its own.
    Drawing,
    /// A camera raw, to be searched for an image that the camera embedded.
    Raw,
}

/// The start of a file, by which it is told.
pub open spec fn head_of(bytes: Seq<u8>) -> Seq<u8> {
    if bytes.len() > HEAD_LENGTH {
        bytes.subrange(0, HEAD_LENGTH as int)
    } else {
        bytes
    }
}

/// A copy of the start of a file.
pub(crate) fn head(bytes: &Vec<u8>) -> (r: Vec<u8>)
    ensures
        r@ == head_of(bytes@),
{
    let length: usize = if bytes.len() > HEAD_LENGTH {
        HEAD_LENGTH
    } else {
        bytes.len()
    };
    let start = part(bytes, 0, length);
    proof {
        assert(start@ =~= head_of(bytes@));
    }
    start
}

/// Whether this is what opening a file comes to.
pub open spec fn is_opened(path: Seq<u8>, bytes: Seq<u8>, r: Opened) -> bool {
    match format_for(path, head_of(bytes)) {
        Format::Raster => r matches Opened::Decoded(result) && is_decoded(path, bytes, result),
        Format::Heif { avif } => r == (Opened::Heif { avif }),
        Format::Svg => r is Drawing,
        Format::Raw => r is Raw,
    }
}

/// Only a drawing is premultiplied: an image that a file decodes to is not.
pub proof fn law_only_drawings_are_premultiplied(path: Seq<u8>, bytes: Seq<u8>, opened: Opened)
    requires
        is_opened(path, bytes, opened),
    ensures
        opened is Drawing <==> format_for(path, head_of(bytes)) is Svg,
        match opened {
            Opened::Decoded(Ok(image)) => !image.premultiplied,
            _ => true,
        },
{
}

/// Opens a file: tells what it is and hands it to its decoder.
pub fn decode(path: &FilePath, bytes: &Vec<u8>) -> (r: Opened)
    ensures
        is_opened(path@, bytes@, r),
{
    match detect(path, head(bytes).as_slice()) {
        Format::Raster => Opened::Decoded(raster::decode(path, bytes)),
        Format::Heif { avif } => Opened::Heif { avif },
        Format::Svg => Opened::Drawing,
        Format::Raw => Opened::Raw,
    }
}

} // verus!
