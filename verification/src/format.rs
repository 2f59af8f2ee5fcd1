//! Deciding which decoder a file belongs to.
//!
//! Content comes first and extensions only break ties, because the extension
//! is the least trustworthy thing about a file. The one place order really
//! matters is raw: most raw formats are TIFF containers, so a `.dng` would
//! happily start decoding as a TIFF and produce garbage if the raster path saw
//! it first.

use vstd::prelude::*;
use vstd::utf8::encode_utf8;

use crate::order::characters;
use crate::paths::{extension_of, lossy_text, read_lossily, FilePath};
use crate::wording::{among, is_among, lower_bytes, same_bytes, texts, to_lower};

verus! {

#[derive(Debug, Clone, Copy, PartialEq, Eq, Structural)]
pub enum Format {
    /// PNG, JPEG, GIF, WebP, TIFF, BMP and friends.
    Raster,
    /// HEIC/HEIF and AVIF. Both use the same container and the same decoder;
    /// only the codec inside differs, so the flag exists purely to label them
    /// correctly.
    Heif { avif: bool },
    /// SVG.
    Svg,
    /// Camera raw.
    Raw,
}

/// Raw extensions worth routing away from the TIFF decoder.
pub open spec fn raw_extensions() -> Seq<Seq<char>> {
    seq![
        "3fr"@, "arw"@, "cr2"@, "cr3"@, "crw"@, "dcr"@, "dng"@, "erf"@, "fff"@, "iiq"@, "kdc"@,
        "mef"@, "mos"@, "mrw"@, "nef"@, "nrw"@, "orf"@, "pef"@, "raf"@, "raw"@, "rw2"@, "rwl"@,
        "sr2"@, "srf"@, "srw"@, "x3f"@,
    ]
}

/// HEIF-family brands that appear in the `ftyp` box.
pub open spec fn heif_brands() -> Seq<Seq<char>> {
    seq![
        "heic"@, "heix"@, "heim"@, "heis"@, "hevc"@, "hevx"@, "mif1"@, "msf1"@, "avif"@,
        "avis"@,
    ]
}

/// The subset of those brands that mean AV1 rather than HEVC.
pub open spec fn avif_brands() -> Seq<Seq<char>> {
    seq!["avif"@, "avis"@]
}

/// Lists the raw extensions.
pub fn raw_list() -> (r: Vec<&'static str>)
    ensures
        texts(r@) == raw_extensions(),
{
    let list: Vec<&'static str> = vec![
        "3fr", "arw", "cr2", "cr3", "crw", "dcr", "dng", "erf", "fff", "iiq", "kdc", "mef",
        "mos", "mrw", "nef", "nrw", "orf", "pef", "raf", "raw", "rw2", "rwl", "sr2", "srf",
        "srw", "x3f",
    ];
    proof {
        assert(texts(list@) =~= raw_extensions());
    }
    list
}

fn heif_list() -> (r: Vec<&'static str>)
    ensures
        texts(r@) == heif_brands(),
{
    let list: Vec<&'static str> = vec![
        "heic", "heix", "heim", "heis", "hevc", "hevx", "mif1", "msf1", "avif", "avis",
    ];
    proof {
        assert(texts(list@) =~= heif_brands());
    }
    list
}

fn avif_list() -> (r: Vec<&'static str>)
    ensures
        texts(r@) == avif_brands(),
{
    let list: Vec<&'static str> = vec!["avif", "avis"];
    proof {
        assert(texts(list@) =~= avif_brands());
    }
    list
}

/// How many brands the start of a file names: the major one, and up to eight
/// compatible ones behind it.
pub open spec fn brand_count(head: Seq<u8>) -> int {
    if head.len() >= 44 {
        9
    } else {
        1 + (head.len() - 12) / 4
    }
}

/// One of the brands, the major one first.
pub open spec fn brand(head: Seq<u8>, k: int) -> Seq<u8> {
    head.subrange(8 + 4 * k, 12 + 4 * k)
}

/// Whether any brand is one of some names.
pub open spec fn names_brand(head: Seq<u8>, names: Seq<Seq<char>>) -> bool {
    exists|k: int| 0 <= k < brand_count(head) && among(#[trigger] brand(head, k), names)
}

/// Whether a file is AVIF, where it is of the HEIF family at all.
pub open spec fn heif_kind_of(head: Seq<u8>) -> Option<bool> {
    if head.len() < 12 || head.subrange(4, 8) != encode_utf8("ftyp"@) || !names_brand(
        head,
        heif_brands(),
    ) {
        None
    } else {
        Some(names_brand(head, avif_brands()))
    }
}

/// Looks for a brand among the first `count`.
fn finds_brand(head: &[u8], names: &Vec<&'static str>) -> (r: bool)
    requires
        head@.len() >= 12,
    ensures
        r == names_brand(head@, texts(names@)),
{
    let count: usize = if head.len() >= 44 { 9 } else { 1 + (head.len() - 12) / 4 };
    let mut k: usize = 0;
    while k < count
        invariant
            k <= count,
            count == brand_count(head@),
            head@.len() >= 12,
            forall|i: int| 0 <= i < k ==> !among(#[trigger] brand(head@, i), texts(names@)),
        decreases count - k,
    {
        let name = vstd::slice::slice_subrange(head, 8 + 4 * k, 12 + 4 * k);
        if is_among(name, names) {
            proof {
                assert(among(brand(head@, k as int), texts(names@)));
            }
            return true;
        }
        k = k + 1;
    }
    false
}

/// An ISO base-media file: bytes 4..8 are `ftyp`, and the brand follows.
/// Returns whether the file is AVIF, or `None` if it is not HEIF-family at all.
///
/// The major brand can be generic, with the specific one listed among the
/// compatible brands that follow, so both are considered.
pub fn heif_kind(head: &[u8]) -> (r: Option<bool>)
    ensures
        r == heif_kind_of(head@),
{
    if head.len() < 12 || !same_bytes(vstd::slice::slice_subrange(head, 4, 8), "ftyp".as_bytes()) {
        return None;
    }
    if !finds_brand(head, &heif_list()) {
        return None;
    }
    Some(finds_brand(head, &avif_list()))
}

/// Whether a character is white space.
pub open spec fn is_white(c: char) -> bool {
    let code = c as u32;
    ||| 0x09 <= code <= 0x0D
    ||| code == 0x20
    ||| code == 0x85
    ||| code == 0xA0
    ||| code == 0x1680
    ||| 0x2000 <= code <= 0x200A
    ||| code == 0x2028
    ||| code == 0x2029
    ||| code == 0x202F
    ||| code == 0x205F
    ||| code == 0x3000
}

/// A text without the white space that it starts with.
pub open spec fn without_margin(text: Seq<char>) -> Seq<char>
    decreases text.len(),
{
    if text.len() > 0 && is_white(text[0]) {
        without_margin(text.drop_first())
    } else {
        text
    }
}

/// Whether a text holds another from a place on.
pub open spec fn holds_at(text: Seq<char>, part: Seq<char>, at: int) -> bool {
    at + part.len() <= text.len() && text.subrange(at, at + part.len()) == part
}

/// Whether a text holds another anywhere.
pub open spec fn holds(text: Seq<char>, part: Seq<char>) -> bool {
    exists|at: int| 0 <= at <= text.len() && #[trigger] holds_at(text, part, at)
}

/// Looks whether a text holds another from a place on.
fn has_at(text: &Vec<char>, part: &Vec<char>, at: usize) -> (r: bool)
    requires
        at <= text@.len(),
    ensures
        r == holds_at(text@, part@, at as int),
{
    let total: usize = text.len();
    if total - at < part.len() {
        return false;
    }
    let mut k: usize = 0;
    while k < part.len()
        invariant
            k <= part@.len(),
            at + part@.len() <= text@.len(),
            text@.len() == total,
            forall|i: int| 0 <= i < k ==> text@[at + i] == #[trigger] part@[i],
        decreases part@.len() - k,
    {
        if text[at + k] != part[k] {
            proof {
                assert(text@.subrange(at as int, at + part@.len())[k as int] != part@[k as int]);
            }
            return false;
        }
        k = k + 1;
    }
    proof {
        assert(text@.subrange(at as int, at + part@.len()) =~= part@);
    }
    true
}

/// Looks whether a text holds another anywhere.
fn has(text: &Vec<char>, part: &Vec<char>) -> (r: bool)
    ensures
        r == holds(text@, part@),
{
    let mut at: usize = 0;
    while at < text.len()
        invariant
            at <= text@.len(),
            forall|i: int| 0 <= i < at ==> !#[trigger] holds_at(text@, part@, i),
        decreases text@.len() - at,
    {
        if has_at(text, part, at) {
            return true;
        }
        at = at + 1;
    }
    has_at(text, part, at)
}

/// Where a text starts, its margin aside.
pub(crate) fn margin(text: &Vec<char>) -> (r: usize)
    ensures
        r <= text@.len(),
        text@.subrange(r as int, text@.len() as int) == without_margin(text@),
{
    let mut at: usize = 0;
    proof {
        assert(text@.subrange(0, text@.len() as int) =~= text@);
    }
    while at < text.len() && white(text[at])
        invariant
            at <= text@.len(),
            without_margin(text@.subrange(at as int, text@.len() as int)) == without_margin(text@),
        decreases text@.len() - at,
    {
        proof {
            assert(text@.subrange(at as int, text@.len() as int).drop_first() =~= text@.subrange(
                at + 1,
                text@.len() as int,
            ));
        }
        at = at + 1;
    }
    at
}

/// A text without the white space that it ends in.
pub open spec fn without_tail(text: Seq<char>) -> Seq<char>
    decreases text.len(),
{
    if text.len() > 0 && is_white(text.last()) {
        without_tail(text.drop_last())
    } else {
        text
    }
}

/// Where a part of a text ends, the white space behind it aside.
pub(crate) fn tail(text: &Vec<char>, start: usize, end: usize) -> (r: usize)
    requires
        start <= end <= text@.len(),
    ensures
        start <= r <= end,
        text@.subrange(start as int, r as int) == without_tail(
            text@.subrange(start as int, end as int),
        ),
{
    let mut at: usize = end;
    while at > start && white(text[at - 1])
        invariant
            start <= at <= end <= text@.len(),
            without_tail(text@.subrange(start as int, at as int)) == without_tail(
                text@.subrange(start as int, end as int),
            ),
        decreases at,
    {
        proof {
            assert(text@.subrange(start as int, at as int).drop_last() =~= text@.subrange(
                start as int,
                at - 1,
            ));
        }
        at = at - 1;
    }
    proof {
        let word = text@.subrange(start as int, at as int);
        assert(word.len() > 0 ==> word.last() == text@[at - 1]);
    }
    at
}

/// Whether a character is white space.
pub fn white(c: char) -> (r: bool)
    ensures
        r == is_white(c),
{
    let code: u32 = c as u32;
    (0x09 <= code && code <= 0x0D) || code == 0x20 || code == 0x85 || code == 0xA0 || code == 0x1680
        || (0x2000 <= code && code <= 0x200A) || code == 0x2028 || code == 0x2029 || code == 0x202F
        || code == 0x205F || code == 0x3000
}

/// Whether the start of a file reads as a drawing. A compressed one does not.
pub open spec fn reads_as_svg(head: Seq<u8>) -> bool {
    if head.len() >= 2 && head[0] == 0x1F && head[1] == 0x8B {
        false
    } else {
        let prefix = lossy_text(if head.len() > 512 { head.subrange(0, 512) } else { head });
        let text = without_margin(prefix);
        holds_at(text, "<svg"@, 0) || (holds_at(text, "<?xml"@, 0) && holds(prefix, "<svg"@))
    }
}

/// Whether a file starts with the signature of a PNG, JPEG, GIF, WebP, TIFF, BMP,
/// ICO, QOI or PNM.
pub open spec fn shows_a_raster(head: Seq<u8>) -> bool {
    ||| head.len() >= 8 && head[0] == 0x89 && head[1] == 0x50 && head[2] == 0x4E && head[3] == 0x47
        && head[4] == 0x0D && head[5] == 0x0A && head[6] == 0x1A && head[7] == 0x0A
    ||| head.len() >= 3 && head[0] == 0xFF && head[1] == 0xD8 && head[2] == 0xFF
    ||| head.len() >= 6 && head[0] == 0x47 && head[1] == 0x49 && head[2] == 0x46 && head[3] == 0x38
        && (head[4] == 0x37 || head[4] == 0x39) && head[5] == 0x61
    ||| head.len() >= 12 && head[0] == 0x52 && head[1] == 0x49 && head[2] == 0x46 && head[3] == 0x46
        && head[8] == 0x57 && head[9] == 0x45 && head[10] == 0x42 && head[11] == 0x50
    ||| head.len() >= 4 && head[0] == 0x49 && head[1] == 0x49 && head[2] == 0x2A && head[3] == 0x00
    ||| head.len() >= 4 && head[0] == 0x4D && head[1] == 0x4D && head[2] == 0x00 && head[3] == 0x2A
    ||| head.len() >= 2 && head[0] == 0x42 && head[1] == 0x4D
    ||| head.len() >= 4 && head[0] == 0x00 && head[1] == 0x00 && head[2] == 0x01 && head[3] == 0x00
    ||| head.len() >= 4 && head[0] == 0x71 && head[1] == 0x6F && head[2] == 0x69 && head[3] == 0x66
    ||| head.len() >= 2 && head[0] == 0x50 && 0x31 <= head[1] <= 0x37
}

/// Whether these four bytes come first.
fn starts(head: &[u8], a: u8, b: u8, c: u8, d: u8) -> (r: bool)
    requires
        head@.len() >= 4,
    ensures
        r == (head@[0] == a && head@[1] == b && head@[2] == c && head@[3] == d),
{
    head[0] == a && head[1] == b && head[2] == c && head[3] == d
}

/// Looks for the signature of a raster format.
pub fn is_raster(head: &[u8]) -> (r: bool)
    ensures
        r == shows_a_raster(head@),
{
    let n: usize = head.len();
    if n < 2 {
        return false;
    }
    if (head[0] == 0x42 && head[1] == 0x4D) || (head[0] == 0x50 && 0x31 <= head[1] && head[1] <= 0x37) {
        return true;
    }
    if n < 3 {
        return false;
    }
    if head[0] == 0xFF && head[1] == 0xD8 && head[2] == 0xFF {
        return true;
    }
    if n < 4 {
        return false;
    }
    if starts(head, 0x49, 0x49, 0x2A, 0x00) || starts(head, 0x4D, 0x4D, 0x00, 0x2A) || starts(
        head,
        0x00,
        0x00,
        0x01,
        0x00,
    ) || starts(head, 0x71, 0x6F, 0x69, 0x66) {
        return true;
    }
    if n >= 6 && starts(head, 0x47, 0x49, 0x46, 0x38) && (head[4] == 0x37 || head[4] == 0x39)
        && head[5] == 0x61 {
        return true;
    }
    if n >= 8 && starts(head, 0x89, 0x50, 0x4E, 0x47) && head[4] == 0x0D && head[5] == 0x0A
        && head[6] == 0x1A && head[7] == 0x0A {
        return true;
    }
    n >= 12 && starts(head, 0x52, 0x49, 0x46, 0x46) && head[8] == 0x57 && head[9] == 0x45
        && head[10] == 0x42 && head[11] == 0x50
}

/// Whether a file is a drawing, by its start, and where that shows nothing, by its
/// extension in lower case. A compressed one goes by its extension alone.
pub open spec fn svg_like(head: Seq<u8>, extension: Seq<u8>) -> bool {
    if shows_a_raster(head) {
        false
    } else if reads_as_svg(head) {
        true
    } else {
        extension == encode_utf8("svg"@) || extension == encode_utf8("svgz"@)
    }
}

pub fn is_svg(head: &[u8], extension: &[u8]) -> (r: bool)
    ensures
        r == svg_like(head@, extension@),
{
    if is_raster(head) {
        return false;
    }
    if reads_as_drawing(head) {
        return true;
    }
    same_bytes(extension, "svg".as_bytes()) || same_bytes(extension, "svgz".as_bytes())
}

/// Looks whether the start of a file reads as a drawing.
fn reads_as_drawing(head: &[u8]) -> (r: bool)
    ensures
        r == reads_as_svg(head@),
{
    if head.len() >= 2 && head[0] == 0x1F && head[1] == 0x8B {
        return false;
    }
    let prefix = if head.len() > 512 {
        read_lossily(vstd::slice::slice_subrange(head, 0, 512))
    } else {
        read_lossily(head)
    };
    let text = characters(prefix.as_str());
    let start: usize = margin(&text);
    let svg = characters("<svg");
    let xml = characters("<?xml");
    proof {
        let rest = text@.subrange(start as int, text@.len() as int);
        if start + svg@.len() <= text@.len() {
            assert(rest.subrange(0, svg@.len() as int) =~= text@.subrange(
                start as int,
                start + svg@.len(),
            ));
        }
        if start + xml@.len() <= text@.len() {
            assert(rest.subrange(0, xml@.len() as int) =~= text@.subrange(
                start as int,
                start + xml@.len(),
            ));
        }
    }
    has_at(&text, &svg, start) || (has_at(&text, &xml, start) && has(&text, &svg))
}

/// A path's extension in lower case, nothing where it has none.
pub open spec fn small_extension(path: Seq<u8>) -> Seq<u8> {
    match extension_of(path) {
        Some(extension) => lower_bytes(extension),
        None => Seq::empty(),
    }
}

/// The decoder that a file belongs to, by its start and its extension.
pub open spec fn format_for(path: Seq<u8>, head: Seq<u8>) -> Format {
    match heif_kind_of(head) {
        Some(avif) => Format::Heif { avif },
        None => if among(small_extension(path), raw_extensions()) {
            Format::Raw
        } else if svg_like(head, small_extension(path)) {
            Format::Svg
        } else {
            Format::Raster
        },
    }
}

/// Content comes first and the extension only breaks ties: a file that shows what
/// it is goes to the decoder for that, whatever it is called. Camera raw alone goes
/// by its name, ahead of the TIFF that it is in.
pub proof fn law_content_comes_first(path: Seq<u8>, head: Seq<u8>)
    ensures
        heif_kind_of(head) is Some ==> format_for(path, head) is Heif,
        heif_kind_of(head) is None && among(small_extension(path), raw_extensions())
            ==> format_for(path, head) == Format::Raw,
        heif_kind_of(head) is None && !among(small_extension(path), raw_extensions())
            && shows_a_raster(head) ==> format_for(path, head) == Format::Raster,
        heif_kind_of(head) is None && !among(small_extension(path), raw_extensions())
            && !shows_a_raster(head) && reads_as_svg(head) ==> format_for(path, head)
            == Format::Svg,
{
}

/// Decides which decoder a file belongs to. `head` is what the file starts
/// with, nothing where it could not be read.
pub fn detect(path: &FilePath, head: &[u8]) -> (r: Format)
    ensures
        r == format_for(path@, head@),
{
    let extension = match path.extension_bytes() {
        Some(extension) => to_lower(&extension),
        None => Vec::new(),
    };
    if let Some(avif) = heif_kind(head) {
        return Format::Heif { avif };
    }
    // Ahead of Raster so that TIFF-based raw containers are not mistaken for
    // ordinary TIFFs.
    if is_among(extension.as_slice(), &raw_list()) {
        return Format::Raw;
    }
    if is_svg(head, extension.as_slice()) {
        return Format::Svg;
    }
    Format::Raster
}

/// A camera's raw file goes to the raw decoder by its extension, in capitals or not,
/// whatever it starts with unless it shows that it is of the HEIF family.
pub proof fn law_raw_files_go_by_their_name(path: Seq<u8>, head: Seq<u8>, name: Seq<char>)
    requires
        ({
            ||| name == "3fr"@
            ||| name == "arw"@
            ||| name == "cr2"@
            ||| name == "cr3"@
            ||| name == "crw"@
            ||| name == "dcr"@
            ||| name == "dng"@
            ||| name == "erf"@
            ||| name == "fff"@
            ||| name == "iiq"@
            ||| name == "kdc"@
            ||| name == "mef"@
            ||| name == "mos"@
            ||| name == "mrw"@
            ||| name == "nef"@
            ||| name == "nrw"@
            ||| name == "orf"@
            ||| name == "pef"@
            ||| name == "raf"@
            ||| name == "raw"@
            ||| name == "rw2"@
            ||| name == "rwl"@
            ||| name == "sr2"@
            ||| name == "srf"@
            ||| name == "srw"@
            ||| name == "x3f"@
        }),
        extension_of(path) matches Some(extension) && lower_bytes(extension) == encode_utf8(name),
        heif_kind_of(head) is None,
    ensures
        format_for(path, head) == Format::Raw,
{
    assert(raw_extensions()[0] == "3fr"@);
    assert(raw_extensions()[1] == "arw"@);
    assert(raw_extensions()[2] == "cr2"@);
    assert(raw_extensions()[3] == "cr3"@);
    assert(raw_extensions()[4] == "crw"@);
    assert(raw_extensions()[5] == "dcr"@);
    assert(raw_extensions()[6] == "dng"@);
    assert(raw_extensions()[7] == "erf"@);
    assert(raw_extensions()[8] == "fff"@);
    assert(raw_extensions()[9] == "iiq"@);
    assert(raw_extensions()[10] == "kdc"@);
    assert(raw_extensions()[11] == "mef"@);
    assert(raw_extensions()[12] == "mos"@);
    assert(raw_extensions()[13] == "mrw"@);
    assert(raw_extensions()[14] == "nef"@);
    assert(raw_extensions()[15] == "nrw"@);
    assert(raw_extensions()[16] == "orf"@);
    assert(raw_extensions()[17] == "pef"@);
    assert(raw_extensions()[18] == "raf"@);
    assert(raw_extensions()[19] == "raw"@);
    assert(raw_extensions()[20] == "rw2"@);
    assert(raw_extensions()[21] == "rwl"@);
    assert(raw_extensions()[22] == "sr2"@);
    assert(raw_extensions()[23] == "srf"@);
    assert(raw_extensions()[24] == "srw"@);
    assert(raw_extensions()[25] == "x3f"@);
}

/// Nothing else goes to the raw decoder.
pub proof fn law_nothing_else_is_raw(path: Seq<u8>, head: Seq<u8>)
    requires
        format_for(path, head) == Format::Raw,
    ensures
        ({
            let name = small_extension(path);
            ||| name == encode_utf8("3fr"@)
            ||| name == encode_utf8("arw"@)
            ||| name == encode_utf8("cr2"@)
            ||| name == encode_utf8("cr3"@)
            ||| name == encode_utf8("crw"@)
            ||| name == encode_utf8("dcr"@)
            ||| name == encode_utf8("dng"@)
            ||| name == encode_utf8("erf"@)
            ||| name == encode_utf8("fff"@)
            ||| name == encode_utf8("iiq"@)
            ||| name == encode_utf8("kdc"@)
            ||| name == encode_utf8("mef"@)
            ||| name == encode_utf8("mos"@)
            ||| name == encode_utf8("mrw"@)
            ||| name == encode_utf8("nef"@)
            ||| name == encode_utf8("nrw"@)
            ||| name == encode_utf8("orf"@)
            ||| name == encode_utf8("pef"@)
            ||| name == encode_utf8("raf"@)
            ||| name == encode_utf8("raw"@)
            ||| name == encode_utf8("rw2"@)
            ||| name == encode_utf8("rwl"@)
            ||| name == encode_utf8("sr2"@)
            ||| name == encode_utf8("srf"@)
            ||| name == encode_utf8("srw"@)
            ||| name == encode_utf8("x3f"@)
        }),
{
    let i: int = choose|i: int|
        0 <= i < raw_extensions().len() && encode_utf8(#[trigger] raw_extensions()[i])
            == small_extension(path);
    assert(encode_utf8(raw_extensions()[i]) == small_extension(path));
    assert(raw_extensions().len() == 26);
    assert(raw_extensions()[0] == "3fr"@);
    assert(raw_extensions()[1] == "arw"@);
    assert(raw_extensions()[2] == "cr2"@);
    assert(raw_extensions()[3] == "cr3"@);
    assert(raw_extensions()[4] == "crw"@);
    assert(raw_extensions()[5] == "dcr"@);
    assert(raw_extensions()[6] == "dng"@);
    assert(raw_extensions()[7] == "erf"@);
    assert(raw_extensions()[8] == "fff"@);
    assert(raw_extensions()[9] == "iiq"@);
    assert(raw_extensions()[10] == "kdc"@);
    assert(raw_extensions()[11] == "mef"@);
    assert(raw_extensions()[12] == "mos"@);
    assert(raw_extensions()[13] == "mrw"@);
    assert(raw_extensions()[14] == "nef"@);
    assert(raw_extensions()[15] == "nrw"@);
    assert(raw_extensions()[16] == "orf"@);
    assert(raw_extensions()[17] == "pef"@);
    assert(raw_extensions()[18] == "raf"@);
    assert(raw_extensions()[19] == "raw"@);
    assert(raw_extensions()[20] == "rw2"@);
    assert(raw_extensions()[21] == "rwl"@);
    assert(raw_extensions()[22] == "sr2"@);
    assert(raw_extensions()[23] == "srf"@);
    assert(raw_extensions()[24] == "srw"@);
    assert(raw_extensions()[25] == "x3f"@);
}

/// A base-media file is of the HEIF family where its major brand or any of the eight
/// behind it is one of the family's, and AVIF where any of them is an AV1 one.
pub proof fn law_any_brand_tells_the_family(head: Seq<u8>, k: int, name: Seq<char>)
    requires
        head.len() >= 12,
        head.subrange(4, 8) == encode_utf8("ftyp"@),
        0 <= k <= 8,
        12 + 4 * k <= head.len(),
        head.subrange(8 + 4 * k, 12 + 4 * k) == encode_utf8(name),
        ({
            ||| name == "heic"@
            ||| name == "heix"@
            ||| name == "heim"@
            ||| name == "heis"@
            ||| name == "hevc"@
            ||| name == "hevx"@
            ||| name == "mif1"@
            ||| name == "msf1"@
            ||| name == "avif"@
            ||| name == "avis"@
        }),
    ensures
        heif_kind_of(head) is Some,
        name == "avif"@ || name == "avis"@ ==> heif_kind_of(head) == Some(true),
{
    assert(brand(head, k) == encode_utf8(name));
    assert(k < brand_count(head));
    assert(heif_brands()[0] == "heic"@);
    assert(heif_brands()[1] == "heix"@);
    assert(heif_brands()[2] == "heim"@);
    assert(heif_brands()[3] == "heis"@);
    assert(heif_brands()[4] == "hevc"@);
    assert(heif_brands()[5] == "hevx"@);
    assert(heif_brands()[6] == "mif1"@);
    assert(heif_brands()[7] == "msf1"@);
    assert(heif_brands()[8] == "avif"@);
    assert(heif_brands()[9] == "avis"@);
    assert(avif_brands()[0] == "avif"@);
    assert(avif_brands()[1] == "avis"@);
    assert(among(brand(head, k), heif_brands()));
    if name == "avif"@ || name == "avis"@ {
        assert(among(brand(head, k), avif_brands()));
    }
}

/// A file with no such brand among the first nine is no HEIF, and one without an AV1
/// brand there is no AVIF.
pub proof fn law_only_brands_tell_the_family(head: Seq<u8>)
    ensures
        heif_kind_of(head) is Some ==> head.len() >= 12 && head.subrange(4, 8) == encode_utf8(
            "ftyp"@,
        ) && exists|k: int|
            0 <= k <= 8 && 12 + 4 * k <= head.len() && ({
                let name = #[trigger] head.subrange(8 + 4 * k, 12 + 4 * k);
                ||| name == encode_utf8("heic"@)
                ||| name == encode_utf8("heix"@)
                ||| name == encode_utf8("heim"@)
                ||| name == encode_utf8("heis"@)
                ||| name == encode_utf8("hevc"@)
                ||| name == encode_utf8("hevx"@)
                ||| name == encode_utf8("mif1"@)
                ||| name == encode_utf8("msf1"@)
                ||| name == encode_utf8("avif"@)
                ||| name == encode_utf8("avis"@)
            }),
        heif_kind_of(head) == Some(true) ==> exists|k: int|
            0 <= k <= 8 && 12 + 4 * k <= head.len() && ({
                let name = #[trigger] head.subrange(8 + 4 * k, 12 + 4 * k);
                ||| name == encode_utf8("avif"@)
                ||| name == encode_utf8("avis"@)
            }),
{
    if heif_kind_of(head) is Some {
        let k: int = choose|k: int|
            0 <= k < brand_count(head) && among(#[trigger] brand(head, k), heif_brands());
        let i: int = choose|i: int|
            0 <= i < heif_brands().len() && encode_utf8(#[trigger] heif_brands()[i]) == brand(
                head,
                k,
            );
        assert(encode_utf8(heif_brands()[i]) == head.subrange(8 + 4 * k, 12 + 4 * k));
        assert(heif_brands().len() == 10);
        assert(heif_brands()[0] == "heic"@);
        assert(heif_brands()[1] == "heix"@);
        assert(heif_brands()[2] == "heim"@);
        assert(heif_brands()[3] == "heis"@);
        assert(heif_brands()[4] == "hevc"@);
        assert(heif_brands()[5] == "hevx"@);
        assert(heif_brands()[6] == "mif1"@);
        assert(heif_brands()[7] == "msf1"@);
        assert(heif_brands()[8] == "avif"@);
        assert(heif_brands()[9] == "avis"@);
    }
    if heif_kind_of(head) == Some(true) {
        let k: int = choose|k: int|
            0 <= k < brand_count(head) && among(#[trigger] brand(head, k), avif_brands());
        let i: int = choose|i: int|
            0 <= i < avif_brands().len() && encode_utf8(#[trigger] avif_brands()[i]) == brand(
                head,
                k,
            );
        assert(encode_utf8(avif_brands()[i]) == head.subrange(8 + 4 * k, 12 + 4 * k));
        assert(avif_brands().len() == 2);
    }
}

/// A drawing may start with any white space, and a named prologue in front of it is
/// no hindrance: what counts is the first five hundred and twelve bytes.
pub proof fn law_a_drawing_may_stand_in_a_margin(head: Seq<u8>, text: Seq<char>, n: int)
    requires
        head.len() < 2 || head[0] != 0x1F || head[1] != 0x8B,
        text == lossy_text(if head.len() <= 512 { head } else { head.subrange(0, 512) }),
        0 <= n,
        forall|i: int| 0 <= i < n ==> is_white(#[trigger] text[i]),
        ({
            ||| n + 4 <= text.len() && text.subrange(n, n + 4) == "<svg"@
            ||| n + 5 <= text.len() && text.subrange(n, n + 5) == "<?xml"@ && exists|at: int|
                0 <= at <= text.len() - 4 && #[trigger] text.subrange(at, at + 4) == "<svg"@
        }),
    ensures
        reads_as_svg(head),
{
    reveal_strlit("<svg");
    reveal_strlit("<?xml");
    assert(text[n] == '<') by {
        if n + 4 <= text.len() && text.subrange(n, n + 4) == "<svg"@ {
            assert(text.subrange(n, n + 4)[0] == '<');
        } else {
            assert(text.subrange(n, n + 5)[0] == '<');
        }
    }
    lemma_margin_ends(text, n);
    let rest = text.subrange(n, text.len() as int);
    if n + 4 <= text.len() && text.subrange(n, n + 4) == "<svg"@ {
        assert(rest.subrange(0, 4) =~= text.subrange(n, n + 4));
    } else {
        assert(rest.subrange(0, 5) =~= text.subrange(n, n + 5));
        let at: int = choose|at: int|
            0 <= at <= text.len() - 4 && #[trigger] text.subrange(at, at + 4) == "<svg"@;
        assert(holds_at(text, "<svg"@, at));
    }
}

/// A margin ends where the white space does.
proof fn lemma_margin_ends(text: Seq<char>, n: int)
    requires
        0 <= n < text.len(),
        forall|i: int| 0 <= i < n ==> is_white(#[trigger] text[i]),
        text[n] == '<',
    ensures
        without_margin(text) == text.subrange(n, text.len() as int),
    decreases n,
{
    if n > 0 {
        assert(is_white(text[0]));
        let rest = text.drop_first();
        assert forall|i: int| 0 <= i < n - 1 implies is_white(#[trigger] rest[i]) by {
            assert(rest[i] == text[i + 1]);
        }
        lemma_margin_ends(rest, n - 1);
        assert(rest.subrange(n - 1, rest.len() as int) =~= text.subrange(n, text.len() as int));
    } else {
        assert(text.subrange(0, text.len() as int) =~= text);
    }
}

/// A file whose name says drawing is one, compressed or not, unless it shows that it
/// is something else; and a file that shows a picture never is.
pub proof fn law_a_name_makes_a_drawing(path: Seq<u8>, head: Seq<u8>)
    requires
        heif_kind_of(head) is None,
    ensures
        (small_extension(path) == encode_utf8("svg"@) || small_extension(path) == encode_utf8(
            "svgz"@,
        )) && !shows_a_raster(head) ==> format_for(path, head) != Format::Raster,
        shows_a_raster(head) ==> format_for(path, head) != Format::Svg,
        format_for(path, head) == Format::Svg && !reads_as_svg(head) ==> small_extension(path)
            == encode_utf8("svg"@) || small_extension(path) == encode_utf8("svgz"@),
{
}

} // verus!
