//! Walking the images that sit alongside the open one.

use std::cmp::Ordering;

use vstd::prelude::*;
use vstd::utf8::encode_utf8;

use crate::format::raw_extensions;
use crate::order::{arrange, in_order, keys, keys_of, rank, rank_names, rows, Key, Rank};
use crate::paths::{alike, extension_of, lossy_text, name_of, read_lossily, FilePath};
use crate::wording::{among, is_among, lower_bytes, texts, to_lower};

verus! {

/// Everything the decoders can open, by extension: pixels, the HEIF family,
/// drawings, and camera raw.
///
/// Extension rather than content on purpose: a folder of a few thousand files
/// would otherwise mean a few thousand file opens, and this has to answer
/// instantly. A file that lies about its extension simply fails to decode
/// later.
pub open spec fn image_extensions() -> Seq<Seq<char>> {
    seq![
        "png"@, "jpg"@, "jpeg"@, "jpe"@, "jfif"@, "gif"@, "webp"@, "tif"@, "tiff"@, "bmp"@,
        "ico"@, "qoi"@, "pnm"@, "pbm"@, "pgm"@, "ppm"@, "tga"@, "heic"@, "heif"@, "avif"@,
        "svg"@, "svgz"@, "3fr"@, "arw"@, "cr2"@, "cr3"@, "crw"@, "dcr"@, "dng"@, "erf"@,
        "fff"@, "iiq"@, "kdc"@, "mef"@, "mos"@, "mrw"@, "nef"@, "nrw"@, "orf"@, "pef"@, "raf"@,
        "raw"@, "rw2"@, "rwl"@, "sr2"@, "srf"@, "srw"@, "x3f"@,
    ]
}

/// The extensions that are listed.
fn extensions() -> (r: Vec<&'static str>)
    ensures
        texts(r@) == image_extensions(),
{
    let list: Vec<&'static str> = vec![
        "png", "jpg", "jpeg", "jpe", "jfif", "gif", "webp", "tif", "tiff", "bmp", "ico", "qoi",
        "pnm", "pbm", "pgm", "ppm", "tga", "heic", "heif", "avif", "svg", "svgz", "3fr", "arw",
        "cr2", "cr3", "crw", "dcr", "dng", "erf", "fff", "iiq", "kdc", "mef", "mos", "mrw",
        "nef", "nrw", "orf", "pef", "raf", "raw", "rw2", "rwl", "sr2", "srf", "srw", "x3f",
    ];
    proof {
        assert(texts(list@) =~= image_extensions());
    }
    list
}

/// Whether a path has an extension that the decoders know, in any case.
pub fn is_image(path: &FilePath) -> (r: bool)
    ensures
        r == (extension_of(path@) matches Some(extension) && among(
            lower_bytes(extension),
            image_extensions(),
        )),
{
    match path.extension_bytes() {
        Some(extension) => is_among(to_lower(&extension).as_slice(), &extensions()),
        None => false,
    }
}

/// The name to sort a path by: nothing for a path that has none.
pub open spec fn sort_name(path: Seq<u8>) -> Seq<char> {
    match name_of(path) {
        Some(name) => lossy_text(name),
        None => Seq::empty(),
    }
}

/// The last part of a path, as text.
pub fn file_name(path: &FilePath) -> (r: String)
    ensures
        r@ == sort_name(path@),
{
    match path.name_bytes() {
        Some(name) => read_lossily(name.as_slice()),
        None => String::new(),
    }
}

/// Order digit runs by value, so IMG_2 comes before IMG_10. Plain alphabetical
/// ordering gets that backwards, which is glaring in a folder of camera files.
pub fn natural_cmp(a: &str, b: &str) -> (r: Ordering)
    ensures
        r == (match rank(a@, b@) {
            Rank::Before => Ordering::Less,
            Rank::Same => Ordering::Equal,
            Rank::After => Ordering::Greater,
        }),
{
    match rank_names(a, b) {
        Rank::Before => Ordering::Less,
        Rank::Same => Ordering::Equal,
        Rank::After => Ordering::Greater,
    }
}

/// What some files sort by.
pub open spec fn sort_keys(files: Seq<FilePath>) -> Seq<Seq<Key>> {
    files.map_values(|file: FilePath| keys(sort_name(file@)))
}

/// The images of a folder, ordered the way a file manager would show them.
pub fn siblings(files: &Vec<FilePath>) -> (r: Vec<FilePath>)
    ensures
        r@.len() == files@.len(),
        exists|places: Seq<usize>|
            #![trigger in_order(places, sort_keys(files@))]
            in_order(places, sort_keys(files@)) && forall|i: int|
                0 <= i < r@.len() ==> (#[trigger] r@[i])@ == files@[places[i] as int]@,
{
    let mut names: Vec<Vec<Key>> = Vec::new();
    let mut at: usize = 0;
    while at < files.len()
        invariant
            at <= files@.len(),
            names@.len() == at,
            forall|i: int| 0 <= i < at ==> (#[trigger] names@[i])@ == sort_keys(files@)[i],
        decreases files@.len() - at,
    {
        let name = file_name(&files[at]);
        names.push(keys_of(name.as_str()));
        at = at + 1;
    }
    proof {
        assert(rows(names@) =~= sort_keys(files@));
    }
    let places = arrange(&names);
    let mut r: Vec<FilePath> = Vec::new();
    let mut next: usize = 0;
    while next < places.len()
        invariant
            next <= places@.len(),
            r@.len() == next,
            in_order(places@, sort_keys(files@)),
            forall|i: int| 0 <= i < next ==> (#[trigger] r@[i])@ == files@[places@[i] as int]@,
        decreases places@.len() - next,
    {
        let place: usize = places[next];
        r.push(files[place].copy());
        next = next + 1;
    }
    r
}

/// The images in a folder, and which one is on screen.
pub struct Playlist {
    files: Vec<FilePath>,
    index: usize,
}

/// Where a path first stands among some files.
pub open spec fn place_of(files: Seq<FilePath>, path: Seq<u8>) -> Option<int>
    decreases files.len(),
{
    if files.len() == 0 {
        None
    } else {
        match place_of(files.drop_last(), path) {
            Some(place) => Some(place),
            None => if alike(files.last()@, path) {
                Some(files.len() - 1)
            } else {
                None
            },
        }
    }
}

/// Looks for a path among some files.
pub(crate) fn find(files: &Vec<FilePath>, path: &FilePath) -> (r: Option<usize>)
    ensures
        match r {
            Some(place) => place < files@.len() && place_of(files@, path@) == Some(place as int),
            None => place_of(files@, path@) is None,
        },
{
    let mut at: usize = 0;
    proof {
        assert(files@.subrange(0, 0) =~= Seq::<FilePath>::empty());
    }
    while at < files.len()
        invariant
            at <= files@.len(),
            place_of(files@.subrange(0, at as int), path@) is None,
        decreases files@.len() - at,
    {
        proof {
            let longer = files@.subrange(0, at + 1);
            assert(longer.drop_last() =~= files@.subrange(0, at as int));
        }
        if files[at].same(path) {
            proof {
                lemma_place_stays(files@, path@, at + 1);
            }
            return Some(at);
        }
        at = at + 1;
    }
    proof {
        assert(files@.subrange(0, at as int) =~= files@);
    }
    None
}

/// What is found among the first files is found among all of them.
proof fn lemma_place_stays(files: Seq<FilePath>, path: Seq<u8>, end: int)
    requires
        0 <= end <= files.len(),
        place_of(files.subrange(0, end), path) is Some,
    ensures
        place_of(files, path) == place_of(files.subrange(0, end), path),
    decreases files.len() - end,
{
    if end == files.len() {
        assert(files.subrange(0, end) =~= files);
    } else {
        let longer = files.subrange(0, end + 1);
        assert(longer.drop_last() =~= files.subrange(0, end));
        lemma_place_stays(files, path, end + 1);
    }
}

/// Where a path first stands holds that path, and nowhere before it does.
pub proof fn law_a_place_holds_its_path(files: Seq<FilePath>, path: Seq<u8>)
    ensures
        match place_of(files, path) {
            Some(place) => 0 <= place < files.len() && alike(files[place]@, path) && forall|i: int|
                0 <= i < place ==> !alike((#[trigger] files[i])@, path),
            None => forall|i: int| 0 <= i < files.len() ==> !alike((#[trigger] files[i])@, path),
        },
    decreases files.len(),
{
    if files.len() > 0 {
        let fewer = files.drop_last();
        law_a_place_holds_its_path(fewer, path);
        assert forall|i: int| 0 <= i < fewer.len() implies #[trigger] files[i] == fewer[i] by {}
    }
}

impl Playlist {
    /// The files in order.
    pub closed spec fn listed(self) -> Seq<FilePath> {
        self.files@
    }

    /// Which file is on screen.
    pub closed spec fn at(self) -> int {
        self.index as int
    }

    /// There is something to navigate, and the file on screen is in the list.
    pub open spec fn wf(self) -> bool {
        &&& 2 <= self.listed().len() <= isize::MAX
        &&& 0 <= self.at() < self.listed().len()
    }

    /// `None` when there is nothing to navigate: a lone image, or a file that
    /// is somehow not in its own directory listing.
    pub fn new(files: Vec<FilePath>, current: &FilePath) -> (r: Option<Self>)
        requires
            files@.len() <= isize::MAX,
        ensures
            match r {
                Some(list) => list.wf() && list.listed() == files@ && place_of(files@, current@)
                    == Some(list.at()),
                None => files@.len() < 2 || place_of(files@, current@) is None,
            },
    {
        if files.len() < 2 {
            return None;
        }
        match find(&files, current) {
            Some(index) => Some(Playlist { files, index }),
            None => None,
        }
    }

    /// How many files there are.
    pub fn len(&self) -> (r: usize)
        ensures
            r == self.listed().len(),
    {
        self.files.len()
    }

    /// The files in order.
    pub fn files(&self) -> (r: &Vec<FilePath>)
        ensures
            r@ == self.listed(),
    {
        &self.files
    }

    /// Which file is on screen.
    pub fn index(&self) -> (r: usize)
        ensures
            r == self.at(),
    {
        self.index
    }

    /// What to show once `path` is gone: the next image, or the previous one
    /// if it was the last. `None` when nothing would be left.
    pub fn neighbour_of(&self, path: &FilePath) -> (r: Option<FilePath>)
        requires
            self.wf(),
        ensures
            match (r, place_of(self.listed(), path@)) {
                (Some(next), Some(place)) => next@ == self.listed()[if place + 1
                    < self.listed().len() {
                    place + 1
                } else {
                    place - 1
                }]@,
                (None, None) => true,
                _ => false,
            },
    {
        let place: usize = match find(&self.files, path) {
            Some(place) => place,
            None => return None,
        };
        let next: usize = if place + 1 < self.files.len() {
            place + 1
        } else {
            place - 1
        };
        Some(self.files[next].copy())
    }

    /// Jump straight to a position, for a thumbnail click.
    pub fn jump_to(&mut self, index: usize) -> (r: Option<FilePath>)
        requires
            old(self).wf(),
        ensures
            final(self).wf(),
            final(self).listed() == old(self).listed(),
            match r {
                Some(path) => index < old(self).listed().len() && path@
                    == old(self).listed()[index as int]@ && final(self).at() == index,
                None => index >= old(self).listed().len() && final(self).at() == old(self).at(),
            },
    {
        if index >= self.files.len() {
            return None;
        }
        self.index = index;
        Some(self.files[index].copy())
    }

    /// 1-based, for showing to a person.
    pub fn position(&self) -> (r: usize)
        requires
            self.wf(),
        ensures
            r == self.at() + 1,
    {
        self.index + 1
    }

    /// Step forwards or backwards, wrapping at both ends so neither arrow key
    /// ever becomes a dead key.
    pub fn step(&mut self, delta: isize) -> (r: FilePath)
        requires
            old(self).wf(),
        ensures
            final(self).wf(),
            final(self).listed() == old(self).listed(),
            final(self).at() == (old(self).at() + delta) % (old(self).listed().len() as int),
            r@ == old(self).listed()[final(self).at()]@,
    {
        let count: i128 = self.files.len() as i128;
        let sum: i128 = self.index as i128 + delta as i128;
        let rest: i128 = remainder(sum, count);
        self.index = rest as usize;
        self.files[self.index].copy()
    }
}

/// The remainder that is never negative.
fn remainder(n: i128, d: i128) -> (r: i128)
    requires
        0 < d <= i64::MAX,
        -0x1_0000_0000_0000_0000 <= n <= 0x1_0000_0000_0000_0000,
    ensures
        r == n as int % d as int,
        0 <= r < d,
{
    if n >= 0 {
        n % d
    } else {
        let back: i128 = (-n) % d;
        proof {
            lemma_remainder_of_negative(n as int, d as int);
        }
        if back == 0 {
            0
        } else {
            d - back
        }
    }
}

proof fn lemma_remainder_of_negative(n: int, d: int)
    requires
        d > 0,
        n < 0,
    ensures
        n % d == (if (-n) % d == 0 { 0 } else { d - (-n) % d }),
{
    let q: int = (-n) / d;
    let back: int = (-n) % d;
    vstd::arithmetic::div_mod::lemma_fundamental_div_mod(-n, d);
    vstd::arithmetic::div_mod::lemma_mod_bound(-n, d);
    if back == 0 {
        assert(n == (-q) * d + 0) by (nonlinear_arith)
            requires
                -n == d * q + back,
                back == 0,
        ;
        vstd::arithmetic::div_mod::lemma_fundamental_div_mod_converse(n, d, -q, 0);
    } else {
        assert(n == (-q - 1) * d + (d - back)) by (nonlinear_arith)
            requires
                -n == d * q + back,
        ;
        vstd::arithmetic::div_mod::lemma_fundamental_div_mod_converse(n, d, -q - 1, d - back);
    }
}

/// One step forwards and one step backwards, in either order, come back to the
/// same file; as many steps as there are files do too.
pub proof fn law_steps_come_back(at: int, count: int, delta: int)
    requires
        0 <= at < count,
    ensures
        ((at + delta) % count - delta) % count == at,
        (at + count) % count == at,
        (at - count) % count == at,
{
    vstd::arithmetic::div_mod::lemma_sub_mod_noop(at + delta, delta, count);
    vstd::arithmetic::div_mod::lemma_sub_mod_noop((at + delta) % count, delta, count);
    vstd::arithmetic::div_mod::lemma_mod_twice(at + delta, count);
    vstd::arithmetic::div_mod::lemma_small_mod(at as nat, count as nat);
    vstd::arithmetic::div_mod::lemma_mod_add_multiples_vanish(at, count);
    vstd::arithmetic::div_mod::lemma_mod_sub_multiples_vanish(at, count);
}

/// A folder lists every picture that a decoder knows: a common one by its extension,
/// and every camera's raw format that is told apart from a TIFF.
pub proof fn law_what_is_decoded_is_listed(extension: Seq<u8>)
    ensures
        among(extension, image_extensions()) <==> ({
            ||| among(extension, raw_extensions())
            ||| extension == encode_utf8("png"@)
            ||| extension == encode_utf8("jpg"@)
            ||| extension == encode_utf8("jpeg"@)
            ||| extension == encode_utf8("jpe"@)
            ||| extension == encode_utf8("jfif"@)
            ||| extension == encode_utf8("gif"@)
            ||| extension == encode_utf8("webp"@)
            ||| extension == encode_utf8("tif"@)
            ||| extension == encode_utf8("tiff"@)
            ||| extension == encode_utf8("bmp"@)
            ||| extension == encode_utf8("ico"@)
            ||| extension == encode_utf8("qoi"@)
            ||| extension == encode_utf8("pnm"@)
            ||| extension == encode_utf8("pbm"@)
            ||| extension == encode_utf8("pgm"@)
            ||| extension == encode_utf8("ppm"@)
            ||| extension == encode_utf8("tga"@)
            ||| extension == encode_utf8("heic"@)
            ||| extension == encode_utf8("heif"@)
            ||| extension == encode_utf8("avif"@)
            ||| extension == encode_utf8("svg"@)
            ||| extension == encode_utf8("svgz"@)
        }),
        image_extensions().len() == 22 + raw_extensions().len(),
        image_extensions().subrange(22, image_extensions().len() as int) == raw_extensions(),
{
    assert(image_extensions()[0] == "png"@);
    assert(image_extensions()[1] == "jpg"@);
    assert(image_extensions()[2] == "jpeg"@);
    assert(image_extensions()[3] == "jpe"@);
    assert(image_extensions()[4] == "jfif"@);
    assert(image_extensions()[5] == "gif"@);
    assert(image_extensions()[6] == "webp"@);
    assert(image_extensions()[7] == "tif"@);
    assert(image_extensions()[8] == "tiff"@);
    assert(image_extensions()[9] == "bmp"@);
    assert(image_extensions()[10] == "ico"@);
    assert(image_extensions()[11] == "qoi"@);
    assert(image_extensions()[12] == "pnm"@);
    assert(image_extensions()[13] == "pbm"@);
    assert(image_extensions()[14] == "pgm"@);
    assert(image_extensions()[15] == "ppm"@);
    assert(image_extensions()[16] == "tga"@);
    assert(image_extensions()[17] == "heic"@);
    assert(image_extensions()[18] == "heif"@);
    assert(image_extensions()[19] == "avif"@);
    assert(image_extensions()[20] == "svg"@);
    assert(image_extensions()[21] == "svgz"@);
    assert(image_extensions().subrange(22, 48) =~= raw_extensions());
    assert forall|i: int| 0 <= i < 26 implies raw_extensions()[i] == #[trigger] image_extensions()[i
        + 22] by {
        assert(image_extensions().subrange(22, 48)[i] == image_extensions()[i + 22]);
    }
    if among(extension, raw_extensions()) {
        let i: int = choose|i: int|
            0 <= i < raw_extensions().len() && encode_utf8(#[trigger] raw_extensions()[i])
                == extension;
        assert(image_extensions()[i + 22] == raw_extensions()[i]);
    }
    if among(extension, image_extensions()) {
        let i: int = choose|i: int|
            0 <= i < image_extensions().len() && encode_utf8(#[trigger] image_extensions()[i])
                == extension;
        if i >= 22 {
            assert(raw_extensions()[i - 22] == image_extensions()[i - 22 + 22]);
        }
    }
}

} // verus!
