//! The window's state between events: which file is on screen, where it stands
//! in its folder, what the header bar says, and what each event changes of it.

use crate::panel::{append_size, size_text};
use crate::paths::{alike, lossy_text, name_of, read_lossily, FilePath};
use crate::playlist::{find, law_a_place_holds_its_path, place_of, Playlist};
use crate::wording::decimal;
use vstd::prelude::*;

verus! {

/// What the header bar advertises.
pub struct Heading {
    pub title: String,
    pub subtitle: String,
}

/// What the header bar advertises, as text.
pub struct Headline {
    pub title: Seq<char>,
    pub subtitle: Seq<char>,
}

impl View for Heading {
    type V = Headline;

    open spec fn view(&self) -> Headline {
        Headline { title: self.title@, subtitle: self.subtitle@ }
    }
}

impl Heading {
    /// A copy of the heading.
    pub fn copy(&self) -> (r: Heading)
        ensures
            r@ == self@,
    {
        Heading {
            title: self.title.as_str().to_owned(),
            subtitle: self.subtitle.as_str().to_owned(),
        }
    }
}

/// The state between events.
pub struct Viewer {
    /// The file on screen, needed to delete it and to find it again after the
    /// folder changes underneath.
    pub current: Option<FilePath>,
    /// The other images in the same folder, and where this one is in them.
    pub playlist: Option<Playlist>,
    /// What the header bar said when an image last came up, so that a failed
    /// load can restore it.
    pub shown: Option<Heading>,
    /// Goes up on every open, so that a slow decode that finishes after a newer
    /// one was started can be recognised and discarded.
    pub generation: u64,
    /// Whether the transform options are open.
    pub transform_open: bool,
    /// Whether the edit sidebar is open.
    pub editing: bool,
}

/// The state between events, as values.
pub struct Viewing {
    pub current: Option<Seq<u8>>,
    pub playlist: Option<(Seq<FilePath>, int)>,
    pub shown: Option<Headline>,
    pub generation: nat,
    pub transform_open: bool,
    pub editing: bool,
}

/// The bytes of a path that may be missing.
pub open spec fn path_of(path: Option<FilePath>) -> Option<Seq<u8>> {
    match path {
        Some(path) => Some(path@),
        None => None,
    }
}

/// The files of a list that may be missing, and the place in it.
pub open spec fn list_of(playlist: Option<Playlist>) -> Option<(Seq<FilePath>, int)> {
    match playlist {
        Some(list) => Some((list.listed(), list.at())),
        None => None,
    }
}

impl View for Viewer {
    type V = Viewing;

    open spec fn view(&self) -> Viewing {
        Viewing {
            current: path_of(self.current),
            playlist: list_of(self.playlist),
            shown: match self.shown {
                Some(heading) => Some(heading@),
                None => None,
            },
            generation: self.generation as nat,
            transform_open: self.transform_open,
            editing: self.editing,
        }
    }
}

/// The name of a file for a person, with words for a path that has none.
pub open spec fn called(path: Seq<u8>, otherwise: Seq<char>) -> Seq<char> {
    match name_of(path) {
        Some(name) => lossy_text(name),
        None => otherwise,
    }
}

/// The name of a file, or some other words where the path has none.
pub fn name_or(path: &FilePath, otherwise: &str) -> (r: String)
    ensures
        r@ == called(path@, otherwise@),
{
    match path.name_bytes() {
        Some(name) => read_lossily(name.as_slice()),
        None => otherwise.to_owned(),
    }
}

/// What a decode came to: the label and the size of an image, or a message.
pub enum Decoded {
    Image { label: String, width: u32, height: u32 },
    Failed { message: String },
}

/// The list of a folder around a file: none where there is nothing to navigate.
pub open spec fn folder_list(files: Seq<FilePath>, current: Seq<u8>) -> Option<
    (Seq<FilePath>, int),
> {
    match place_of(files, current) {
        Some(place) if files.len() >= 2 => Some((files, place)),
        _ => None,
    }
}

/// What the header bar says of an image.
pub open spec fn image_subtitle(label: Seq<char>, width: nat, height: nat) -> Seq<char> {
    label + " · "@ + size_text(width, height)
}

/// What the header bar says with no image.
pub open spec fn idle_headline() -> Headline {
    Headline { title: "Simple Viewer"@, subtitle: ""@ }
}

impl Viewing {
    /// Before anything was opened.
    pub open spec fn idle() -> Viewing {
        Viewing {
            current: None,
            playlist: None,
            shown: None,
            generation: 0,
            transform_open: false,
            editing: false,
        }
    }

    /// A file on its way to the screen.
    pub open spec fn loading(self, path: Seq<u8>) -> Viewing {
        Viewing { current: Some(path), generation: self.generation + 1, ..self }
    }

    /// A load that finished. One that is not the newest changes nothing.
    pub open spec fn loaded(
        self,
        generation: nat,
        path: Seq<u8>,
        canonical: Seq<u8>,
        siblings: Option<Seq<FilePath>>,
        decoded: Decoded,
    ) -> Viewing {
        if generation != self.generation {
            self
        } else {
            Viewing {
                playlist: match siblings {
                    Some(files) => folder_list(files, canonical),
                    None => self.playlist,
                },
                shown: match decoded {
                    Decoded::Image { label, width, height } => Some(
                        Headline {
                            title: called(path, "Image"@),
                            subtitle: image_subtitle(label@, width as nat, height as nat),
                        },
                    ),
                    Decoded::Failed { .. } => self.shown,
                },
                ..self
            }
        }
    }

    /// What the header bar goes back to when a load fails.
    pub open spec fn restored(self) -> Headline {
        match self.shown {
            Some(headline) => headline,
            None => idle_headline(),
        }
    }

    /// Back to the state before anything was opened. Loads go on being counted.
    pub open spec fn emptied(self) -> Viewing {
        Viewing { generation: self.generation, ..Viewing::idle() }
    }

    /// Whether this is the file on screen.
    pub open spec fn shows(self, path: Seq<u8>) -> bool {
        self.current matches Some(current) && alike(current, path)
    }

    /// Whether stepping through the folder makes sense.
    pub open spec fn can_navigate(self) -> bool {
        self.playlist is Some && !self.transform_open && !self.editing
    }

    /// What takes the place of a file that is gone: its neighbour in the list.
    pub open spec fn replacement(self, path: Seq<u8>) -> Option<Seq<u8>> {
        match self.playlist {
            None => None,
            Some((files, _)) => match place_of(files, path) {
                None => None,
                Some(place) => Some(
                    files[if place + 1 < files.len() {
                        place + 1
                    } else {
                        place - 1
                    }]@,
                ),
            },
        }
    }

    /// What takes the place of a file that a fresh listing no longer has: its
    /// neighbour as the list was, else the first file listed.
    pub open spec fn next_best(self, canonical: Seq<u8>, files: Seq<FilePath>) -> Option<Seq<u8>> {
        match self.replacement(canonical) {
            Some(next) => Some(next),
            None => if files.len() > 0 {
                Some(files[0]@)
            } else {
                None
            },
        }
    }
}

/// What a finished load asks of the window.
pub enum Landing {
    /// A newer open took over: nothing is to change.
    Superseded,
    /// The image goes up under this heading.
    Show { heading: Heading },
    /// The heading goes back to this, and the message is shown.
    Fail { heading: Heading, message: String },
}

/// What a fresh listing of the folder asks of the window.
pub enum Listing {
    /// It belongs to a file that is no longer on screen.
    Stale,
    /// The list was replaced.
    Kept,
    /// The image on screen is gone, and this one is to be loaded.
    Load { next: FilePath },
    /// The image on screen is gone, and so is every other.
    Empty,
}

/// What asking to leave comes to.
#[derive(Clone, Copy, PartialEq, Eq, Structural, Debug)]
pub enum Dismissal {
    LeaveFullscreen,
    CloseTransform,
    AskToCancel,
    Nothing,
}

impl Viewer {
    /// The list that there is can be navigated.
    pub open spec fn wf(self) -> bool {
        self.playlist matches Some(list) ==> list.wf()
    }

    /// Before anything was opened.
    pub fn new() -> (r: Viewer)
        ensures
            r.wf(),
            r@ == Viewing::idle(),
    {
        Viewer {
            current: None,
            playlist: None,
            shown: None,
            generation: 0,
            transform_open: false,
            editing: false,
        }
    }

    /// Starts a load. Gives its number, and what the header bar says meanwhile.
    pub fn load(&mut self, path: &FilePath) -> (r: (u64, Heading))
        requires
            old(self).wf(),
            old(self).generation < u64::MAX,
        ensures
            final(self).wf(),
            final(self)@ == old(self)@.loading(path@),
            r.0 == final(self).generation,
            r.1@ == (Headline { title: called(path@, "Image"@), subtitle: "Loading…"@ }),
    {
        self.generation = self.generation + 1;
        self.current = Some(path.copy());
        let heading = Heading {
            title: name_or(path, "Image"),
            subtitle: "Loading…".to_owned(),
        };
        (self.generation, heading)
    }

    /// Takes a finished load: the files beside it, where the folder was read
    /// again, and what the decode came to.
    pub fn landed(
        &mut self,
        generation: u64,
        path: &FilePath,
        canonical: &FilePath,
        siblings: Option<Vec<FilePath>>,
        decoded: Decoded,
    ) -> (r: Landing)
        requires
            old(self).wf(),
            siblings matches Some(files) ==> files@.len() <= isize::MAX,
        ensures
            final(self).wf(),
            final(self)@ == old(self)@.loaded(
                generation as nat,
                path@,
                canonical@,
                (match siblings {
                    Some(files) => Some(files@),
                    None => None,
                }),
                decoded,
            ),
            match r {
                Landing::Superseded => generation != old(self).generation,
                Landing::Show { heading } => generation == old(self).generation && decoded is Image
                    && final(self)@.shown == Some(heading@),
                Landing::Fail { heading, message } => generation == old(self).generation
                    && decoded is Failed && message == decoded->message && heading@
                    == old(self)@.restored(),
            },
    {
        if generation != self.generation {
            return Landing::Superseded;
        }
        if let Some(files) = siblings {
            self.playlist = Playlist::new(files, canonical);
        }
        match decoded {
            Decoded::Image { label, width, height } => {
                let mut subtitle = label.as_str().to_owned();
                subtitle.append(" · ");
                append_size(&mut subtitle, width, height);
                let heading = Heading { title: name_or(path, "Image"), subtitle };
                self.shown = Some(heading.copy());
                Landing::Show { heading }
            },
            Decoded::Failed { message } => Landing::Fail { heading: self.fail(), message },
        }
    }

    /// What the header bar goes back to when a load fails.
    pub fn fail(&self) -> (r: Heading)
        ensures
            r@ == self@.restored(),
    {
        match &self.shown {
            Some(heading) => heading.copy(),
            None => Heading { title: "Simple Viewer".to_owned(), subtitle: "".to_owned() },
        }
    }

    /// Goes back to the state before anything was opened. Gives what the header
    /// bar says then.
    pub fn show_empty(&mut self) -> (r: Heading)
        ensures
            final(self).wf(),
            final(self)@ == old(self)@.emptied(),
            r@ == idle_headline(),
    {
        self.current = None;
        self.playlist = None;
        self.shown = None;
        self.transform_open = false;
        self.editing = false;
        Heading { title: "Simple Viewer".to_owned(), subtitle: "".to_owned() }
    }

    /// Whether stepping is on. It is pointless with one image; while the
    /// transform options are open the arrow keys belong to the slider; and while
    /// editing, the picture on screen is unsaved work.
    pub fn update_navigation(&self) -> (r: bool)
        ensures
            r == self@.can_navigate(),
    {
        self.playlist.is_some() && !self.transform_open && !self.editing
    }

    /// Opens or closes the transform options. There is nothing to transform with
    /// no image. Says whether anything was done.
    pub fn set_transform_open(&mut self, open: bool, has_image: bool) -> (r: bool)
        requires
            old(self).wf(),
        ensures
            final(self).wf(),
            r == (!open || has_image),
            final(self)@ == (if r {
                Viewing { transform_open: open, ..old(self)@ }
            } else {
                old(self)@
            }),
    {
        if open && !has_image {
            return false;
        }
        self.transform_open = open;
        true
    }

    /// Opens or closes the edit sidebar. Says whether the file can be deleted
    /// meanwhile: deleting the file one is in the middle of editing is a trap.
    pub fn set_editing(&mut self, open: bool) -> (r: bool)
        requires
            old(self).wf(),
        ensures
            final(self).wf(),
            final(self)@ == (Viewing { editing: open, ..old(self)@ }),
            r == (!open && old(self)@.current is Some),
    {
        self.editing = open;
        !open && self.current.is_some()
    }

    /// What Escape undoes: whatever is on top, fullscreen first, then the
    /// transform options, then the editor, which is last because it is the only
    /// one that asks before it goes.
    pub fn dismiss(&self, fullscreen: bool) -> (r: Dismissal)
        ensures
            r == (if fullscreen {
                Dismissal::LeaveFullscreen
            } else if self@.transform_open {
                Dismissal::CloseTransform
            } else if self@.editing {
                Dismissal::AskToCancel
            } else {
                Dismissal::Nothing
            }),
    {
        if fullscreen {
            Dismissal::LeaveFullscreen
        } else if self.transform_open {
            Dismissal::CloseTransform
        } else if self.editing {
            Dismissal::AskToCancel
        } else {
            Dismissal::Nothing
        }
    }

    /// Steps through the folder, where there is anything to step through.
    pub fn step(&mut self, delta: isize) -> (r: Option<FilePath>)
        requires
            old(self).wf(),
        ensures
            final(self).wf(),
            match (old(self)@.playlist, r) {
                (Some((files, at)), Some(next)) => final(self)@ == (Viewing {
                    playlist: Some((files, (at + delta) % (files.len() as int))),
                    ..old(self)@
                }) && next@ == files[(at + delta) % (files.len() as int)]@,
                (None, None) => final(self)@ == old(self)@,
                _ => false,
            },
    {
        match self.playlist.take() {
            Some(list) => {
                let mut list = list;
                let next = list.step(delta);
                self.playlist = Some(list);
                Some(next)
            },
            None => None,
        }
    }

    /// What to show once the file is gone.
    pub fn replacement(&self, canonical: &FilePath) -> (r: Option<FilePath>)
        requires
            self.wf(),
        ensures
            path_of(r) == self@.replacement(canonical@),
    {
        match &self.playlist {
            Some(list) => list.neighbour_of(canonical),
            None => None,
        }
    }

    /// Folds a fresh listing of the folder into the view. `path` is the file it
    /// was made for, `canonical` the same file as the listing spells it.
    pub fn apply_listing(&mut self, files: Vec<FilePath>, path: &FilePath, canonical: &FilePath) -> (r:
        Listing)
        requires
            old(self).wf(),
            files@.len() <= isize::MAX,
        ensures
            final(self).wf(),
            match r {
                Listing::Stale => !old(self)@.shows(path@) && final(self)@ == old(self)@,
                Listing::Kept => old(self)@.shows(path@) && place_of(
                    files@,
                    canonical@,
                ) is Some && final(self)@ == (Viewing {
                    playlist: folder_list(files@, canonical@),
                    ..old(self)@
                }),
                Listing::Load { next } => old(self)@.shows(path@) && place_of(
                    files@,
                    canonical@,
                ) is None && old(self)@.next_best(canonical@, files@) == Some(next@) && final(self)@
                    == old(self)@,
                Listing::Empty => old(self)@.shows(path@) && place_of(
                    files@,
                    canonical@,
                ) is None && old(self)@.next_best(canonical@, files@) is None && final(self)@
                    == old(self)@,
            },
    {
        let fresh = match &self.current {
            Some(current) => current.same(path),
            None => false,
        };
        if !fresh {
            return Listing::Stale;
        }
        if find(&files, canonical).is_none() {
            return match self.replacement(canonical) {
                Some(next) => Listing::Load { next },
                None => if files.len() > 0 {
                    Listing::Load { next: files[0].copy() }
                } else {
                    Listing::Empty
                },
            };
        }
        self.playlist = Playlist::new(files, canonical);
        Listing::Kept
    }
}

/// Asks whether a file may be overwritten.
pub fn save_question(path: &FilePath) -> (r: String)
    ensures
        r@ == "“"@ + called(path@, "this image"@)
            + "” will be overwritten with these edits, and the original cannot be brought back. Export writes a copy instead."@,
{
    let mut text = "“".to_owned();
    text.append(name_or(path, "this image").as_str());
    text.append(
        "” will be overwritten with these edits, and the original cannot be brought back. Export writes a copy instead.",
    );
    text
}

/// Asks whether a file may be removed.
pub fn delete_question(path: &FilePath) -> (r: String)
    ensures
        r@ == "“"@ + called(path@, "this image"@) + "” will be removed from this folder."@,
{
    let mut text = "“".to_owned();
    text.append(name_or(path, "this image").as_str());
    text.append("” will be removed from this folder.");
    text
}

/// Asks whether the editor may be left.
pub fn cancel_question(unsaved: bool) -> (r: &'static str)
    ensures
        r@ == (if unsaved {
            "Your unsaved changes to this image will be lost."@
        } else {
            "This will close the editor."@
        }),
{
    if unsaved {
        "Your unsaved changes to this image will be lost."
    } else {
        "This will close the editor."
    }
}

/// Says that a file was removed, keeping the two kinds of removal apart: the bin
/// is recoverable, deleting is not.
pub fn removed(permanent: bool) -> (r: &'static str)
    ensures
        r@ == (if permanent {
            "Image deleted."@
        } else {
            "Image moved to the bin."@
        }),
{
    if permanent {
        "Image deleted."
    } else {
        "Image moved to the bin."
    }
}

/// Says that a file could not be removed, and why.
pub fn removal_failed(path: &FilePath, error: &str) -> (r: String)
    ensures
        r@ == "Could not remove “"@ + called(path@, "this image"@) + "”: "@ + error@,
{
    let mut text = "Could not remove “".to_owned();
    text.append(name_or(path, "this image").as_str());
    text.append("”: ");
    text.append(error);
    text
}

/// Says that a file was written over, or elsewhere.
pub fn saved(path: &FilePath) -> (r: String)
    ensures
        r@ == "Saved "@ + called(path@, ""@),
{
    let mut text = "Saved ".to_owned();
    text.append(name_or(path, "").as_str());
    text
}

/// Says that a copy was written.
pub fn exported(path: &FilePath) -> (r: String)
    ensures
        r@ == "Exported "@ + called(path@, ""@),
{
    let mut text = "Exported ".to_owned();
    text.append(name_or(path, "").as_str());
    text
}

/// What the header bar says of edited pixels.
pub fn edited_subtitle(width: u32, height: u32) -> (r: String)
    ensures
        r@ == "Edited · "@ + size_text(width as nat, height as nat),
{
    let mut text = "Edited · ".to_owned();
    append_size(&mut text, width, height);
    text
}

/// A load that was overtaken by a newer one changes nothing when it finishes,
/// whatever it came to.
pub proof fn law_an_overtaken_load_changes_nothing(
    viewing: Viewing,
    first: Seq<u8>,
    second: Seq<u8>,
    canonical: Seq<u8>,
    siblings: Option<Seq<FilePath>>,
    decoded: Decoded,
)
    ensures
        ({
            let overtaken = viewing.loading(first);
            let newer = overtaken.loading(second);
            newer.loaded(overtaken.generation, first, canonical, siblings, decoded) == newer
        }),
{
}

/// A load that fails leaves the header bar to go back to what it said before.
pub proof fn law_a_failed_load_is_forgotten(
    viewing: Viewing,
    path: Seq<u8>,
    canonical: Seq<u8>,
    siblings: Option<Seq<FilePath>>,
    decoded: Decoded,
)
    requires
        decoded is Failed,
    ensures
        ({
            let begun = viewing.loading(path);
            begun.loaded(begun.generation, path, canonical, siblings, decoded).restored()
                == viewing.restored()
        }),
{
}

/// What takes the place of a file is another file, where no file is listed twice.
pub proof fn law_a_replacement_is_another_file(viewing: Viewing, path: Seq<u8>)
    requires
        viewing.playlist matches Some((files, _)) ==> files.len() >= 2 && forall|i: int, k: int|
            0 <= i < k < files.len() ==> !alike((#[trigger] files[i])@, (#[trigger] files[k])@),
    ensures
        viewing.replacement(path) matches Some(next) ==> !alike(next, path),
{
    if let Some((files, _)) = viewing.playlist {
        law_a_place_holds_its_path(files, path);
    }
}

/// What a load came to changes the heading only where there is an image, and the list
/// of the folder whatever came: the file on screen, and what is open beside it, stay.
pub proof fn law_a_landing_keeps_the_rest(
    viewing: Viewing,
    path: Seq<u8>,
    canonical: Seq<u8>,
    siblings: Option<Seq<FilePath>>,
    decoded: Decoded,
    other: Decoded,
)
    ensures
        ({
            let after = viewing.loaded(viewing.generation, path, canonical, siblings, decoded);
            let otherwise = viewing.loaded(viewing.generation, path, canonical, siblings, other);
            &&& after.current == viewing.current
            &&& after.generation == viewing.generation
            &&& after.transform_open == viewing.transform_open
            &&& after.editing == viewing.editing
            &&& after.playlist == otherwise.playlist
            &&& siblings is None ==> after.playlist == viewing.playlist
            &&& decoded is Failed ==> after.shown == viewing.shown
            &&& decoded matches Decoded::Image { label, width, height } ==> (after.shown matches Some(
                headline,
            ) && headline.title == called(path, "Image"@) && headline.subtitle == label@ + " · "@
                + decimal(width as nat) + " × "@ + decimal(height as nat))
        }),
{
    if let Decoded::Image { label, width, height } = decoded {
        let (a, b) = (decimal(width as nat), decimal(height as nat));
        assert(label@ + " · "@ + (a + " × "@ + b) =~= label@ + " · "@ + a + " × "@ + b);
    }
}

/// A folder's list starts where the file on screen is, and a folder with nothing else
/// in it has none.
pub proof fn law_a_list_starts_at_the_file(files: Seq<FilePath>, current: Seq<u8>)
    ensures
        match folder_list(files, current) {
            Some((list, at)) => list == files && files.len() >= 2 && 0 <= at < files.len() && alike(
                files[at]@,
                current,
            ),
            None => files.len() < 2 || forall|i: int|
                0 <= i < files.len() ==> !alike((#[trigger] files[i])@, current),
        },
{
    law_a_place_holds_its_path(files, current);
}

/// Opening a file makes it the current one and the load a new one, and keeps the folder,
/// the heading to go back to and what is open beside it until the load has landed.
pub proof fn law_opening_keeps_the_rest(viewing: Viewing, path: Seq<u8>)
    ensures
        viewing.loading(path).current == Some(path),
        viewing.loading(path).generation > viewing.generation,
        viewing.loading(path).playlist == viewing.playlist,
        viewing.loading(path).shown == viewing.shown,
        viewing.loading(path).transform_open == viewing.transform_open,
        viewing.loading(path).editing == viewing.editing,
{
}

/// An emptied window has nothing left of what it showed, and still knows a load that was
/// under way for an old one.
pub proof fn law_an_empty_window_shows_nothing(viewing: Viewing)
    ensures
        viewing.emptied().current is None,
        viewing.emptied().playlist is None,
        !viewing.emptied().can_navigate(),
        !viewing.emptied().transform_open,
        !viewing.emptied().editing,
        viewing.emptied().generation == viewing.generation,
        viewing.emptied().restored() == (Headline { title: "Simple Viewer"@, subtitle: ""@ }),
{
}

} // verus!
