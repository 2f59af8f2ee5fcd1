//! Camera raw.
//!
//! Two ways to get pixels out of a raw file, and the choice matters. The
//! embedded preview is a JPEG the camera wrote alongside the sensor data: it is
//! instant and carries the maker's own rendering, but its size is entirely up
//! to the camera. Developing demosaics the sensor data: always full resolution,
//! but it costs seconds. So the preview is used only when it is big enough to
//! look at, and developing covers everything else.

use vstd::prelude::*;

use crate::loader::{Failure, LoadedImage};
use crate::picture::{exif_orientation, from_exif, turned, Orientation, Picture, Raster};

verus! {

/// Below this, an embedded preview is too small to be worth showing in place of
/// the real image: a window on any current display is wider than this.
pub const MIN_PREVIEW_LONG_EDGE: u32 = 1600;

/// The way an orientation number turns a picture; a number that stands for
/// nothing, and none at all, leave it.
pub open spec fn turn_for(orientation: Option<u16>) -> Orientation {
    match orientation {
        Some(value) => match exif_orientation(value as int) {
            Some(turn) => turn,
            None => Orientation::NoTransforms,
        },
        None => Orientation::NoTransforms,
    }
}

/// The embedded images come in sensor orientation, with the rotation recorded
/// in the raw file's metadata rather than in the JPEG.
pub fn upright(picture: &Picture, orientation: Option<u16>) -> (r: Picture)
    requires
        picture.wf(),
    ensures
        r.wf(),
        r@ == turned(picture@, turn_for(orientation)),
{
    let turn = match orientation {
        Some(value) => match from_exif(value) {
            Some(turn) => turn,
            None => Orientation::NoTransforms,
        },
        None => Orientation::NoTransforms,
    };
    picture.turn(turn)
}

/// Makes an image of a picture under a label.
pub fn finish(picture: Picture, label: &str) -> (r: LoadedImage)
    requires
        picture.wf(),
    ensures
        r.is_still(picture@, false, label@),
        r.raster().wf(),
{
    LoadedImage {
        width: picture.width,
        height: picture.height,
        rgba: picture.rgba,
        premultiplied: false,
        label: label.to_owned(),
        animation: Vec::new(),
    }
}

/// Whether a preview is big enough to look at.
pub open spec fn is_large(picture: Raster) -> bool {
    picture.width >= MIN_PREVIEW_LONG_EDGE || picture.height >= MIN_PREVIEW_LONG_EDGE
}

pub fn large_enough(picture: &Picture) -> (r: bool)
    ensures
        r == is_large(picture@),
{
    picture.width >= MIN_PREVIEW_LONG_EDGE || picture.height >= MIN_PREVIEW_LONG_EDGE
}

/// What to do with a raw file.
pub enum Step {
    /// An embedded image does.
    Show(LoadedImage),
    /// The sensor data has to be developed; the preview, too small to choose,
    /// still beats refusing to show the file.
    Develop(Option<LoadedImage>),
}

/// Whether a step is the right one for the images that a raw file embeds: the
/// full-size one where there is one, or else a preview that is large enough.
pub open spec fn right_step(
    step: Step,
    full: Option<Raster>,
    preview: Option<Raster>,
    orientation: Option<u16>,
) -> bool {
    match full {
        Some(image) => step matches Step::Show(shown) && shown.is_still(
            turned(image, turn_for(orientation)),
            false,
            "RAW (embedded image)"@,
        ),
        None => match preview {
            Some(image) => if is_large(image) {
                step matches Step::Show(shown) && shown.is_still(
                    turned(image, turn_for(orientation)),
                    false,
                    "RAW (preview)"@,
                )
            } else {
                step matches Step::Develop(Some(shown)) && shown.is_still(
                    turned(image, turn_for(orientation)),
                    false,
                    "RAW (small preview)"@,
                )
            },
            None => step matches Step::Develop(None),
        },
    }
}

/// What a picture shows, where there is one.
pub open spec fn shown(picture: Option<Picture>) -> Option<Raster> {
    match picture {
        Some(image) => Some(image@),
        None => None,
    }
}

/// Where in a raw file an image stands.
#[derive(Clone, Copy, PartialEq, Eq, Structural, Debug)]
pub enum Place {
    /// A full-size image, which few cameras embed.
    Full,
    /// The preview that many cameras embed.
    Preview,
    /// The smallest image of all.
    Thumbnail,
}

/// A look for an image that a camera embedded in a raw file, one question at a
/// time: what answers may take long, or break off on a damaged file, so each
/// question is asked only where its answer counts.
pub enum Search {
    /// Is there an image in this place?
    Seek(Place),
    /// There is. Which way up is it?
    Turn(Place, Picture),
    /// Here it is, the right way up.
    Found(Place, Picture),
    /// There is none.
    Nothing,
}

/// Whether a search goes from one state to another where a place holds this image,
/// or none. The preview is the last place to look.
pub open spec fn is_sought(before: Search, image: Option<Picture>, after: Search) -> bool {
    match before {
        Search::Seek(place) => match image {
            Some(picture) => after == Search::Turn(place, picture),
            None => if place == Place::Preview {
                after is Nothing
            } else {
                after == Search::Seek(Place::Preview)
            },
        },
        _ => after == before,
    }
}

/// Whether a search goes from one state to another where this is the orientation
/// number in the metadata.
pub open spec fn is_righted(before: Search, orientation: Option<u16>, after: Search) -> bool {
    match before {
        Search::Turn(place, picture) => after matches Search::Found(found, shown) && found == place
            && shown@ == turned(picture@, turn_for(orientation)),
        _ => after == before,
    }
}

/// Whether a step is the right one where a search has ended.
pub open spec fn is_decided(search: Search, step: Step) -> bool {
    match search {
        Search::Found(place, picture) => if place == Place::Full {
            step matches Step::Show(shown) && shown.is_still(picture@, false, "RAW (embedded image)"@)
        } else if is_large(picture@) {
            step matches Step::Show(shown) && shown.is_still(picture@, false, "RAW (preview)"@)
        } else {
            step matches Step::Develop(Some(shown)) && shown.is_still(
                picture@,
                false,
                "RAW (small preview)"@,
            )
        },
        _ => step matches Step::Develop(None),
    }
}

impl Search {
    /// What was found has all of its pixels.
    pub open spec fn wf(self) -> bool {
        match self {
            Search::Turn(_, picture) => picture.wf(),
            Search::Found(_, picture) => picture.wf(),
            _ => true,
        }
    }

    /// A search for what to show in place of the sensor data.
    pub fn for_showing() -> (r: Search)
        ensures
            r == Search::Seek(Place::Full),
    {
        Search::Seek(Place::Full)
    }

    /// A search for the smallest image there is.
    pub fn for_thumbnail() -> (r: Search)
        ensures
            r == Search::Seek(Place::Thumbnail),
    {
        Search::Seek(Place::Thumbnail)
    }

    /// Goes on with what the place that was asked about holds.
    pub fn seek(self, image: Option<Picture>) -> (r: Search)
        requires
            self.wf(),
            image matches Some(picture) ==> picture.wf(),
        ensures
            r.wf(),
            is_sought(self, image, r),
    {
        match self {
            Search::Seek(place) => match image {
                Some(picture) => Search::Turn(place, picture),
                None => if place == Place::Preview {
                    Search::Nothing
                } else {
                    Search::Seek(Place::Preview)
                },
            },
            search => search,
        }
    }

    /// Goes on with the orientation number in the metadata.
    pub fn right(self, orientation: Option<u16>) -> (r: Search)
        requires
            self.wf(),
        ensures
            r.wf(),
            is_righted(self, orientation, r),
    {
        match self {
            Search::Turn(place, picture) => Search::Found(place, upright(&picture, orientation)),
            search => search,
        }
    }
}

/// Decides how to show a raw file once the search for an embedded image has ended.
pub fn decode(search: Search) -> (r: Step)
    requires
        search.wf(),
    ensures
        is_decided(search, r),
{
    match search {
        Search::Found(place, picture) => {
            let large = large_enough(&picture);
            if place == Place::Full {
                Step::Show(finish(picture, "RAW (embedded image)"))
            } else if large {
                Step::Show(finish(picture, "RAW (preview)"))
            } else {
                Step::Develop(Some(finish(picture, "RAW (small preview)")))
            }
        },
        _ => Step::Develop(None),
    }
}

/// A search that asks for the full-size image, for the preview where there is none,
/// and for the orientation, ends in the step that is right for what the file embeds.
pub proof fn law_a_search_ends_in_the_right_step(
    full: Option<Picture>,
    preview: Option<Picture>,
    orientation: Option<u16>,
    first: Search,
    second: Search,
    last: Search,
    step: Step,
)
    requires
        is_sought(Search::Seek(Place::Full), full, first),
        is_sought(first, preview, second),
        is_righted(second, orientation, last),
        is_decided(last, step),
    ensures
        right_step(step, shown(full), shown(preview), orientation),
{
}

/// What developing a raw file comes to: the developed image, which is upright
/// already, or the small preview where developing failed and there is one.
pub fn settle(developed: Result<Picture, Failure>, preview: Option<LoadedImage>) -> (r: Result<
    LoadedImage,
    Failure,
>)
    requires
        developed matches Ok(picture) ==> picture.wf(),
    ensures
        match developed {
            Ok(picture) => r matches Ok(image) && image.is_still(picture@, false, "RAW (developed)"@),
            Err(failure) => match preview {
                Some(small) => r == Ok::<LoadedImage, Failure>(small),
                None => r == Err::<LoadedImage, Failure>(failure),
            },
        },
{
    match developed {
        Ok(picture) => Ok(
            LoadedImage {
                width: picture.width,
                height: picture.height,
                rgba: picture.rgba,
                premultiplied: false,
                label: "RAW (developed)".to_owned(),
                animation: Vec::new(),
            },
        ),
        Err(failure) => match preview {
            Some(image) => Ok(image),
            None => Err(failure),
        },
    }
}

/// A preview is large enough where its longer edge has sixteen hundred pixels, whichever
/// way up it is.
pub proof fn law_the_longer_edge_decides(picture: Raster)
    ensures
        is_large(picture) <==> (if picture.width >= picture.height {
            picture.width
        } else {
            picture.height
        }) >= 1_600,
        is_large(Raster { width: picture.height, height: picture.width, ..picture }) == is_large(
            picture,
        ),
{
}

/// A raw file shows its full-size image before its preview, whatever their sizes, and
/// is only developed where it has neither or a small preview.
pub proof fn law_developing_is_the_last_resort(
    step: Step,
    full: Option<Raster>,
    preview: Option<Raster>,
    orientation: Option<u16>,
)
    requires
        right_step(step, full, preview, orientation),
    ensures
        full is Some ==> step is Show,
        (preview matches Some(image) && (image.width >= 1_600 || image.height >= 1_600)) ==> step
            is Show,
        step is Develop <==> full is None && (preview matches Some(image) ==> image.width < 1_600
            && image.height < 1_600),
        step matches Step::Show(image) ==> image.label@ == (if full is Some {
            "RAW (embedded image)"@
        } else {
            "RAW (preview)"@
        }),
        step matches Step::Develop(Some(image)) ==> image.label@ == "RAW (small preview)"@,
        step matches Step::Develop(image) ==> (image is Some <==> preview is Some),
{
}

} // verus!
