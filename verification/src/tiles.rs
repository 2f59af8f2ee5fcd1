//! Rendering just the visible part of a drawing, sharp, one render at a time.

use vstd::prelude::*;

use crate::crop::{least, most, Area, PIXEL, REACH};

verus! {

/// One unit of work for the renderer, and which round of resampling asked for it,
/// so that a result that a newer zoom or pan has already made irrelevant can be
/// dropped.
pub struct Ticket<J> {
    pub generation: u64,
    pub job: J,
}

/// Who renders, and what waits.
///
/// Exactly one render runs at a time: one can cost seconds and hundreds of
/// megabytes and cannot be cancelled, so letting a flurry of zooming start one
/// per step would multiply both.
pub struct RenderQueue<J> {
    pub generation: u64,
    pub rendering: bool,
    /// The one job waiting. A newer request replaces it rather than queueing,
    /// because only the newest view matters.
    pub queued: Option<Ticket<J>>,
}

impl<J> RenderQueue<J> {
    /// Something waits only while something renders.
    pub open spec fn wf(self) -> bool {
        self.queued is Some ==> self.rendering
    }

    /// Nothing rendering, nothing waiting.
    pub fn new() -> (r: RenderQueue<J>)
        ensures
            r.wf(),
            r.generation == 0,
            !r.rendering,
            r.queued is None,
    {
        RenderQueue { generation: 0, rendering: false, queued: None }
    }

    /// Another image: a render still running belongs to the one being replaced,
    /// so its round is over, and anything waiting behind it is dropped. Without
    /// this its tile would land on top of the new picture.
    pub fn retire(&mut self)
        requires
            old(self).wf(),
            old(self).generation < u64::MAX,
        ensures
            final(self).wf(),
            final(self).generation == old(self).generation + 1,
            final(self).rendering == old(self).rendering,
            final(self).queued is None,
    {
        self.generation = self.generation + 1;
        self.queued = None;
    }

    /// Starts a new round.
    pub fn advance(&mut self) -> (r: u64)
        requires
            old(self).wf(),
            old(self).generation < u64::MAX,
        ensures
            final(self).wf(),
            r == old(self).generation + 1,
            final(self).generation == r,
            final(self).rendering == old(self).rendering,
            final(self).queued == old(self).queued,
    {
        self.generation = self.generation + 1;
        self.generation
    }

    /// Hands a job to the renderer, or parks it if one is already running. What
    /// comes back is to be rendered now.
    pub fn submit(&mut self, ticket: Ticket<J>) -> (r: Option<Ticket<J>>)
        requires
            old(self).wf(),
        ensures
            final(self).wf(),
            final(self).generation == old(self).generation,
            final(self).rendering,
            if old(self).rendering {
                r is None && final(self).queued == Some(ticket)
            } else {
                r == Some(ticket) && final(self).queued == old(self).queued
            },
    {
        if self.rendering {
            self.queued = Some(ticket);
            return None;
        }
        self.rendering = true;
        Some(ticket)
    }

    /// However a render turned out, the renderer is free again. Says whether its
    /// result is still wanted: not if a newer round has begun.
    pub fn landed(&mut self, generation: u64) -> (r: bool)
        requires
            old(self).wf(),
        ensures
            final(self).generation == old(self).generation,
            !final(self).rendering,
            final(self).queued == old(self).queued,
            r == (old(self).generation == generation),
    {
        self.rendering = false;
        self.generation == generation
    }

    /// What to render next once one has landed: a view that has moved on beats
    /// sharpening one that has not.
    pub fn follow_up(&mut self, refine: Option<Ticket<J>>) -> (r: Option<Ticket<J>>)
        requires
            !old(self).rendering,
        ensures
            final(self).wf(),
            final(self).generation == old(self).generation,
            final(self).queued is None,
            final(self).rendering == (r is Some),
            r == (match old(self).queued {
                Some(waiting) => Some(waiting),
                None => refine,
            }),
    {
        let next = match self.queued.take() {
            Some(waiting) => Some(waiting),
            None => refine,
        };
        match next {
            Some(ticket) => self.submit(ticket),
            None => None,
        }
    }
}

/// Whether a tile covers a region to within half a pixel, and is sharp enough for
/// it: no more than a fifth short of the scale that is wanted.
pub open spec fn serves(tile: Area, tile_scale: int, region: Area, wanted: int) -> bool {
    &&& 2 * tile.x <= 2 * region.x + PIXEL
    &&& 2 * tile.y <= 2 * region.y + PIXEL
    &&& 2 * (tile.x + tile.width) >= 2 * (region.x + region.width) - PIXEL
    &&& 2 * (tile.y + tile.height) >= 2 * (region.y + region.height) - PIXEL
    &&& 5 * wanted <= 6 * tile_scale
}

/// Whether a tile can go on being shown.
pub fn tile_serves(tile: Area, tile_scale: u64, region: Area, wanted: u64) -> (r: bool)
    ensures
        r == serves(tile, tile_scale as int, region, wanted as int),
{
    2 * tile.x as i128 <= 2 * region.x as i128 + PIXEL as i128 && 2 * tile.y as i128 <= 2
        * region.y as i128 + PIXEL as i128 && 2 * (tile.x as i128 + tile.width as i128) >= 2 * (
    region.x as i128 + region.width as i128) - PIXEL as i128 && 2 * (tile.y as i128
        + tile.height as i128) >= 2 * (region.y as i128 + region.height as i128) - PIXEL as i128 && 5
        * wanted as u128 <= 6 * tile_scale as u128
}

/// The part of an image that a tile covers: left, top, right and bottom.
pub open spec fn covered(width: int, height: int, tile: Area) -> (int, int, int, int) {
    (
        most(tile.x as int, 0),
        most(tile.y as int, 0),
        least(tile.x + tile.width, width),
        least(tile.y + tile.height, height),
    )
}

/// The bands of an image around a tile: above it, below it, and to its left and
/// its right.
pub open spec fn bands_around(width: int, height: int, tile: Area) -> Seq<(int, int, int, int)> {
    let (left, top, right, bottom) = covered(width, height, tile);
    seq![
        (0, 0, width, top),
        (0, bottom, width, height - bottom),
        (0, top, left, bottom - top),
        (right, top, width - right, bottom - top),
    ]
}

/// Whether a band is worth painting: a hundredth of a pixel wide and high.
pub open spec fn is_band(band: (int, int, int, int)) -> bool {
    100 * band.2 > PIXEL && 100 * band.3 > PIXEL
}

/// The values behind some areas.
pub open spec fn area_values(areas: Seq<Area>) -> Seq<(int, int, int, int)> {
    areas.map_values(|a: Area| a.values())
}

/// The bands of an image that a tile does not cover.
///
/// The whole-image render must not be drawn underneath the sharp tile: enlarged
/// it spreads every edge outwards, and those smeared edges would show around the
/// crisp ones as a halo. So it is only painted in these.
pub fn uncovered(width: i64, height: i64, tile: Area) -> (r: Vec<Area>)
    requires
        0 <= width <= REACH,
        0 <= height <= REACH,
        -REACH <= tile.x <= REACH,
        -REACH <= tile.y <= REACH,
        0 <= tile.width <= REACH,
        0 <= tile.height <= REACH,
    ensures
        area_values(r@) == bands_around(width as int, height as int, tile).filter(
            |band: (int, int, int, int)| is_band(band),
        ),
{
    let left: i64 = if tile.x >= 0 { tile.x } else { 0 };
    let top: i64 = if tile.y >= 0 { tile.y } else { 0 };
    let right: i64 = if tile.x + tile.width <= width { tile.x + tile.width } else { width };
    let bottom: i64 = if tile.y + tile.height <= height { tile.y + tile.height } else { height };
    let mut all: Vec<Area> = Vec::new();
    all.push(Area { x: 0, y: 0, width, height: top });
    all.push(Area { x: 0, y: bottom, width, height: height - bottom });
    all.push(Area { x: 0, y: top, width: left, height: bottom - top });
    all.push(Area { x: right, y: top, width: width - right, height: bottom - top });
    let ghost goal = bands_around(width as int, height as int, tile);
    let ghost worth = |band: (int, int, int, int)| is_band(band);
    proof {
        assert(area_values(all@) =~= goal);
    }
    let mut r: Vec<Area> = Vec::new();
    let mut at: usize = 0;
    proof {
        assert(goal.subrange(0, 0) =~= Seq::empty());
        reveal(Seq::filter);
        assert(area_values(r@) =~= goal.subrange(0, 0).filter(worth));
    }
    while at < all.len()
        invariant
            at <= all@.len(),
            all@.len() == 4,
            area_values(all@) == goal,
            worth == (|band: (int, int, int, int)| is_band(band)),
            area_values(r@) == goal.subrange(0, at as int).filter(worth),
            forall|i: int|
                0 <= i < 4 ==> -4 * REACH <= (#[trigger] all@[i]).width <= 4 * REACH && -4 * REACH
                    <= all@[i].height <= 4 * REACH,
        decreases all@.len() - at,
    {
        let band: Area = all[at];
        let ghost before = r@;
        if 100 * band.width > PIXEL && 100 * band.height > PIXEL {
            r.push(band);
        }
        proof {
            let upto = goal.subrange(0, at + 1);
            assert(upto.drop_last() =~= goal.subrange(0, at as int));
            assert(upto.last() == area_values(all@)[at as int]);
            reveal(Seq::filter);
            assert(area_values(before.push(band)) =~= area_values(before).push(band.values()));
        }
        at = at + 1;
    }
    proof {
        assert(goal.subrange(0, at as int) =~= goal);
    }
    r
}

/// Whether a place lies in a band.
pub open spec fn lies_in(x: int, y: int, band: (int, int, int, int)) -> bool {
    band.0 <= x < band.0 + band.2 && band.1 <= y < band.1 + band.3
}

/// Every place of an image lies under the tile or in exactly one of the bands
/// around it, and no band reaches under the tile; for a tile that shows some of
/// the image.
pub proof fn law_bands_and_tile_share_the_image(width: int, height: int, tile: Area, x: int, y: int)
    requires
        0 <= x < width,
        0 <= y < height,
        ({
            let (left, top, right, bottom) = covered(width, height, tile);
            left <= right && top <= bottom
        }),
    ensures
        ({
            let (left, top, right, bottom) = covered(width, height, tile);
            let bands = bands_around(width, height, tile);
            let under = left <= x < right && top <= y < bottom;
            let above = lies_in(x, y, bands[0]);
            let below = lies_in(x, y, bands[1]);
            let before = lies_in(x, y, bands[2]);
            let after = lies_in(x, y, bands[3]);
            &&& under || above || below || before || after
            &&& !(under && (above || below || before || after))
            &&& !(above && (below || before || after))
            &&& !(below && (before || after))
            &&& !(before && after)
        }),
{
}

/// How a texture is scaled.
#[derive(Clone, Copy, PartialEq, Eq, Structural, Debug)]
pub enum Filter {
    Nearest,
    Linear,
    /// Mipmapped, so that downscaled photographs do not shimmer.
    Trilinear,
}

/// The filter that a scale calls for, a pixel of the screen to a pixel of the image
/// being `PIXEL`.
pub open spec fn filter_for(scale: int, square_on: bool, is_vector: bool) -> Filter {
    if scale >= 3 * PIXEL && square_on && !is_vector {
        Filter::Nearest
    } else if scale < PIXEL {
        Filter::Trilinear
    } else {
        Filter::Linear
    }
}

/// Beyond three times its size the point of a photograph is to inspect its
/// pixels, so smoothing stops. A drawing has no pixels of its own, so blockiness
/// there is just a stale texture.
pub fn scaling_filter(scale: u64, square_on: bool, is_vector: bool) -> (r: Filter)
    ensures
        r == filter_for(scale as int, square_on, is_vector),
{
    if scale >= 3 * 65_536 && square_on && !is_vector {
        Filter::Nearest
    } else if scale < 65_536 {
        Filter::Trilinear
    } else {
        Filter::Linear
    }
}

/// Which frame of an animation shows.
pub struct Playback {
    pub count: usize,
    pub index: usize,
}

impl Playback {
    /// The frame that shows is one of those there are.
    pub open spec fn wf(self) -> bool {
        self.count > 0 ==> self.index < self.count
    }

    /// From the first of so many frames.
    pub fn start(count: usize) -> (r: Playback)
        ensures
            r.wf(),
            r.count == count,
            r.index == 0,
    {
        Playback { count, index: 0 }
    }

    /// Whether there is a next frame to wait for: a still does not play.
    pub fn plays(&self) -> (r: bool)
        ensures
            r == (self.count >= 2),
    {
        self.count >= 2
    }

    /// Goes on to the next frame, from the last one round to the first.
    pub fn advance(&mut self) -> (r: Option<usize>)
        requires
            old(self).wf(),
        ensures
            final(self).wf(),
            final(self).count == old(self).count,
            match r {
                Some(index) => old(self).count > 0 && index == (old(self).index + 1) % (
                old(self).count as int) && final(self).index == index,
                None => old(self).count == 0 && final(self).index == old(self).index,
            },
    {
        if self.count == 0 {
            return None;
        }
        let next: usize = if self.index == self.count - 1 { 0 } else { self.index + 1 };
        proof {
            if self.index == self.count - 1 {
                vstd::arithmetic::div_mod::lemma_mod_self_0(self.count as int);
            } else {
                vstd::arithmetic::div_mod::lemma_small_mod(
                    (self.index + 1) as nat,
                    self.count as nat,
                );
            }
        }
        self.index = next;
        Some(next)
    }
}

/// A tile that serves reaches every point of the view, to within half a pixel on each
/// of the four sides, and is no more than a fifth too coarse.
pub proof fn law_a_tile_that_serves_covers(
    tile: Area,
    tile_scale: int,
    region: Area,
    wanted: int,
    x: int,
    y: int,
)
    requires
        serves(tile, tile_scale, region, wanted),
        region.x <= x <= region.x + region.width,
        region.y <= y <= region.y + region.height,
    ensures
        tile.x - 32_768 <= x <= tile.x + tile.width + 32_768,
        tile.y - 32_768 <= y <= tile.y + tile.height + 32_768,
        10 * wanted <= 12 * tile_scale,
{
}

/// A tile that holds the whole view serves while it is sharp enough, and stops to
/// serve as soon as one side of the view is more than half a pixel past it.
pub proof fn law_a_tile_serves_while_it_covers(
    tile: Area,
    tile_scale: int,
    region: Area,
    wanted: int,
)
    ensures
        tile.x <= region.x && tile.y <= region.y && region.x + region.width <= tile.x + tile.width
            && region.y + region.height <= tile.y + tile.height && wanted <= tile_scale && 0
            <= tile_scale ==> serves(tile, tile_scale, region, wanted),
        tile.x - region.x > 32_768 ==> !serves(tile, tile_scale, region, wanted),
        tile.y - region.y > 32_768 ==> !serves(tile, tile_scale, region, wanted),
        region.x + region.width - tile.x - tile.width > 32_768 ==> !serves(
            tile,
            tile_scale,
            region,
            wanted,
        ),
        region.y + region.height - tile.y - tile.height > 32_768 ==> !serves(
            tile,
            tile_scale,
            region,
            wanted,
        ),
        1_000 * wanted > 1_200 * tile_scale ==> !serves(tile, tile_scale, region, wanted),
{
}

/// A point of the image lies in one of the bands exactly where the tile is not, however
/// far the tile reaches past the image.
pub proof fn law_bands_leave_out_the_tile(width: int, height: int, tile: Area, x: int, y: int)
    requires
        0 <= x < width,
        0 <= y < height,
        tile.width >= 0,
        tile.height >= 0,
        tile.x <= width,
        tile.y <= height,
        tile.x + tile.width >= 0,
        tile.y + tile.height >= 0,
    ensures
        ({
            let bands = bands_around(width, height, tile);
            let in_tile = tile.x <= x < tile.x + tile.width && tile.y <= y < tile.y + tile.height;
            &&& bands.len() == 4
            &&& in_tile <==> !(lies_in(x, y, bands[0]) || lies_in(x, y, bands[1]) || lies_in(
                x,
                y,
                bands[2],
            ) || lies_in(x, y, bands[3]))
        }),
{
}

/// Pixels show as squares only from three times their size on, square on, and never in
/// a drawing; below their own size they are always averaged.
pub proof fn law_pixels_are_only_blocky_up_close(scale: int, square_on: bool, is_vector: bool)
    ensures
        filter_for(scale, square_on, is_vector) == Filter::Nearest <==> scale >= 196_608 && square_on
            && !is_vector,
        filter_for(scale, square_on, is_vector) == Filter::Trilinear <==> scale < 65_536,
        filter_for(scale, square_on, true) == filter_for(scale, false, is_vector),
{
}

/// A sliver narrower or lower than a hundredth of a pixel is no band.
pub proof fn law_slivers_are_left_out(band: (int, int, int, int))
    ensures
        is_band(band) <==> band.2 >= 656 && band.3 >= 656,
{
}

} // verus!
