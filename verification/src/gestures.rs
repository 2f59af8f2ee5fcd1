//! What a press, a drag and a double click on the picture ask for.

use crate::crop::{PIXEL, REACH};
use vstd::prelude::*;

verus! {

/// Whether the button press at hand has moved yet. A press that never moves is
/// a click, and must not disturb the view.
pub struct Panning {
    pub dragging: bool,
}

/// What a movement of the pointer asks of the view.
#[derive(Clone, Copy, PartialEq, Eq, Structural, Debug)]
pub enum Pan {
    /// The view stays.
    Stay,
    /// The view follows, for the first time since the press. Where it was still
    /// easing, the place that the drag counts from moves to where it is now.
    Begin { rebase: bool },
    /// The view follows on.
    Follow,
}

/// What a movement since the press does to the view.
pub open spec fn panned(dragging: bool, pannable: bool, dx: int, dy: int, easing: bool) -> Pan {
    if !pannable {
        Pan::Stay
    } else if dragging {
        Pan::Follow
    } else if -PIXEL < dx < PIXEL && -PIXEL < dy < PIXEL {
        Pan::Stay
    } else {
        Pan::Begin { rebase: easing }
    }
}

impl Panning {
    /// No button is pressed.
    pub fn new() -> (r: Panning)
        ensures
            !r.dragging,
    {
        Panning { dragging: false }
    }

    /// A press, or the end of one: nothing has moved.
    pub fn rest(&mut self)
        ensures
            !final(self).dragging,
    {
        self.dragging = false;
    }

    /// The pointer is this far from where it was pressed. A click ends with a
    /// movement of nothing, so a drag begins a whole pixel away.
    pub fn moved(&mut self, pannable: bool, dx: i64, dy: i64, easing: bool) -> (r: Pan)
        ensures
            final(self).dragging == (old(self).dragging || r is Begin),
            r == panned(old(self).dragging, pannable, dx as int, dy as int, easing),
    {
        if !pannable {
            return Pan::Stay;
        }
        if self.dragging {
            return Pan::Follow;
        }
        if -PIXEL < dx && dx < PIXEL && -PIXEL < dy && dy < PIXEL {
            return Pan::Stay;
        }
        self.dragging = true;
        Pan::Begin { rebase: easing }
    }
}

/// What a click asks of the view.
#[derive(Clone, Copy, PartialEq, Eq, Structural, Debug)]
pub enum Zoom {
    Stay,
    /// One image pixel per screen pixel, where the click landed.
    Actual,
    /// The whole image in the window.
    Fit,
}

/// A double click goes back and forth between fitting the window and one to one.
pub fn click(presses: i32, has_image: bool, fitted: bool) -> (r: Zoom)
    ensures
        r == (if presses != 2 || !has_image {
            Zoom::Stay
        } else if fitted {
            Zoom::Actual
        } else {
            Zoom::Fit
        }),
{
    if presses != 2 || !has_image {
        Zoom::Stay
    } else if fitted {
        Zoom::Actual
    } else {
        Zoom::Fit
    }
}

/// What scrolling over the picture asks of the view.
#[derive(Clone, Copy, PartialEq, Eq, Structural, Debug)]
pub enum Scroll {
    /// There is nothing to move.
    Ignore,
    /// The picture follows the fingers.
    Pan,
    /// The picture grows or shrinks under the pointer.
    Zoom,
}

/// Two fingers on a touchpad pan and the wheel zooms. A touchpad says how far the
/// fingers moved across a surface and a wheel says notches, so there is no guessing.
/// With `Ctrl` the fingers zoom too.
pub fn scroll(has_image: bool, surface: bool, control: bool) -> (r: Scroll)
    ensures
        r == (if !has_image {
            Scroll::Ignore
        } else if surface && !control {
            Scroll::Pan
        } else {
            Scroll::Zoom
        }),
{
    if !has_image {
        Scroll::Ignore
    } else if surface && !control {
        Scroll::Pan
    } else {
        Scroll::Zoom
    }
}

/// Twice where the middle of the image goes along one side of the window: an image
/// that is longer than the window stays glued to its edges, one that fits is in the
/// middle.
pub open spec fn held_middle(twice: int, length: int, view: int) -> int {
    if length <= view {
        view
    } else if twice < 2 * view - length {
        2 * view - length
    } else if twice > length {
        length
    } else {
        twice
    }
}

/// Keeps the image from being dragged off into empty space. The middle is counted
/// twice, so that half of an odd length is exact.
pub fn clamp_middle(twice: i64, length: i64, view: i64) -> (r: i64)
    requires
        0 <= length <= REACH,
        0 <= view <= REACH,
    ensures
        r == held_middle(twice as int, length as int, view as int),
{
    if length <= view {
        view
    } else if twice < 2 * view - length {
        2 * view - length
    } else if twice > length {
        length
    } else {
        twice
    }
}

/// An image that is longer than the window leaves no part of it empty, and one that
/// fits is shown whole; putting it there again changes nothing.
pub proof fn law_no_part_of_the_window_is_wasted(twice: int, length: int, view: int)
    requires
        0 <= length,
        0 <= view,
    ensures
        ({
            let middle = held_middle(twice, length, view);
            &&& length >= view ==> middle - length <= 0 && middle + length >= 2 * view
            &&& length <= view ==> middle - length >= 0 && middle + length <= 2 * view
            &&& held_middle(middle, length, view) == middle
        }),
{
}

/// Whether there is anything to pan: the image is more than half a pixel larger
/// than the window, one way or the other.
pub fn is_pannable(width: i64, height: i64, view_width: i64, view_height: i64) -> (r: bool)
    requires
        0 <= width <= REACH,
        0 <= height <= REACH,
        0 <= view_width <= REACH,
        0 <= view_height <= REACH,
    ensures
        r == (2 * width > 2 * view_width + PIXEL || 2 * height > 2 * view_height + PIXEL),
{
    2 * width > 2 * view_width + PIXEL || 2 * height > 2 * view_height + PIXEL
}

/// A drag begins a pixel from the press, in whatever direction, and from then on the
/// view follows; a click moves nothing, nor does a drag where there is nothing to move.
pub proof fn law_a_drag_begins_a_pixel_away(dx: int, dy: int, easing: bool)
    ensures
        panned(false, true, dx, dy, easing) is Begin <==> dx >= 65_536 || dx <= -65_536 || dy
            >= 65_536 || dy <= -65_536,
        panned(false, true, dx, dy, easing) is Begin || panned(false, true, dx, dy, easing)
            is Stay,
        panned(false, true, dx, dy, easing) matches Pan::Begin { rebase } ==> rebase == easing,
        panned(true, true, dx, dy, easing) is Follow,
        forall|dragging: bool| #[trigger] panned(dragging, false, dx, dy, easing) is Stay,
{
}

} // verus!
