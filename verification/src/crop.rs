//! The crop tool: a selection that is drawn, moved and resized on the picture.
//!
//! Everything is in display space: the image as it appears after flipping and
//! rotation, with the origin at the top left. Keeping it there is what makes the
//! selection a plain rectangle on screen however the picture is turned. Lengths
//! are whole numbers of a small unit, so that a drag never loses any.

use vstd::prelude::*;

verus! {

/// How many units make up one pixel.
pub const PIXEL: i64 = 65_536;

/// Smallest crop, so it cannot be collapsed to nothing: eight pixels.
pub const MIN_CROP: i64 = 8 * 65_536;

/// Reach of a handle on screen: sixteen pixels.
pub const HANDLE_GRAB: i64 = 16 * 65_536;

/// The largest extent that a picture or a drag has, in units.
pub const REACH: i64 = 0x100_0000_0000;

#[derive(Clone, Copy, PartialEq, Eq, Structural, Debug)]
pub struct Point {
    pub x: i64,
    pub y: i64,
}

#[derive(Clone, Copy, PartialEq, Eq, Structural, Debug)]
pub struct Area {
    pub x: i64,
    pub y: i64,
    pub width: i64,
    pub height: i64,
}

/// A crop the user has drawn.
pub struct CropSelection {
    pub rect: Area,
    /// Points of a freehand outline; empty for a plain rectangle.
    pub path: Vec<Point>,
}

/// Which part of the crop rectangle a drag is moving.
#[derive(Clone, Copy, PartialEq, Eq, Structural, Debug)]
pub enum Handle {
    NorthWest,
    North,
    NorthEast,
    East,
    SouthEast,
    South,
    SouthWest,
    West,
    Inside,
}

/// A shape to keep: so many wide to so many high.
#[derive(Clone, Copy, PartialEq, Eq, Structural, Debug)]
pub struct Aspect {
    pub across: u32,
    pub down: u32,
}

impl Aspect {
    /// Whether the shape has an extent each way, in numbers of an ordinary size.
    pub open spec fn is_plain(self) -> bool {
        0 < self.across <= 0xFFFF && 0 < self.down <= 0xFFFF
    }
}

/// Which end of a span a drag moves.
#[derive(Clone, Copy, PartialEq, Eq, Structural, Debug)]
pub enum End {
    Low,
    High,
    Neither,
}

impl Handle {
    /// Which end of the horizontal span the handle moves.
    pub open spec fn across(self) -> End {
        match self {
            Handle::NorthWest | Handle::West | Handle::SouthWest => End::Low,
            Handle::NorthEast | Handle::East | Handle::SouthEast => End::High,
            _ => End::Neither,
        }
    }

    /// Which end of the vertical span the handle moves.
    pub open spec fn down(self) -> End {
        match self {
            Handle::NorthWest | Handle::North | Handle::NorthEast => End::Low,
            Handle::SouthWest | Handle::South | Handle::SouthEast => End::High,
            _ => End::Neither,
        }
    }

    pub fn horizontal(self) -> (r: End)
        ensures
            r == self.across(),
    {
        match self {
            Handle::NorthWest | Handle::West | Handle::SouthWest => End::Low,
            Handle::NorthEast | Handle::East | Handle::SouthEast => End::High,
            _ => End::Neither,
        }
    }

    pub fn vertical(self) -> (r: End)
        ensures
            r == self.down(),
    {
        match self {
            Handle::NorthWest | Handle::North | Handle::NorthEast => End::Low,
            Handle::SouthWest | Handle::South | Handle::SouthEast => End::High,
            _ => End::Neither,
        }
    }
}

pub open spec fn least(a: int, b: int) -> int {
    if a <= b {
        a
    } else {
        b
    }
}

pub open spec fn most(a: int, b: int) -> int {
    if a >= b {
        a
    } else {
        b
    }
}

/// A number held between two others, the upper of which is not below the lower.
pub open spec fn held(a: int, low: int, high: int) -> int {
    if a < low {
        low
    } else if a > high {
        high
    } else {
        a
    }
}

fn hold(a: i128, low: i128, high: i128) -> (r: i128)
    ensures
        r == held(a as int, low as int, high as int),
{
    if a < low {
        low
    } else if a > high {
        high
    } else {
        a
    }
}

fn larger(a: i128, b: i128) -> (r: i128)
    ensures
        r == most(a as int, b as int),
{
    if a >= b {
        a
    } else {
        b
    }
}

/// A span, as where it starts and where it ends, with one end dragged: kept
/// inside the image, and no closer to the other end than the smallest crop.
pub open spec fn dragged_span(start: int, end: int, delta: int, bound: int, which: End) -> (int, int) {
    match which {
        End::Low => (most(least(start + delta, end - MIN_CROP), 0), end),
        End::High => (start, least(most(end + delta, start + MIN_CROP), bound)),
        End::Neither => (start, end),
    }
}

fn drag_span(start: i64, length: i64, delta: i64, bound: i64, which: End) -> (r: (i128, i128))
    ensures
        (r.0 as int, r.1 as int) == dragged_span(
            start as int,
            start + length,
            delta as int,
            bound as int,
            which,
        ),
        -0x2_0000_0000_0000_0000 <= r.0 <= 0x2_0000_0000_0000_0000,
        -0x2_0000_0000_0000_0000 <= r.1 <= 0x2_0000_0000_0000_0000,
{
    let end: i128 = start as i128 + length as i128;
    match which {
        End::Low => {
            let moved: i128 = start as i128 + delta as i128;
            let limit: i128 = end - MIN_CROP as i128;
            (larger(if moved <= limit { moved } else { limit }, 0), end)
        },
        End::High => {
            let moved: i128 = larger(end + delta as i128, start as i128 + MIN_CROP as i128);
            (start as i128, if moved <= bound as i128 { moved } else { bound as i128 })
        },
        End::Neither => (start as i128, end),
    }
}

/// A length scaled by a ratio, rounded down.
pub open spec fn scaled(length: int, n: int, d: int) -> int {
    (length * n) / d
}

fn scale(length: i128, n: u32, d: u32) -> (r: i128)
    requires
        0 < d,
        -0x4_0000_0000_0000_0000 <= length <= 0x4_0000_0000_0000_0000,
    ensures
        r == scaled(length as int, n as int, d as int),
        -0x4_0000_0000_0000_0000_0000_0001 <= r <= 0x4_0000_0000_0000_0000_0000_0000,
{
    let ghost p: int = length * n;
    proof {
        assert(-0x4_0000_0000_0000_0000_0000_0000 <= p <= 0x4_0000_0000_0000_0000_0000_0000)
            by (nonlinear_arith)
            requires
                p == length * n,
                -0x4_0000_0000_0000_0000 <= length <= 0x4_0000_0000_0000_0000,
                0 <= n <= 0xFFFF_FFFF,
        ;
    }
    let product: i128 = length * n as i128;
    let step: i128 = d as i128;
    proof {
        vstd::arithmetic::div_mod::lemma_fundamental_div_mod(p, step as int);
        vstd::arithmetic::div_mod::lemma_mod_bound(p, step as int);
        assert(-0x4_0000_0000_0000_0000_0000_0001 <= p / step as int <= 0x4_0000_0000_0000_0000_0000_0000)
            by (nonlinear_arith)
            requires
                -0x4_0000_0000_0000_0000_0000_0000 <= p <= 0x4_0000_0000_0000_0000_0000_0000,
                p == step * (p / step as int) + p % step as int,
                0 <= p % step as int,
                p % (step as int) < step,
                step >= 1,
        ;
    }
    if product >= 0 {
        product / step
    } else {
        let back: i128 = -product;
        let whole: i128 = back / step;
        proof {
            vstd::arithmetic::div_mod::lemma_fundamental_div_mod(back as int, step as int);
            if back as int % step as int == 0 {
                assert(product == (-whole) * step + 0) by (nonlinear_arith)
                    requires
                        back == step * whole,
                        product == -back,
                ;
                vstd::arithmetic::div_mod::lemma_fundamental_div_mod_converse(
                    product as int,
                    step as int,
                    -whole as int,
                    0,
                );
            } else {
                let rest: int = step - back as int % step as int;
                assert(product == (-whole - 1) * step + rest) by (nonlinear_arith)
                    requires
                        back == step * whole + back as int % step as int,
                        rest == step - back as int % step as int,
                        product == -back,
                ;
                vstd::arithmetic::div_mod::lemma_fundamental_div_mod_converse(
                    product as int,
                    step as int,
                    -whole - 1,
                    rest,
                );
            }
        }
        if back % step == 0 {
            -whole
        } else {
            -whole - 1
        }
    }
}

/// The size that keeps a shape: the height follows the width where that fits,
/// and else the width follows the height.
pub open spec fn shaped(width: int, height: int, bound: int, aspect: Aspect) -> (int, int) {
    let wanted = scaled(width, aspect.down as int, aspect.across as int);
    if wanted <= bound {
        (width, wanted)
    } else {
        (scaled(height, aspect.across as int, aspect.down as int), height)
    }
}

/// A size and the place of a selection in an image, before the smallest crop is
/// enforced.
pub open spec fn dragged_to(
    handle: Handle,
    origin: Area,
    dx: int,
    dy: int,
    width: int,
    height: int,
    aspect: Option<Aspect>,
) -> (int, int, int, int) {
    if handle is Inside {
        (
            held(origin.x + dx, 0, most(width - origin.width, 0)),
            held(origin.y + dy, 0, most(height - origin.height, 0)),
            origin.width as int,
            origin.height as int,
        )
    } else {
        let (left, right) = dragged_span(
            origin.x as int,
            origin.x + origin.width,
            dx,
            width,
            handle.across(),
        );
        let (top, bottom) = dragged_span(
            origin.y as int,
            origin.y + origin.height,
            dy,
            height,
            handle.down(),
        );
        match aspect {
            None => (left, top, right - left, bottom - top),
            Some(shape) => {
                let (w, h) = shaped(right - left, bottom - top, height, shape);
                let x = if handle.across() is Low { right - w } else { left };
                let y = if handle.down() is Low { bottom - h } else { top };
                (held(x, 0, most(width - w, 0)), held(y, 0, most(height - h, 0)), w, h)
            },
        }
    }
}

/// The selection that a drag makes of the one it started from.
pub open spec fn dragged(
    handle: Handle,
    origin: Area,
    dx: int,
    dy: int,
    width: int,
    height: int,
    aspect: Option<Aspect>,
) -> (int, int, int, int) {
    let (x, y, w, h) = dragged_to(handle, origin, dx, dy, width, height, aspect);
    (x, y, most(w, MIN_CROP as int), most(h, MIN_CROP as int))
}

impl Area {
    /// The place and the size as plain numbers.
    pub open spec fn values(self) -> (int, int, int, int) {
        (self.x as int, self.y as int, self.width as int, self.height as int)
    }

    /// Whether the area lies in an image and is no smaller than the smallest crop.
    pub open spec fn is_selection_in(self, width: int, height: int) -> bool {
        &&& 0 <= self.x && self.x + self.width <= width
        &&& 0 <= self.y && self.y + self.height <= height
        &&& self.width >= MIN_CROP
        &&& self.height >= MIN_CROP
    }

    /// Whether the area's numbers are of an ordinary size.
    pub open spec fn is_plain(self) -> bool {
        is_ordinary(self.values())
    }

    /// Looks whether the area's numbers are of an ordinary size.
    fn plain(&self) -> (r: bool)
        ensures
            r == self.is_plain(),
    {
        0 <= self.x && self.x <= REACH && 0 <= self.y && self.y <= REACH && 0 <= self.width
            && self.width <= REACH && 0 <= self.height && self.height <= REACH
    }
}

/// Whether a place and a size are of an ordinary size: inside a quadrant that is
/// far larger than any picture.
pub open spec fn is_ordinary(values: (int, int, int, int)) -> bool {
    &&& 0 <= values.0 <= REACH
    &&& 0 <= values.1 <= REACH
    &&& 0 <= values.2 <= REACH
    &&& 0 <= values.3 <= REACH
}

/// Whether a place and a size can be held in eight bytes each.
pub open spec fn is_held(values: (int, int, int, int)) -> bool {
    &&& i64::MIN <= values.0 <= i64::MAX
    &&& i64::MIN <= values.1 <= i64::MAX
    &&& i64::MIN <= values.2 <= i64::MAX
    &&& i64::MIN <= values.3 <= i64::MAX
}

/// Apply a drag to the selection it started from. `None` where the result cannot be
/// held in eight bytes each.
pub fn drag_crop(
    handle: Handle,
    origin: Area,
    dx: i64,
    dy: i64,
    width: i64,
    height: i64,
    aspect: Option<Aspect>,
) -> (r: Option<Area>)
    requires
        aspect matches Some(shape) ==> shape.is_plain(),
    ensures
        ({
            let values = dragged(
                handle,
                origin,
                dx as int,
                dy as int,
                width as int,
                height as int,
                aspect,
            );
            match r {
                Some(area) => area.values() == values && is_held(values),
                None => !is_held(values),
            }
        }),
{
    let wide: i128 = width as i128;
    let high: i128 = height as i128;
    let (x, y, w, h): (i128, i128, i128, i128) = match handle {
        Handle::Inside => (
            hold(origin.x as i128 + dx as i128, 0, larger(wide - origin.width as i128, 0)),
            hold(origin.y as i128 + dy as i128, 0, larger(high - origin.height as i128, 0)),
            origin.width as i128,
            origin.height as i128,
        ),
        _ => {
            let across = handle.horizontal();
            let down = handle.vertical();
            let (left, right) = drag_span(origin.x, origin.width, dx, width, across);
            let (top, bottom) = drag_span(origin.y, origin.height, dy, height, down);
            match aspect {
                None => (left, top, right - left, bottom - top),
                Some(shape) => {
                    let wanted: i128 = scale(right - left, shape.down, shape.across);
                    let (w, h): (i128, i128) = if wanted <= high {
                        (right - left, wanted)
                    } else {
                        (scale(bottom - top, shape.across, shape.down), bottom - top)
                    };
                    let x: i128 = if across == End::Low { right - w } else { left };
                    let y: i128 = if down == End::Low { bottom - h } else { top };
                    (hold(x, 0, larger(wide - w, 0)), hold(y, 0, larger(high - h, 0)), w, h)
                },
            }
        },
    };
    let w: i128 = larger(w, MIN_CROP as i128);
    let h: i128 = larger(h, MIN_CROP as i128);
    let low: i128 = i64::MIN as i128;
    let high: i128 = i64::MAX as i128;
    if low <= x && x <= high && low <= y && y <= high && w <= high && h <= high {
        Some(Area { x: x as i64, y: y as i64, width: w as i64, height: h as i64 })
    } else {
        None
    }
}

/// Moving a selection keeps its size, and keeps it inside the image.
pub proof fn law_moving_keeps_the_size(
    origin: Area,
    dx: int,
    dy: int,
    width: int,
    height: int,
    aspect: Option<Aspect>,
)
    requires
        origin.is_selection_in(width, height),
    ensures
        ({
            let (x, y, w, h) = dragged(Handle::Inside, origin, dx, dy, width, height, aspect);
            &&& w == origin.width && h == origin.height
            &&& 0 <= x && x + w <= width
            &&& 0 <= y && y + h <= height
        }),
{
}

/// However far a handle is dragged, a free selection stays inside the image and
/// does not collapse: what a drag makes of a selection is a selection.
pub proof fn law_a_free_drag_keeps_a_selection(
    handle: Handle,
    origin: Area,
    dx: int,
    dy: int,
    width: int,
    height: int,
)
    requires
        origin.is_selection_in(width, height),
    ensures
        ({
            let (x, y, w, h) = dragged(handle, origin, dx, dy, width, height, None);
            &&& w >= MIN_CROP && h >= MIN_CROP
            &&& 0 <= x && x + w <= width
            &&& 0 <= y && y + h <= height
            &&& width <= REACH && height <= REACH ==> is_ordinary((x, y, w, h))
        }),
{
}

/// A free drag leaves the edges alone that its handle does not touch.
pub proof fn law_a_free_drag_leaves_the_other_edges(
    handle: Handle,
    origin: Area,
    dx: int,
    dy: int,
    width: int,
    height: int,
)
    requires
        origin.is_selection_in(width, height),
        !(handle is Inside),
    ensures
        ({
            let (x, y, w, h) = dragged(handle, origin, dx, dy, width, height, None);
            &&& !(handle.across() is Low) ==> x == origin.x
            &&& !(handle.across() is High) ==> x + w == origin.x + origin.width
            &&& !(handle.down() is Low) ==> y == origin.y
            &&& !(handle.down() is High) ==> y + h == origin.y + origin.height
        }),
{
}

/// A drag that does not move leaves a free selection as it was.
pub proof fn law_no_movement_changes_nothing(handle: Handle, origin: Area, width: int, height: int)
    requires
        origin.is_selection_in(width, height),
    ensures
        dragged(handle, origin, 0, 0, width, height, None) == origin.values(),
{
}

/// A drag that keeps a shape stays inside the image, and its width and height
/// stand to each other as the shape says, to within the rounding of one unit;
/// provided that neither comes out below the smallest crop.
pub proof fn law_a_shaped_drag_keeps_its_shape(
    handle: Handle,
    origin: Area,
    dx: int,
    dy: int,
    width: int,
    height: int,
    shape: Aspect,
)
    requires
        origin.is_selection_in(width, height),
        shape.is_plain(),
        !(handle is Inside),
        ({
            let (x, y, w, h) = dragged_to(handle, origin, dx, dy, width, height, Some(shape));
            w >= MIN_CROP && h >= MIN_CROP
        }),
    ensures
        ({
            let (x, y, w, h) = dragged(handle, origin, dx, dy, width, height, Some(shape));
            &&& 0 <= x && x + w <= width
            &&& 0 <= y && y + h <= height
            &&& h == scaled(w, shape.down as int, shape.across as int) || w == scaled(
                h,
                shape.across as int,
                shape.down as int,
            )
        }),
{
    let (left, right) = dragged_span(
        origin.x as int,
        origin.x + origin.width,
        dx,
        width,
        handle.across(),
    );
    let (top, bottom) = dragged_span(
        origin.y as int,
        origin.y + origin.height,
        dy,
        height,
        handle.down(),
    );
    let (a, d): (int, int) = (shape.across as int, shape.down as int);
    let wanted = scaled(right - left, d, a);
    if wanted > height {
        // The height that is there falls short of what the width would need, so
        // the width that follows it falls short of the width that is there.
        let w0 = right - left;
        let h0 = bottom - top;
        assert(h0 <= height);
        vstd::arithmetic::div_mod::lemma_fundamental_div_mod(w0 * d, a);
        vstd::arithmetic::div_mod::lemma_mod_bound(w0 * d, a);
        vstd::arithmetic::div_mod::lemma_fundamental_div_mod(h0 * a, d);
        vstd::arithmetic::div_mod::lemma_mod_bound(h0 * a, d);
        assert((h0 * a) / d <= w0) by (nonlinear_arith)
            requires
                h0 < (w0 * d) / a,
                w0 * d == a * ((w0 * d) / a) + (w0 * d) % a,
                0 <= (w0 * d) % a,
                h0 * a == d * ((h0 * a) / d) + (h0 * a) % d,
                0 <= (h0 * a) % d,
                a > 0,
                d > 0,
        ;
    }
}

/// A selection: its rectangle, and the points of its outline.
pub struct Selected {
    pub rect: Area,
    pub path: Seq<Point>,
}

impl View for CropSelection {
    type V = Selected;

    open spec fn view(&self) -> Selected {
        Selected { rect: self.rect, path: self.path@ }
    }
}

/// The smallest of some numbers.
pub open spec fn smallest(numbers: Seq<int>) -> int
    decreases numbers.len(),
{
    if numbers.len() <= 1 {
        numbers[0]
    } else {
        least(smallest(numbers.drop_last()), numbers.last())
    }
}

/// The largest of some numbers.
pub open spec fn largest(numbers: Seq<int>) -> int
    decreases numbers.len(),
{
    if numbers.len() <= 1 {
        numbers[0]
    } else {
        most(largest(numbers.drop_last()), numbers.last())
    }
}

pub open spec fn columns(path: Seq<Point>) -> Seq<int> {
    path.map_values(|p: Point| p.x as int)
}

pub open spec fn rows(path: Seq<Point>) -> Seq<int> {
    path.map_values(|p: Point| p.y as int)
}

/// The box around an outline, a pixel wide and high at least.
pub open spec fn box_around(path: Seq<Point>) -> (int, int, int, int) {
    let left = smallest(columns(path));
    let top = smallest(rows(path));
    (
        left,
        top,
        most(largest(columns(path)) - left, PIXEL as int),
        most(largest(rows(path)) - top, PIXEL as int),
    )
}

/// Whether a point lies inside the largest picture there can be.
pub open spec fn is_placed(p: Point) -> bool {
    0 <= p.x <= REACH && 0 <= p.y <= REACH
}

/// Whether all of an outline does.
pub open spec fn all_placed(path: Seq<Point>) -> bool {
    forall|i: int| 0 <= i < path.len() ==> is_placed(#[trigger] path[i])
}

/// The smallest and the largest number of an outline's points bound them all,
/// and are reached by one.
pub proof fn lemma_extremes(numbers: Seq<int>)
    requires
        numbers.len() > 0,
    ensures
        forall|i: int| 0 <= i < numbers.len() ==> smallest(numbers) <= #[trigger] numbers[i] <= largest(numbers),
        exists|i: int| 0 <= i < numbers.len() && #[trigger] numbers[i] == smallest(numbers),
        exists|i: int| 0 <= i < numbers.len() && #[trigger] numbers[i] == largest(numbers),
    decreases numbers.len(),
{
    if numbers.len() > 1 {
        let fewer = numbers.drop_last();
        lemma_extremes(fewer);
        assert forall|i: int| 0 <= i < numbers.len() implies smallest(numbers) <= #[trigger] numbers[i]
            <= largest(numbers) by {
            if i < fewer.len() {
                assert(fewer[i] == numbers[i]);
            }
        }
        let a = choose|i: int| 0 <= i < fewer.len() && #[trigger] fewer[i] == smallest(fewer);
        let b = choose|i: int| 0 <= i < fewer.len() && #[trigger] fewer[i] == largest(fewer);
        assert(numbers[a] == smallest(fewer));
        assert(numbers[b] == largest(fewer));
        assert(numbers[numbers.len() - 1] == numbers.last());
    } else {
        assert(numbers[0] == smallest(numbers));
    }
}

/// The smallest and the largest coordinates of some points: left, top, right and
/// bottom.
pub fn extremes(path: &Vec<Point>) -> (r: (i64, i64, i64, i64))
    requires
        path@.len() > 0,
    ensures
        r.0 == smallest(columns(path@)),
        r.1 == smallest(rows(path@)),
        r.2 == largest(columns(path@)),
        r.3 == largest(rows(path@)),
{
    let first: Point = path[0];
    let mut left: i64 = first.x;
    let mut right: i64 = first.x;
    let mut top: i64 = first.y;
    let mut bottom: i64 = first.y;
    let mut at: usize = 1;
    proof {
        assert(columns(path@.subrange(0, 1))[0] == first.x);
        assert(rows(path@.subrange(0, 1))[0] == first.y);
    }
    while at < path.len()
        invariant
            1 <= at <= path@.len(),
            left == smallest(columns(path@.subrange(0, at as int))),
            right == largest(columns(path@.subrange(0, at as int))),
            top == smallest(rows(path@.subrange(0, at as int))),
            bottom == largest(rows(path@.subrange(0, at as int))),
        decreases path@.len() - at,
    {
        let p: Point = path[at];
        proof {
            let upto = path@.subrange(0, at as int);
            let more = path@.subrange(0, at + 1);
            assert(columns(more).drop_last() =~= columns(upto));
            assert(rows(more).drop_last() =~= rows(upto));
            assert(columns(more).last() == p.x);
            assert(rows(more).last() == p.y);
        }
        if p.x < left {
            left = p.x;
        }
        if p.x > right {
            right = p.x;
        }
        if p.y < top {
            top = p.y;
        }
        if p.y > bottom {
            bottom = p.y;
        }
        at = at + 1;
    }
    proof {
        assert(path@.subrange(0, at as int) =~= path@);
    }
    (left, top, right, bottom)
}

/// Works out the box around an outline.
fn bound_path(path: &Vec<Point>) -> (r: Area)
    requires
        path@.len() > 0,
        all_placed(path@),
    ensures
        r.values() == box_around(path@),
        0 <= r.x <= REACH && 0 <= r.y <= REACH,
        0 < r.width <= REACH && 0 < r.height <= REACH,
{
    let (left, top, right, bottom) = extremes(path);
    proof {
        lemma_extremes(columns(path@));
        lemma_extremes(rows(path@));
        let a = choose|i: int|
            0 <= i < columns(path@).len() && #[trigger] columns(path@)[i] == smallest(columns(path@));
        let b = choose|i: int|
            0 <= i < columns(path@).len() && #[trigger] columns(path@)[i] == largest(columns(path@));
        let c = choose|i: int|
            0 <= i < rows(path@).len() && #[trigger] rows(path@)[i] == smallest(rows(path@));
        let d = choose|i: int|
            0 <= i < rows(path@).len() && #[trigger] rows(path@)[i] == largest(rows(path@));
        assert(is_placed(path@[a]) && is_placed(path@[b]) && is_placed(path@[c]) && is_placed(path@[d]));
        assert(columns(path@)[0] == path@[0].x);
        assert(rows(path@)[0] == path@[0].y);
    }
    Area {
        x: left,
        y: top,
        width: if right - left >= PIXEL { right - left } else { PIXEL },
        height: if bottom - top >= PIXEL { bottom - top } else { PIXEL },
    }
}

/// Where a drag from the outline's first point has got to, inside the image.
pub open spec fn reached(start: Point, dx: int, dy: int, width: int, height: int) -> Point {
    Point {
        x: held(start.x + dx, 0, width) as i64,
        y: held(start.y + dy, 0, height) as i64,
    }
}

/// Whether two points are more than a pixel apart.
pub open spec fn apart(a: Point, b: Point) -> bool {
    (a.x - b.x) * (a.x - b.x) + (a.y - b.y) * (a.y - b.y) > PIXEL * PIXEL
}

/// An outline with one more point, where that is worth having: a point per
/// pixel of travel is plenty, and keeps the outline cheap.
pub open spec fn extended(path: Seq<Point>, p: Point) -> Seq<Point> {
    if apart(path.last(), p) {
        path.push(p)
    } else {
        path
    }
}

fn is_apart(a: Point, b: Point) -> (r: bool)
    requires
        is_placed(a),
        is_placed(b),
    ensures
        r == apart(a, b),
{
    let dx: i128 = a.x as i128 - b.x as i128;
    let dy: i128 = a.y as i128 - b.y as i128;
    proof {
        assert(0 <= dx * dx <= 0x100_0000_0000 * 0x100_0000_0000) by (nonlinear_arith)
            requires
                -0x100_0000_0000 <= dx <= 0x100_0000_0000,
        ;
        assert(0 <= dy * dy <= 0x100_0000_0000 * 0x100_0000_0000) by (nonlinear_arith)
            requires
                -0x100_0000_0000 <= dy <= 0x100_0000_0000,
        ;
    }
    dx * dx + dy * dy > 65_536 * 65_536
}

/// The tool and what it is doing.
pub struct CropTool {
    /// While this is set, dragging works on the selection instead of panning.
    pub active: bool,
    pub freehand: bool,
    /// The shape to keep, if any.
    pub aspect: Option<Aspect>,
    pub selection: Option<CropSelection>,
    /// What the current drag is moving, and the rectangle it started from.
    pub handle: Option<Handle>,
    pub origin: Area,
}

/// The size of the image as displayed, of an ordinary size.
pub open spec fn is_size(size: Option<(i64, i64)>) -> bool {
    size matches Some((width, height)) ==> 0 <= width <= REACH && 0 <= height <= REACH
}

/// The selection of a tool.
pub open spec fn selected(selection: Option<CropSelection>) -> Option<Selected> {
    match selection {
        Some(crop) => Some(crop@),
        None => None,
    }
}

/// Everything, as a selection.
pub open spec fn everything(width: i64, height: i64) -> Selected {
    Selected { rect: Area { x: 0, y: 0, width, height }, path: Seq::empty() }
}

/// The selection once the tool is put up or away: everything, where it comes up and
/// nothing was selected yet.
pub open spec fn put_up(
    before: Option<Selected>,
    active: bool,
    size: Option<(i64, i64)>,
) -> Option<Selected> {
    if active && before is None {
        match size {
            Some((width, height)) => Some(everything(width, height)),
            None => None,
        }
    } else {
        before
    }
}

/// The selection after a press while the tool is up: an outline starts anew where the
/// pen went down, and a rectangle is only taken hold of.
pub open spec fn pressed(before: Option<Selected>, freehand: bool, at: Point) -> Option<Selected> {
    if freehand {
        Some(
            Selected {
                rect: Area { x: at.x, y: at.y, width: 0, height: 0 },
                path: seq![at],
            },
        )
    } else {
        before
    }
}

/// The selection once the tool changes between an outline and a rectangle.
pub open spec fn switched(
    before: Option<Selected>,
    freehand: bool,
    size: Option<(i64, i64)>,
) -> Option<Selected> {
    if freehand {
        None
    } else {
        match size {
            Some((width, height)) => Some(everything(width, height)),
            None => before,
        }
    }
}

/// The largest rectangle of a shape that fits an image.
pub open spec fn largest_of_shape(width: int, height: int, shape: Aspect) -> (int, int) {
    let h = scaled(width, shape.down as int, shape.across as int);
    if h > height {
        (scaled(height, shape.across as int, shape.down as int), height)
    } else {
        (width, h)
    }
}

/// The largest rectangle of a shape that fits an image, in the middle of it.
pub open spec fn shape_in_middle(width: int, height: int, shape: Aspect) -> (int, int, int, int) {
    let (w, h) = largest_of_shape(width, height, shape);
    ((width - w) / 2, (height - h) / 2, w, h)
}

/// Whether picking a shape, or none, on an image of a size makes one selection of
/// another.
pub open spec fn is_shaped(
    before: Option<Selected>,
    aspect: Option<Aspect>,
    size: Option<(i64, i64)>,
    after: Option<Selected>,
) -> bool {
    match (aspect, size) {
        (Some(shape), Some((width, height))) => after matches Some(crop) && crop.path.len() == 0
            && crop.rect.values() == shape_in_middle(width as int, height as int, shape),
        _ => after == before,
    }
}

impl CropTool {
    /// The selection's numbers are of an ordinary size, and its outline lies in
    /// the picture.
    pub open spec fn wf(self) -> bool {
        &&& self.origin.is_plain()
        &&& self.aspect matches Some(shape) ==> shape.is_plain()
        &&& self.selection matches Some(crop) ==> crop.rect.is_plain() && all_placed(crop.path@)
    }

    /// The tool put away, with nothing selected.
    pub fn new() -> (r: CropTool)
        ensures
            r.wf(),
            !r.active,
            !r.freehand,
            r.aspect is None,
            r.selection is None,
            r.handle is None,
            r.origin == (Area { x: 0, y: 0, width: 0, height: 0 }),
    {
        CropTool {
            active: false,
            freehand: false,
            aspect: None,
            selection: None,
            handle: None,
            origin: Area { x: 0, y: 0, width: 0, height: 0 },
        }
    }

    /// A selection belongs to the picture it was drawn on; its coordinates would
    /// be meaningless against the next one.
    pub fn forget(&mut self)
        requires
            old(self).wf(),
        ensures
            final(self).wf(),
            !final(self).active,
            !final(self).freehand,
            final(self).aspect is None,
            final(self).selection is None,
            final(self).handle == old(self).handle,
            final(self).origin == old(self).origin,
    {
        self.selection = None;
        self.active = false;
        self.freehand = false;
        self.aspect = None;
    }

    /// Back to the whole image.
    pub fn reset_crop(&mut self, size: Option<(i64, i64)>)
        requires
            old(self).wf(),
            is_size(size),
        ensures
            final(self).wf(),
            final(self).active == old(self).active,
            final(self).freehand == old(self).freehand,
            final(self).aspect == old(self).aspect,
            final(self).handle == old(self).handle,
            final(self).origin == old(self).origin,
            selected(final(self).selection) == (match size {
                Some((width, height)) => Some(everything(width, height)),
                None => selected(old(self).selection),
            }),
    {
        if let Some((width, height)) = size {
            let path: Vec<Point> = Vec::new();
            proof {
                assert(path@ =~= Seq::<Point>::empty());
            }
            self.selection = Some(CropSelection { rect: Area { x: 0, y: 0, width, height }, path });
        }
    }

    /// Takes the tool up or puts it away. Taking it up with nothing selected
    /// selects everything.
    pub fn set_cropping(&mut self, active: bool, size: Option<(i64, i64)>)
        requires
            old(self).wf(),
            is_size(size),
        ensures
            final(self).wf(),
            final(self).active == active,
            final(self).freehand == old(self).freehand,
            final(self).aspect == old(self).aspect,
            final(self).handle == old(self).handle,
            final(self).origin == old(self).origin,
            selected(final(self).selection) == put_up(selected(old(self).selection), active, size),
    {
        self.active = active;
        if active && self.selection.is_none() {
            self.reset_crop(size);
        }
    }

    /// Draws outlines rather than rectangles, or the other way round. A freehand
    /// outline replaces any rectangle rather than mixing.
    pub fn set_freehand(&mut self, freehand: bool, size: Option<(i64, i64)>)
        requires
            old(self).wf(),
            is_size(size),
        ensures
            final(self).wf(),
            final(self).active == old(self).active,
            final(self).freehand == freehand,
            final(self).aspect == old(self).aspect,
            final(self).handle == old(self).handle,
            final(self).origin == old(self).origin,
            selected(final(self).selection) == switched(
                selected(old(self).selection),
                freehand,
                size,
            ),
    {
        self.freehand = freehand;
        if freehand {
            self.selection = None;
        } else {
            self.reset_crop(size);
        }
    }

    /// Keeps a shape from here on, starting from the largest rectangle of it
    /// that fits, in the middle. `None` leaves the crop unconstrained.
    pub fn set_aspect(&mut self, aspect: Option<Aspect>, size: Option<(i64, i64)>)
        requires
            old(self).wf(),
            is_size(size),
            aspect matches Some(shape) ==> shape.is_plain(),
        ensures
            final(self).wf(),
            final(self).active == old(self).active,
            final(self).aspect == aspect,
            final(self).freehand == (old(self).freehand && aspect is None),
            final(self).handle == old(self).handle,
            final(self).origin == old(self).origin,
            is_shaped(
                selected(old(self).selection),
                aspect,
                size,
                selected(final(self).selection),
            ),
            (aspect is Some && size is Some) ==> (final(self).selection matches Some(crop)
                && -aspect->0.across - aspect->0.down < crop.rect.width * aspect->0.down
                - crop.rect.height * aspect->0.across < aspect->0.across + aspect->0.down),
    {
        self.aspect = aspect;
        if let Some(shape) = aspect {
            self.freehand = false;
            if let Some((width, height)) = size {
                let mut w: i64 = width;
                let wanted: i128 = scale(width as i128, shape.down, shape.across);
                proof {
                    law_the_largest_of_a_shape_fits(width as int, height as int, shape);
                    law_a_preset_gives_its_shape(width as int, height as int, shape);
                }
                let h: i64 = if wanted > height as i128 {
                    w = scale(height as i128, shape.across, shape.down) as i64;
                    height
                } else {
                    wanted as i64
                };
                let path: Vec<Point> = Vec::new();
                self.selection = Some(
                    CropSelection {
                        rect: Area { x: (width - w) / 2, y: (height - h) / 2, width: w, height: h },
                        path,
                    },
                );
            }
        }
    }

    /// Nothing selected, and the tool put away.
    pub fn clear_crop(&mut self)
        requires
            old(self).wf(),
        ensures
            final(self).wf(),
            !final(self).active,
            final(self).selection is None,
            final(self).freehand == old(self).freehand,
            final(self).aspect == old(self).aspect,
            final(self).handle == old(self).handle,
            final(self).origin == old(self).origin,
    {
        self.selection = None;
        self.active = false;
    }
}

/// The largest rectangle of a shape fits, and fills the image one way at least.
pub proof fn law_the_largest_of_a_shape_fits(width: int, height: int, shape: Aspect)
    requires
        0 <= width,
        0 <= height,
        shape.is_plain(),
    ensures
        ({
            let (w, h) = largest_of_shape(width, height, shape);
            &&& 0 <= w <= width
            &&& 0 <= h <= height
            &&& w == width || h == height
        }),
{
    let (a, d): (int, int) = (shape.across as int, shape.down as int);
    let h = scaled(width, d, a);
    assert(0 <= width * d && 0 <= height * a) by (nonlinear_arith)
        requires
            0 <= width,
            0 <= height,
            0 < a,
            0 < d,
    ;
    vstd::arithmetic::div_mod::lemma_fundamental_div_mod(width * d, a);
    vstd::arithmetic::div_mod::lemma_mod_bound(width * d, a);
    vstd::arithmetic::div_mod::lemma_fundamental_div_mod(height * a, d);
    vstd::arithmetic::div_mod::lemma_mod_bound(height * a, d);
    assert(0 <= (width * d) / a && 0 <= (height * a) / d) by (nonlinear_arith)
        requires
            0 <= width * d,
            0 <= height * a,
            0 < a,
            0 < d,
    ;
    if h > height {
        assert((height * a) / d <= width) by (nonlinear_arith)
            requires
                height < (width * d) / a,
                width * d == a * ((width * d) / a) + (width * d) % a,
                0 <= (width * d) % a,
                height * a == d * ((height * a) / d) + (height * a) % d,
                0 <= (height * a) % d,
                a > 0,
                d > 0,
        ;
    }
}

/// Where a selection's edges are on screen.
#[derive(Clone, Copy, PartialEq, Eq, Structural, Debug)]
pub struct Edges {
    pub left: i64,
    pub top: i64,
    pub right: i64,
    pub bottom: i64,
}

/// Whether two points on screen are within a handle's reach of each other.
pub open spec fn is_near(p: Point, x: int, y: int) -> bool {
    -HANDLE_GRAB <= p.x - x <= HANDLE_GRAB && -HANDLE_GRAB <= p.y - y <= HANDLE_GRAB
}

/// Which part of a selection is under a point on screen. A handle wins over the
/// inside, and an earlier one in going round from the top left over a later one.
pub open spec fn part_under(p: Point, e: Edges) -> Option<Handle> {
    let middle = (e.left + e.right) / 2;
    let level = (e.top + e.bottom) / 2;
    if is_near(p, e.left as int, e.top as int) {
        Some(Handle::NorthWest)
    } else if is_near(p, middle, e.top as int) {
        Some(Handle::North)
    } else if is_near(p, e.right as int, e.top as int) {
        Some(Handle::NorthEast)
    } else if is_near(p, e.right as int, level) {
        Some(Handle::East)
    } else if is_near(p, e.right as int, e.bottom as int) {
        Some(Handle::SouthEast)
    } else if is_near(p, middle, e.bottom as int) {
        Some(Handle::South)
    } else if is_near(p, e.left as int, e.bottom as int) {
        Some(Handle::SouthWest)
    } else if is_near(p, e.left as int, level) {
        Some(Handle::West)
    } else if e.left <= p.x <= e.right && e.top <= p.y <= e.bottom {
        Some(Handle::Inside)
    } else {
        None
    }
}

fn near(p: Point, x: i64, y: i64) -> (r: bool)
    ensures
        r == is_near(p, x as int, y as int),
{
    let dx: i128 = p.x as i128 - x as i128;
    let dy: i128 = p.y as i128 - y as i128;
    let reach: i128 = HANDLE_GRAB as i128;
    -reach <= dx && dx <= reach && -reach <= dy && dy <= reach
}

/// The number half-way between two, rounded down.
fn half_way(a: i64, b: i64) -> (r: i64)
    ensures
        r == (a + b) / 2,
{
    let sum: i128 = a as i128 + b as i128;
    if sum >= 0 {
        (sum / 2) as i64
    } else {
        (-((1 - sum) / 2)) as i64
    }
}

/// Which part of the selection is under the pointer, if any.
pub fn handle_at(p: Point, edges: Edges) -> (r: Option<Handle>)
    ensures
        r == part_under(p, edges),
{
    let middle: i64 = half_way(edges.left, edges.right);
    let level: i64 = half_way(edges.top, edges.bottom);
    if near(p, edges.left, edges.top) {
        Some(Handle::NorthWest)
    } else if near(p, middle, edges.top) {
        Some(Handle::North)
    } else if near(p, edges.right, edges.top) {
        Some(Handle::NorthEast)
    } else if near(p, edges.right, level) {
        Some(Handle::East)
    } else if near(p, edges.right, edges.bottom) {
        Some(Handle::SouthEast)
    } else if near(p, middle, edges.bottom) {
        Some(Handle::South)
    } else if near(p, edges.left, edges.bottom) {
        Some(Handle::SouthWest)
    } else if near(p, edges.left, level) {
        Some(Handle::West)
    } else if edges.left <= p.x && p.x <= edges.right && edges.top <= p.y && p.y <= edges.bottom {
        Some(Handle::Inside)
    } else {
        None
    }
}

/// The pointer that names a gesture: a corner pulls diagonally, an edge one way,
/// the middle moves.
pub open spec fn cursor_name(freehand: bool, under: Option<Handle>) -> Seq<char> {
    if freehand {
        "crosshair"@
    } else {
        match under {
            Some(Handle::NorthWest) | Some(Handle::SouthEast) => "nwse-resize"@,
            Some(Handle::NorthEast) | Some(Handle::SouthWest) => "nesw-resize"@,
            Some(Handle::North) | Some(Handle::South) => "ns-resize"@,
            Some(Handle::East) | Some(Handle::West) => "ew-resize"@,
            Some(Handle::Inside) => "move"@,
            None => "crosshair"@,
        }
    }
}

/// Which pointer the canvas shows.
pub fn cursor(cropping: bool, freehand: bool, under: Option<Handle>, pannable: bool) -> (r: Option<
    &'static str,
>)
    ensures
        match r {
            Some(name) => name@ == (if cropping { cursor_name(freehand, under) } else { "grab"@ }) && (cropping
                || pannable),
            None => !cropping && !pannable,
        },
{
    if cropping {
        if freehand {
            return Some("crosshair");
        }
        return Some(
            match under {
                Some(Handle::NorthWest) | Some(Handle::SouthEast) => "nwse-resize",
                Some(Handle::NorthEast) | Some(Handle::SouthWest) => "nesw-resize",
                Some(Handle::North) | Some(Handle::South) => "ns-resize",
                Some(Handle::East) | Some(Handle::West) => "ew-resize",
                Some(Handle::Inside) => "move",
                None => "crosshair",
            },
        );
    }
    if pannable {
        Some("grab")
    } else {
        None
    }
}

/// A length in whole pixels, the larger of two as near, one at least and no more
/// than a picture can have.
pub open spec fn whole_pixels(length: int) -> int {
    held((2 * length + PIXEL) / (2 * PIXEL), 1, u32::MAX as int)
}

fn to_pixels(length: i64) -> (r: u32)
    requires
        0 <= length <= REACH,
    ensures
        r == whole_pixels(length as int),
{
    let near: i64 = (2 * length + PIXEL) / (2 * PIXEL);
    if near < 1 {
        1
    } else {
        near as u32
    }
}

impl CropTool {
    /// The selection's size in pixels, as a person is shown it.
    pub fn selection_size(&self) -> (r: Option<(u32, u32)>)
        requires
            self.wf(),
        ensures
            match (self.selection, r) {
                (Some(crop), Some((width, height))) => width == whole_pixels(crop.rect.width as int)
                    && height == whole_pixels(crop.rect.height as int),
                (None, None) => true,
                _ => false,
            },
    {
        match &self.selection {
            Some(crop) => Some((to_pixels(crop.rect.width), to_pixels(crop.rect.height))),
            None => None,
        }
    }

    /// A press while the tool is up: a fresh outline at the pen-down point, or
    /// hold of whatever part of the selection is under it.
    pub fn press(&mut self, at: Point, under: Option<Handle>)
        requires
            old(self).wf(),
            is_placed(at),
        ensures
            final(self).wf(),
            final(self).active == old(self).active,
            final(self).freehand == old(self).freehand,
            final(self).aspect == old(self).aspect,
            !old(self).active ==> *final(self) == *old(self),
            old(self).active ==> selected(final(self).selection) == pressed(
                selected(old(self).selection),
                old(self).freehand,
                at,
            ),
            old(self).active && old(self).freehand ==> final(self).handle is None && final(self).origin
                == old(self).origin,
            old(self).active && !old(self).freehand ==> final(self).handle == under
                && final(self).origin == (match old(self).selection {
                Some(crop) => crop.rect,
                None => old(self).origin,
            }),
    {
        if !self.active {
            return;
        }
        if self.freehand {
            let path: Vec<Point> = vec![at];
            proof {
                assert(path@ =~= seq![at]);
            }
            self.selection = Some(
                CropSelection { rect: Area { x: at.x, y: at.y, width: 0, height: 0 }, path },
            );
            self.handle = None;
            return;
        }
        self.handle = under;
        if let Some(crop) = &self.selection {
            self.origin = crop.rect;
        }
    }

    /// Add a point to a freehand outline, tracking its box as it goes.
    fn extend_freehand(&mut self, dx: i64, dy: i64, width: i64, height: i64)
        requires
            old(self).wf(),
            -REACH <= dx <= REACH,
            -REACH <= dy <= REACH,
            0 <= width <= REACH,
            0 <= height <= REACH,
        ensures
            final(self).wf(),
            final(self).active == old(self).active,
            final(self).freehand == old(self).freehand,
            final(self).aspect == old(self).aspect,
            final(self).handle == old(self).handle,
            final(self).origin == old(self).origin,
            match old(self).selection {
                Some(crop) => if crop.path@.len() > 0 {
                    let path = extended(
                        crop.path@,
                        reached(crop.path@[0], dx as int, dy as int, width as int, height as int),
                    );
                    final(self).selection matches Some(next) && next.path@ == path
                        && next.rect.values() == box_around(path)
                } else {
                    selected(final(self).selection) == selected(old(self).selection)
                },
                None => final(self).selection is None,
            },
    {
        let taken = self.selection.take();
        if let Some(crop) = taken {
            let mut path = crop.path;
            let mut rect = crop.rect;
            if path.len() > 0 {
                let start: Point = path[0];
                proof {
                    assert(is_placed(path@[0]));
                    assert(is_placed(path@[path@.len() - 1]));
                }
                let p = Point {
                    x: hold(start.x as i128 + dx as i128, 0, width as i128) as i64,
                    y: hold(start.y as i128 + dy as i128, 0, height as i128) as i64,
                };
                if is_apart(path[path.len() - 1], p) {
                    path.push(p);
                }
                rect = bound_path(&path);
            }
            self.selection = Some(CropSelection { rect, path });
        }
    }

    /// A drag while the tool is up: a longer outline, or the selection moved or
    /// resized. Says whether there was anything to do.
    pub fn drag(&mut self, dx: i64, dy: i64, size: Option<(i64, i64)>) -> (r: bool)
        requires
            old(self).wf(),
            is_size(size),
            -REACH <= dx <= REACH,
            -REACH <= dy <= REACH,
        ensures
            final(self).wf(),
            final(self).active == old(self).active,
            final(self).freehand == old(self).freehand,
            final(self).aspect == old(self).aspect,
            final(self).handle == old(self).handle,
            final(self).origin == old(self).origin,
            r == (old(self).active && size is Some && if old(self).freehand {
                old(self).selection matches Some(crop) && crop.path@.len() > 0
            } else {
                old(self).handle is Some && is_ordinary(
                    dragged(
                        old(self).handle->0,
                        old(self).origin,
                        dx as int,
                        dy as int,
                        (size->0).0 as int,
                        (size->0).1 as int,
                        old(self).aspect,
                    ),
                )
            }),
            !r ==> selected(final(self).selection) == selected(old(self).selection),
            r && old(self).freehand ==> ({
                let path = extended(
                    old(self).selection->0.path@,
                    reached(
                        old(self).selection->0.path@[0],
                        dx as int,
                        dy as int,
                        (size->0).0 as int,
                        (size->0).1 as int,
                    ),
                );
                final(self).selection matches Some(next) && next.path@ == path && next.rect.values()
                    == box_around(path)
            }),
            r && !old(self).freehand ==> (final(self).selection matches Some(next) && next.path@.len()
                == 0 && next.rect.values() == dragged(
                old(self).handle->0,
                old(self).origin,
                dx as int,
                dy as int,
                (size->0).0 as int,
                (size->0).1 as int,
                old(self).aspect,
            )),
    {
        if !self.active {
            return false;
        }
        let (width, height): (i64, i64) = match size {
            Some(size) => size,
            None => return false,
        };
        if self.freehand {
            let drawing = match &self.selection {
                Some(crop) => crop.path.len() > 0,
                None => false,
            };
            self.extend_freehand(dx, dy, width, height);
            return drawing;
        }
        match self.handle {
            Some(handle) => {
                match drag_crop(handle, self.origin, dx, dy, width, height, self.aspect) {
                    Some(rect) => if rect.plain() {
                        self.selection = Some(CropSelection { rect, path: Vec::new() });
                        true
                    } else {
                        false
                    },
                    None => false,
                }
            },
            None => false,
        }
    }
}

/// A shape that is picked is the shape that is selected: so many wide to so many
/// high, to within the rounding of one unit. The selection lies in the image, fills
/// it one way, has as much room on one side as on the other, and no rectangle of
/// that shape is larger.
pub proof fn law_a_preset_gives_its_shape(width: int, height: int, shape: Aspect)
    requires
        0 <= width,
        0 <= height,
        shape.is_plain(),
    ensures
        ({
            let (x, y, w, h) = shape_in_middle(width, height, shape);
            let slant = w * shape.down - h * shape.across;
            &&& -(shape.down as int) < slant < shape.across
            &&& 0 <= x && 0 <= w && 0 <= width - (2 * x + w) <= 1
            &&& 0 <= y && 0 <= h && 0 <= height - (2 * y + h) <= 1
            &&& w == width || h == height
            &&& forall|u: int, v: int|
                0 <= u <= width && 0 <= v <= height && #[trigger] (u * shape.down) == #[trigger] (v
                    * shape.across) ==> u <= w && v <= h
        }),
{
    law_the_largest_of_a_shape_fits(width, height, shape);
    let (a, d): (int, int) = (shape.across as int, shape.down as int);
    let (x, y, w, h) = shape_in_middle(width, height, shape);
    vstd::arithmetic::div_mod::lemma_fundamental_div_mod(width * d, a);
    vstd::arithmetic::div_mod::lemma_mod_bound(width * d, a);
    vstd::arithmetic::div_mod::lemma_fundamental_div_mod(height * a, d);
    vstd::arithmetic::div_mod::lemma_mod_bound(height * a, d);
    let slant = w * d - h * a;
    if scaled(width, d, a) > height {
        assert(h * a == d * w + (height * a) % d);
        assert(d * w == w * d) by (nonlinear_arith);
        assert(-d < slant <= 0);
    } else {
        assert(w * d == a * h + (width * d) % a);
        assert(a * h == h * a) by (nonlinear_arith);
        assert(0 <= slant < a);
    }
    assert forall|u: int, v: int|
        0 <= u <= width && 0 <= v <= height && #[trigger] (u * shape.down) == #[trigger] (v
            * shape.across) implies u <= w && v <= h by {
        if w == width && h == height {
        } else if scaled(width, d, a) > height {
            assert(u <= w) by (nonlinear_arith)
                requires
                    u * d == v * a,
                    v <= h,
                    h * a - w * d < d,
                    a > 0,
                    d > 0,
            ;
        } else {
            assert(v <= h) by (nonlinear_arith)
                requires
                    u * d == v * a,
                    u <= w,
                    w * d - h * a < a,
                    a > 0,
                    d > 0,
            ;
        }
    }
}

/// A selection that a drag shapes has so many wide to so many high, to within the
/// rounding of one unit; provided that neither comes out below the smallest crop.
pub proof fn law_a_dragged_shape_is_the_shape(
    handle: Handle,
    origin: Area,
    dx: int,
    dy: int,
    width: int,
    height: int,
    shape: Aspect,
)
    requires
        origin.is_selection_in(width, height),
        shape.is_plain(),
        handle != Handle::Inside,
        ({
            let (x, y, w, h) = dragged(handle, origin, dx, dy, width, height, Some(shape));
            w > MIN_CROP && h > MIN_CROP
        }),
    ensures
        ({
            let (x, y, w, h) = dragged(handle, origin, dx, dy, width, height, Some(shape));
            let slant = w * shape.down - h * shape.across;
            -(shape.down as int) < slant < shape.across
        }),
{
    let (a, d): (int, int) = (shape.across as int, shape.down as int);
    law_a_shaped_drag_keeps_its_shape(handle, origin, dx, dy, width, height, shape);
    let (x, y, w, h) = dragged(handle, origin, dx, dy, width, height, Some(shape));
    vstd::arithmetic::div_mod::lemma_fundamental_div_mod(w * d, a);
    vstd::arithmetic::div_mod::lemma_mod_bound(w * d, a);
    vstd::arithmetic::div_mod::lemma_fundamental_div_mod(h * a, d);
    vstd::arithmetic::div_mod::lemma_mod_bound(h * a, d);
    assert(d * ((h * a) / d) == ((h * a) / d) * d) by (nonlinear_arith);
    assert(a * ((w * d) / a) == ((w * d) / a) * a) by (nonlinear_arith);
}

/// A free drag takes the edges of its handle along with the pointer, as far as the
/// image and the smallest crop let it, and no others: the western handles the left
/// edge, the eastern ones the right, the northern ones the top, the southern ones
/// the bottom, and the inside all four.
pub proof fn law_edges_follow_the_pointer(
    handle: Handle,
    origin: Area,
    dx: int,
    dy: int,
    width: int,
    height: int,
)
    requires
        origin.is_selection_in(width, height),
    ensures
        ({
            let (x, y, w, h) = dragged(handle, origin, dx, dy, width, height, None);
            let (right, bottom) = (origin.x + origin.width, origin.y + origin.height);
            let west = handle == Handle::NorthWest || handle == Handle::West || handle
                == Handle::SouthWest;
            let east = handle == Handle::NorthEast || handle == Handle::East || handle
                == Handle::SouthEast;
            let north = handle == Handle::NorthWest || handle == Handle::North || handle
                == Handle::NorthEast;
            let south = handle == Handle::SouthWest || handle == Handle::South || handle
                == Handle::SouthEast;
            &&& west && 0 <= origin.x + dx && dx <= origin.width - MIN_CROP ==> x == origin.x + dx
                && x + w == right
            &&& east && right + dx <= width && -dx <= origin.width - MIN_CROP ==> x == origin.x && x
                + w == right + dx
            &&& north && 0 <= origin.y + dy && dy <= origin.height - MIN_CROP ==> y == origin.y + dy
                && y + h == bottom
            &&& south && bottom + dy <= height && -dy <= origin.height - MIN_CROP ==> y == origin.y
                && y + h == bottom + dy
            &&& handle == Handle::North || handle == Handle::South ==> x == origin.x && w
                == origin.width
            &&& handle == Handle::East || handle == Handle::West ==> y == origin.y && h
                == origin.height
            &&& handle == Handle::Inside && 0 <= origin.x + dx && right + dx <= width ==> x
                == origin.x + dx && w == origin.width
            &&& handle == Handle::Inside && 0 <= origin.y + dy && bottom + dy <= height ==> y
                == origin.y + dy && h == origin.height
        }),
{
}

/// The handles stand where their names say: at the corners and at the middles of
/// the edges, a selection's inside between them, and nothing further than a handle
/// reaches from it.
pub proof fn law_handles_stand_round_the_edge(e: Edges, p: Point)
    requires
        e.left + 4 * HANDLE_GRAB + 4 <= e.right,
        e.top + 4 * HANDLE_GRAB + 4 <= e.bottom,
    ensures
        p.x == e.left && p.y == e.top ==> part_under(p, e) == Some(Handle::NorthWest),
        p.x == e.right && p.y == e.top ==> part_under(p, e) == Some(Handle::NorthEast),
        p.x == e.left && p.y == e.bottom ==> part_under(p, e) == Some(Handle::SouthWest),
        p.x == e.right && p.y == e.bottom ==> part_under(p, e) == Some(Handle::SouthEast),
        2 * p.x == e.left + e.right && p.y == e.top ==> part_under(p, e) == Some(Handle::North),
        2 * p.x == e.left + e.right && p.y == e.bottom ==> part_under(p, e) == Some(Handle::South),
        p.x == e.left && 2 * p.y == e.top + e.bottom ==> part_under(p, e) == Some(Handle::West),
        p.x == e.right && 2 * p.y == e.top + e.bottom ==> part_under(p, e) == Some(Handle::East),
        e.left + HANDLE_GRAB < p.x < e.right - HANDLE_GRAB && e.top + HANDLE_GRAB < p.y < e.bottom
            - HANDLE_GRAB ==> part_under(p, e) == Some(Handle::Inside),
        p.x < e.left - HANDLE_GRAB || p.x > e.right + HANDLE_GRAB || p.y < e.top - HANDLE_GRAB || p.y
            > e.bottom + HANDLE_GRAB ==> part_under(p, e) is None,
{
}

/// The pointer over a handle is that of the opposite handle, since both pull along
/// the same line, and differs from that of every other handle.
pub proof fn law_opposite_handles_share_a_pointer()
    ensures
        cursor_name(false, Some(Handle::NorthWest)) == cursor_name(false, Some(Handle::SouthEast)),
        cursor_name(false, Some(Handle::NorthEast)) == cursor_name(false, Some(Handle::SouthWest)),
        cursor_name(false, Some(Handle::North)) == cursor_name(false, Some(Handle::South)),
        cursor_name(false, Some(Handle::East)) == cursor_name(false, Some(Handle::West)),
        cursor_name(false, Some(Handle::NorthWest)) == "nwse-resize"@,
        cursor_name(false, Some(Handle::NorthEast)) == "nesw-resize"@,
        cursor_name(false, Some(Handle::North)) == "ns-resize"@,
        cursor_name(false, Some(Handle::East)) == "ew-resize"@,
        cursor_name(false, Some(Handle::Inside)) == "move"@,
        cursor_name(false, None) == "crosshair"@,
        forall|under: Option<Handle>| #[trigger] cursor_name(true, under) == "crosshair"@,
{
}

/// The box around a freehand outline holds all of it and no more: every point lies
/// in it, and a point lies on each of its edges, unless the box is as narrow as a
/// pixel.
pub proof fn law_the_box_holds_the_outline(path: Seq<Point>)
    requires
        path.len() > 0,
    ensures
        ({
            let (x, y, w, h) = box_around(path);
            &&& w >= PIXEL && h >= PIXEL
            &&& forall|i: int|
                0 <= i < path.len() ==> x <= (#[trigger] path[i]).x <= x + w && y <= path[i].y <= y + h
            &&& exists|i: int| 0 <= i < path.len() && (#[trigger] path[i]).x == x
            &&& exists|i: int| 0 <= i < path.len() && (#[trigger] path[i]).y == y
            &&& w > PIXEL ==> exists|i: int| 0 <= i < path.len() && (#[trigger] path[i]).x == x + w
            &&& h > PIXEL ==> exists|i: int| 0 <= i < path.len() && (#[trigger] path[i]).y == y + h
        }),
{
    let (xs, ys) = (columns(path), rows(path));
    lemma_extremes(xs);
    lemma_extremes(ys);
    assert forall|i: int| 0 <= i < path.len() implies smallest(xs) <= (#[trigger] path[i]).x
        <= largest(xs) && smallest(ys) <= path[i].y <= largest(ys) by {
        assert(xs[i] == path[i].x && ys[i] == path[i].y);
    }
    let a = choose|i: int| 0 <= i < xs.len() && #[trigger] xs[i] == smallest(xs);
    let b = choose|i: int| 0 <= i < xs.len() && #[trigger] xs[i] == largest(xs);
    let c = choose|i: int| 0 <= i < ys.len() && #[trigger] ys[i] == smallest(ys);
    let d = choose|i: int| 0 <= i < ys.len() && #[trigger] ys[i] == largest(ys);
    assert(path[a].x == smallest(xs) && path[b].x == largest(xs));
    assert(path[c].y == smallest(ys) && path[d].y == largest(ys));
}

/// A freehand outline goes where the pointer goes, as long as that is in the image,
/// and to the edge of the image where it is not; its points stay, and each is more
/// than a pixel away from the one before.
pub proof fn law_an_outline_follows_the_pen(
    path: Seq<Point>,
    dx: int,
    dy: int,
    width: int,
    height: int,
)
    requires
        path.len() > 0,
        0 <= width <= REACH,
        0 <= height <= REACH,
    ensures
        ({
            let p = reached(path[0], dx, dy, width, height);
            let longer = extended(path, p);
            let (u, v) = (path[0].x + dx, path[0].y + dy);
            let last = path.last();
            &&& 0 <= u <= width ==> p.x == u
            &&& 0 <= v <= height ==> p.y == v
            &&& u < 0 ==> p.x == 0
            &&& v < 0 ==> p.y == 0
            &&& u > width ==> p.x == width
            &&& v > height ==> p.y == height
            &&& longer == path || longer == path.push(p)
            &&& last.x - p.x > PIXEL || p.x - last.x > PIXEL || last.y - p.y > PIXEL || p.y - last.y
                > PIXEL ==> longer == path.push(p)
            &&& 2 * (last.x - p.x) <= PIXEL && 2 * (p.x - last.x) <= PIXEL && 2 * (last.y - p.y)
                <= PIXEL && 2 * (p.y - last.y) <= PIXEL ==> longer == path
        }),
{
    let p = reached(path[0], dx, dy, width, height);
    let (a, b): (int, int) = (path.last().x - p.x, path.last().y - p.y);
    assert(a * a >= 0 && b * b >= 0) by (nonlinear_arith);
    if a > PIXEL || -a > PIXEL {
        assert(a * a > 65_536 * 65_536) by (nonlinear_arith)
            requires
                a > 65_536 || -a > 65_536,
        ;
    }
    if b > PIXEL || -b > PIXEL {
        assert(b * b > 65_536 * 65_536) by (nonlinear_arith)
            requires
                b > 65_536 || -b > 65_536,
        ;
    }
    if 2 * a <= PIXEL && -2 * a <= PIXEL && 2 * b <= PIXEL && -2 * b <= PIXEL {
        assert(a * a <= 32_768 * 32_768) by (nonlinear_arith)
            requires
                -32_768 <= a <= 32_768,
        ;
        assert(b * b <= 32_768 * 32_768) by (nonlinear_arith)
            requires
                -32_768 <= b <= 32_768,
        ;
    }
}

/// A size is shown to the nearest pixel: half a pixel off at most, unless that
/// leaves none.
pub proof fn law_a_size_is_shown_to_the_nearest_pixel(length: int)
    requires
        0 <= length <= REACH,
    ensures
        whole_pixels(length) >= 1,
        2 * length >= PIXEL ==> -PIXEL < 2 * (whole_pixels(length) * PIXEL - length) <= PIXEL,
        2 * length < PIXEL ==> whole_pixels(length) == 1,
        length % PIXEL as int == 0 && length > 0 ==> whole_pixels(length) * PIXEL == length,
{
    let near = (2 * length + 65_536) / 131_072;
    assert(near == (2 * length + PIXEL) / (2 * PIXEL as int));
    assert(near <= 0x200_0000);
    let shown = whole_pixels(length);
    assert(shown * PIXEL == 65_536 * shown);
    if 2 * length >= PIXEL {
        assert(near >= 1);
        assert(shown == near);
    }
}

/// Selecting everything selects every point of the image and none beyond it.
pub proof fn law_everything_is_the_image(width: i64, height: i64)
    ensures
        everything(width, height).rect.x == 0,
        everything(width, height).rect.y == 0,
        everything(width, height).rect.width == width,
        everything(width, height).rect.height == height,
        everything(width, height).path.len() == 0,
{
}

/// Putting the tool away and up again, or up twice, leaves a selection as it was, even
/// on an image of another size; the first time it starts from the whole image.
pub proof fn law_a_selection_outlasts_the_tool(
    before: Option<Selected>,
    size: Option<(i64, i64)>,
    other: Option<(i64, i64)>,
)
    ensures
        put_up(before, false, size) == before,
        put_up(put_up(before, false, size), true, other) == put_up(before, true, other),
        put_up(before, true, size) is Some ==> put_up(put_up(before, true, size), true, other)
            == put_up(before, true, size),
        before is Some ==> put_up(before, true, size) == before,
        before is None ==> match (put_up(before, true, size), size) {
            (Some(all), Some((width, height))) => all.path.len() == 0 && all.rect.values() == (
                0int,
                0int,
                width as int,
                height as int,
            ),
            (None, None) => true,
            _ => false,
        },
{
}

/// An outline starts from nothing, whatever was selected, and giving it up selects the
/// whole image.
pub proof fn law_an_outline_starts_from_nothing(
    before: Option<Selected>,
    width: i64,
    height: i64,
)
    ensures
        switched(before, true, Some((width, height))) is None,
        switched(before, true, None) is None,
        switched(before, false, Some((width, height))) matches Some(all) && all.path.len() == 0
            && all.rect.values() == (0int, 0int, width as int, height as int),
        switched(before, false, None) == before,
{
}

/// A shape takes hold of the selection only together with an image, and no shape at all
/// leaves the selection as it is.
pub proof fn law_no_shape_leaves_the_selection(
    before: Option<Selected>,
    aspect: Option<Aspect>,
    size: Option<(i64, i64)>,
    after: Option<Selected>,
)
    requires
        is_shaped(before, aspect, size, after),
    ensures
        aspect is None || size is None ==> after == before,
        aspect is Some && size is Some ==> after is Some && after->0.path.len() == 0,
{
}

/// A pen that goes down starts one outline, at that point, and nothing is left of an
/// earlier one; a press with the rectangle selects nothing yet.
pub proof fn law_a_pen_starts_one_outline(before: Option<Selected>, at: Point)
    ensures
        pressed(before, true, at) matches Some(crop) && crop.path.len() == 1 && crop.path[0] == at
            && crop.rect.values() == (at.x as int, at.y as int, 0int, 0int),
        pressed(before, true, at) == pressed(None, true, at),
        pressed(before, false, at) == before,
{
}

} // verus!
