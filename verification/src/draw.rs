//! Drawing and annotation.
//!
//! A mark is kept as what it is, a tool, a few points and a width, not as
//! pixels, so it can be undone and the picture underneath is untouched until
//! something bakes it in.

use vstd::prelude::*;

use crate::crop::{
    columns, extremes, largest, least, lemma_extremes, most, rows, smallest, Area, Point, PIXEL, REACH,
};
use crate::double::whole_root;

verus! {

/// Arrow heads are sized from the line, seven halves of its width, with a floor
/// so a thin arrow still has a head worth seeing.
pub const HEAD_MINIMUM: i64 = 10 * 65_536;

/// Half the angle the head opens to is 0.44: its cosine and its sine, in parts
/// of 2^30.
pub const HEAD_ALONG: i64 = 971_469_701;

pub const HEAD_ASIDE: i64 = 457_349_018;

/// The reach of the curves that make up an ellipse, in parts of 10^11 of its
/// half axes: four of them are an ellipse to within a fraction of a pixel.
pub const KAPPA: i128 = 55_228_474_983;

#[derive(Clone, Copy, PartialEq, Eq, Structural, Debug)]
pub enum Tool {
    Pen,
    Highlighter,
    Line,
    Arrow,
    Rectangle,
    Ellipse,
}

/// The tools, in the order in which they are offered.
pub open spec fn tool_order() -> Seq<Tool> {
    seq![
        Tool::Pen,
        Tool::Highlighter,
        Tool::Line,
        Tool::Arrow,
        Tool::Rectangle,
        Tool::Ellipse,
    ]
}

/// The tools on offer, in order.
pub fn tools() -> (r: Vec<Tool>)
    ensures
        r@ == tool_order(),
{
    let list = vec![
        Tool::Pen,
        Tool::Highlighter,
        Tool::Line,
        Tool::Arrow,
        Tool::Rectangle,
        Tool::Ellipse,
    ];
    proof {
        assert(list@ =~= seq![
            Tool::Pen,
            Tool::Highlighter,
            Tool::Line,
            Tool::Arrow,
            Tool::Rectangle,
            Tool::Ellipse,
        ]);
    }
    list
}

impl Tool {
    /// What the tool is called.
    pub open spec fn name(self) -> Seq<char> {
        match self {
            Tool::Pen => "Pen"@,
            Tool::Highlighter => "Highlighter"@,
            Tool::Line => "Line"@,
            Tool::Arrow => "Arrow"@,
            Tool::Rectangle => "Rectangle"@,
            Tool::Ellipse => "Ellipse"@,
        }
    }

    /// The icon the tool goes by.
    pub open spec fn icon_name(self) -> Seq<char> {
        match self {
            Tool::Pen => "document-edit-symbolic"@,
            Tool::Highlighter => "format-justify-fill-symbolic"@,
            Tool::Line => "format-text-strikethrough-symbolic"@,
            Tool::Arrow => "go-next-symbolic"@,
            Tool::Rectangle => "view-grid-symbolic"@,
            Tool::Ellipse => "circle-outline-thick-symbolic"@,
        }
    }

    pub fn label(self) -> (r: &'static str)
        ensures
            r@ == self.name(),
    {
        match self {
            Tool::Pen => "Pen",
            Tool::Highlighter => "Highlighter",
            Tool::Line => "Line",
            Tool::Arrow => "Arrow",
            Tool::Rectangle => "Rectangle",
            Tool::Ellipse => "Ellipse",
        }
    }

    pub fn icon(self) -> (r: &'static str)
        ensures
            r@ == self.icon_name(),
    {
        match self {
            Tool::Pen => "document-edit-symbolic",
            Tool::Highlighter => "format-justify-fill-symbolic",
            Tool::Line => "format-text-strikethrough-symbolic",
            Tool::Arrow => "go-next-symbolic",
            Tool::Rectangle => "view-grid-symbolic",
            Tool::Ellipse => "circle-outline-thick-symbolic",
        }
    }

    /// Whether the tool keeps every point the pointer visited.
    pub open spec fn is_freehand(self) -> bool {
        self is Pen || self is Highlighter
    }

    /// Freehand tools keep every point the pointer visited. The rest need only
    /// where the drag started and where it has got to.
    pub fn freehand(self) -> (r: bool)
        ensures
            r == self.is_freehand(),
    {
        match self {
            Tool::Pen | Tool::Highlighter => true,
            _ => false,
        }
    }
}

/// Something drawn on the picture.
pub struct Mark {
    pub tool: Tool,
    /// In display space, the frame the pointer is in.
    pub points: Vec<Point>,
    pub width: i64,
    /// When this was drawn, so that marks and text stack in the order they were
    /// made rather than by which list they live in.
    pub sequence: u64,
}

/// Whether a point's numbers are of an ordinary size.
pub open spec fn is_ordinary(p: Point) -> bool {
    -REACH <= p.x <= REACH && -REACH <= p.y <= REACH
}

/// How far two numbers are apart.
pub open spec fn gap(a: int, b: int) -> int {
    if a >= b {
        a - b
    } else {
        b - a
    }
}

/// Points with one more of a drag: a freehand line leaves out those that have
/// barely moved, and a shape keeps only the two that matter.
pub open spec fn drawn_to(points: Seq<Point>, freehand: bool, p: Point) -> Seq<Point> {
    if freehand {
        if points.len() > 0 && 2 * gap(points.last().x as int, p.x as int) < PIXEL && 2 * gap(
            points.last().y as int,
            p.y as int,
        ) < PIXEL {
            points
        } else {
            points.push(p)
        }
    } else if points.len() < 2 {
        points.push(p)
    } else {
        points.update(points.len() - 1, p)
    }
}

/// How far two coordinates of an ordinary size are apart.
fn distance(a: i64, b: i64) -> (r: i64)
    requires
        -REACH <= a <= REACH,
        -REACH <= b <= REACH,
    ensures
        r == gap(a as int, b as int),
        0 <= r <= 2 * REACH,
{
    if a >= b {
        a - b
    } else {
        b - a
    }
}

/// How long a direction is drawn out, so that its length is known well as a whole
/// number: 2^32 at least.
pub const DRAWN_OUT: u128 = 0x1_0000_0000_0000_0000;

/// A direction doubled until it is long enough, or as often as that takes.
pub open spec fn drawn_out(dx: int, dy: int, times: nat) -> (int, int)
    decreases times,
{
    if times == 0 || dx * dx + dy * dy >= DRAWN_OUT {
        (dx, dy)
    } else {
        drawn_out(2 * dx, 2 * dy, (times - 1) as nat)
    }
}

/// A direction that is drawn out leads somewhere still.
proof fn lemma_drawn_out(dx: int, dy: int, times: nat)
    requires
        dx != 0 || dy != 0,
    ensures
        drawn_out(dx, dy, times).0 != 0 || drawn_out(dx, dy, times).1 != 0,
    decreases times,
{
    if times > 0 {
        lemma_drawn_out(2 * dx, 2 * dy, (times - 1) as nat);
    }
}

/// The direction an arrow goes: to the right where it goes nowhere.
pub open spec fn direction(from: Point, to: Point) -> (int, int) {
    if from == to {
        drawn_out(1, 0, 32)
    } else {
        drawn_out(to.x - from.x, to.y - from.y, 32)
    }
}

/// Draws a direction out.
fn draw_out(dx: i64, dy: i64) -> (r: (i64, i64))
    requires
        dx != 0 || dy != 0,
        -2 * REACH <= dx <= 2 * REACH,
        -2 * REACH <= dy <= 2 * REACH,
    ensures
        (r.0 as int, r.1 as int) == drawn_out(dx as int, dy as int, 32),
        -2 * REACH <= r.0 <= 2 * REACH,
        -2 * REACH <= r.1 <= 2 * REACH,
        r.0 != 0 || r.1 != 0,
{
    let mut x: i64 = dx;
    let mut y: i64 = dy;
    let mut times: u32 = 32;
    while times > 0
        invariant
            times <= 32,
            x != 0 || y != 0,
            -2 * REACH <= x <= 2 * REACH,
            -2 * REACH <= y <= 2 * REACH,
            drawn_out(x as int, y as int, times as nat) == drawn_out(dx as int, dy as int, 32),
        decreases times,
    {
        proof {
            assert(0 <= x * x <= 0x200_0000_0000 * 0x200_0000_0000 && 0 <= y * y <= 0x200_0000_0000
                * 0x200_0000_0000) by (nonlinear_arith)
                requires
                    -0x200_0000_0000 <= x <= 0x200_0000_0000,
                    -0x200_0000_0000 <= y <= 0x200_0000_0000,
            ;
        }
        let square: i128 = x as i128 * x as i128 + y as i128 * y as i128;
        if square >= DRAWN_OUT as i128 {
            return (x, y);
        }
        proof {
            assert(-0x1_0000_0000 < x < 0x1_0000_0000 && -0x1_0000_0000 < y < 0x1_0000_0000)
                by (nonlinear_arith)
                requires
                    x * x + y * y < 0x1_0000_0000_0000_0000,
            ;
        }
        x = 2 * x;
        y = 2 * y;
        times = times - 1;
    }
    (x, y)
}

/// The whole number whose square is the largest one that is not more.
pub open spec fn is_floor_root(r: int, n: int) -> bool {
    0 <= r && r * r <= n && n < (r + 1) * (r + 1)
}

/// How long the wings of an arrow head are.
pub open spec fn head_length(width: int) -> int {
    most((7 * width) / 2, HEAD_MINIMUM as int)
}

/// How far behind the point of an arrow a wing's tip lies, along one axis:
/// `part` is what the direction turned by the wing's angle has along it, in
/// parts of 2^30, and `norm` the direction's length.
pub open spec fn wing_offset(length: int, part: int, norm: int) -> int {
    (length * part) / (norm * 0x4000_0000)
}

/// Whether two points are the wing tips of an arrow head, one either side of the
/// line, each as long as the head's length and turned back by its angle.
pub open spec fn are_wings(left: Point, right: Point, from: Point, to: Point, width: int) -> bool {
    let (dx, dy) = direction(from, to);
    let length = head_length(width);
    exists|norm: int|
        {
            &&& #[trigger] is_floor_root(norm, dx * dx + dy * dy)
            &&& left.x == to.x - wing_offset(length, dx * HEAD_ALONG + dy * HEAD_ASIDE, norm)
            &&& left.y == to.y - wing_offset(length, dy * HEAD_ALONG - dx * HEAD_ASIDE, norm)
            &&& right.x == to.x - wing_offset(length, dx * HEAD_ALONG - dy * HEAD_ASIDE, norm)
            &&& right.y == to.y - wing_offset(length, dy * HEAD_ALONG + dx * HEAD_ASIDE, norm)
        }
}

/// Division that rounds down.
fn floor_divide(n: i128, d: i128) -> (r: i128)
    requires
        0 < d,
        n > i128::MIN,
    ensures
        r == n as int / d as int,
{
    if n >= 0 {
        n / d
    } else {
        let back: i128 = -n;
        let whole: i128 = back / d;
        proof {
            vstd::arithmetic::div_mod::lemma_fundamental_div_mod(back as int, d as int);
            if back as int % d as int == 0 {
                assert(n == (-whole) * d + 0) by (nonlinear_arith)
                    requires
                        back == d * whole,
                        n == -back,
                ;
                vstd::arithmetic::div_mod::lemma_fundamental_div_mod_converse(
                    n as int,
                    d as int,
                    -whole as int,
                    0,
                );
            } else {
                let rest: int = d - back as int % d as int;
                assert(n == (-whole - 1) * d + rest) by (nonlinear_arith)
                    requires
                        back == d * whole + back as int % d as int,
                        rest == d - back as int % d as int,
                        n == -back,
                ;
                vstd::arithmetic::div_mod::lemma_fundamental_div_mod_converse(
                    n as int,
                    d as int,
                    -whole - 1,
                    rest,
                );
            }
        }
        if back % d == 0 {
            -whole
        } else {
            -whole - 1
        }
    }
}

/// How far behind the point a wing's tip lies along one axis.
fn offset(length: i128, part: i128, norm: i128) -> (r: i64)
    requires
        0 <= length <= 4 * REACH,
        1 <= norm <= 0x400_0000_0000,
        -2 * norm * 0x4000_0000 <= part <= 2 * norm * 0x4000_0000,
    ensures
        r == wing_offset(length as int, part as int, norm as int),
        -8 * REACH - 1 <= r <= 8 * REACH,
{
    proof {
        let d: int = norm * 0x4000_0000;
        let n: int = length * part;
        assert(-2 * length * d <= n <= 2 * length * d) by (nonlinear_arith)
            requires
                n == length * part,
                -2 * d <= part <= 2 * d,
                0 <= length,
        ;
        assert(-2 * length * d == -(2 * length * d)) by (nonlinear_arith);
        assert(2 * length * d <= 0x8_0000_0000_0000_0000_0000_0000_0000) by (nonlinear_arith)
            requires
                0 <= length <= 0x400_0000_0000,
                0 <= d <= 0x400_0000_0000 * 0x4000_0000,
        ;
        vstd::arithmetic::div_mod::lemma_fundamental_div_mod(n, d);
        vstd::arithmetic::div_mod::lemma_mod_bound(n, d);
        assert(-2 * length - 1 <= n / d <= 2 * length) by (nonlinear_arith)
            requires
                -2 * length * d <= n <= 2 * length * d,
                n == d * (n / d) + n % d,
                0 <= n % d < d,
                d > 0,
        ;
    }
    floor_divide(length * part, norm * 0x4000_0000) as i64
}

/// The direction's length is no less than its extent either way.
proof fn lemma_root_is_long(norm: int, dx: int, dy: int)
    requires
        is_floor_root(norm, dx * dx + dy * dy),
    ensures
        -norm <= dx <= norm,
        -norm <= dy <= norm,
{
    assert(dx * dx >= 0 && dy * dy >= 0) by (nonlinear_arith);
    assert(-norm <= dx <= norm) by (nonlinear_arith)
        requires
            dx * dx < (norm + 1) * (norm + 1),
            norm >= 0,
    ;
    assert(-norm <= dy <= norm) by (nonlinear_arith)
        requires
            dy * dy < (norm + 1) * (norm + 1),
            norm >= 0,
    ;
}

/// The two wing tips of an arrow head, behind the point.
pub fn head(from: Point, to: Point, width: i64) -> (r: (Point, Point))
    requires
        is_ordinary(from),
        is_ordinary(to),
        0 <= width <= REACH,
    ensures
        are_wings(r.0, r.1, from, to, width as int),
        -10 * REACH <= r.0.x <= 10 * REACH && -10 * REACH <= r.0.y <= 10 * REACH,
        -10 * REACH <= r.1.x <= 10 * REACH && -10 * REACH <= r.1.y <= 10 * REACH,
{
    let (x, y): (i64, i64) = if from == to {
        draw_out(1, 0)
    } else {
        draw_out(to.x - from.x, to.y - from.y)
    };
    let (dx, dy): (i128, i128) = (x as i128, y as i128);
    proof {
        assert(0 <= dx * dx <= 0x200_0000_0000 * 0x200_0000_0000 && 0 <= dy * dy <= 0x200_0000_0000
            * 0x200_0000_0000) by (nonlinear_arith)
            requires
                -0x200_0000_0000 <= dx <= 0x200_0000_0000,
                -0x200_0000_0000 <= dy <= 0x200_0000_0000,
        ;
        assert(dx * dx + dy * dy >= 1) by (nonlinear_arith)
            requires
                dx != 0 || dy != 0,
        ;
    }
    let norm: i128 = whole_root((dx * dx + dy * dy) as u128) as i128;
    proof {
        assert(is_floor_root(norm as int, dx * dx + dy * dy));
        lemma_root_is_long(norm as int, dx as int, dy as int);
        assert(norm <= 0x400_0000_0000) by (nonlinear_arith)
            requires
                norm * norm <= 2 * (0x200_0000_0000 * 0x200_0000_0000),
                norm >= 0,
        ;
    }
    let half: i64 = (7 * width) / 2;
    let length: i128 = (if half >= HEAD_MINIMUM { half } else { HEAD_MINIMUM }) as i128;
    let c: i128 = HEAD_ALONG as i128;
    let s: i128 = HEAD_ASIDE as i128;
    let left = Point {
        x: to.x - offset(length, dx * c + dy * s, norm),
        y: to.y - offset(length, dy * c - dx * s, norm),
    };
    let right = Point {
        x: to.x - offset(length, dx * c - dy * s, norm),
        y: to.y - offset(length, dy * c + dx * s, norm),
    };
    proof {
        assert((dx as int, dy as int) == direction(from, to));
        assert(length == head_length(width as int));
        assert(is_floor_root(norm as int, dx as int * dx as int + dy as int * dy as int));
    }
    (left, right)
}

/// A step of a mark's outline.
#[derive(Clone, Copy, PartialEq, Eq, Structural, Debug)]
pub enum Segment {
    MoveTo(Point),
    LineTo(Point),
    /// Two control points, and where the curve ends.
    CurveTo(Point, Point, Point),
    Rect(Area),
    Close,
}

/// Lines from one point to the next.
pub open spec fn lines(points: Seq<Point>) -> Seq<Segment> {
    points.map_values(|p: Point| Segment::LineTo(p))
}

/// What a freehand line is made of. A single point is a line to itself: with
/// round ends that is a dot.
pub open spec fn freehand_outline(points: Seq<Point>) -> Seq<Segment> {
    let rest = points.drop_first();
    seq![Segment::MoveTo(points[0])] + if rest.len() == 0 {
        seq![Segment::LineTo(points[0])]
    } else {
        lines(rest)
    }
}

/// The rectangle that two corners span.
pub open spec fn spanned(from: Point, to: Point) -> Area {
    Area {
        x: least(from.x as int, to.x as int) as i64,
        y: least(from.y as int, to.y as int) as i64,
        width: gap(to.x as int, from.x as int) as i64,
        height: gap(to.y as int, from.y as int) as i64,
    }
}

/// How far the control points of an ellipse reach from its axes.
pub open spec fn curve_reach(extent: int) -> int {
    (extent * KAPPA) / 200_000_000_000
}

pub open spec fn at(x: int, y: int) -> Point {
    Point { x: x as i64, y: y as i64 }
}

/// Four curves round a rectangle, from the top clockwise.
pub open spec fn ellipse_outline(r: Area) -> Seq<Segment> {
    let cx = r.x + r.width / 2;
    let cy = r.y + r.height / 2;
    let right = r.x + r.width;
    let bottom = r.y + r.height;
    let ox = curve_reach(r.width as int);
    let oy = curve_reach(r.height as int);
    let (x, y) = (r.x as int, r.y as int);
    seq![
        Segment::MoveTo(at(cx, y)),
        Segment::CurveTo(at(cx + ox, y), at(right, cy - oy), at(right, cy)),
        Segment::CurveTo(at(right, cy + oy), at(cx + ox, bottom), at(cx, bottom)),
        Segment::CurveTo(at(cx - ox, bottom), at(x, cy + oy), at(x, cy)),
        Segment::CurveTo(at(x, cy - oy), at(cx - ox, y), at(cx, y)),
        Segment::Close,
    ]
}

impl Mark {
    /// The points, and the width, are of an ordinary size.
    pub open spec fn wf(self) -> bool {
        &&& 0 <= self.width <= REACH
        &&& forall|i: int| 0 <= i < self.points@.len() ==> is_ordinary(#[trigger] self.points@[i])
    }

    /// Add a point as a drag goes on. Shapes keep only the two that matter.
    pub fn extend(&mut self, point: Point)
        requires
            old(self).wf(),
            is_ordinary(point),
        ensures
            final(self).wf(),
            final(self).points@ == drawn_to(old(self).points@, old(self).tool.is_freehand(), point),
            final(self).tool == old(self).tool,
            final(self).width == old(self).width,
            final(self).sequence == old(self).sequence,
    {
        let count: usize = self.points.len();
        if self.tool.freehand() {
            if count > 0 {
                let last: Point = self.points[count - 1];
                proof {
                    assert(is_ordinary(self.points@[count - 1]));
                }
                if 2 * distance(last.x, point.x) < PIXEL && 2 * distance(last.y, point.y) < PIXEL {
                    return;
                }
            }
            self.points.push(point);
        } else if count < 2 {
            self.points.push(point);
        } else {
            self.points.set(count - 1, point);
        }
    }

    /// Whether a mark is worth keeping: a click that never moved leaves a dot for
    /// the freehand tools and nothing at all for the shapes.
    pub open spec fn counts(self) -> bool {
        let n = self.points@.len();
        if n == 0 {
            false
        } else if self.tool.is_freehand() {
            true
        } else {
            n >= 2 && (gap(self.points@[0].x as int, self.points@[n - 1].x as int) > PIXEL || gap(
                self.points@[0].y as int,
                self.points@[n - 1].y as int,
            ) > PIXEL)
        }
    }

    /// Whether this is worth keeping.
    pub fn is_worth_keeping(&self) -> (r: bool)
        requires
            self.wf(),
        ensures
            r == self.counts(),
    {
        let count: usize = self.points.len();
        if count == 0 {
            return false;
        }
        if self.tool.freehand() {
            return true;
        }
        if count < 2 {
            return false;
        }
        let first: Point = self.points[0];
        let last: Point = self.points[count - 1];
        proof {
            assert(is_ordinary(self.points@[0]));
            assert(is_ordinary(self.points@[count - 1]));
        }
        distance(first.x, last.x) > PIXEL || distance(first.y, last.y) > PIXEL
    }

    /// Where a mark starts and where it ends.
    fn ends(&self) -> (r: Option<(Point, Point)>)
        ensures
            match r {
                Some((from, to)) => self.points@.len() > 0 && from == self.points@[0] && to
                    == self.points@.last(),
                None => self.points@.len() == 0,
            },
    {
        let count: usize = self.points.len();
        if count == 0 {
            None
        } else {
            Some((self.points[0], self.points[count - 1]))
        }
    }

    /// Whether segments are the outline of a mark.
    pub open spec fn is_outline(self, segments: Seq<Segment>) -> bool {
        let from = self.points@[0];
        let to = self.points@.last();
        match self.tool {
            Tool::Pen | Tool::Highlighter => segments == freehand_outline(self.points@),
            Tool::Line => segments == seq![Segment::MoveTo(from), Segment::LineTo(to)],
            Tool::Arrow => exists|left: Point, right: Point|
                #![trigger are_wings(left, right, from, to, self.width as int)]
                are_wings(left, right, from, to, self.width as int) && segments == seq![
                    Segment::MoveTo(from),
                    Segment::LineTo(to),
                    Segment::MoveTo(to),
                    Segment::LineTo(left),
                    Segment::MoveTo(to),
                    Segment::LineTo(right),
                ],
            Tool::Rectangle => segments == seq![Segment::Rect(spanned(from, to))],
            Tool::Ellipse => segments == ellipse_outline(spanned(from, to)),
        }
    }

    /// The rectangle a two-point shape spans, however it was dragged.
    fn rect(&self, from: Point, to: Point) -> (r: Area)
        requires
            is_ordinary(from),
            is_ordinary(to),
        ensures
            r == spanned(from, to),
            0 <= r.width <= 2 * REACH,
            0 <= r.height <= 2 * REACH,
            -REACH <= r.x <= REACH,
            -REACH <= r.y <= REACH,
    {
        Area {
            x: if from.x <= to.x { from.x } else { to.x },
            y: if from.y <= to.y { from.y } else { to.y },
            width: distance(to.x, from.x),
            height: distance(to.y, from.y),
        }
    }

    /// The mark's outline; nothing where it has no points.
    pub fn path(&self) -> (r: Option<Vec<Segment>>)
        requires
            self.wf(),
        ensures
            match r {
                Some(segments) => self.points@.len() > 0 && self.is_outline(segments@),
                None => self.points@.len() == 0,
            },
    {
        let (from, to) = match self.ends() {
            Some(ends) => ends,
            None => return None,
        };
        proof {
            assert(is_ordinary(self.points@[0]));
            assert(is_ordinary(self.points@[self.points@.len() - 1]));
        }
        let mut segments: Vec<Segment> = Vec::new();
        match self.tool {
            Tool::Pen | Tool::Highlighter => {
                segments.push(Segment::MoveTo(from));
                if self.points.len() == 1 {
                    segments.push(Segment::LineTo(from));
                }
                let mut next: usize = 1;
                while next < self.points.len()
                    invariant
                        1 <= next <= self.points@.len(),
                        from == self.points@[0],
                        self.points@.len() == 1 ==> segments@ == seq![
                            Segment::MoveTo(from),
                            Segment::LineTo(from),
                        ],
                        self.points@.len() > 1 ==> segments@ == seq![Segment::MoveTo(from)] + lines(
                            self.points@.subrange(1, next as int),
                        ),
                    decreases self.points@.len() - next,
                {
                    segments.push(Segment::LineTo(self.points[next]));
                    next = next + 1;
                    proof {
                        assert(segments@ =~= seq![Segment::MoveTo(from)] + lines(
                            self.points@.subrange(1, next as int),
                        ));
                    }
                }
                proof {
                    assert(self.points@.drop_first() =~= self.points@.subrange(
                        1,
                        self.points@.len() as int,
                    ));
                    assert(segments@ =~= freehand_outline(self.points@));
                }
            },
            Tool::Line => {
                segments.push(Segment::MoveTo(from));
                segments.push(Segment::LineTo(to));
                proof {
                    assert(segments@ =~= seq![Segment::MoveTo(from), Segment::LineTo(to)]);
                }
            },
            Tool::Arrow => {
                let (left, right) = head(from, to, self.width);
                segments.push(Segment::MoveTo(from));
                segments.push(Segment::LineTo(to));
                segments.push(Segment::MoveTo(to));
                segments.push(Segment::LineTo(left));
                segments.push(Segment::MoveTo(to));
                segments.push(Segment::LineTo(right));
                proof {
                    assert(are_wings(left, right, from, to, self.width as int));
                    assert(segments@ =~= seq![
                        Segment::MoveTo(from),
                        Segment::LineTo(to),
                        Segment::MoveTo(to),
                        Segment::LineTo(left),
                        Segment::MoveTo(to),
                        Segment::LineTo(right),
                    ]);
                }
            },
            Tool::Rectangle => {
                segments.push(Segment::Rect(self.rect(from, to)));
                proof {
                    assert(segments@ =~= seq![Segment::Rect(spanned(from, to))]);
                }
            },
            Tool::Ellipse => {
                let r = self.rect(from, to);
                let cx: i64 = r.x + r.width / 2;
                let cy: i64 = r.y + r.height / 2;
                let right: i64 = r.x + r.width;
                let bottom: i64 = r.y + r.height;
                proof {
                    lemma_curve_reach(r.width as int);
                    lemma_curve_reach(r.height as int);
                }
                let ox: i64 = ((r.width as i128 * KAPPA) / 200_000_000_000) as i64;
                let oy: i64 = ((r.height as i128 * KAPPA) / 200_000_000_000) as i64;
                segments.push(Segment::MoveTo(Point { x: cx, y: r.y }));
                segments.push(
                    Segment::CurveTo(
                        Point { x: cx + ox, y: r.y },
                        Point { x: right, y: cy - oy },
                        Point { x: right, y: cy },
                    ),
                );
                segments.push(
                    Segment::CurveTo(
                        Point { x: right, y: cy + oy },
                        Point { x: cx + ox, y: bottom },
                        Point { x: cx, y: bottom },
                    ),
                );
                segments.push(
                    Segment::CurveTo(
                        Point { x: cx - ox, y: bottom },
                        Point { x: r.x, y: cy + oy },
                        Point { x: r.x, y: cy },
                    ),
                );
                segments.push(
                    Segment::CurveTo(
                        Point { x: r.x, y: cy - oy },
                        Point { x: cx - ox, y: r.y },
                        Point { x: cx, y: r.y },
                    ),
                );
                segments.push(Segment::Close);
                proof {
                    assert(segments@ =~= ellipse_outline(spanned(from, to)));
                }
            },
        }
        Some(segments)
    }
}

proof fn lemma_curve_reach(extent: int)
    requires
        0 <= extent <= 2 * REACH,
    ensures
        0 <= curve_reach(extent) <= extent,
        0 <= extent * KAPPA <= 0x1_0000_0000_0000_0000_0000_0000,
{
    assert(0 <= extent * KAPPA <= extent * 200_000_000_000) by (nonlinear_arith)
        requires
            0 <= extent,
            KAPPA == 55_228_474_983,
    ;
}

impl Mark {
    /// Whether these are the points that a mark runs through: its own, and the
    /// wing tips of an arrow.
    pub open spec fn runs_through(self, all: Seq<Point>) -> bool {
        if self.tool is Arrow {
            exists|left: Point, right: Point|
                #![trigger are_wings(left, right, self.points@[0], self.points@.last(), self.width as int)]
                are_wings(left, right, self.points@[0], self.points@.last(), self.width as int) && all
                    == self.points@.push(left).push(right)
        } else {
            all == self.points@
        }
    }

    /// How far a mark reaches beyond the points it runs through: half the stroke
    /// falls outside the line, plus a pixel for the anti-aliased edge.
    pub open spec fn margin(self) -> int {
        self.width / 2 + PIXEL
    }

    /// Whether this is the area that the mark covers, its stroke included.
    pub open spec fn is_bounded_by(self, area: Area) -> bool {
        exists|all: Seq<Point>|
            #![trigger self.runs_through(all)]
            self.runs_through(all) && area.values() == (
                smallest(columns(all)) - self.margin(),
                smallest(rows(all)) - self.margin(),
                largest(columns(all)) - smallest(columns(all)) + 2 * self.margin(),
                largest(rows(all)) - smallest(rows(all)) + 2 * self.margin(),
            )
    }

    /// Everything the mark covers, stroke and arrow head included.
    pub fn bounds(&self) -> (r: Option<Area>)
        requires
            self.wf(),
        ensures
            match r {
                Some(area) => self.points@.len() > 0 && self.is_bounded_by(area),
                None => self.points@.len() == 0,
            },
    {
        let (from, to) = match self.ends() {
            Some(ends) => ends,
            None => return None,
        };
        proof {
            assert(is_ordinary(self.points@[0]));
            assert(is_ordinary(self.points@[self.points@.len() - 1]));
        }
        let mut all: Vec<Point> = self.points.clone();
        proof {
            assert(all@ =~= self.points@);
        }
        if self.tool == Tool::Arrow {
            let (left, right) = head(from, to, self.width);
            proof {
                assert(are_wings(left, right, self.points@[0], self.points@.last(), self.width as int));
            }
            all.push(left);
            all.push(right);
        }
        proof {
            assert(self.runs_through(all@));
            assert forall|i: int| 0 <= i < all@.len() implies -10 * REACH <= (#[trigger] all@[i]).x <= 10
                * REACH && -10 * REACH <= all@[i].y <= 10 * REACH by {
                if i < self.points@.len() {
                    assert(is_ordinary(self.points@[i]));
                }
            }
            lemma_within(all@, 10 * REACH);
        }
        let (left, top, right, bottom) = extremes(&all);
        let margin: i64 = self.width / 2 + PIXEL;
        Some(
            Area {
                x: left - margin,
                y: top - margin,
                width: (right - left) + margin * 2,
                height: (bottom - top) + margin * 2,
            },
        )
    }
}

proof fn lemma_within(all: Seq<Point>, reach: int)
    requires
        all.len() > 0,
        forall|i: int|
            0 <= i < all.len() ==> -reach <= (#[trigger] all[i]).x <= reach && -reach <= all[i].y
                <= reach,
    ensures
        -reach <= smallest(columns(all)) <= largest(columns(all)) <= reach,
        -reach <= smallest(rows(all)) <= largest(rows(all)) <= reach,
{
    lemma_extremes(columns(all));
    lemma_extremes(rows(all));
    let a = choose|i: int|
        0 <= i < columns(all).len() && #[trigger] columns(all)[i] == smallest(columns(all));
    let b = choose|i: int|
        0 <= i < columns(all).len() && #[trigger] columns(all)[i] == largest(columns(all));
    let c = choose|i: int| 0 <= i < rows(all).len() && #[trigger] rows(all)[i] == smallest(rows(all));
    let d = choose|i: int| 0 <= i < rows(all).len() && #[trigger] rows(all)[i] == largest(rows(all));
    assert(all[a].x == smallest(columns(all)));
    assert(all[b].x == largest(columns(all)));
    assert(all[c].y == smallest(rows(all)));
    assert(all[d].y == largest(rows(all)));
}

/// What a mark is said to cover reaches half the width of its stroke, and a pixel
/// more, beyond every point it runs through.
pub proof fn law_bounds_allow_for_the_stroke(mark: Mark, all: Seq<Point>, i: int)
    requires
        mark.runs_through(all),
        0 <= i < all.len(),
    ensures
        smallest(columns(all)) - mark.margin() <= all[i].x - mark.width / 2 - PIXEL,
        all[i].x + mark.width / 2 + PIXEL <= largest(columns(all)) + mark.margin(),
        smallest(rows(all)) - mark.margin() <= all[i].y - mark.width / 2 - PIXEL,
        all[i].y + mark.width / 2 + PIXEL <= largest(rows(all)) + mark.margin(),
{
    lemma_extremes(columns(all));
    lemma_extremes(rows(all));
    assert(columns(all)[i] == all[i].x);
    assert(rows(all)[i] == all[i].y);
}

/// An arrow head trails the tip of its arrow, and its wings open one to each
/// side of the line.
pub proof fn law_an_arrow_head_points_along_the_line(
    left: Point,
    right: Point,
    from: Point,
    to: Point,
    width: int,
)
    requires
        are_wings(left, right, from, to, width),
    ensures
        ({
            let (dx, dy) = direction(from, to);
            let (lx, ly) = (to.x - left.x, to.y - left.y);
            let (rx, ry) = (to.x - right.x, to.y - right.y);
            &&& lx * dx + ly * dy > 0
            &&& rx * dx + ry * dy > 0
            &&& lx * dy - ly * dx > 0
            &&& rx * dy - ry * dx < 0
        }),
{
    let (dx, dy) = direction(from, to);
    let l = head_length(width);
    let norm = choose|norm: int|
        {
            &&& #[trigger] is_floor_root(norm, dx * dx + dy * dy)
            &&& left.x == to.x - wing_offset(l, dx * HEAD_ALONG + dy * HEAD_ASIDE, norm)
            &&& left.y == to.y - wing_offset(l, dy * HEAD_ALONG - dx * HEAD_ASIDE, norm)
            &&& right.x == to.x - wing_offset(l, dx * HEAD_ALONG - dy * HEAD_ASIDE, norm)
            &&& right.y == to.y - wing_offset(l, dy * HEAD_ALONG + dx * HEAD_ASIDE, norm)
        };
    lemma_root_is_long(norm, dx, dy);
    lemma_drawn_out(1, 0, 32);
    if from != to {
        lemma_drawn_out(to.x - from.x, to.y - from.y, 32);
    }
    assert(dx * dx + dy * dy >= 1) by (nonlinear_arith)
        requires
            dx != 0 || dy != 0,
    ;
    let (c, s): (int, int) = (HEAD_ALONG as int, HEAD_ASIDE as int);
    lemma_wing(l, norm, dx, dy, c, s);
    lemma_wing(l, norm, dx, dy, c, -s);
    assert(dx * c - dy * s == dx * c + dy * (-s)) by (nonlinear_arith);
    assert(dy * c + dx * s == dy * c - dx * (-s)) by (nonlinear_arith);
}

/// A multiple and a rest, each scaled.
proof fn lemma_whole_and_rest(n: int, x: int, e: int, d: int)
    ensures
        (n * x + e) * d == n * (x * d) + e * d,
{
    vstd::arithmetic::mul::lemma_mul_is_distributive_add_other_way(d, n * x, e);
    vstd::arithmetic::mul::lemma_mul_is_associative(n, x, d);
}

/// Turning a direction leaves so much of it along itself and so much aside.
proof fn lemma_turn(dx: int, dy: int, c: int, s: int)
    ensures
        (dx * c + dy * s) * dx + (dy * c - dx * s) * dy == c * (dx * dx + dy * dy),
        (dx * c + dy * s) * dy - (dy * c - dx * s) * dx == s * (dx * dx + dy * dy),
{
    let (xx, yy, xy): (int, int, int) = (dx * dx, dy * dy, dx * dy);
    assert((dx * c + dy * s) * dx == c * xx + s * xy) by (nonlinear_arith)
        requires
            xx == dx * dx,
            xy == dx * dy,
    ;
    assert((dy * c - dx * s) * dy == c * yy - s * xy) by (nonlinear_arith)
        requires
            yy == dy * dy,
            xy == dx * dy,
    ;
    assert((dx * c + dy * s) * dy == c * xy + s * yy) by (nonlinear_arith)
        requires
            yy == dy * dy,
            xy == dx * dy,
    ;
    assert((dy * c - dx * s) * dx == c * xy - s * xx) by (nonlinear_arith)
        requires
            xx == dx * dx,
            xy == dx * dy,
    ;
    assert(c * (xx + yy) == c * xx + c * yy && s * (xx + yy) == s * xx + s * yy) by (nonlinear_arith);
}

/// Where a wing lies whose angle has the cosine `c` and the sine `s`, in parts of
/// 2^30.
proof fn lemma_wing(l: int, norm: int, dx: int, dy: int, c: int, s: int)
    requires
        l >= HEAD_MINIMUM,
        is_floor_root(norm, dx * dx + dy * dy),
        -norm <= dx <= norm,
        -norm <= dy <= norm,
        dx * dx + dy * dy >= 1,
        c >= 0x1000_0000,
        s >= 0x1000_0000 || s <= -0x1000_0000,
    ensures
        ({
            let x = wing_offset(l, dx * c + dy * s, norm);
            let y = wing_offset(l, dy * c - dx * s, norm);
            &&& x * dx + y * dy > 0
            &&& s > 0 ==> x * dy - y * dx > 0
            &&& s < 0 ==> x * dy - y * dx < 0
        }),
{
    let q: int = dx * dx + dy * dy;
    let n: int = norm * 0x4000_0000;
    let a: int = l * (dx * c + dy * s);
    let b: int = l * (dy * c - dx * s);
    let x: int = a / n;
    let y: int = b / n;
    assert(norm >= 1) by (nonlinear_arith)
        requires
            q < (norm + 1) * (norm + 1),
            q >= 1,
            norm >= 0,
    ;
    vstd::arithmetic::div_mod::lemma_fundamental_div_mod(a, n);
    vstd::arithmetic::div_mod::lemma_mod_bound(a, n);
    vstd::arithmetic::div_mod::lemma_fundamental_div_mod(b, n);
    vstd::arithmetic::div_mod::lemma_mod_bound(b, n);
    let e: int = a % n;
    let f: int = b % n;
    // What rounding costs is at most the direction's extent each way.
    assert(-n * norm <= e * dx <= n * norm && -n * norm <= f * dy <= n * norm && -n * norm <= e * dy <= n
        * norm && -n * norm <= f * dx <= n * norm) by (nonlinear_arith)
        requires
            0 <= e < n,
            0 <= f < n,
            -norm <= dx <= norm,
            -norm <= dy <= norm,
    ;
    assert(-n * norm == -(n * norm)) by (nonlinear_arith);
    assert(n * norm <= 0x4000_0000 * q) by (nonlinear_arith)
        requires
            n == norm * 0x4000_0000,
            norm * norm <= q,
    ;
    let along: int = x * dx + y * dy;
    let aside: int = x * dy - y * dx;
    let u: int = dx * c + dy * s;
    let v: int = dy * c - dx * s;
    assert(u * dx + v * dy == c * q) by {
        lemma_turn(dx, dy, c, s);
    }
    assert(u * dy - v * dx == s * q) by {
        lemma_turn(dx, dy, c, s);
    }
    assert(a * dx + b * dy == l * (u * dx + v * dy)) by (nonlinear_arith)
        requires
            a == l * u,
            b == l * v,
    ;
    assert(a * dy - b * dx == l * (u * dy - v * dx)) by (nonlinear_arith)
        requires
            a == l * u,
            b == l * v,
    ;
    assert(l * (c * q) == (l * c) * q && l * (s * q) == (l * s) * q) by (nonlinear_arith);
    lemma_whole_and_rest(n, x, e, dx);
    lemma_whole_and_rest(n, y, f, dy);
    lemma_whole_and_rest(n, x, e, dy);
    lemma_whole_and_rest(n, y, f, dx);
    vstd::arithmetic::mul::lemma_mul_is_distributive_add(n, x * dx, y * dy);
    vstd::arithmetic::mul::lemma_mul_is_distributive_sub(n, x * dy, y * dx);
    assert(n * along == a * dx + b * dy - (e * dx + f * dy));
    assert(n * aside == a * dy - b * dx - (e * dy - f * dx));
    let most_lost: int = 0x8000_0000 * q;
    assert((l * c) * q > most_lost) by (nonlinear_arith)
        requires
            l >= 655_360,
            c >= 0x1000_0000,
            q >= 1,
            most_lost == 0x8000_0000 * q,
    ;
    assert(n * along > 0);
    assert(along > 0) by (nonlinear_arith)
        requires
            n * along > 0,
            n > 0,
    ;
    if s > 0 {
        assert((l * s) * q > most_lost) by (nonlinear_arith)
            requires
                l >= 655_360,
                s >= 0x1000_0000,
                q >= 1,
                most_lost == 0x8000_0000 * q,
        ;
        assert(aside > 0) by (nonlinear_arith)
            requires
                n * aside > 0,
                n > 0,
        ;
    } else {
        assert((l * s) * q < -most_lost) by (nonlinear_arith)
            requires
                l >= 655_360,
                s <= -0x1000_0000,
                q >= 1,
                most_lost == 0x8000_0000 * q,
        ;
        assert(aside < 0) by (nonlinear_arith)
            requires
                n * aside < 0,
                n > 0,
        ;
    }
}

/// An ellipse lies in the box that was dragged and touches the middle of all four of
/// its sides, from the top clockwise: every end of a curve is the middle of a side,
/// every control point lies on a side, and half-way along each curve lies on the
/// ellipse, to within a thousandth and a few units.
pub proof fn law_an_ellipse_fills_its_box(mark: Mark, segments: Seq<Segment>)
    requires
        mark.wf(),
        mark.tool == Tool::Ellipse,
        mark.points@.len() > 0,
        mark.is_outline(segments),
    ensures
        ({
            let (from, to) = (mark.points@[0], mark.points@[mark.points@.len() - 1]);
            let left: int = if from.x <= to.x { from.x as int } else { to.x as int };
            let right: int = if from.x <= to.x { to.x as int } else { from.x as int };
            let top: int = if from.y <= to.y { from.y as int } else { to.y as int };
            let bottom: int = if from.y <= to.y { to.y as int } else { from.y as int };
            &&& segments.len() == 6
            &&& segments[0] matches Segment::MoveTo(start)
            &&& segments[1] matches Segment::CurveTo(a, b, east)
            &&& segments[2] matches Segment::CurveTo(c, d, south)
            &&& segments[3] matches Segment::CurveTo(e, f, west)
            &&& segments[4] matches Segment::CurveTo(g, h, north)
            &&& segments[5] == Segment::Close
            &&& start == north
            &&& north.y == top && 0 <= left + right - 2 * north.x <= 1
            &&& south.y == bottom && south.x == north.x
            &&& east.x == right && 0 <= top + bottom - 2 * east.y <= 1
            &&& west.x == left && west.y == east.y
            &&& a.y == top && north.x <= a.x <= right
            &&& b.x == right && top <= b.y <= east.y
            &&& c.x == right && east.y <= c.y <= bottom
            &&& d.y == bottom && d.x == a.x
            &&& e.y == bottom && left <= e.x <= south.x && e.x - left - (right - a.x) >= -2 && e.x
                - left - (right - a.x) <= 2
            &&& f.x == left && f.y == c.y
            &&& g.x == left && g.y == b.y
            &&& h.y == top && h.x == e.x
            &&& 2828 * (right - left) - 4000 <= 1000 * (4 * (right - north.x) + 3 * (a.x - north.x))
                <= 2829 * (right - left) + 4000
            &&& 2828 * (bottom - top) - 4000 <= 1000 * (4 * (bottom - east.y) + 3 * (east.y - b.y))
                <= 2829 * (bottom - top) + 4000
            &&& c.y - east.y == east.y - b.y
        }),
{
    let (from, to) = (mark.points@[0], mark.points@[mark.points@.len() - 1]);
    assert(is_ordinary(from) && is_ordinary(to));
    let r = spanned(from, to);
    lemma_curve_share(r.width as int);
    lemma_curve_share(r.height as int);
    assert(segments == ellipse_outline(r));
}

/// How far the control points of an ellipse reach, roughly.
proof fn lemma_curve_share(extent: int)
    requires
        0 <= extent <= 2 * REACH,
    ensures
        276_142 * extent - 1_000_000 <= 1_000_000 * curve_reach(extent) <= 276_143 * extent,
        0 <= 2 * curve_reach(extent) <= extent,
{
    let k = curve_reach(extent);
    assert(extent * KAPPA == 55_228_474_983 * extent);
    vstd::arithmetic::div_mod::lemma_fundamental_div_mod(extent * KAPPA, 200_000_000_000);
    assert(0 <= extent * KAPPA);
    assert(0 <= k);
}

/// A rectangle has both ends of the drag for corners, whichever way it went.
pub proof fn law_a_rectangle_spans_its_corners(mark: Mark, segments: Seq<Segment>)
    requires
        mark.wf(),
        mark.tool == Tool::Rectangle,
        mark.points@.len() > 0,
        mark.is_outline(segments),
    ensures
        ({
            let (from, to) = (mark.points@[0], mark.points@[mark.points@.len() - 1]);
            &&& segments.len() == 1
            &&& segments[0] matches Segment::Rect(r)
            &&& r.width >= 0 && r.height >= 0
            &&& (r.x == from.x && r.x + r.width == to.x) || (r.x == to.x && r.x + r.width == from.x)
            &&& (r.y == from.y && r.y + r.height == to.y) || (r.y == to.y && r.y + r.height
                == from.y)
        }),
{
    let (from, to) = (mark.points@[0], mark.points@[mark.points@.len() - 1]);
    assert(is_ordinary(from) && is_ordinary(to));
}

/// A pen or a highlighter draws through every point that was kept, in the order in
/// which the pointer was there; a single point is a dot where it was.
pub proof fn law_a_pen_draws_through_its_points(mark: Mark, segments: Seq<Segment>, i: int)
    requires
        mark.tool == Tool::Pen || mark.tool == Tool::Highlighter,
        mark.points@.len() > 0,
        mark.is_outline(segments),
        0 < i < mark.points@.len(),
    ensures
        segments.len() == mark.points@.len(),
        segments[0] == Segment::MoveTo(mark.points@[0]),
        segments[i] == Segment::LineTo(mark.points@[i]),
{
    assert(segments[i] == lines(mark.points@.drop_first())[i - 1]);
}

/// A pen that never moved leaves a dot where it was.
pub proof fn law_a_single_point_is_a_dot(mark: Mark, segments: Seq<Segment>)
    requires
        mark.tool == Tool::Pen || mark.tool == Tool::Highlighter,
        mark.points@.len() == 1,
        mark.is_outline(segments),
    ensures
        segments == seq![Segment::MoveTo(mark.points@[0]), Segment::LineTo(mark.points@[0])],
{
    assert(segments =~= seq![Segment::MoveTo(mark.points@[0]), Segment::LineTo(mark.points@[0])]);
}

/// A line and an arrow run from where the drag started to where it ended, and the
/// wings of an arrow start at its tip.
pub proof fn law_lines_run_from_end_to_end(mark: Mark, segments: Seq<Segment>)
    requires
        mark.tool == Tool::Line || mark.tool == Tool::Arrow,
        mark.points@.len() > 0,
        mark.is_outline(segments),
    ensures
        ({
            let (from, to) = (mark.points@[0], mark.points@[mark.points@.len() - 1]);
            &&& segments.len() == (if mark.tool == Tool::Line { 2nat } else { 6nat })
            &&& segments[0] == Segment::MoveTo(from)
            &&& segments[1] == Segment::LineTo(to)
            &&& mark.tool == Tool::Arrow ==> segments[2] == Segment::MoveTo(to) && segments[4]
                == Segment::MoveTo(to) && (segments[3] matches Segment::LineTo(left)
                && segments[5] matches Segment::LineTo(right) && are_wings(
                left,
                right,
                from,
                to,
                mark.width as int,
            ))
        }),
{
}

/// A drag with a pen keeps every point and adds those that moved half a pixel or
/// more; a drag with a shape keeps where it started and where it has got to.
pub proof fn law_a_drag_keeps_what_matters(points: Seq<Point>, p: Point)
    ensures
        ({
            let pen = drawn_to(points, true, p);
            let n = points.len() as int;
            &&& points.len() == 0 ==> pen == seq![p]
            &&& n > 0 ==> {
                let (a, b): (int, int) = (points[n - 1].x - p.x, points[n - 1].y - p.y);
                let moved = 2 * a >= PIXEL || -2 * a >= PIXEL || 2 * b >= PIXEL || -2 * b >= PIXEL;
                &&& moved ==> pen == points.push(p)
                &&& !moved ==> pen == points
            }
        }),
        ({
            let shape = drawn_to(points, false, p);
            &&& shape.len() > 0 && shape[shape.len() - 1] == p
            &&& points.len() > 1 ==> shape.len() == points.len()
            &&& points.len() > 1 ==> shape[0] == points[0]
            &&& points.len() == 1 ==> shape == seq![points[0], p]
            &&& points.len() == 0 ==> shape == seq![p]
        }),
{
    if points.len() == 0 {
        assert(points.push(p) =~= seq![p]);
    }
    if points.len() == 1 {
        assert(points.push(p) =~= seq![points[0], p]);
    }
}

/// A click leaves a dot with a pen and nothing with a shape, and so does one that
/// moved a pixel or less.
pub proof fn law_a_click_is_no_shape(mark: Mark)
    requires
        mark.wf(),
        mark.points@.len() > 0,
    ensures
        mark.tool == Tool::Pen || mark.tool == Tool::Highlighter ==> mark.counts(),
        mark.tool != Tool::Pen && mark.tool != Tool::Highlighter ==> ({
            let n = mark.points@.len() as int;
            let (a, b): (int, int) = (
                mark.points@[0].x - mark.points@[n - 1].x,
                mark.points@[0].y - mark.points@[n - 1].y,
            );
            let (u, v) = (if a < 0 { -a } else { a }, if b < 0 { -b } else { b });
            &&& mark.counts() <==> n >= 2 && (u > 65_536 || v > 65_536)
        }),
{
}

/// An arrow's wings are as long as its head, seven halves of the line's width and ten
/// pixels at least, to within a few units.
pub proof fn law_an_arrow_head_is_sized_from_the_line(width: int)
    requires
        0 <= width,
    ensures
        head_length(width) >= 655_360,
        2 * head_length(width) >= 7 * width - 1,
        head_length(width) == 655_360 || 2 * head_length(width) <= 7 * width,
{
}

/// The tools go by their names, and each has an icon of its own.
pub proof fn law_tools_are_told_apart(tool: Tool)
    ensures
        tool == Tool::Pen ==> tool.name() == "Pen"@ && tool.icon_name() == "document-edit-symbolic"@,
        tool == Tool::Highlighter ==> tool.name() == "Highlighter"@ && tool.icon_name()
            == "format-justify-fill-symbolic"@,
        tool == Tool::Line ==> tool.name() == "Line"@ && tool.icon_name()
            == "format-text-strikethrough-symbolic"@,
        tool == Tool::Arrow ==> tool.name() == "Arrow"@ && tool.icon_name() == "go-next-symbolic"@,
        tool == Tool::Rectangle ==> tool.name() == "Rectangle"@ && tool.icon_name()
            == "view-grid-symbolic"@,
        tool == Tool::Ellipse ==> tool.name() == "Ellipse"@ && tool.icon_name()
            == "circle-outline-thick-symbolic"@,
{
}

/// The pens are offered first, the lines next and the outlines last, each tool once.
pub proof fn law_the_tools_are_offered_in_order()
    ensures
        tool_order().len() == 6,
        tool_order()[0].name() == "Pen"@,
        tool_order()[1].name() == "Highlighter"@,
        tool_order()[2].name() == "Line"@,
        tool_order()[3].name() == "Arrow"@,
        tool_order()[4].name() == "Rectangle"@,
        tool_order()[5].name() == "Ellipse"@,
        forall|i: int, j: int|
            0 <= i < j < 6 ==> #[trigger] tool_order()[i] != #[trigger] tool_order()[j],
{
}

/// The bounds of a mark leave half the stroke and a pixel round every point, the wings
/// of an arrow included, and no more than that round the outermost ones.
pub proof fn law_bounds_fit_the_stroke(mark: Mark, area: Area)
    requires
        mark.points@.len() > 0,
        mark.is_bounded_by(area),
    ensures
        ({
            let room = mark.width as int / 2 + 65_536;
            let (left, right): (int, int) = (area.x + room, area.x + area.width - room);
            let (top, bottom): (int, int) = (area.y + room, area.y + area.height - room);
            let points = mark.points@;
            let n = points.len() as int;
            &&& forall|i: int|
                0 <= i < n ==> left <= (#[trigger] points[i]).x <= right && top <= points[i].y
                    <= bottom
            &&& mark.tool == Tool::Arrow ==> exists|a: Point, b: Point|
                #![trigger are_wings(a, b, points[0], points[n - 1], mark.width as int)]
                are_wings(a, b, points[0], points[n - 1], mark.width as int) && left <= a.x <= right
                    && left <= b.x <= right && top <= a.y <= bottom && top <= b.y <= bottom
            &&& mark.tool != Tool::Arrow ==> {
                &&& exists|i: int| 0 <= i < n && (#[trigger] points[i]).x == left
                &&& exists|i: int| 0 <= i < n && (#[trigger] points[i]).x == right
                &&& exists|i: int| 0 <= i < n && (#[trigger] points[i]).y == top
                &&& exists|i: int| 0 <= i < n && (#[trigger] points[i]).y == bottom
            }
        }),
{
    let points = mark.points@;
    let n = points.len() as int;
    let all = choose|all: Seq<Point>|
        #![trigger mark.runs_through(all)]
        mark.runs_through(all) && area.values() == (
            smallest(columns(all)) - mark.margin(),
            smallest(rows(all)) - mark.margin(),
            largest(columns(all)) - smallest(columns(all)) + 2 * mark.margin(),
            largest(rows(all)) - smallest(rows(all)) + 2 * mark.margin(),
        );
    let (xs, ys) = (columns(all), rows(all));
    lemma_extremes(xs);
    lemma_extremes(ys);
    assert forall|i: int| 0 <= i < all.len() implies smallest(xs) <= (#[trigger] all[i]).x
        <= largest(xs) && smallest(ys) <= all[i].y <= largest(ys) by {
        assert(xs[i] == all[i].x && ys[i] == all[i].y);
    }
    assert forall|i: int| 0 <= i < n implies #[trigger] points[i] == all[i] by {}
    if mark.tool is Arrow {
        let (a, b) = choose|a: Point, b: Point|
            #![trigger are_wings(a, b, points[0], points.last(), mark.width as int)]
            are_wings(a, b, points[0], points.last(), mark.width as int) && all == points.push(
                a,
            ).push(b);
        assert(all[n] == a && all[n + 1] == b);
        assert(are_wings(a, b, points[0], points[n - 1], mark.width as int));
    } else {
        let a: int = choose|i: int| 0 <= i < xs.len() && #[trigger] xs[i] == smallest(xs);
        let b: int = choose|i: int| 0 <= i < xs.len() && #[trigger] xs[i] == largest(xs);
        let c: int = choose|i: int| 0 <= i < ys.len() && #[trigger] ys[i] == smallest(ys);
        let d: int = choose|i: int| 0 <= i < ys.len() && #[trigger] ys[i] == largest(ys);
        assert(points[a].x == smallest(xs) && points[b].x == largest(xs));
        assert(points[c].y == smallest(ys) && points[d].y == largest(ys));
    }
}

} // verus!
