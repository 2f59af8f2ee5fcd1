use glance::crop::{Area, Point, PIXEL};
use glance::draw::{head, tools, Mark, Segment, Tool, HEAD_MINIMUM};

/// The angle between an arrow and a wing of its head.
const SPREAD: f64 = 0.44;

fn at(x: f64, y: f64) -> Point {
    Point { x: (x * PIXEL as f64).round() as i64, y: (y * PIXEL as f64).round() as i64 }
}

fn pixels(length: i64) -> f64 {
    length as f64 / PIXEL as f64
}

fn mark(tool: Tool, points: &[(f64, f64)]) -> Mark {
    Mark {
        tool,
        points: points.iter().map(|p| at(p.0, p.1)).collect(),
        width: 8 * PIXEL,
        sequence: 0,
    }
}

fn corners(mark: &Mark) -> Vec<(f64, f64)> {
    mark.points.iter().map(|p| (pixels(p.x), pixels(p.y))).collect()
}

fn rect(area: Area) -> (f64, f64, f64, f64) {
    (pixels(area.x), pixels(area.y), pixels(area.width), pixels(area.height))
}

/// A shape is two points however far the pointer travelled: keeping the whole
/// drag would make a rectangle out of a scribble.
#[test]
fn a_shape_keeps_only_its_two_corners() {
    let mut rectangle = mark(Tool::Rectangle, &[]);
    for step in 0..20 {
        rectangle.extend(at(f64::from(step) * 5.0, f64::from(step) * 3.0));
    }
    assert_eq!(rectangle.points.len(), 2);
    assert_eq!(corners(&rectangle)[0], (0.0, 0.0));
    assert_eq!(corners(&rectangle)[1], (95.0, 57.0));
}

#[test]
fn freehand_keeps_the_whole_path_but_not_the_still_moments() {
    let mut pen = mark(Tool::Pen, &[]);
    pen.extend(at(0.0, 0.0));
    pen.extend(at(0.1, 0.1)); // barely moved: not worth a segment
    pen.extend(at(10.0, 0.0));
    pen.extend(at(20.0, 5.0));
    assert_eq!(corners(&pen), vec![(0.0, 0.0), (10.0, 0.0), (20.0, 5.0)]);
}

/// The bounds have to cover the stroke, not just the centre line, or the baked
/// patch clips its own edges.
#[test]
fn bounds_allow_for_the_thickness_of_the_line() {
    let line = mark(Tool::Line, &[(50.0, 50.0), (150.0, 50.0)]);
    let (x, y, w, h) = rect(line.bounds().unwrap());
    assert!(x < 50.0 && y < 50.0, "got {x}, {y}");
    assert!(w > 100.0 && h > 8.0, "got {w} x {h}");
}

/// An arrow head sits behind the tip, and the bounds must include it.
#[test]
fn an_arrow_head_points_the_way_the_line_goes() {
    let arrow = mark(Tool::Arrow, &[(0.0, 0.0), (100.0, 0.0)]);
    let (left, right) = head(at(0.0, 0.0), at(100.0, 0.0), arrow.width);
    let (left, right) = ((pixels(left.x), pixels(left.y)), (pixels(right.x), pixels(right.y)));
    assert!(left.0 < 100.0 && right.0 < 100.0, "head should trail the tip");
    // One either side of the line, whichever way round they come out.
    assert!(left.1 * right.1 < 0.0, "wings should open either side: {left:?} {right:?}");
    let (_, y, _, h) = rect(arrow.bounds().unwrap());
    let (top, bottom) = (left.1.min(right.1), left.1.max(right.1));
    assert!(y < top, "bounds should cover the head");
    assert!(h > (bottom - top), "and its whole spread");
}

/// A click that never moved is a dot with a pen and nothing with a shape.
#[test]
fn a_drag_that_never_moved_only_counts_for_freehand() {
    assert!(mark(Tool::Pen, &[(5.0, 5.0)]).is_worth_keeping());
    assert!(!mark(Tool::Rectangle, &[(5.0, 5.0)]).is_worth_keeping());
    assert!(!mark(Tool::Line, &[(5.0, 5.0), (5.2, 5.1)]).is_worth_keeping());
    assert!(mark(Tool::Line, &[(5.0, 5.0), (80.0, 40.0)]).is_worth_keeping());
}

#[test]
fn an_arrow_head_is_where_the_angles_put_it() {
    for (from, to) in [
        ((0.0, 0.0), (100.0, 0.0)),
        ((10.0, 20.0), (-70.0, 90.0)),
        ((300.0, 5.0), (290.0, -200.0)),
        ((0.0, 0.0), (0.0, 55.5)),
    ] {
        let width = 8.0;
        let (left, right) = head(at(from.0, from.1), at(to.0, to.1), 8 * PIXEL);
        let angle = f64::atan2(to.1 - from.1, to.0 - from.0);
        let length = f64::max(width * 3.5, 10.0);
        let wing = |offset: f64| {
            (to.0 - length * (angle + offset).cos(), to.1 - length * (angle + offset).sin())
        };
        for (mine, exact) in [(left, wing(-0.44)), (right, wing(0.44))] {
            let off = (pixels(mine.x) - exact.0).hypot(pixels(mine.y) - exact.1);
            assert!(off < 0.001, "{from:?} {to:?}: {mine:?} is {off} from {exact:?}");
        }
    }
}

#[test]
fn outlines_follow_the_tool() {
    let line = mark(Tool::Line, &[(1.0, 2.0), (3.0, 4.0)]).path().unwrap();
    assert!(matches!(line[0], Segment::MoveTo(p) if p == at(1.0, 2.0)));
    assert!(matches!(line[1], Segment::LineTo(p) if p == at(3.0, 4.0)));
    assert_eq!(line.len(), 2);

    let rectangle = mark(Tool::Rectangle, &[(30.0, 40.0), (10.0, 20.0)]).path().unwrap();
    assert_eq!(rectangle.len(), 1);
    assert!(
        matches!(rectangle[0], Segment::Rect(area) if rect(area) == (10.0, 20.0, 20.0, 20.0))
    );

    let ellipse = mark(Tool::Ellipse, &[(0.0, 0.0), (20.0, 10.0)]).path().unwrap();
    let curves = ellipse.iter().filter(|s| matches!(s, Segment::CurveTo(_, _, _))).count();
    assert_eq!(curves, 4);

    assert!(mark(Tool::Pen, &[]).path().is_none());
    assert!(mark(Tool::Pen, &[]).bounds().is_none());
}

#[test]
fn tools_have_names_and_only_pens_are_freehand() {
    let labels: Vec<&str> = tools().iter().map(|t| t.label()).collect();
    assert_eq!(labels, ["Pen", "Highlighter", "Line", "Arrow", "Rectangle", "Ellipse"]);
    let freehand: Vec<bool> = tools().iter().map(|t| t.freehand()).collect();
    assert_eq!(freehand, [true, true, false, false, false, false]);
    assert_eq!(Tool::Arrow.icon(), "go-next-symbolic");
}

/// However short the arrow, its head is as long as the pen makes it, and turned back
/// by the same angle.
#[test]
fn an_arrow_head_has_its_length_on_any_arrow() {
    let unit = PIXEL as f64;
    let far = [1i64, -1, 3, 100, -65_536, 123_456, 6_553_600, -98_304_000];
    for width in [0, PIXEL, 6 * PIXEL, 200 * PIXEL] {
        let length = (width as f64 / unit * 3.5).max(HEAD_MINIMUM as f64 / unit);
        for dx in far {
            for dy in far {
                let to = Point { x: 50 * PIXEL + dx, y: 40 * PIXEL + dy };
                let (left, right) = head(Point { x: 50 * PIXEL, y: 40 * PIXEL }, to, width);
                let angle = (dy as f64).atan2(dx as f64);
                for (wing, spread) in [(left, -SPREAD), (right, SPREAD)] {
                    let x = to.x as f64 / unit - length * (angle + spread).cos();
                    let y = to.y as f64 / unit - length * (angle + spread).sin();
                    let (gap_x, gap_y) = (wing.x as f64 / unit - x, wing.y as f64 / unit - y);
                    assert!(gap_x.abs() * unit < 2.0, "{dx} {dy} {width}: {gap_x}");
                    assert!(gap_y.abs() * unit < 2.0, "{dx} {dy} {width}: {gap_y}");
                }
            }
        }
    }
}
