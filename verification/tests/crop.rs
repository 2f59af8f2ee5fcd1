use glance::crop::{
    cursor, drag_crop, extremes, handle_at, Area, Aspect, CropTool, Edges, Handle, Point, MIN_CROP,
    PIXEL,
};

const HANDLES: [Handle; 9] = [
    Handle::NorthWest,
    Handle::North,
    Handle::NorthEast,
    Handle::East,
    Handle::SouthEast,
    Handle::South,
    Handle::SouthWest,
    Handle::West,
    Handle::Inside,
];

fn px(length: f64) -> i64 {
    (length * PIXEL as f64).round() as i64
}

fn area(x: f64, y: f64, w: f64, h: f64) -> Area {
    Area { x: px(x), y: px(y), width: px(w), height: px(h) }
}

fn at(x: f64, y: f64) -> Point {
    Point { x: px(x), y: px(y) }
}

fn values(area: Area) -> (f64, f64, f64, f64) {
    let back = |length: i64| length as f64 / PIXEL as f64;
    (back(area.x), back(area.y), back(area.width), back(area.height))
}

fn is_west(handle: Handle) -> bool {
    matches!(handle, Handle::NorthWest | Handle::West | Handle::SouthWest)
}

fn is_east(handle: Handle) -> bool {
    matches!(handle, Handle::NorthEast | Handle::East | Handle::SouthEast)
}

fn is_north(handle: Handle) -> bool {
    matches!(handle, Handle::NorthWest | Handle::North | Handle::NorthEast)
}

fn is_south(handle: Handle) -> bool {
    matches!(handle, Handle::SouthWest | Handle::South | Handle::SouthEast)
}

/// The same drag in floating point.
fn dragged(
    handle: Handle,
    (ox, oy, ow, oh): (f64, f64, f64, f64),
    (dx, dy): (f64, f64),
    (bw, bh): (f64, f64),
    aspect: f64,
) -> (f64, f64, f64, f64) {
    let least = 8.0;
    if handle == Handle::Inside {
        let x = (ox + dx).clamp(0.0, (bw - ow).max(0.0));
        let y = (oy + dy).clamp(0.0, (bh - oh).max(0.0));
        return (x, y, ow.max(least), oh.max(least));
    }
    let (mut left, mut top) = (ox, oy);
    let (mut right, mut bottom) = (ox + ow, oy + oh);
    if is_west(handle) {
        left = (ox + dx).min(right - least).max(0.0);
    }
    if is_east(handle) {
        right = (ox + ow + dx).max(left + least).min(bw);
    }
    if is_north(handle) {
        top = (oy + dy).min(bottom - least).max(0.0);
    }
    if is_south(handle) {
        bottom = (oy + oh + dy).max(top + least).min(bh);
    }
    let (mut nx, mut ny) = (left, top);
    let (mut nw, mut nh) = (right - left, bottom - top);
    if aspect > 0.0 {
        let wanted = nw / aspect;
        if wanted <= bh {
            nh = wanted;
        } else {
            nw = nh * aspect;
        }
        if is_north(handle) {
            ny = bottom - nh;
        }
        if is_west(handle) {
            nx = right - nw;
        }
        nx = nx.clamp(0.0, (bw - nw).max(0.0));
        ny = ny.clamp(0.0, (bh - nh).max(0.0));
    }
    (nx, ny, nw.max(least), nh.max(least))
}

#[test]
fn drags_land_where_floating_point_puts_them() {
    let bounds = (400.0, 300.0);
    let shapes = [None, Some((1u32, 1u32)), Some((4, 5)), Some((16, 9)), Some((9, 16))];
    for origin in [(50.0, 60.0, 100.0, 80.0), (0.0, 0.0, 400.0, 300.0), (390.0, 290.0, 10.0, 10.0)] {
        for handle in HANDLES {
            for delta in [(0.0, 0.0), (13.5, -7.25), (-500.0, 40.0), (500.0, 500.0), (-45.0, -55.0)] {
                for shape in shapes {
                    let aspect = shape.map(|(a, d)| Aspect { across: a, down: d });
                    let ratio = shape.map_or(0.0, |(a, d)| f64::from(a) / f64::from(d));
                    let got = drag_crop(
                        handle,
                        area(origin.0, origin.1, origin.2, origin.3),
                        px(delta.0),
                        px(delta.1),
                        px(bounds.0),
                        px(bounds.1),
                        aspect,
                    );
                    let (x, y, w, h) = values(got.unwrap());
                    let expected = dragged(handle, origin, delta, bounds, ratio);
                    let off = (x - expected.0)
                        .abs()
                        .max((y - expected.1).abs())
                        .max((w - expected.2).abs())
                        .max((h - expected.3).abs());
                    assert!(
                        off < 0.001,
                        "{handle:?} {origin:?} {delta:?} {shape:?}: {x} {y} {w} {h} for {expected:?}"
                    );
                }
            }
        }
    }
}

#[test]
fn moving_keeps_the_size_and_free_drags_the_other_edges() {
    let origin = area(50.0, 60.0, 100.0, 80.0);
    let drag = |handle: Handle, dx: f64, dy: f64| {
        drag_crop(handle, origin, px(dx), px(dy), px(400.0), px(300.0), None).unwrap()
    };
    assert_eq!(drag(Handle::Inside, 1000.0, -1000.0), area(300.0, 0.0, 100.0, 80.0));
    assert_eq!(drag(Handle::East, 10.0, 99.0), area(50.0, 60.0, 110.0, 80.0));
    assert_eq!(drag(Handle::North, 99.0, 10.0), area(50.0, 70.0, 100.0, 70.0));
    for handle in HANDLES {
        assert_eq!(drag(handle, 0.0, 0.0), origin);
    }
    // It cannot be collapsed to nothing.
    assert_eq!(drag(Handle::West, 1000.0, 0.0).width, MIN_CROP);
}

#[test]
fn a_tool_goes_through_its_motions() {
    let size = Some((px(400.0), px(300.0)));
    let mut tool = CropTool::new();
    assert_eq!(tool.selection_size(), None);
    tool.set_cropping(true, size);
    assert_eq!(tool.selection_size(), Some((400, 300)));
    tool.set_aspect(Some(Aspect { across: 1, down: 1 }), size);
    assert_eq!(tool.selection_size(), Some((300, 300)));
    assert_eq!(values(tool.selection.as_ref().unwrap().rect), (50.0, 0.0, 300.0, 300.0));
    tool.set_aspect(None, size);
    assert_eq!(tool.selection_size(), Some((300, 300)));
    tool.reset_crop(size);
    tool.press(at(400.0, 300.0), Some(Handle::SouthEast));
    assert!(tool.drag(px(-100.0), px(-100.0), size));
    assert_eq!(tool.selection_size(), Some((300, 200)));
    assert!(tool.drag(px(-150.0), px(-100.0), size));
    assert_eq!(tool.selection_size(), Some((250, 200)));
    tool.press(at(1.0, 1.0), None);
    assert!(!tool.drag(px(5.0), px(5.0), size));
    tool.clear_crop();
    assert!(!tool.active && tool.selection.is_none());
    assert!(!tool.drag(px(5.0), px(5.0), size));
}

#[test]
fn a_freehand_outline_follows_the_pen() {
    let size = Some((px(400.0), px(300.0)));
    let mut tool = CropTool::new();
    tool.set_cropping(true, size);
    tool.set_freehand(true, size);
    assert!(tool.selection.is_none());
    tool.press(at(10.0, 20.0), Some(Handle::Inside));
    for (dx, dy) in [(0.5, 0.5), (5.0, 0.0), (5.5, 0.5), (5.0, 30.0), (-100.0, 30.0)] {
        assert!(tool.drag(px(dx), px(dy), size));
    }
    let crop = tool.selection.as_ref().unwrap();
    let path: Vec<Point> = vec![at(10.0, 20.0), at(15.0, 20.0), at(15.0, 50.0), at(0.0, 50.0)];
    assert_eq!(crop.path, path);
    assert_eq!(values(crop.rect), (0.0, 20.0, 15.0, 30.0));
    assert_eq!(extremes(&crop.path), (0, px(20.0), px(15.0), px(50.0)));
    tool.set_freehand(false, size);
    assert_eq!(tool.selection_size(), Some((400, 300)));
    tool.forget();
    assert!(tool.selection.is_none() && !tool.active && !tool.freehand);
}

#[test]
fn handles_are_found_round_the_edge() {
    let edges = Edges { left: px(100.0), top: px(100.0), right: px(300.0), bottom: px(200.0) };
    for (point, handle) in [
        ((100.0, 100.0), Some(Handle::NorthWest)),
        ((200.0, 110.0), Some(Handle::North)),
        ((310.0, 90.0), Some(Handle::NorthEast)),
        ((300.0, 150.0), Some(Handle::East)),
        ((300.0, 216.0), Some(Handle::SouthEast)),
        ((200.0, 200.0), Some(Handle::South)),
        ((84.0, 200.0), Some(Handle::SouthWest)),
        ((100.0, 150.0), Some(Handle::West)),
        ((150.0, 150.0), Some(Handle::Inside)),
        ((83.0, 150.0), None),
        ((200.0, 217.0), None),
    ] {
        assert_eq!(handle_at(at(point.0, point.1), edges), handle, "{point:?}");
    }
}

#[test]
fn the_pointer_names_the_gesture() {
    assert_eq!(cursor(true, true, Some(Handle::North), true), Some("crosshair"));
    assert_eq!(cursor(true, false, Some(Handle::NorthWest), false), Some("nwse-resize"));
    assert_eq!(cursor(true, false, Some(Handle::SouthWest), false), Some("nesw-resize"));
    assert_eq!(cursor(true, false, Some(Handle::South), false), Some("ns-resize"));
    assert_eq!(cursor(true, false, Some(Handle::East), false), Some("ew-resize"));
    assert_eq!(cursor(true, false, Some(Handle::Inside), false), Some("move"));
    assert_eq!(cursor(true, false, None, true), Some("crosshair"));
    assert_eq!(cursor(false, true, None, true), Some("grab"));
    assert_eq!(cursor(false, false, None, false), None);
}

#[test]
fn a_selection_can_lie_anywhere_that_numbers_reach() {
    let far = Area { x: 1 << 50, y: 1 << 51, width: 1 << 52, height: 1 << 53 };
    let same = drag_crop(Handle::Inside, far, 5, 6, i64::MAX, i64::MAX, None).unwrap();
    assert_eq!(same, Area { x: far.x + 5, y: far.y + 6, ..far });
    let tall = Area { x: 0, y: 0, width: 1 << 62, height: 1 };
    let shape = Some(Aspect { across: 1, down: 4 });
    assert!(drag_crop(Handle::East, tall, 0, 0, i64::MAX, 1 << 40, shape).is_some());
    let last = Area { x: i64::MAX, y: 0, width: i64::MAX, height: MIN_CROP };
    assert!(drag_crop(Handle::West, last, i64::MAX, 0, i64::MAX, i64::MAX, None).is_none());
}
