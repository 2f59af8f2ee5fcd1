use glance::scene::{
    build, shapes, Brush, Clip, Coat, Filter, Group, Mask, Node, Op, Paint, Primitive, Shape, Space,
    Spread,
};
use resvg::usvg;

fn parse(svg: &str) -> usvg::Tree {
    usvg::Tree::from_str(svg, &usvg::Options::default()).unwrap()
}

/// The groups of a drawing, with a plain shape for every leaf.
fn outline(group: &usvg::Group) -> Group {
    let children = group
        .children()
        .iter()
        .map(|child| match child {
            usvg::Node::Group(inner) => Node::Group(outline(inner)),
            usvg::Node::Text(text) => Node::Text(outline(text.flattened())),
            usvg::Node::Path(_) => Node::Path(shape(1)),
            usvg::Node::Image(_) => Node::Image,
        })
        .collect();
    Group { children, ..plain(0, Vec::new()) }
}

fn shape(id: u64) -> Shape {
    Shape {
        id,
        visible: true,
        fill: Some(Coat { paint: Paint::Colour, faded: false }),
        stroke: None,
        stroke_first: false,
    }
}

fn painted(id: u64, paint: Paint) -> Shape {
    Shape { fill: Some(Coat { paint, faded: false }), ..shape(id) }
}

fn plain(id: u64, children: Vec<Node>) -> Group {
    Group {
        id,
        children,
        normal_blend: true,
        filters: Vec::new(),
        clip: None,
        mask: None,
        faded: false,
        moved: false,
    }
}

fn fill(shape: u64) -> Op {
    Op::Fill { shape, brush: Brush::Colour, faded: false }
}

/// Counting has to see through groups, or a deeply nested drawing would look
/// tiny and sail past the budget.
#[test]
fn shapes_are_counted_through_groups() {
    let tree = parse(
        r#"<svg xmlns="http://www.w3.org/2000/svg" viewBox="0 0 10 10">
             <rect width="2" height="2"/>
             <g><circle cx="5" cy="5" r="1"/>
                <g><circle cx="7" cy="7" r="1"/><circle cx="8" cy="8" r="1"/></g>
             </g>
           </svg>"#,
    );
    assert_eq!(shapes(&outline(tree.root())), 4);
}

/// An empty drawing must not be counted as something worth translating.
#[test]
fn an_empty_drawing_counts_as_nothing() {
    let tree = parse(r#"<svg xmlns="http://www.w3.org/2000/svg" viewBox="0 0 10 10"/>"#);
    assert_eq!(shapes(&outline(tree.root())), 0);
}

#[test]
fn a_plain_drawing_is_its_shapes_in_order() {
    let inner = plain(2, vec![Node::Path(shape(11))]);
    let root = plain(1, vec![Node::Path(shape(10)), Node::Group(inner), Node::Path(shape(12))]);
    assert_eq!(
        build(&root).unwrap(),
        [Op::Open, fill(10), Op::Open, fill(11), Op::Close, fill(12), Op::Close]
    );
}

#[test]
fn effects_come_in_the_order_they_composite() {
    let mut root = plain(7, vec![Node::Path(shape(1))]);
    root.filters = vec![Filter { id: 3, primitives: vec![Primitive::Blur { even: true }] }];
    root.clip = Some(Box::new(Clip {
        id: 4,
        root: plain(5, vec![Node::Path(shape(2))]),
        moved: true,
        inner: None,
    }));
    root.mask = Some(Box::new(Mask {
        id: 6,
        root: plain(8, vec![Node::Path(shape(3))]),
        inner: None,
        luminance: true,
    }));
    root.faded = true;
    root.moved = true;
    assert_eq!(
        build(&root).unwrap(),
        [
            Op::Open,
            fill(1),
            Op::Close,
            Op::Blur(3),
            Op::Open,
            fill(2),
            Op::Close,
            Op::MoveClip(4),
            Op::MaskBy { luminance: false },
            Op::Open,
            fill(3),
            Op::Close,
            Op::Region(6),
            Op::MaskBy { luminance: true },
            Op::Fade(7),
            Op::MoveGroup(7),
        ]
    );
}

#[test]
fn fill_and_stroke_keep_their_order() {
    let stroke = Some(Coat { paint: Paint::Colour, faded: true });
    let mut both = Shape { stroke, ..shape(1) };
    let stroked = Op::Stroke { shape: 1, brush: Brush::Colour, faded: true };
    let drawn = |s: Shape| build(&plain(0, vec![Node::Path(s)])).unwrap();
    assert_eq!(drawn(both), [Op::Open, fill(1), stroked, Op::Close]);
    both.stroke_first = true;
    assert_eq!(drawn(both), [Op::Open, stroked, fill(1), Op::Close]);
    both.visible = false;
    assert_eq!(drawn(both), [Op::Open, Op::Close]);
}

#[test]
fn what_has_no_equivalent_is_left_to_the_rasteriser() {
    let draw = |paint: Paint| build(&plain(0, vec![Node::Path(painted(1, paint))]));
    assert!(draw(Paint::Pattern).is_none());
    assert!(draw(Paint::Linear { spread: Spread::Reflect, space: Space::Same }).is_none());
    assert!(draw(Paint::Linear { spread: Spread::Pad, space: Space::Lost }).is_none());
    assert!(
        draw(Paint::Radial { centred: false, spread: Spread::Pad, space: Space::Same }).is_none()
    );
    assert!(
        draw(Paint::Radial { centred: true, spread: Spread::Repeat, space: Space::Same }).is_none()
    );
    assert_eq!(
        draw(Paint::Linear { spread: Spread::Repeat, space: Space::Mapped }).unwrap()[1],
        Op::Fill {
            shape: 1,
            brush: Brush::Linear { repeating: true, mapped: true },
            faded: false
        }
    );
    assert_eq!(
        draw(Paint::Radial { centred: true, spread: Spread::Pad, space: Space::Same }).unwrap()[1],
        Op::Fill { shape: 1, brush: Brush::Radial { mapped: false }, faded: false }
    );

    assert!(build(&plain(0, vec![Node::Image])).is_none());
    let mut blended = plain(0, Vec::new());
    blended.normal_blend = false;
    assert!(build(&blended).is_none());
    let filtered = |primitives: Vec<Primitive>| {
        let mut group = plain(0, Vec::new());
        group.filters = vec![Filter { id: 1, primitives }];
        build(&group).is_some()
    };
    assert!(filtered(vec![Primitive::Shadow { even: true }]));
    assert!(!filtered(vec![Primitive::Blur { even: false }]));
    assert!(!filtered(vec![Primitive::Other]));
    assert!(!filtered(vec![]));
}

#[test]
fn a_huge_drawing_is_turned_away() {
    let many = |count: u64| plain(0, (0..count).map(|id| Node::Path(shape(id))).collect());
    assert!(build(&many(50_000)).is_some());
    assert!(build(&many(50_001)).is_none());
}
