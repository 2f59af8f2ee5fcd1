//! Translating a drawing into something the GPU can rasterise.
//!
//! A drawing whose parts map onto render nodes can be handed over whole and then
//! zoomed with a transform: nothing is rendered again. Anything that does not
//! map, such as patterns, embedded images and arbitrary filter chains, is turned
//! away, and the caller falls back to rasterising. A partly correct translation
//! would draw wrong pixels, which is worse than drawing slow ones.
//!
//! Numbers that only the renderer reads, such as coordinates, colours and
//! opacities, stay with whoever parsed the drawing; the parts here carry the
//! number under which they are found again.

use vstd::prelude::*;

verus! {

/// Above this many drawn shapes, redrawing the whole scene on every frame of a
/// zoom costs more than rasterising a tile once and reusing it.
pub const MAX_SHAPES: u64 = 50_000;

/// Whether a gradient's own space is that of the drawing, or can be mapped there.
#[derive(Clone, Copy, PartialEq, Eq, Structural, Debug)]
pub enum Space {
    Same,
    Mapped,
    /// The map cannot be undone.
    Lost,
}

/// What a gradient does past its ends.
#[derive(Clone, Copy, PartialEq, Eq, Structural, Debug)]
pub enum Spread {
    Pad,
    Repeat,
    Reflect,
}

/// What a fill or a stroke is made of.
#[derive(Clone, Copy, PartialEq, Eq, Structural, Debug)]
pub enum Paint {
    Colour,
    Linear { spread: Spread, space: Space },
    /// `centred` says that the focal point is the centre.
    Radial { centred: bool, spread: Spread, space: Space },
    Pattern,
}

/// One fill or stroke: its paint, and whether it is see-through.
#[derive(Clone, Copy, PartialEq, Eq, Structural, Debug)]
pub struct Coat {
    pub paint: Paint,
    pub faded: bool,
}

/// A path with its fill and its stroke.
#[derive(Clone, Copy, PartialEq, Eq, Structural, Debug)]
pub struct Shape {
    pub id: u64,
    pub visible: bool,
    pub fill: Option<Coat>,
    pub stroke: Option<Coat>,
    /// The stroke goes down ahead of the fill.
    pub stroke_first: bool,
}

/// What a step of a filter does. A blur and a shadow are `even` where they blur
/// as much across as down.
#[derive(Clone, Copy, PartialEq, Eq, Structural, Debug)]
pub enum Primitive {
    Blur { even: bool },
    Shadow { even: bool },
    Other,
}

pub struct Filter {
    pub id: u64,
    pub primitives: Vec<Primitive>,
}

pub enum Node {
    Group(Group),
    Path(Shape),
    /// Text comes as the group of its outlines.
    Text(Group),
    Image,
}

pub struct Group {
    pub id: u64,
    pub children: Vec<Node>,
    pub normal_blend: bool,
    pub filters: Vec<Filter>,
    pub clip: Option<Box<Clip>>,
    pub mask: Option<Box<Mask>>,
    /// The opacity is below one.
    pub faded: bool,
    /// The transform is not the identity.
    pub moved: bool,
}

pub struct Clip {
    pub id: u64,
    pub root: Group,
    pub moved: bool,
    /// A clip path may itself be clipped; the result is the intersection.
    pub inner: Option<Box<Clip>>,
}

pub struct Mask {
    pub id: u64,
    pub root: Group,
    pub inner: Option<Box<Mask>>,
    pub luminance: bool,
}

/// How many shapes a node shows.
pub open spec fn node_shapes(node: Node) -> nat
    decreases node, 0nat,
{
    match node {
        Node::Group(inner) => group_shapes(inner, inner.children@.len()),
        Node::Text(inner) => group_shapes(inner, inner.children@.len()),
        _ => 1,
    }
}

/// How many shapes the first children of a group show.
pub open spec fn group_shapes(group: Group, count: nat) -> nat
    decreases group, count + 1,
{
    if count == 0 || count > group.children@.len() {
        0
    } else {
        group_shapes(group, (count - 1) as nat) + node_shapes(group.children@[count - 1])
    }
}

/// How many shapes a drawing shows, counted before translating so that a huge
/// one is turned away cheaply. Counting stops at `u64::MAX`.
pub fn shapes(group: &Group) -> (r: u64)
    ensures
        r == (if group_shapes(*group, group.children@.len()) > u64::MAX {
            u64::MAX as nat
        } else {
            group_shapes(*group, group.children@.len())
        }),
    decreases group,
{
    let mut total: u64 = 0;
    let mut at: usize = 0;
    while at < group.children.len()
        invariant
            at <= group.children@.len(),
            total == (if group_shapes(*group, at as nat) > u64::MAX {
                u64::MAX as nat
            } else {
                group_shapes(*group, at as nat)
            }),
        decreases group.children@.len() - at,
    {
        let more: u64 = match &group.children[at] {
            Node::Group(inner) => shapes(inner),
            Node::Text(inner) => shapes(inner),
            _ => 1,
        };
        proof {
            let child = group.children@[at as int];
            reveal_with_fuel(node_shapes, 2);
            reveal_with_fuel(group_shapes, 2);
            assert(group_shapes(*group, (at + 1) as nat) == group_shapes(*group, at as nat)
                + node_shapes(child));
            assert(more == (if node_shapes(child) > u64::MAX {
                u64::MAX as nat
            } else {
                node_shapes(child)
            }));
        }
        total = if more > u64::MAX - total { u64::MAX } else { total + more };
        at = at + 1;
    }
    total
}

/// What a paint becomes, a colour or a gradient to clip to the shape.
#[derive(Clone, Copy, PartialEq, Eq, Structural, Debug)]
pub enum Brush {
    Colour,
    Linear { repeating: bool, mapped: bool },
    Radial { mapped: bool },
}

/// A step of building the scene. The builder keeps a row of finished parts; a
/// step adds one to it, or does something to the last one or two.
#[derive(Clone, Copy, PartialEq, Eq, Structural, Debug)]
pub enum Op {
    /// Starts a row of its own.
    Open,
    /// Makes one part of the row that was started last, and goes on with the row
    /// around it.
    Close,
    /// Adds the fill of a shape.
    Fill { shape: u64, brush: Brush, faded: bool },
    /// Adds the stroke of a shape.
    Stroke { shape: u64, brush: Brush, faded: bool },
    /// Blurs the last part as a filter says.
    Blur(u64),
    /// Puts a shadow under the last part as a filter says.
    Shadow(u64),
    /// Fades the last part as a group says.
    Fade(u64),
    /// Moves the last part as a group says.
    MoveGroup(u64),
    /// Moves the last part as a clip path says.
    MoveClip(u64),
    /// Cuts the last part down to a mask's region.
    Region(u64),
    /// Takes the last part as a mask for the one before it.
    MaskBy { luminance: bool },
}

/// What a paint becomes, where there is something that does the same.
///
/// Tiling a subtree has no equivalent short of rendering it, a gradient cannot
/// be mirrored, and a radial one has no focal point of its own.
pub open spec fn brush_of(paint: Paint) -> Option<Brush> {
    match paint {
        Paint::Colour => Some(Brush::Colour),
        Paint::Linear { spread, space } => if spread is Reflect || space is Lost {
            None
        } else {
            Some(Brush::Linear { repeating: spread is Repeat, mapped: space is Mapped })
        },
        Paint::Radial { centred, spread, space } => if !centred || !(spread is Pad) || space is Lost {
            None
        } else {
            Some(Brush::Radial { mapped: space is Mapped })
        },
        Paint::Pattern => None,
    }
}

fn brush_for(paint: Paint) -> (r: Option<Brush>)
    ensures
        r == brush_of(paint),
{
    match paint {
        Paint::Colour => Some(Brush::Colour),
        Paint::Linear { spread, space } => if spread == Spread::Reflect || space == Space::Lost {
            None
        } else {
            Some(Brush::Linear { repeating: spread == Spread::Repeat, mapped: space == Space::Mapped })
        },
        Paint::Radial { centred, spread, space } => if !centred || spread != Spread::Pad || space
            == Space::Lost {
            None
        } else {
            Some(Brush::Radial { mapped: space == Space::Mapped })
        },
        Paint::Pattern => None,
    }
}

/// The steps that one fill or stroke takes; none where there is none.
pub open spec fn coat_ops(shape: u64, coat: Option<Coat>, stroke: bool) -> Option<Seq<Op>> {
    match coat {
        None => Some(Seq::empty()),
        Some(c) => match brush_of(c.paint) {
            None => None,
            Some(brush) => Some(
                seq![
                    if stroke {
                        Op::Stroke { shape, brush, faded: c.faded }
                    } else {
                        Op::Fill { shape, brush, faded: c.faded }
                    },
                ],
            ),
        },
    }
}

/// Fill and stroke for one path, in the order the drawing asked for.
pub open spec fn shape_ops(shape: Shape) -> Option<Seq<Op>> {
    if !shape.visible {
        Some(Seq::empty())
    } else {
        match (coat_ops(shape.id, shape.fill, false), coat_ops(shape.id, shape.stroke, true)) {
            (Some(fill), Some(stroke)) => Some(
                if shape.stroke_first {
                    stroke + fill
                } else {
                    fill + stroke
                },
            ),
            _ => None,
        }
    }
}

/// The step that a filter takes: only the two that have an exact counterpart,
/// and both of them blur both axes together.
pub open spec fn filter_op(filter: Filter) -> Option<Op> {
    if filter.primitives@.len() != 1 {
        None
    } else {
        match filter.primitives@[0] {
            Primitive::Blur { even } => if even {
                Some(Op::Blur(filter.id))
            } else {
                None
            },
            Primitive::Shadow { even } => if even {
                Some(Op::Shadow(filter.id))
            } else {
                None
            },
            Primitive::Other => None,
        }
    }
}

/// The steps that the first filters of a group take.
pub open spec fn filter_ops(filters: Seq<Filter>, count: nat) -> Option<Seq<Op>>
    decreases count,
{
    if count == 0 {
        Some(Seq::empty())
    } else {
        match (filter_ops(filters, (count - 1) as nat), filter_op(filters[count - 1])) {
            (Some(before), Some(op)) => Some(before.push(op)),
            _ => None,
        }
    }
}

/// The steps that a node takes.
pub open spec fn node_ops(node: Node) -> Option<Seq<Op>>
    decreases node, 0nat,
{
    match node {
        Node::Group(inner) => group_ops(inner),
        Node::Path(shape) => shape_ops(shape),
        Node::Text(inner) => group_ops(inner),
        Node::Image => None,
    }
}

/// The steps that the first children of a group take.
pub open spec fn children_ops(group: Group, count: nat) -> Option<Seq<Op>>
    decreases group, count + 1,
{
    if count == 0 || count > group.children@.len() {
        Some(Seq::empty())
    } else {
        match (children_ops(group, (count - 1) as nat), node_ops(group.children@[count - 1])) {
            (Some(before), Some(more)) => Some(before + more),
            _ => None,
        }
    }
}

/// The steps that clip the last part to a path. The clip's shapes are painted
/// solid, so they double as a mask.
pub open spec fn clip_ops(clip: Clip) -> Option<Seq<Op>>
    decreases clip, 0nat,
{
    match (group_ops(clip.root), any_clip_ops(clip.inner)) {
        (Some(root), Some(inner)) => Some(
            root + (if clip.moved {
                seq![Op::MoveClip(clip.id)]
            } else {
                Seq::empty()
            }) + inner + seq![Op::MaskBy { luminance: false }],
        ),
        _ => None,
    }
}

/// The steps that mask the last part. Masks are bounded by their region.
pub open spec fn mask_ops(mask: Mask) -> Option<Seq<Op>>
    decreases mask, 0nat,
{
    match (group_ops(mask.root), any_mask_ops(mask.inner)) {
        (Some(root), Some(inner)) => Some(
            root + inner + seq![
                Op::Region(mask.id),
                Op::MaskBy { luminance: mask.luminance },
            ],
        ),
        _ => None,
    }
}

/// The steps that clip the last part, where there is a clip path.
pub open spec fn any_clip_ops(clip: Option<Box<Clip>>) -> Option<Seq<Op>>
    decreases clip, 1nat,
{
    match clip {
        Some(path) => clip_ops(*path),
        None => Some(Seq::empty()),
    }
}

/// The steps that mask the last part, where there is a mask.
pub open spec fn any_mask_ops(mask: Option<Box<Mask>>) -> Option<Seq<Op>>
    decreases mask, 1nat,
{
    match mask {
        Some(cover) => mask_ops(*cover),
        None => Some(Seq::empty()),
    }
}

/// The steps that fade and move the last part as a group says.
pub open spec fn placing_ops(group: Group) -> Seq<Op> {
    (if group.faded {
        seq![Op::Fade(group.id)]
    } else {
        Seq::empty()
    }) + (if group.moved {
        seq![Op::MoveGroup(group.id)]
    } else {
        Seq::empty()
    })
}

/// The steps that are taken on a group as a whole: filters first, then the clip,
/// the mask and the opacity, with the group's own transform outermost.
pub open spec fn effect_ops(group: Group) -> Option<Seq<Op>>
    decreases group, 0nat,
{
    match (
        filter_ops(group.filters@, group.filters@.len()),
        any_clip_ops(group.clip),
        any_mask_ops(group.mask),
    ) {
        (Some(filters), Some(clip), Some(mask)) => Some(filters + clip + mask + placing_ops(group)),
        _ => None,
    }
}

/// The steps that a group takes: its children, then what is done to all of them.
/// A blend mode other than the normal one would need a backdrop that a part does
/// not have.
pub open spec fn group_ops(group: Group) -> Option<Seq<Op>>
    decreases group, group.children@.len() + 2,
{
    match (children_ops(group, group.children@.len()), effect_ops(group)) {
        (Some(children), Some(effects)) => if group.normal_blend {
            Some(seq![Op::Open] + children + seq![Op::Close] + effects)
        } else {
            None
        },
        _ => None,
    }
}

/// Adds the step of one fill or stroke. Says whether it could be translated.
fn add_coat(shape: u64, coat: Option<Coat>, stroke: bool, out: &mut Vec<Op>) -> (r: bool)
    ensures
        r == (coat_ops(shape, coat, stroke) is Some),
        r ==> final(out)@ == old(out)@ + coat_ops(shape, coat, stroke)->0,
{
    let ghost before = out@;
    match coat {
        None => {
            proof {
                assert(before + Seq::<Op>::empty() =~= before);
            }
            true
        },
        Some(c) => match brush_for(c.paint) {
            None => false,
            Some(brush) => {
                out.push(
                    if stroke {
                        Op::Stroke { shape, brush, faded: c.faded }
                    } else {
                        Op::Fill { shape, brush, faded: c.faded }
                    },
                );
                proof {
                    assert(out@ =~= before + coat_ops(shape, coat, stroke)->0);
                }
                true
            },
        },
    }
}

/// Fill and stroke for one path, in the order the drawing asked for.
fn painted(shape: &Shape, out: &mut Vec<Op>) -> (r: bool)
    ensures
        r == (shape_ops(*shape) is Some),
        r ==> final(out)@ == old(out)@ + shape_ops(*shape)->0,
{
    let ghost before = out@;
    if !shape.visible {
        proof {
            assert(before + Seq::<Op>::empty() =~= before);
        }
        return true;
    }
    let done = if shape.stroke_first {
        add_coat(shape.id, shape.stroke, true, out) && add_coat(shape.id, shape.fill, false, out)
    } else {
        add_coat(shape.id, shape.fill, false, out) && add_coat(shape.id, shape.stroke, true, out)
    };
    proof {
        if done {
            assert(out@ =~= before + shape_ops(*shape)->0);
        }
    }
    done
}

/// Adds the step of one filter.
fn filtered(filter: &Filter, out: &mut Vec<Op>) -> (r: bool)
    ensures
        r == (filter_op(*filter) is Some),
        r ==> final(out)@ == old(out)@.push(filter_op(*filter)->0),
{
    if filter.primitives.len() != 1 {
        return false;
    }
    match filter.primitives[0] {
        Primitive::Blur { even } => {
            if even {
                out.push(Op::Blur(filter.id));
            }
            even
        },
        Primitive::Shadow { even } => {
            if even {
                out.push(Op::Shadow(filter.id));
            }
            even
        },
        Primitive::Other => false,
    }
}

/// Adds the steps of all filters of a group.
fn add_filters(filters: &Vec<Filter>, out: &mut Vec<Op>) -> (r: bool)
    ensures
        r == (filter_ops(filters@, filters@.len()) is Some),
        r ==> final(out)@ == old(out)@ + filter_ops(filters@, filters@.len())->0,
{
    let ghost before = out@;
    let mut at: usize = 0;
    proof {
        assert(before + Seq::<Op>::empty() =~= before);
    }
    while at < filters.len()
        invariant
            at <= filters@.len(),
            filter_ops(filters@, at as nat) is Some,
            out@ == before + filter_ops(filters@, at as nat)->0,
        decreases filters@.len() - at,
    {
        if !filtered(&filters[at], out) {
            proof {
                lemma_filters_stay_refused(filters@, (at + 1) as nat, filters@.len());
            }
            return false;
        }
        at = at + 1;
        proof {
            assert(out@ =~= before + filter_ops(filters@, at as nat)->0);
        }
    }
    true
}

/// A filter that is refused spoils all that come with it.
proof fn lemma_filters_stay_refused(filters: Seq<Filter>, count: nat, total: nat)
    requires
        filter_ops(filters, count) is None,
        count <= total,
    ensures
        filter_ops(filters, total) is None,
    decreases total - count,
{
    if count < total {
        lemma_filters_stay_refused(filters, count, (total - 1) as nat);
    }
}

/// A child that is refused spoils all that come with it.
proof fn lemma_children_stay_refused(group: Group, count: nat, total: nat)
    requires
        children_ops(group, count) is None,
        count <= total <= group.children@.len(),
    ensures
        children_ops(group, total) is None,
    decreases total - count,
{
    if count < total {
        lemma_children_stay_refused(group, count, (total - 1) as nat);
    }
}

/// Adds the steps of a node.
fn add_node(node: &Node, out: &mut Vec<Op>) -> (r: bool)
    ensures
        r == (node_ops(*node) is Some),
        r ==> final(out)@ == old(out)@ + node_ops(*node)->0,
    decreases node, 0nat,
{
    match node {
        Node::Group(inner) => add_group(inner, out),
        Node::Path(shape) => painted(shape, out),
        Node::Text(inner) => add_group(inner, out),
        Node::Image => false,
    }
}

/// Adds the steps of all children of a group.
fn add_children(group: &Group, out: &mut Vec<Op>) -> (r: bool)
    ensures
        r == (children_ops(*group, group.children@.len()) is Some),
        r ==> final(out)@ == old(out)@ + children_ops(*group, group.children@.len())->0,
    decreases group, 1nat,
{
    let ghost before = out@;
    let mut at: usize = 0;
    proof {
        assert(before + Seq::<Op>::empty() =~= before);
    }
    while at < group.children.len()
        invariant
            at <= group.children@.len(),
            children_ops(*group, at as nat) is Some,
            out@ == before + children_ops(*group, at as nat)->0,
        decreases group.children@.len() - at,
    {
        if !add_node(&group.children[at], out) {
            proof {
                lemma_children_stay_refused(*group, (at + 1) as nat, group.children@.len());
            }
            return false;
        }
        at = at + 1;
        proof {
            assert(out@ =~= before + children_ops(*group, at as nat)->0);
        }
    }
    true
}

/// Adds the steps that clip the last part.
fn clipped(clip: &Clip, out: &mut Vec<Op>) -> (r: bool)
    ensures
        r == (clip_ops(*clip) is Some),
        r ==> final(out)@ == old(out)@ + clip_ops(*clip)->0,
    decreases clip, 0nat,
{
    let ghost before = out@;
    if !add_group(&clip.root, out) {
        return false;
    }
    if clip.moved {
        out.push(Op::MoveClip(clip.id));
    }
    if !add_clip(&clip.inner, out) {
        return false;
    }
    out.push(Op::MaskBy { luminance: false });
    proof {
        assert(out@ =~= before + clip_ops(*clip)->0);
    }
    true
}

/// Adds the steps of a clip path, where there is one.
fn add_clip(clip: &Option<Box<Clip>>, out: &mut Vec<Op>) -> (r: bool)
    ensures
        r == (any_clip_ops(*clip) is Some),
        r ==> final(out)@ == old(out)@ + any_clip_ops(*clip)->0,
    decreases clip, 1nat,
{
    match clip {
        Some(path) => clipped(path, out),
        None => {
            proof {
                assert(out@ + Seq::<Op>::empty() =~= out@);
            }
            true
        },
    }
}

/// Adds the steps that mask the last part.
fn masked(mask: &Mask, out: &mut Vec<Op>) -> (r: bool)
    ensures
        r == (mask_ops(*mask) is Some),
        r ==> final(out)@ == old(out)@ + mask_ops(*mask)->0,
    decreases mask, 0nat,
{
    let ghost before = out@;
    if !add_group(&mask.root, out) {
        return false;
    }
    if !add_mask(&mask.inner, out) {
        return false;
    }
    out.push(Op::Region(mask.id));
    out.push(Op::MaskBy { luminance: mask.luminance });
    proof {
        assert(out@ =~= before + mask_ops(*mask)->0);
    }
    true
}

/// Adds the steps of a mask, where there is one.
fn add_mask(mask: &Option<Box<Mask>>, out: &mut Vec<Op>) -> (r: bool)
    ensures
        r == (any_mask_ops(*mask) is Some),
        r ==> final(out)@ == old(out)@ + any_mask_ops(*mask)->0,
    decreases mask, 1nat,
{
    match mask {
        Some(cover) => masked(cover, out),
        None => {
            proof {
                assert(out@ + Seq::<Op>::empty() =~= out@);
            }
            true
        },
    }
}

/// Adds the steps that fade and move the last part as a group says.
fn add_placing(group: &Group, out: &mut Vec<Op>)
    ensures
        final(out)@ == old(out)@ + placing_ops(*group),
{
    let ghost before = out@;
    if group.faded {
        out.push(Op::Fade(group.id));
    }
    if group.moved {
        out.push(Op::MoveGroup(group.id));
    }
    proof {
        assert(out@ =~= before + placing_ops(*group));
    }
}

/// Adds the steps that are taken on a group as a whole.
fn add_effects(group: &Group, out: &mut Vec<Op>) -> (r: bool)
    ensures
        r == (effect_ops(*group) is Some),
        r ==> final(out)@ == old(out)@ + effect_ops(*group)->0,
    decreases group, 1nat,
{
    let ghost before = out@;
    if !add_filters(&group.filters, out) || !add_clip(&group.clip, out) || !add_mask(&group.mask, out) {
        return false;
    }
    add_placing(group, out);
    proof {
        let filters = filter_ops(group.filters@, group.filters@.len())->0;
        let clip = any_clip_ops(group.clip)->0;
        let mask = any_mask_ops(group.mask)->0;
        assert(before + filters + clip + mask + placing_ops(*group) =~= before + (filters + clip + mask
            + placing_ops(*group)));
    }
    true
}

/// Adds the steps of a group.
fn add_group(group: &Group, out: &mut Vec<Op>) -> (r: bool)
    ensures
        r == (group_ops(*group) is Some),
        r ==> final(out)@ == old(out)@ + group_ops(*group)->0,
    decreases group, 2nat,
{
    let ghost before = out@;
    out.push(Op::Open);
    if !add_children(group, out) {
        return false;
    }
    out.push(Op::Close);
    if !group.normal_blend {
        return false;
    }
    if !add_effects(group, out) {
        return false;
    }
    proof {
        assert(out@ =~= before + group_ops(*group)->0);
    }
    true
}

/// The steps that build the whole drawing. `None` means that this file needs the
/// rasterising fallback.
pub fn build(root: &Group) -> (r: Option<Vec<Op>>)
    ensures
        match r {
            Some(ops) => group_shapes(*root, root.children@.len()) <= MAX_SHAPES && group_ops(*root)
                == Some(ops@),
            None => group_shapes(*root, root.children@.len()) > MAX_SHAPES || group_ops(*root) is None,
        },
{
    if shapes(root) > MAX_SHAPES {
        return None;
    }
    let mut ops: Vec<Op> = Vec::new();
    if add_group(root, &mut ops) {
        proof {
            assert(ops@ =~= group_ops(*root)->0);
        }
        Some(ops)
    } else {
        None
    }
}

/// What a step does to the number of parts in each of the rows that are open,
/// the innermost last. Nothing where a step has too little to work on.
pub open spec fn stepped(rows: Seq<nat>, op: Op) -> Option<Seq<nat>> {
    match op {
        Op::Open => Some(rows.push(0)),
        Op::Close => if rows.len() >= 2 {
            Some(with_more(rows.drop_last(), 1))
        } else {
            None
        },
        Op::Fill { .. } | Op::Stroke { .. } => if rows.len() >= 1 {
            Some(with_more(rows, 1))
        } else {
            None
        },
        Op::MaskBy { .. } => if rows.len() >= 1 && rows.last() >= 2 {
            Some(rows.drop_last().push((rows.last() - 1) as nat))
        } else {
            None
        },
        _ => if rows.len() >= 1 && rows.last() >= 1 {
            Some(rows)
        } else {
            None
        },
    }
}

/// Rows with so many more parts in the innermost.
pub open spec fn with_more(rows: Seq<nat>, more: nat) -> Seq<nat> {
    rows.drop_last().push(rows.last() + more)
}

/// What steps do, one after the other, to the number of parts in each open row.
pub open spec fn run(ops: Seq<Op>, rows: Seq<nat>) -> Option<Seq<nat>>
    decreases ops.len(),
{
    if ops.len() == 0 {
        Some(rows)
    } else {
        match run(ops.drop_last(), rows) {
            None => None,
            Some(between) => stepped(between, ops.last()),
        }
    }
}

proof fn lemma_run_parts(a: Seq<Op>, b: Seq<Op>, rows: Seq<nat>)
    requires
        run(a, rows) is Some,
    ensures
        run(a + b, rows) == run(b, run(a, rows)->0),
    decreases b.len(),
{
    if b.len() == 0 {
        assert(a + b =~= a);
    } else {
        assert((a + b).drop_last() =~= a + b.drop_last());
        assert((a + b).last() == b.last());
        lemma_run_parts(a, b.drop_last(), rows);
    }
}

proof fn lemma_run_one(op: Op, rows: Seq<nat>)
    ensures
        run(seq![op], rows) == stepped(rows, op),
{
    assert(seq![op].drop_last() =~= Seq::<Op>::empty());
    assert(run(Seq::<Op>::empty(), rows) == Some(rows));
}

proof fn lemma_filters_run(filters: Seq<Filter>, count: nat, rows: Seq<nat>)
    requires
        filter_ops(filters, count) is Some,
        rows.len() >= 1,
        rows.last() >= 1,
    ensures
        run(filter_ops(filters, count)->0, rows) == Some(rows),
    decreases count,
{
    if count > 0 {
        lemma_filters_run(filters, (count - 1) as nat, rows);
        let before = filter_ops(filters, (count - 1) as nat)->0;
        let all = filter_ops(filters, count)->0;
        assert(all.drop_last() =~= before);
    }
}

proof fn lemma_coat_runs(shape: u64, coat: Option<Coat>, stroke: bool, rows: Seq<nat>) -> (more: nat)
    requires
        coat_ops(shape, coat, stroke) is Some,
        rows.len() >= 1,
    ensures
        run(coat_ops(shape, coat, stroke)->0, rows) == Some(with_more(rows, more)),
{
    let ops = coat_ops(shape, coat, stroke)->0;
    if coat is None {
        assert(with_more(rows, 0) =~= rows);
        0
    } else {
        lemma_run_one(ops[0], rows);
        assert(ops =~= seq![ops[0]]);
        1
    }
}

proof fn lemma_node_runs(node: Node, rows: Seq<nat>) -> (more: nat)
    requires
        node_ops(node) is Some,
        rows.len() >= 1,
    ensures
        run(node_ops(node)->0, rows) == Some(with_more(rows, more)),
    decreases node, 0nat,
{
    match node {
        Node::Group(inner) => {
            law_a_group_makes_one_part(inner, rows);
            1
        },
        Node::Text(inner) => {
            law_a_group_makes_one_part(inner, rows);
            1
        },
        Node::Path(shape) => {
            if !shape.visible {
                assert(with_more(rows, 0) =~= rows);
                0
            } else {
                let (first, second, last) = if shape.stroke_first {
                    (shape.stroke, shape.fill, false)
                } else {
                    (shape.fill, shape.stroke, true)
                };
                let a = lemma_coat_runs(shape.id, first, !last, rows);
                let b = lemma_coat_runs(shape.id, second, last, with_more(rows, a));
                lemma_run_parts(
                    coat_ops(shape.id, first, !last)->0,
                    coat_ops(shape.id, second, last)->0,
                    rows,
                );
                assert(with_more(with_more(rows, a), b) =~= with_more(rows, a + b));
                a + b
            }
        },
        Node::Image => 0,
    }
}

proof fn lemma_children_run(group: Group, count: nat, rows: Seq<nat>) -> (more: nat)
    requires
        children_ops(group, count) is Some,
        count <= group.children@.len(),
        rows.len() >= 1,
    ensures
        run(children_ops(group, count)->0, rows) == Some(with_more(rows, more)),
    decreases group, count + 1,
{
    if count == 0 {
        assert(with_more(rows, 0) =~= rows);
        0
    } else {
        let a = lemma_children_run(group, (count - 1) as nat, rows);
        let b = lemma_node_runs(group.children@[count - 1], with_more(rows, a));
        lemma_run_parts(
            children_ops(group, (count - 1) as nat)->0,
            node_ops(group.children@[count - 1])->0,
            rows,
        );
        assert(with_more(with_more(rows, a), b) =~= with_more(rows, a + b));
        a + b
    }
}

proof fn lemma_clip_runs(clip: Clip, rows: Seq<nat>)
    requires
        clip_ops(clip) is Some,
        rows.len() >= 1,
        rows.last() >= 1,
    ensures
        run(clip_ops(clip)->0, rows) == Some(rows),
    decreases clip, 0nat,
{
    let root = group_ops(clip.root)->0;
    let moved = if clip.moved { seq![Op::MoveClip(clip.id)] } else { Seq::empty() };
    let inner = any_clip_ops(clip.inner)->0;
    let taller = with_more(rows, 1);
    law_a_group_makes_one_part(clip.root, rows);
    if clip.moved {
        lemma_run_one(Op::MoveClip(clip.id), taller);
    }
    lemma_any_clip_runs(clip.inner, taller);
    lemma_run_parts(root, moved, rows);
    lemma_run_parts(root + moved, inner, rows);
    lemma_run_one(Op::MaskBy { luminance: false }, taller);
    lemma_run_parts(root + moved + inner, seq![Op::MaskBy { luminance: false }], rows);
    assert(taller.drop_last().push((taller.last() - 1) as nat) =~= rows);
}

proof fn lemma_any_clip_runs(clip: Option<Box<Clip>>, rows: Seq<nat>)
    requires
        any_clip_ops(clip) is Some,
        rows.len() >= 1,
        rows.last() >= 1,
    ensures
        run(any_clip_ops(clip)->0, rows) == Some(rows),
    decreases clip, 1nat,
{
    if let Some(path) = clip {
        lemma_clip_runs(*path, rows);
    }
}

proof fn lemma_mask_runs(mask: Mask, rows: Seq<nat>)
    requires
        mask_ops(mask) is Some,
        rows.len() >= 1,
        rows.last() >= 1,
    ensures
        run(mask_ops(mask)->0, rows) == Some(rows),
    decreases mask, 0nat,
{
    let root = group_ops(mask.root)->0;
    let inner = any_mask_ops(mask.inner)->0;
    let taller = with_more(rows, 1);
    law_a_group_makes_one_part(mask.root, rows);
    lemma_any_mask_runs(mask.inner, taller);
    lemma_run_parts(root, inner, rows);
    let region = Op::Region(mask.id);
    let by = Op::MaskBy { luminance: mask.luminance };
    lemma_run_one(region, taller);
    lemma_run_one(by, taller);
    assert(seq![region, by] =~= seq![region] + seq![by]);
    lemma_run_parts(seq![region], seq![by], taller);
    lemma_run_parts(root + inner, seq![region, by], rows);
    assert(taller.drop_last().push((taller.last() - 1) as nat) =~= rows);
}

proof fn lemma_any_mask_runs(mask: Option<Box<Mask>>, rows: Seq<nat>)
    requires
        any_mask_ops(mask) is Some,
        rows.len() >= 1,
        rows.last() >= 1,
    ensures
        run(any_mask_ops(mask)->0, rows) == Some(rows),
    decreases mask, 1nat,
{
    if let Some(cover) = mask {
        lemma_mask_runs(*cover, rows);
    }
}

/// However deep a drawing is, no step of its translation ever lacks a part to
/// work on, and all of them together make exactly one part.
pub proof fn law_a_group_makes_one_part(group: Group, rows: Seq<nat>)
    requires
        group_ops(group) is Some,
        rows.len() >= 1,
    ensures
        run(group_ops(group)->0, rows) == Some(with_more(rows, 1)),
    decreases group, group.children@.len() + 2,
{
    let children = children_ops(group, group.children@.len())->0;
    let opened = rows.push(0);
    lemma_run_one(Op::Open, rows);
    let more = lemma_children_run(group, group.children@.len(), opened);
    lemma_run_parts(seq![Op::Open], children, rows);
    let full = with_more(opened, more);
    let closed = with_more(rows, 1);
    lemma_run_one(Op::Close, full);
    assert(full.drop_last() =~= rows);
    lemma_run_parts(seq![Op::Open] + children, seq![Op::Close], rows);
    lemma_effects_run(group, closed);
    lemma_run_parts(seq![Op::Open] + children + seq![Op::Close], effect_ops(group)->0, rows);
}

proof fn lemma_effects_run(group: Group, rows: Seq<nat>)
    requires
        effect_ops(group) is Some,
        rows.len() >= 1,
        rows.last() >= 1,
    ensures
        run(effect_ops(group)->0, rows) == Some(rows),
    decreases group, 0nat,
{
    let filters = filter_ops(group.filters@, group.filters@.len())->0;
    let clip = any_clip_ops(group.clip)->0;
    let mask = any_mask_ops(group.mask)->0;
    let fade = if group.faded { seq![Op::Fade(group.id)] } else { Seq::empty() };
    let moved = if group.moved { seq![Op::MoveGroup(group.id)] } else { Seq::empty() };
    lemma_filters_run(group.filters@, group.filters@.len(), rows);
    lemma_any_clip_runs(group.clip, rows);
    lemma_any_mask_runs(group.mask, rows);
    lemma_run_one(Op::Fade(group.id), rows);
    lemma_run_one(Op::MoveGroup(group.id), rows);
    lemma_run_parts(fade, moved, rows);
    lemma_run_parts(filters, clip, rows);
    lemma_run_parts(filters + clip, mask, rows);
    lemma_run_parts(filters + clip + mask, fade + moved, rows);
}

/// A gradient keeps whether it repeats and whether it is mapped; only what has an
/// equivalent is painted: no pattern, nothing that reflects or whose map cannot be
/// undone, and of the round ones only those that are centred and do not repeat.
pub proof fn law_gradients_keep_their_nature(paint: Paint)
    ensures
        paint is Colour ==> brush_of(paint) == Some(Brush::Colour),
        paint is Pattern ==> brush_of(paint) is None,
        paint matches Paint::Linear { spread, space } ==> match brush_of(paint) {
            Some(Brush::Linear { repeating, mapped }) => {
                &&& spread == Spread::Pad && !repeating || spread == Spread::Repeat && repeating
                &&& space == Space::Same && !mapped || space == Space::Mapped && mapped
            },
            Some(_) => false,
            None => spread == Spread::Reflect || space == Space::Lost,
        },
        paint matches Paint::Radial { centred, spread, space } ==> match brush_of(paint) {
            Some(Brush::Radial { mapped }) => {
                &&& centred && spread == Spread::Pad
                &&& space == Space::Same && !mapped || space == Space::Mapped && mapped
            },
            Some(_) => false,
            None => !centred || spread == Spread::Repeat || spread == Spread::Reflect || space
                == Space::Lost,
        },
{
}

/// Filters are applied in the order in which they are listed, each of them, and one
/// that cannot be leaves the whole group to the rasteriser.
pub proof fn law_filters_come_in_order(filters: Seq<Filter>, count: nat)
    requires
        count <= filters.len(),
    ensures
        match filter_ops(filters, count) {
            Some(ops) => ops.len() == count && forall|i: int|
                0 <= i < count ==> match #[trigger] ops[i] {
                    Op::Blur(id) => id == filters[i].id && filters[i].primitives@.len() == 1
                        && filters[i].primitives@[0] == (Primitive::Blur { even: true }),
                    Op::Shadow(id) => id == filters[i].id && filters[i].primitives@.len() == 1
                        && filters[i].primitives@[0] == (Primitive::Shadow { even: true }),
                    _ => false,
                },
            None => exists|i: int|
                0 <= i < count && ({
                    let list = (#[trigger] filters[i]).primitives@;
                    list.len() != 1 || (list[0] != (Primitive::Blur { even: true }) && list[0] != (
                    Primitive::Shadow { even: true }))
                }),
        },
    decreases count,
{
    if count > 0 {
        law_filters_come_in_order(filters, (count - 1) as nat);
        let list = filters[count - 1].primitives@;
        assert(filter_op(filters[count - 1]) is None ==> list.len() != 1 || (list[0] != (
        Primitive::Blur { even: true }) && list[0] != (Primitive::Shadow { even: true })));
        match filter_ops(filters, (count - 1) as nat) {
            Some(before) => {
                if let Some(op) = filter_op(filters[count - 1]) {
                    let ops = before.push(op);
                    assert forall|i: int| 0 <= i < count - 1 implies #[trigger] ops[i]
                        == before[i] by {}
                }
            },
            None => {
                let i: int = choose|i: int|
                    0 <= i < count - 1 && ({
                        let list = (#[trigger] filters[i]).primitives@;
                        list.len() != 1 || (list[0] != (Primitive::Blur { even: true }) && list[0]
                            != (Primitive::Shadow { even: true }))
                    });
                assert(0 <= i < count);
            },
        }
    }
}

/// A clip path is drawn, put in its place, cut down by the clip path within it, and only
/// then taken as a mask, by its cover and not by its brightness.
pub proof fn law_a_clip_is_clipped_before_it_masks(clip: Clip)
    requires
        clip_ops(clip) is Some,
    ensures
        ({
            let ops = clip_ops(clip)->0;
            let root = group_ops(clip.root)->0;
            let n = root.len() as int;
            let last = ops.len() - 1;
            &&& group_ops(clip.root) is Some
            &&& n < ops.len()
            &&& ops.subrange(0, n) == root
            &&& ops[last] == (Op::MaskBy { luminance: false })
            &&& clip.moved ==> ops[n] == Op::MoveClip(clip.id)
            &&& clip.inner matches Some(inner) ==> clip_ops(*inner) == Some(
                ops.subrange(
                    if clip.moved {
                        n + 1
                    } else {
                        n
                    },
                    last,
                ),
            )
            &&& clip.inner is None ==> last == (if clip.moved {
                n + 1
            } else {
                n
            })
        }),
{
    let ops = clip_ops(clip)->0;
    let root = group_ops(clip.root)->0;
    let n = root.len() as int;
    let inner = any_clip_ops(clip.inner)->0;
    let moving = if clip.moved {
        seq![Op::MoveClip(clip.id)]
    } else {
        Seq::empty()
    };
    assert(ops == root + moving + inner + seq![Op::MaskBy { luminance: false }]);
    assert(ops.subrange(0, n) =~= root);
    assert(ops.subrange(n + moving.len(), ops.len() - 1) =~= inner);
}

/// A mask is drawn, cut down by the mask within it and to its own region, and then
/// taken by its brightness or by its cover as it says.
pub proof fn law_a_mask_is_cut_down_before_it_masks(mask: Mask)
    requires
        mask_ops(mask) is Some,
    ensures
        ({
            let ops = mask_ops(mask)->0;
            let root = group_ops(mask.root)->0;
            let n = root.len() as int;
            let last = ops.len() - 1;
            &&& group_ops(mask.root) is Some
            &&& n + 2 <= ops.len()
            &&& ops.subrange(0, n) == root
            &&& ops[last] == (Op::MaskBy { luminance: mask.luminance })
            &&& ops[last - 1] == Op::Region(mask.id)
            &&& mask.inner matches Some(inner) ==> mask_ops(*inner) == Some(
                ops.subrange(n, last - 1),
            )
            &&& mask.inner is None ==> n == last - 1
        }),
{
    let ops = mask_ops(mask)->0;
    let root = group_ops(mask.root)->0;
    let n = root.len() as int;
    let inner = any_mask_ops(mask.inner)->0;
    assert(ops == root + inner + seq![
        Op::Region(mask.id),
        Op::MaskBy { luminance: mask.luminance },
    ]);
    assert(ops.subrange(0, n) =~= root);
    assert(ops.subrange(n, ops.len() - 2) =~= inner);
}

/// A group is faded and then moved, last of all, and text is the group of its outlines.
pub proof fn law_a_group_is_placed_last(group: Group)
    requires
        group_ops(group) is Some,
    ensures
        ({
            let ops = group_ops(group)->0;
            let n = ops.len() as int;
            &&& n >= 2 && ops[0] == Op::Open
            &&& group.normal_blend
            &&& group.moved ==> ops[n - 1] == Op::MoveGroup(group.id)
            &&& group.faded && group.moved ==> ops[n - 2] == Op::Fade(group.id)
            &&& group.faded && !group.moved ==> ops[n - 1] == Op::Fade(group.id)
        }),
        node_ops(Node::Text(group)) == node_ops(Node::Group(group)),
        node_shapes(Node::Text(group)) == node_shapes(Node::Group(group)),
{
    let children = children_ops(group, group.children@.len())->0;
    let effects = effect_ops(group)->0;
    let placing = placing_ops(group);
    let ops = group_ops(group)->0;
    assert(ops == seq![Op::Open] + children + seq![Op::Close] + effects);
    let before = filter_ops(group.filters@, group.filters@.len())->0 + any_clip_ops(group.clip)->0
        + any_mask_ops(group.mask)->0;
    assert(effects == before + placing);
}

} // verus!
