//! The score model: the group / path tree read out of the engraved score,
//! with solid paints, stroke properties and absolute transforms, and the
//! depth-first walk that flattens it into paths with their adopted group id.
//!
//! Geometry is carried opaquely: coordinates and transform entries are the
//! bit patterns of the host's 32-bit floating-point values. The walk only
//! ever copies and compares them, so bit-exact values are all it needs.

use vstd::prelude::*;

verus! {

/// A 2x3 affine transform, entries carried as 32-bit float bit patterns
/// (sx, kx, ky, sy, tx, ty).
#[derive(Clone, Copy, PartialEq, Eq, Structural, Debug)]
pub struct Transform2x3 {
    pub sx: u32,
    pub kx: u32,
    pub ky: u32,
    pub sy: u32,
    pub tx: u32,
    pub ty: u32,
}

/// A solid paint: colour channels and an 8-bit opacity.
#[derive(Clone, Copy, PartialEq, Eq, Structural, Debug)]
pub struct Paint {
    pub red: u8,
    pub green: u8,
    pub blue: u8,
    pub alpha: u8,
}

/// How a stroke ends.
#[derive(Clone, Copy, PartialEq, Eq, Structural, Debug)]
pub enum StrokeCap {
    Butt,
    Square,
    Round,
}

/// How a stroke turns a corner.
#[derive(Clone, Copy, PartialEq, Eq, Structural, Debug)]
pub enum StrokeJoin {
    Miter,
    Bevel,
    Round,
    MiterClip,
}

/// A stroke: its paint, width (a float bit pattern), cap and join.
#[derive(Clone, Copy, PartialEq, Eq, Structural, Debug)]
pub struct StrokeStyle {
    pub paint: Paint,
    pub width: u32,
    pub cap: StrokeCap,
    pub join: StrokeJoin,
}

/// A point, both coordinates float bit patterns.
#[derive(Clone, Copy, PartialEq, Eq, Structural, Debug)]
pub struct PointBits {
    pub x: u32,
    pub y: u32,
}

/// One segment of a path outline.
#[derive(Clone, Copy, PartialEq, Eq, Structural, Debug)]
pub enum PathSegment {
    MoveTo(PointBits),
    LineTo(PointBits),
    QuadTo(PointBits, PointBits),
    CubicTo(PointBits, PointBits, PointBits),
    Close,
}

/// Specification view of a path.
pub ghost struct PathV {
    pub transform: Transform2x3,
    pub fill: Option<Paint>,
    pub stroke: Option<StrokeStyle>,
    pub segments: Seq<PathSegment>,
}

/// One path of the score: its absolute transform, its optional fill and
/// stroke, and its outline.
pub struct ScorePath {
    pub transform: Transform2x3,
    pub fill: Option<Paint>,
    pub stroke: Option<StrokeStyle>,
    pub segments: Vec<PathSegment>,
}

impl View for ScorePath {
    type V = PathV;

    open spec fn view(&self) -> PathV {
        PathV {
            transform: self.transform,
            fill: self.fill,
            stroke: self.stroke,
            segments: self.segments@,
        }
    }
}

impl Clone for ScorePath {
    fn clone(&self) -> (r: Self)
        ensures
            r@ == self@,
    {
        let mut segments: Vec<PathSegment> = Vec::new();
        let mut i: usize = 0;
        while i < self.segments.len()
            invariant
                i <= self.segments@.len(),
                segments@ =~= self.segments@.take(i as int),
            decreases self.segments@.len() - i,
        {
            segments.push(self.segments[i]);
            i += 1;
        }
        proof {
            assert(self.segments@.take(self.segments@.len() as int) =~= self.segments@);
        }
        ScorePath { transform: self.transform, fill: self.fill, stroke: self.stroke, segments }
    }
}

/// A node of the score tree: a nested group or a path.
pub enum ScoreNode {
    Group(ScoreGroup),
    Path(ScorePath),
}

/// A group of the score tree, with its (possibly empty) id.
pub struct ScoreGroup {
    pub id: String,
    pub children: Vec<ScoreNode>,
}

/// The id a group hands down: its own id if nonempty, else the inherited
/// one.
pub open spec fn group_id_spec(id: Seq<char>, inherited: Seq<char>) -> Seq<char> {
    if id.len() == 0 {
        inherited
    } else {
        id
    }
}

/// The paths one node contributes, depth first, each with the group id it
/// adopts: a path adopts the current id; a group's descendants adopt the
/// group's id if it is nonempty, the current id otherwise.
pub open spec fn collect_from_node(node: ScoreNode, inherited: Seq<char>) -> Seq<
    (PathV, Seq<char>),
>
    decreases node,
{
    match node {
        ScoreNode::Group(g) => collect_from_nodes(
            g.children@,
            group_id_spec(g.id@, inherited),
        ),
        ScoreNode::Path(p) => seq![(p@, inherited)],
    }
}

/// The paths a list of nodes contributes, in order.
pub open spec fn collect_from_nodes(nodes: Seq<ScoreNode>, inherited: Seq<char>) -> Seq<
    (PathV, Seq<char>),
>
    decreases nodes,
{
    if nodes.len() == 0 {
        Seq::empty()
    } else {
        collect_from_node(nodes.first(), inherited) + collect_from_nodes(
            nodes.drop_first(),
            inherited,
        )
    }
}

/// Appending one node appends its contribution.
pub proof fn lemma_collect_snoc(nodes: Seq<ScoreNode>, inherited: Seq<char>, n: ScoreNode)
    ensures
        collect_from_nodes(nodes.push(n), inherited) =~~= collect_from_nodes(nodes, inherited)
            + collect_from_node(n, inherited),
    decreases nodes.len(),
{
    if nodes.len() == 0 {
        assert(nodes.push(n).drop_first() =~= Seq::<ScoreNode>::empty());
        assert(nodes.push(n).first() == n);
        assert(collect_from_nodes(nodes.push(n), inherited) == collect_from_node(n, inherited)
            + collect_from_nodes(nodes.push(n).drop_first(), inherited));
        assert(collect_from_nodes(Seq::<ScoreNode>::empty(), inherited) =~~= Seq::<
            (PathV, Seq<char>),
        >::empty());
    } else {
        assert(nodes.push(n).first() == nodes.first());
        assert(nodes.push(n).drop_first() =~= nodes.drop_first().push(n));
        lemma_collect_snoc(nodes.drop_first(), inherited, n);
        assert(collect_from_nodes(nodes.push(n), inherited) == collect_from_node(
            nodes.first(),
            inherited,
        ) + collect_from_nodes(nodes.drop_first().push(n), inherited));
        assert(collect_from_nodes(nodes, inherited) == collect_from_node(nodes.first(), inherited)
            + collect_from_nodes(nodes.drop_first(), inherited));
    }
}

/// The view of the collected path list.
pub open spec fn paths_view(v: Seq<(ScorePath, String)>) -> Seq<(PathV, Seq<char>)> {
    v.map_values(|pr: (ScorePath, String)| (pr.0@, pr.1@))
}

/// Flatten the tree under `parent` into `paths`, depth first.
///
/// Identifier inheritance: a path adopts `id_attr`; a child group with a
/// nonempty id replaces `id_attr` for its own descendants.
pub fn collect_paths(parent: &ScoreGroup, paths: &mut Vec<(ScorePath, String)>, id_attr: &str)
    ensures
        paths_view(final(paths)@) =~~= paths_view(old(paths)@) + collect_from_nodes(
            parent.children@,
            id_attr@,
        ),
    decreases *parent,
{
    let ghost cur_id = id_attr@;
    let mut i: usize = 0;
    while i < parent.children.len()
        invariant
            i <= parent.children@.len(),
            cur_id == id_attr@,
            paths_view(paths@) =~~= paths_view(old(paths)@) + collect_from_nodes(
                parent.children@.take(i as int),
                cur_id,
            ),
        decreases parent.children@.len() - i,
    {
        proof {
            assert(parent.children@.take(i as int + 1) =~= parent.children@.take(i as int).push(
                parent.children@[i as int],
            ));
            lemma_collect_snoc(
                parent.children@.take(i as int),
                cur_id,
                parent.children@[i as int],
            );
        }
        match &parent.children[i] {
            ScoreNode::Group(g) => {
                let inner_id: &str = if g.id.as_str().is_empty() {
                    id_attr
                } else {
                    g.id.as_str()
                };
                collect_paths(g, paths, inner_id);
            },
            ScoreNode::Path(p) => {
                let ghost pre_paths = paths@;
                let id_string = String::from_str(id_attr);
                proof {
                    assert(id_string@ == cur_id);
                }
                paths.push((p.clone(), id_string));
                proof {
                    assert(paths@.drop_last() =~= pre_paths);
                    assert(paths_view(paths@).last() == (
                        parent.children@[i as int]->Path_0@,
                        cur_id,
                    ));
                    assert(paths_view(paths@).drop_last() =~= paths_view(pre_paths));
                    assert(paths_view(paths@) =~= paths_view(pre_paths).push(
                        (parent.children@[i as int]->Path_0@, cur_id),
                    ));
                }
            },
        }
        i += 1;
    }
    proof {
        assert(parent.children@.take(parent.children@.len() as int) =~= parent.children@);
    }
}

} // verus!
