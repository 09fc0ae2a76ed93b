//! From the score model to GPU-ready data: path outlines become path
//! events for the tessellator, paths become primitives with packed colours
//! and deduplicated transforms, identified groups become glyph groups, and
//! the tessellator's output is assembled into one vertex / index mesh in
//! which every vertex names its primitive.

use vstd::prelude::*;

use crate::color::pack_rgba_spec;
use crate::score::{Paint, PathSegment, PathV, PointBits, ScorePath, StrokeStyle, Transform2x3};
use crate::text::str_eq;

verus! {

/// A path event handed to the tessellator: a subpath begins, continues
/// with line or curve segments, and ends, possibly closed.
#[derive(Clone, Copy, PartialEq, Eq, Structural, Debug)]
pub enum PathEvt {
    Begin { at: PointBits },
    Line { from: PointBits, to: PointBits },
    Quadratic { from: PointBits, ctrl: PointBits, to: PointBits },
    Cubic { from: PointBits, ctrl1: PointBits, ctrl2: PointBits, to: PointBits },
    End { last: PointBits, first: PointBits, close: bool },
}

/// The walker's state between segments: the subpath's first point, the
/// previous point, and whether a subpath is open and owes an `End`.
pub ghost struct ConvState {
    pub first: PointBits,
    pub prev: PointBits,
    pub needs_end: bool,
}

/// The walk starts at the origin with no open subpath.
pub open spec fn conv_init() -> ConvState {
    ConvState { first: PointBits { x: 0, y: 0 }, prev: PointBits { x: 0, y: 0 }, needs_end: false }
}

/// One segment's effect: the successor state and the events emitted.
pub open spec fn conv_step(st: ConvState, seg: PathSegment) -> (ConvState, Seq<PathEvt>) {
    match seg {
        PathSegment::MoveTo(p) => {
            if st.needs_end {
                (
                    ConvState { first: p, prev: p, needs_end: false },
                    seq![
                        PathEvt::End { last: st.prev, first: st.first, close: false },
                        PathEvt::Begin { at: p },
                    ],
                )
            } else {
                (
                    ConvState { first: p, prev: st.prev, needs_end: true },
                    seq![PathEvt::Begin { at: p }],
                )
            }
        },
        PathSegment::LineTo(p) => {
            (
                ConvState { first: st.first, prev: p, needs_end: true },
                seq![PathEvt::Line { from: st.prev, to: p }],
            )
        },
        PathSegment::QuadTo(p1, p2) => {
            (
                ConvState { first: st.first, prev: p2, needs_end: true },
                seq![PathEvt::Quadratic { from: st.prev, ctrl: p1, to: p2 }],
            )
        },
        PathSegment::CubicTo(p1, p2, p3) => {
            (
                ConvState { first: st.first, prev: p3, needs_end: true },
                seq![PathEvt::Cubic { from: st.prev, ctrl1: p1, ctrl2: p2, to: p3 }],
            )
        },
        PathSegment::Close => {
            (
                ConvState { first: st.first, prev: st.first, needs_end: false },
                seq![PathEvt::End { last: st.first, first: st.first, close: true }],
            )
        },
    }
}

/// The events the remaining segments emit from state `st`, with a final
/// `End` if a subpath is still open when the segments run out.
pub open spec fn conv_events(segs: Seq<PathSegment>, st: ConvState) -> Seq<PathEvt>
    decreases segs.len(),
{
    if segs.len() == 0 {
        if st.needs_end {
            seq![PathEvt::End { last: st.prev, first: st.first, close: false }]
        } else {
            Seq::empty()
        }
    } else {
        conv_step(st, segs.first()).1 + conv_events(segs.drop_first(), conv_step(st, segs.first()).0)
    }
}

/// The events a path's outline emits.
pub open spec fn path_events_spec(segs: Seq<PathSegment>) -> Seq<PathEvt> {
    conv_events(segs, conv_init())
}

/// Convert a path's segments into the events the tessellator consumes.
pub fn convert_path(p: &ScorePath) -> (r: Vec<PathEvt>)
    ensures
        r@ =~= path_events_spec(p.segments@),
{
    let mut out: Vec<PathEvt> = Vec::new();
    let mut first = PointBits { x: 0, y: 0 };
    let mut prev = PointBits { x: 0, y: 0 };
    let mut needs_end = false;
    let mut i: usize = 0;
    proof {
        assert(p.segments@.skip(0) =~= p.segments@);
    }
    while i < p.segments.len()
        invariant
            i <= p.segments@.len(),
            path_events_spec(p.segments@) =~= out@ + conv_events(
                p.segments@.skip(i as int),
                ConvState { first, prev, needs_end },
            ),
        decreases p.segments@.len() - i,
    {
        let ghost st = ConvState { first, prev, needs_end };
        let ghost rest = p.segments@.skip(i as int);
        let ghost pre_out = out@;
        proof {
            assert(rest.first() == p.segments@[i as int]);
            assert(rest.drop_first() =~= p.segments@.skip(i as int + 1));
        }
        match p.segments[i] {
            PathSegment::MoveTo(pt) => {
                if needs_end {
                    out.push(PathEvt::End { last: prev, first, close: false });
                    out.push(PathEvt::Begin { at: pt });
                    first = pt;
                    prev = pt;
                    needs_end = false;
                } else {
                    out.push(PathEvt::Begin { at: pt });
                    first = pt;
                    needs_end = true;
                }
            },
            PathSegment::LineTo(pt) => {
                out.push(PathEvt::Line { from: prev, to: pt });
                prev = pt;
                needs_end = true;
            },
            PathSegment::QuadTo(p1, p2) => {
                out.push(PathEvt::Quadratic { from: prev, ctrl: p1, to: p2 });
                prev = p2;
                needs_end = true;
            },
            PathSegment::CubicTo(p1, p2, p3) => {
                out.push(PathEvt::Cubic { from: prev, ctrl1: p1, ctrl2: p2, to: p3 });
                prev = p3;
                needs_end = true;
            },
            PathSegment::Close => {
                out.push(PathEvt::End { last: first, first, close: true });
                prev = first;
                needs_end = false;
            },
        }
        proof {
            assert(out@ =~= pre_out + conv_step(st, rest.first()).1);
            assert(ConvState { first, prev, needs_end } == conv_step(st, rest.first()).0);
            assert(path_events_spec(p.segments@) =~= out@ + conv_events(
                p.segments@.skip(i as int + 1),
                conv_step(st, rest.first()).0,
            ));
        }
        i += 1;
    }
    proof {
        assert(p.segments@.skip(p.segments@.len() as int) =~= Seq::<PathSegment>::empty());
    }
    if needs_end {
        out.push(PathEvt::End { last: prev, first, close: false });
    }
    out
}

/// One primitive as the GPU sees it: a transform index, a packed colour,
/// and two padding words.
#[derive(Clone, Copy, PartialEq, Eq, Structural, Debug)]
pub struct GpuPrimitive {
    pub transform: u32,
    pub color: u32,
    pub pad0: u32,
    pub pad1: u32,
}

impl GpuPrimitive {
    /// A primitive pointing at `transform_idx`, coloured with `paint`.
    pub fn new(transform_idx: u32, paint: Paint) -> (r: GpuPrimitive)
        ensures
            r == prim_of_paint(transform_idx, paint),
    {
        GpuPrimitive {
            transform: transform_idx,
            color: crate::color::pack_rgba(paint.red, paint.green, paint.blue, paint.alpha),
            pad0: 0,
            pad1: 0,
        }
    }
}

/// The primitive a paint gives rise to.
pub open spec fn prim_of_paint(transform_idx: u32, paint: Paint) -> GpuPrimitive {
    GpuPrimitive {
        transform: transform_idx,
        color: pack_rgba_spec(paint.red, paint.green, paint.blue, paint.alpha),
        pad0: 0,
        pad1: 0,
    }
}

/// A named set of primitive indices: all primitives of one identified
/// group of the score, recoloured together.
pub struct GlyphGroup {
    pub id: String,
    pub prims: Vec<usize>,
}

/// Specification view of a glyph group.
pub ghost struct GlyphGroupV {
    pub id: Seq<char>,
    pub prims: Seq<usize>,
}

impl View for GlyphGroup {
    type V = GlyphGroupV;

    open spec fn view(&self) -> GlyphGroupV {
        GlyphGroupV { id: self.id@, prims: self.prims@ }
    }
}

/// What a tessellation job outlines: a fill's interior, or a stroke's
/// contour with its style.
#[derive(Clone, Copy, PartialEq, Eq, Structural, Debug)]
pub enum JobKind {
    Fill,
    Stroke(StrokeStyle),
}

/// One tessellation job: which primitive its triangles belong to, what is
/// tessellated, and the path events to tessellate.
pub struct TessJob {
    pub prim_id: usize,
    pub kind: JobKind,
    pub events: Vec<PathEvt>,
}

/// Specification view of a tessellation job.
pub ghost struct TessJobV {
    pub prim_id: usize,
    pub kind: JobKind,
    pub events: Seq<PathEvt>,
}

impl View for TessJob {
    type V = TessJobV;

    open spec fn view(&self) -> TessJobV {
        TessJobV { prim_id: self.prim_id, kind: self.kind, events: self.events@ }
    }
}

/// Specification view of a whole plan.
pub ghost struct PlanV {
    pub transforms: Seq<Transform2x3>,
    pub primitives: Seq<GpuPrimitive>,
    pub groups: Seq<GlyphGroupV>,
    pub jobs: Seq<TessJobV>,
}

/// Everything the mesh builder and the render pipeline need from the
/// score: deduplicated transforms, primitives, glyph groups, and the
/// tessellation jobs still to run.
pub struct ScorePlan {
    pub transforms: Vec<Transform2x3>,
    pub primitives: Vec<GpuPrimitive>,
    pub groups: Vec<GlyphGroup>,
    pub jobs: Vec<TessJob>,
}

impl View for ScorePlan {
    type V = PlanV;

    open spec fn view(&self) -> PlanV {
        PlanV {
            transforms: self.transforms@,
            primitives: self.primitives@,
            groups: self.groups@.map_values(|g: GlyphGroup| g@),
            jobs: self.jobs@.map_values(|j: TessJob| j@),
        }
    }
}

/// Add a primitive index to the group named `id`, creating the group at
/// the end if no group has that name yet.
pub open spec fn group_add(groups: Seq<GlyphGroupV>, id: Seq<char>, prim: usize) -> Seq<
    GlyphGroupV,
>
    decreases groups.len(),
{
    if groups.len() == 0 {
        seq![GlyphGroupV { id, prims: seq![prim] }]
    } else if groups.first().id == id {
        seq![GlyphGroupV { id, prims: groups.first().prims.push(prim) }] + groups.drop_first()
    } else {
        seq![groups.first()] + group_add(groups.drop_first(), id, prim)
    }
}

/// The empty plan.
pub open spec fn plan_empty() -> PlanV {
    PlanV {
        transforms: Seq::empty(),
        primitives: Seq::empty(),
        groups: Seq::empty(),
        jobs: Seq::empty(),
    }
}

/// One path's contribution to the plan: its transform unless it repeats
/// the previously emitted one; a primitive, a tessellation job and (under
/// a nonempty id) a group entry for its fill; a primitive and a job for
/// its stroke.
pub open spec fn plan_step(acc: PlanV, p: PathV, id: Seq<char>) -> PlanV {
    let transforms = if acc.transforms.len() > 0 && acc.transforms.last() == p.transform {
        acc.transforms
    } else {
        acc.transforms.push(p.transform)
    };
    let tidx = (transforms.len() - 1) as u32;
    let after_fill = match p.fill {
        Some(paint) => PlanV {
            transforms,
            primitives: acc.primitives.push(prim_of_paint(tidx, paint)),
            groups: if id.len() > 0 {
                group_add(acc.groups, id, acc.primitives.len() as usize)
            } else {
                acc.groups
            },
            jobs: acc.jobs.push(
                TessJobV {
                    prim_id: acc.primitives.len() as usize,
                    kind: JobKind::Fill,
                    events: path_events_spec(p.segments),
                },
            ),
        },
        None => PlanV { transforms, primitives: acc.primitives, groups: acc.groups, jobs: acc.jobs },
    };
    match p.stroke {
        Some(style) => PlanV {
            transforms: after_fill.transforms,
            primitives: after_fill.primitives.push(prim_of_paint(tidx, style.paint)),
            groups: after_fill.groups,
            jobs: after_fill.jobs.push(
                TessJobV {
                    prim_id: after_fill.primitives.len() as usize,
                    kind: JobKind::Stroke(style),
                    events: path_events_spec(p.segments),
                },
            ),
        },
        None => after_fill,
    }
}

/// The plan of a list of paths with their adopted ids, in document order.
pub open spec fn plan_spec(paths: Seq<(PathV, Seq<char>)>) -> PlanV
    decreases paths.len(),
{
    if paths.len() == 0 {
        plan_empty()
    } else {
        plan_step(plan_spec(paths.drop_last()), paths.last().0, paths.last().1)
    }
}

/// Build the plan for the collected paths, as `plan_spec` describes.
pub fn plan_primitives(paths: &Vec<(ScorePath, String)>) -> (r: ScorePlan)
    ensures
        r@ == plan_spec(crate::score::paths_view(paths@)),
{
    let mut plan = ScorePlan {
        transforms: Vec::new(),
        primitives: Vec::new(),
        groups: Vec::new(),
        jobs: Vec::new(),
    };
    let ghost pathsv = crate::score::paths_view(paths@);
    let mut i: usize = 0;
    proof {
        assert(plan@.groups =~= Seq::<GlyphGroupV>::empty());
        assert(plan@.jobs =~= Seq::<TessJobV>::empty());
        assert(plan@ == plan_empty());
        assert(pathsv.take(0) =~= Seq::<(PathV, Seq<char>)>::empty());
    }
    while i < paths.len()
        invariant
            i <= paths@.len(),
            pathsv == crate::score::paths_view(paths@),
            plan@ == plan_spec(pathsv.take(i as int)),
        decreases paths@.len() - i,
    {
        let ghost acc = plan@;
        proof {
            assert(pathsv.take(i as int + 1).drop_last() =~= pathsv.take(i as int));
            assert(pathsv.take(i as int + 1).last() == pathsv[i as int]);
            assert(pathsv[i as int] == (paths@[i as int].0@, paths@[i as int].1@));
        }
        let p = &paths[i].0;
        let id = &paths[i].1;
        if plan.transforms.len() == 0 || !transform_eq(plan.transforms[plan.transforms.len() - 1], p.transform) {
            plan.transforms.push(p.transform);
        }
        let tidx32 = (plan.transforms.len() - 1) as u32;
        if let Some(paint) = p.fill {
            let prim_id = plan.primitives.len();
            plan.primitives.push(GpuPrimitive::new(tidx32, paint));
            if !id.as_str().is_empty() {
                group_push(&mut plan.groups, id.as_str(), prim_id);
            }
            plan.jobs.push(TessJob { prim_id, kind: JobKind::Fill, events: convert_path(p) });
        }
        if let Some(style) = p.stroke {
            let prim_id = plan.primitives.len();
            plan.primitives.push(GpuPrimitive::new(tidx32, style.paint));
            plan.jobs.push(
                TessJob { prim_id, kind: JobKind::Stroke(style), events: convert_path(p) },
            );
        }
        proof {
            assert(plan@.groups =~= plan_step(acc, pathsv[i as int].0, pathsv[i as int].1).groups);
            assert(plan@.jobs =~= plan_step(acc, pathsv[i as int].0, pathsv[i as int].1).jobs);
            assert(plan@.transforms =~= plan_step(
                acc,
                pathsv[i as int].0,
                pathsv[i as int].1,
            ).transforms);
            assert(plan@.primitives =~= plan_step(
                acc,
                pathsv[i as int].0,
                pathsv[i as int].1,
            ).primitives);
            assert(plan@ == plan_step(acc, pathsv[i as int].0, pathsv[i as int].1));
        }
        i += 1;
    }
    proof {
        assert(pathsv.take(paths@.len() as int) =~= pathsv);
    }
    plan
}

/// Bitwise equality of two transforms.
fn transform_eq(a: Transform2x3, b: Transform2x3) -> (r: bool)
    ensures
        r == (a == b),
{
    a.sx == b.sx && a.kx == b.kx && a.ky == b.ky && a.sy == b.sy && a.tx == b.tx && a.ty == b.ty
}

/// Append `prim` to the group named `id`, creating it if it is new, as
/// `group_add` describes.
fn group_push(groups: &mut Vec<GlyphGroup>, id: &str, prim: usize)
    ensures
        final(groups)@.map_values(|g: GlyphGroup| g@) =~~= group_add(
            old(groups)@.map_values(|g: GlyphGroup| g@),
            id@,
            prim,
        ),
{
    let ghost groupsv = groups@.map_values(|g: GlyphGroup| g@);
    let mut gi: usize = 0;
    while gi < groups.len()
        invariant
            gi <= groups@.len(),
            groupsv == groups@.map_values(|g: GlyphGroup| g@),
            groups@ == old(groups)@,
            forall|k: int| 0 <= k < gi ==> groupsv[k].id != id@,
        decreases groups@.len() - gi,
    {
        if str_eq(groups[gi].id.as_str(), id) {
            let mut g = groups.remove(gi);
            g.prims.push(prim);
            groups.insert(gi, g);
            proof {
                lemma_group_add_found(groupsv, id@, prim, gi as int);
                assert(groups@.map_values(|g: GlyphGroup| g@) =~~= groupsv.update(
                    gi as int,
                    GlyphGroupV { id: id@, prims: groupsv[gi as int].prims.push(prim) },
                ));
            }
            return ;
        }
        gi += 1;
    }
    let mut prims: Vec<usize> = Vec::new();
    prims.push(prim);
    groups.push(GlyphGroup { id: String::from_str(id), prims });
    proof {
        lemma_group_add_new(groupsv, id@, prim);
        assert(groups@.map_values(|g: GlyphGroup| g@) =~~= groupsv.push(
            GlyphGroupV { id: id@, prims: seq![prim] },
        ));
    }
}

/// When the first group named `id` stands at `gi`, adding to it updates
/// that entry alone.
pub proof fn lemma_group_add_found(groups: Seq<GlyphGroupV>, id: Seq<char>, prim: usize, gi: int)
    requires
        0 <= gi < groups.len(),
        groups[gi].id == id,
        forall|k: int| 0 <= k < gi ==> groups[k].id != id,
    ensures
        group_add(groups, id, prim) =~~= groups.update(
            gi,
            GlyphGroupV { id, prims: groups[gi].prims.push(prim) },
        ),
    decreases gi,
{
    if gi == 0 {
        assert(groups.first().id == id);
        assert(group_add(groups, id, prim) =~~= groups.update(
            gi,
            GlyphGroupV { id, prims: groups[gi].prims.push(prim) },
        ));
    } else {
        assert(groups.first().id != id);
        assert(forall|k: int| 0 <= k < gi - 1 ==> groups.drop_first()[k].id != id);
        lemma_group_add_found(groups.drop_first(), id, prim, gi - 1);
        assert(group_add(groups, id, prim) =~~= groups.update(
            gi,
            GlyphGroupV { id, prims: groups[gi].prims.push(prim) },
        ));
    }
}

/// When no group is named `id`, adding creates a new group at the end.
pub proof fn lemma_group_add_new(groups: Seq<GlyphGroupV>, id: Seq<char>, prim: usize)
    requires
        forall|k: int| 0 <= k < groups.len() ==> groups[k].id != id,
    ensures
        group_add(groups, id, prim) =~~= groups.push(GlyphGroupV { id, prims: seq![prim] }),
    decreases groups.len(),
{
    if groups.len() > 0 {
        assert(groups.first().id != id);
        lemma_group_add_new(groups.drop_first(), id, prim);
    }
}

/// The first group named `id`, or -1 if none is.
pub open spec fn find_group(groups: Seq<GlyphGroupV>, id: Seq<char>) -> int
    decreases groups.len(),
{
    if groups.len() == 0 {
        -1
    } else if groups.first().id == id {
        0
    } else {
        let r = find_group(groups.drop_first(), id);
        if r < 0 {
            -1
        } else {
            r + 1
        }
    }
}

pub proof fn lemma_find_group(groups: Seq<GlyphGroupV>, id: Seq<char>)
    ensures
        find_group(groups, id) < 0 ==> forall|k: int|
            0 <= k < groups.len() ==> groups[k].id != id,
        find_group(groups, id) >= 0 ==> {
            &&& find_group(groups, id) < groups.len()
            &&& groups[find_group(groups, id)].id == id
            &&& forall|k: int| 0 <= k < find_group(groups, id) ==> groups[k].id != id
        },
    decreases groups.len(),
{
    if groups.len() > 0 && groups.first().id != id {
        lemma_find_group(groups.drop_first(), id);
        let r = find_group(groups.drop_first(), id);
        if r < 0 {
            assert forall|k: int| 0 <= k < groups.len() implies groups[k].id != id by {
                if k > 0 {
                    assert(groups.drop_first()[k - 1] == groups[k]);
                }
            }
        } else {
            assert(groups.drop_first()[r] == groups[r + 1]);
            assert forall|k: int| 0 <= k < find_group(groups, id) implies groups[k].id != id by {
                if k > 0 {
                    assert(groups.drop_first()[k - 1] == groups[k]);
                }
            }
        }
    }
}

/// Every primitive index stored in any group is below `n`.
pub open spec fn groups_prims_bounded(groups: Seq<GlyphGroupV>, n: nat) -> bool {
    forall|g: int, k: int|
        0 <= g < groups.len() && 0 <= k < groups[g].prims.len() ==> (#[trigger] groups[g].prims[k])
            < n
}

/// No primitive index is stored twice, neither in one group nor across
/// two.
pub open spec fn groups_prims_distinct(groups: Seq<GlyphGroupV>) -> bool {
    forall|g1: int, k1: int, g2: int, k2: int|
        0 <= g1 < groups.len() && 0 <= k1 < groups[g1].prims.len() && 0 <= g2 < groups.len() && 0
            <= k2 < groups[g2].prims.len() && (g1 != g2 || k1 != k2) ==> (
        #[trigger] groups[g1].prims[k1]) != (#[trigger] groups[g2].prims[k2])
}

/// Group names are unique.
pub open spec fn groups_ids_unique(groups: Seq<GlyphGroupV>) -> bool {
    forall|g1: int, g2: int|
        0 <= g1 < g2 < groups.len() ==> (#[trigger] groups[g1].id) != (#[trigger] groups[g2].id)
}

/// Adding a fresh primitive index preserves the group invariants.
pub proof fn lemma_group_add_invariants(groups: Seq<GlyphGroupV>, id: Seq<char>, prim: usize)
    requires
        groups_prims_bounded(groups, prim as nat),
        groups_prims_distinct(groups),
        groups_ids_unique(groups),
    ensures
        groups_prims_bounded(group_add(groups, id, prim), prim as nat + 1),
        groups_prims_distinct(group_add(groups, id, prim)),
        groups_ids_unique(group_add(groups, id, prim)),
        group_add(groups, id, prim).len() >= groups.len(),
{
    lemma_find_group(groups, id);
    let gi = find_group(groups, id);
    if gi < 0 {
        lemma_group_add_new(groups, id, prim);
        let after = groups.push(GlyphGroupV { id, prims: seq![prim] });
        assert(group_add(groups, id, prim) == after);
        assert(groups_prims_bounded(after, prim as nat + 1));
        assert(groups_prims_distinct(after));
        assert(groups_ids_unique(after));
    } else {
        lemma_group_add_found(groups, id, prim, gi);
        let after = groups.update(gi, GlyphGroupV { id, prims: groups[gi].prims.push(prim) });
        assert(group_add(groups, id, prim) == after);
        assert(groups_prims_bounded(after, prim as nat + 1));
        assert(groups_prims_distinct(after));
        assert(groups_ids_unique(after));
    }
}

/// Bounds stay bounds as the primitive list grows.
pub proof fn lemma_groups_bounded_widen(groups: Seq<GlyphGroupV>, n1: nat, n2: nat)
    requires
        groups_prims_bounded(groups, n1),
        n1 <= n2,
    ensures
        groups_prims_bounded(groups, n2),
{
}

/// The plan's well-formedness: every primitive names a transform of the
/// plan, every job and every group entry names a primitive of the plan,
/// group names are unique, and no primitive belongs to two group entries.
pub open spec fn plan_wf(plan: PlanV) -> bool {
    &&& forall|k: int|
        0 <= k < plan.primitives.len() ==> (#[trigger] plan.primitives[k].transform)
            < plan.transforms.len()
    &&& forall|k: int|
        0 <= k < plan.jobs.len() ==> (#[trigger] plan.jobs[k].prim_id) < plan.primitives.len()
    &&& groups_prims_bounded(plan.groups, plan.primitives.len())
    &&& groups_prims_distinct(plan.groups)
    &&& groups_ids_unique(plan.groups)
}

/// The plan of any path list is well formed; in particular no primitive
/// index belongs to two distinct glyph groups (the glyph partition).
///
/// The hypothesis only keeps primitive indices inside `usize`; any plan an
/// executable path list produces satisfies it.
pub proof fn lemma_plan_wf(paths: Seq<(PathV, Seq<char>)>)
    requires
        plan_spec(paths).primitives.len() <= usize::MAX,
    ensures
        plan_wf(plan_spec(paths)),
    decreases paths.len(),
{
    if paths.len() > 0 {
        assert(plan_spec(paths.drop_last()).primitives.len() <= plan_spec(
            paths,
        ).primitives.len());
        lemma_plan_wf(paths.drop_last());
        let acc = plan_spec(paths.drop_last());
        let p = paths.last().0;
        let id = paths.last().1;
        let transforms = if acc.transforms.len() > 0 && acc.transforms.last() == p.transform {
            acc.transforms
        } else {
            acc.transforms.push(p.transform)
        };
        if p.fill is Some && id.len() > 0 {
            lemma_group_add_invariants(acc.groups, id, acc.primitives.len() as usize);
            lemma_groups_bounded_widen(
                group_add(acc.groups, id, acc.primitives.len() as usize),
                acc.primitives.len() + 1,
                plan_spec(paths).primitives.len() as nat,
            );
        } else {
            lemma_groups_bounded_widen(
                acc.groups,
                acc.primitives.len() as nat,
                plan_spec(paths).primitives.len() as nat,
            );
        }
    }
}

/// One tessellated outline: vertex positions (float bit patterns) and
/// triangle indices into them.
pub struct JobGeometry {
    pub vertices: Vec<PointBits>,
    pub indices: Vec<u32>,
}

/// Specification view of one tessellated outline.
pub ghost struct GeomV {
    pub vertices: Seq<PointBits>,
    pub indices: Seq<u32>,
}

impl View for JobGeometry {
    type V = GeomV;

    open spec fn view(&self) -> GeomV {
        GeomV { vertices: self.vertices@, indices: self.indices@ }
    }
}

/// One mesh vertex: a position (float bit patterns) and the primitive it
/// belongs to.
#[derive(Clone, Copy, PartialEq, Eq, Structural, Debug)]
pub struct GpuVertex {
    pub x: u32,
    pub y: u32,
    pub prim_id: u32,
}

/// Specification view of the mesh.
pub ghost struct MeshV {
    pub vertices: Seq<GpuVertex>,
    pub indices: Seq<u32>,
}

/// The assembled mesh: one shared vertex array and one 32-bit index
/// array.
pub struct Mesh {
    pub vertices: Vec<GpuVertex>,
    pub indices: Vec<u32>,
}

impl View for Mesh {
    type V = MeshV;

    open spec fn view(&self) -> MeshV {
        MeshV { vertices: self.vertices@, indices: self.indices@ }
    }
}

/// Whether one job's geometry can be appended at vertex count `base`:
/// its indices stay inside its own vertices, the vertex ids keep fitting
/// in 32 bits, and the job's primitive id does too.
pub open spec fn geom_ok(g: GeomV, base: nat, prim_id: usize) -> bool {
    &&& forall|k: int| 0 <= k < g.indices.len() ==> (#[trigger] g.indices[k]) < g.vertices.len()
    &&& base + g.vertices.len() <= u32::MAX as nat
    &&& prim_id <= u32::MAX as usize
}

/// Append one job's geometry: its vertices carry the job's primitive id,
/// its indices are shifted past the vertices already present.
pub open spec fn append_geom(m: MeshV, j: TessJobV, g: GeomV) -> MeshV {
    MeshV {
        vertices: m.vertices + g.vertices.map_values(
            |p: PointBits| GpuVertex { x: p.x, y: p.y, prim_id: j.prim_id as u32 },
        ),
        indices: m.indices + g.indices.map_values(|ix: u32| (m.vertices.len() + ix) as u32),
    }
}

/// The mesh the jobs and their tessellation outcomes build: jobs are
/// appended in order; a job without usable geometry is fatal if it fills,
/// and skipped if it strokes (the error names the job).
pub open spec fn mesh_spec(jobs: Seq<TessJobV>, results: Seq<Option<GeomV>>) -> Result<MeshV, int>
    recommends
        jobs.len() == results.len(),
    decreases jobs.len(),
{
    if jobs.len() == 0 {
        Ok(MeshV { vertices: Seq::empty(), indices: Seq::empty() })
    } else {
        match mesh_spec(jobs.drop_last(), results.drop_last()) {
            Err(e) => Err(e),
            Ok(m) => {
                if results.last() is Some && geom_ok(
                    results.last()->0,
                    m.vertices.len(),
                    jobs.last().prim_id,
                ) {
                    Ok(append_geom(m, jobs.last(), results.last()->0))
                } else if jobs.last().kind is Fill {
                    Err(jobs.len() - 1)
                } else {
                    Ok(m)
                }
            },
        }
    }
}

/// Once a prefix of the jobs fails, the whole build fails the same way.
pub proof fn lemma_mesh_err_prefix(jobs: Seq<TessJobV>, results: Seq<Option<GeomV>>, m: int)
    requires
        jobs.len() == results.len(),
        0 <= m <= jobs.len(),
        mesh_spec(jobs.take(m), results.take(m)) is Err,
    ensures
        mesh_spec(jobs, results) == mesh_spec(jobs.take(m), results.take(m)),
    decreases jobs.len() - m,
{
    if m < jobs.len() {
        assert(jobs.take(m + 1).drop_last() =~= jobs.take(m));
        assert(results.take(m + 1).drop_last() =~= results.take(m));
        assert(mesh_spec(jobs.take(m + 1), results.take(m + 1)) == mesh_spec(
            jobs.take(m),
            results.take(m),
        ));
        lemma_mesh_err_prefix(jobs, results, m + 1);
    } else {
        assert(jobs.take(m) =~= jobs);
        assert(results.take(m) =~= results);
    }
}

/// The views of a job list.
pub open spec fn jobs_view(v: Seq<TessJob>) -> Seq<TessJobV> {
    v.map_values(|j: TessJob| j@)
}

/// The views of a tessellation-outcome list.
pub open spec fn results_view(v: Seq<Option<JobGeometry>>) -> Seq<Option<GeomV>> {
    v.map_values(
        |o: Option<JobGeometry>| match o {
            Option::Some(g) => Option::Some(g@),
            Option::None => Option::None,
        },
    )
}

/// A failed mesh build: a fill job had no usable geometry.
#[derive(Clone, Copy, PartialEq, Eq, Structural, Debug)]
pub enum MeshError {
    FillTessellation { job: usize },
}

/// Whether `g` can be appended at vertex count `base` for primitive
/// `prim_id`, as `geom_ok` asks.
fn geom_admissible(g: &JobGeometry, base: usize, prim_id: usize) -> (r: bool)
    ensures
        r == geom_ok(g@, base as nat, prim_id),
{
    if prim_id > u32::MAX as usize {
        return false;
    }
    if base > u32::MAX as usize || g.vertices.len() > u32::MAX as usize - base {
        return false;
    }
    let mut k: usize = 0;
    while k < g.indices.len()
        invariant
            k <= g.indices@.len(),
            prim_id <= u32::MAX as usize,
            base + g.vertices@.len() <= u32::MAX as nat,
            forall|t: int| 0 <= t < k ==> (#[trigger] g.indices@[t]) < g.vertices@.len(),
        decreases g.indices@.len() - k,
    {
        if g.indices[k] as usize >= g.vertices.len() {
            proof {
                assert(g@.indices[k as int] >= g@.vertices.len());
                assert(!geom_ok(g@, base as nat, prim_id));
            }
            return false;
        }
        k += 1;
    }
    true
}

/// Assemble the mesh for `jobs` from the tessellator's outcomes, as
/// `mesh_spec` describes: `None` stands for a failed tessellation.
pub fn build_mesh(jobs: &Vec<TessJob>, results: &Vec<Option<JobGeometry>>) -> (r: Result<
    Mesh,
    MeshError,
>)
    requires
        results@.len() == jobs@.len(),
    ensures
        match r {
            Ok(m) => mesh_spec(jobs_view(jobs@), results_view(results@)) == Ok::<MeshV, int>(m@),
            Err(e) => e matches MeshError::FillTessellation { job } && mesh_spec(
                jobs_view(jobs@),
                results_view(results@),
            ) == Err::<MeshV, int>(job as int),
        },
{
    let ghost jobsv = jobs_view(jobs@);
    let ghost resv = results_view(results@);
    let mut mesh = Mesh { vertices: Vec::new(), indices: Vec::new() };
    let mut i: usize = 0;
    proof {
        assert(jobsv.take(0) =~= Seq::<TessJobV>::empty());
        assert(resv.take(0) =~= Seq::<Option<GeomV>>::empty());
        assert(mesh@.vertices =~= Seq::<GpuVertex>::empty());
        assert(mesh@.indices =~= Seq::<u32>::empty());
    }
    while i < jobs.len()
        invariant
            i <= jobs@.len(),
            results@.len() == jobs@.len(),
            jobsv == jobs_view(jobs@),
            resv == results_view(results@),
            mesh_spec(jobsv.take(i as int), resv.take(i as int)) == Ok::<MeshV, int>(mesh@),
        decreases jobs@.len() - i,
    {
        let ghost pre = mesh@;
        proof {
            assert(jobsv.take(i as int + 1).drop_last() =~= jobsv.take(i as int));
            assert(resv.take(i as int + 1).drop_last() =~= resv.take(i as int));
            assert(jobsv.take(i as int + 1).last() == jobsv[i as int]);
            assert(resv.take(i as int + 1).last() == resv[i as int]);
        }
        let mut appended = false;
        if let Some(g) = &results[i] {
            if geom_admissible(g, mesh.vertices.len(), jobs[i].prim_id) {
                appended = true;
                let base = mesh.vertices.len();
                let prim32 = jobs[i].prim_id as u32;
                let mut k: usize = 0;
                proof {
                    assert(g@.vertices.take(0).map_values(
                        |p: PointBits| GpuVertex { x: p.x, y: p.y, prim_id: prim32 },
                    ) =~= Seq::<GpuVertex>::empty());
                }
                while k < g.vertices.len()
                    invariant
                        k <= g.vertices@.len(),
                        base + g.vertices@.len() <= u32::MAX as nat,
                        mesh.vertices@ =~= pre.vertices + g.vertices@.take(k as int).map_values(
                            |p: PointBits| GpuVertex { x: p.x, y: p.y, prim_id: prim32 },
                        ),
                        base == pre.vertices.len(),
                        mesh.indices@ == pre.indices,
                    decreases g.vertices@.len() - k,
                {
                    mesh.vertices.push(
                        GpuVertex { x: g.vertices[k].x, y: g.vertices[k].y, prim_id: prim32 },
                    );
                    proof {
                        assert(g.vertices@.take(k as int + 1).drop_last() =~= g.vertices@.take(
                            k as int,
                        ));
                        assert(mesh.vertices@ =~= pre.vertices + g.vertices@.take(
                            k as int + 1,
                        ).map_values(|p: PointBits| GpuVertex { x: p.x, y: p.y, prim_id: prim32 }));
                    }
                    k += 1;
                }
                let mut t: usize = 0;
                proof {
                    assert(g.vertices@.take(g.vertices@.len() as int) =~= g.vertices@);
                    assert(g@.indices.take(0).map_values(|ix: u32| (base + ix) as u32) =~= Seq::<
                        u32,
                    >::empty());
                }
                while t < g.indices.len()
                    invariant
                        t <= g.indices@.len(),
                        base + g.vertices@.len() <= u32::MAX as nat,
                        forall|w: int|
                            0 <= w < g.indices@.len() ==> (#[trigger] g.indices@[w])
                                < g.vertices@.len(),
                        mesh.indices@ =~= pre.indices + g.indices@.take(t as int).map_values(
                            |ix: u32| (base + ix) as u32,
                        ),
                        mesh.vertices@ == pre.vertices + g.vertices@.map_values(
                            |p: PointBits| GpuVertex { x: p.x, y: p.y, prim_id: prim32 },
                        ),
                        base == pre.vertices.len(),
                    decreases g.indices@.len() - t,
                {
                    mesh.indices.push(base as u32 + g.indices[t]);
                    proof {
                        assert(g.indices@.take(t as int + 1).drop_last() =~= g.indices@.take(
                            t as int,
                        ));
                        assert(mesh.indices@ =~= pre.indices + g.indices@.take(
                            t as int + 1,
                        ).map_values(|ix: u32| (base + ix) as u32));
                    }
                    t += 1;
                }
                proof {
                    assert(g.indices@.take(g.indices@.len() as int) =~= g.indices@);
                    assert(mesh@.vertices =~= append_geom(pre, jobsv[i as int], g@).vertices);
                    assert(mesh@.indices =~= append_geom(pre, jobsv[i as int], g@).indices);
                    assert(mesh@ == append_geom(pre, jobsv[i as int], g@));
                    assert(resv[i as int] == Option::Some(g@));
                }
            }
        }
        if !appended {
            let is_fill = match jobs[i].kind {
                JobKind::Fill => true,
                JobKind::Stroke(_) => false,
            };
            if is_fill {
                proof {
                    assert(mesh_spec(jobsv.take(i as int + 1), resv.take(i as int + 1))
                        == Err::<MeshV, int>(i as int));
                    lemma_mesh_err_prefix(jobsv, resv, i as int + 1);
                }
                return Err(MeshError::FillTessellation { job: i });
            }
        }
        proof {
            assert(mesh_spec(jobsv.take(i as int + 1), resv.take(i as int + 1)) == Ok::<
                MeshV,
                int,
            >(mesh@));
        }
        i += 1;
    }
    proof {
        assert(jobsv.take(jobs@.len() as int) =~= jobsv);
        assert(resv.take(jobs@.len() as int) =~= resv);
    }
    Ok(mesh)
}

/// A built mesh is well formed against its jobs: every vertex's primitive
/// id is one of the jobs' (all below `prim_count`), and every index names
/// a vertex.
pub proof fn lemma_mesh_wf(
    jobs: Seq<TessJobV>,
    results: Seq<Option<GeomV>>,
    prim_count: nat,
    m: MeshV,
)
    requires
        jobs.len() == results.len(),
        forall|k: int| 0 <= k < jobs.len() ==> (#[trigger] jobs[k].prim_id) < prim_count,
        mesh_spec(jobs, results) == Ok::<MeshV, int>(m),
    ensures
        forall|v: int| 0 <= v < m.vertices.len() ==> (#[trigger] m.vertices[v].prim_id) < prim_count,
        forall|k: int| 0 <= k < m.indices.len() ==> (#[trigger] m.indices[k]) < m.vertices.len(),
    decreases jobs.len(),
{
    if jobs.len() > 0 {
        let prev = mesh_spec(jobs.drop_last(), results.drop_last());
        assert(prev is Ok);
        let pm = prev->Ok_0;
        assert(forall|k: int|
            0 <= k < jobs.len() - 1 ==> (#[trigger] jobs.drop_last()[k].prim_id) < prim_count);
        lemma_mesh_wf(jobs.drop_last(), results.drop_last(), prim_count, pm);
        if results.last() is Some && geom_ok(results.last()->0, pm.vertices.len(), jobs.last().prim_id) {
            let g = results.last()->0;
            let j = jobs.last();
            assert(m == append_geom(pm, j, g));
            assert(forall|v: int|
                0 <= v < g.vertices.len() ==> m.vertices[pm.vertices.len() + v] == GpuVertex {
                    x: g.vertices[v].x,
                    y: g.vertices[v].y,
                    prim_id: j.prim_id as u32,
                });
            assert(forall|k: int|
                0 <= k < g.indices.len() ==> m.indices[pm.indices.len() + k] == (
                (pm.vertices.len() + g.indices[k]) as u32));
        }
    }
}

/// Glyph partition: in the plan of any path list, no primitive index
/// belongs to two distinct glyph groups, nor twice to one.
pub proof fn lemma_glyph_partition(paths: Seq<(PathV, Seq<char>)>)
    requires
        plan_spec(paths).primitives.len() <= usize::MAX,
    ensures
        groups_prims_distinct(plan_spec(paths).groups),
{
    lemma_plan_wf(paths);
}

/// Primitive indexing: in a mesh built for the plan of a path list, every
/// vertex names a primitive of the plan, that primitive names a transform
/// of the plan, and every index names a vertex.
pub proof fn lemma_primitive_indexing(
    paths: Seq<(PathV, Seq<char>)>,
    results: Seq<Option<GeomV>>,
    m: MeshV,
)
    requires
        plan_spec(paths).primitives.len() <= usize::MAX,
        results.len() == plan_spec(paths).jobs.len(),
        mesh_spec(plan_spec(paths).jobs, results) == Ok::<MeshV, int>(m),
    ensures
        forall|v: int|
            0 <= v < m.vertices.len() ==> (#[trigger] m.vertices[v].prim_id) < plan_spec(
                paths,
            ).primitives.len(),
        forall|v: int|
            0 <= v < m.vertices.len() ==> plan_spec(paths).primitives[m.vertices[v].prim_id as int]
                .transform < plan_spec(paths).transforms.len(),
        forall|k: int| 0 <= k < m.indices.len() ==> (#[trigger] m.indices[k]) < m.vertices.len(),
{
    lemma_plan_wf(paths);
    lemma_mesh_wf(
        plan_spec(paths).jobs,
        results,
        plan_spec(paths).primitives.len() as nat,
        m,
    );
}

} // verus!
