//! The rules pipeline: curves do not intersect themselves, do not cross each
//! other, and nearby vertices are one.

use vstd::prelude::*;

use crate::calc::Arith;
use crate::error::Fault;
use crate::geom::{
    spec_dist, spec_eval, spec_poly_hits, spec_poly_self_hits, spec_polygon_len, spec_seg_dist,
    spec_self_intersection, spec_split, spec_subsegment, untagged, Hit, Tagged,
};
use crate::graph::{
    curve_live, curve_of, eps_of, graph_wf, lemma_pick, lemma_vertices, pick, points_of,
    polyline_of, touching, vertex_ids_of, vertex_live, vpos_of, Curve, CurveId, Graph, VertexId,
};
use crate::point::Point;
use crate::scalar::{num, Scalar, E4, ONE, ONE_LESS_E4, ZERO};

verus! {

/// The pipeline under way: the arrangement, the curves still to look at, and
/// for each curve the one that it descends from.
#[verifier::ext_equal]
pub struct Work {
    pub g: Graph,
    pub queue: Seq<CurveId>,
    pub root: Seq<CurveId>,
}

/// The outcome of a part of the pipeline.
#[verifier::ext_equal]
pub struct Step {
    pub w: Work,
    pub fault: Option<Fault>,
}

/// How many curves the pipeline looks at before it gives up.
pub const MAX_STEPS: u64 = 100_000;

pub open spec fn work_wf(w: Work) -> bool {
    graph_wf(w.g) && w.root.len() == w.g.curves.len()
}

pub open spec fn enqueue(w: Work, ids: Seq<CurveId>) -> Work {
    Work { queue: w.queue + ids, ..w }
}

pub open spec fn without_curve(w: Work, id: CurveId) -> Work {
    Work { g: Graph { curves: w.g.curves.update(id.0 as int, None), ..w.g }, ..w }
}

pub open spec fn with_vertex(w: Work, p: Point) -> Work {
    Work { g: Graph { verts: w.g.verts.push(Some(p)), ..w.g }, ..w }
}

/// One more curve, descending from `root`.
pub open spec fn with_curve(w: Work, c: Curve, root: CurveId) -> Work {
    Work {
        g: Graph { curves: w.g.curves.push(Some(c)), ..w.g },
        root: w.root.push(root),
        ..w
    }
}

/// The id that the next curve gets.
pub open spec fn next_curve(w: Work, ahead: int) -> CurveId {
    CurveId((w.g.curves.len() + ahead) as u32)
}

/// The id that the next vertex gets.
pub open spec fn next_vertex(w: Work) -> VertexId {
    VertexId(w.g.verts.len() as u32)
}

// ---- splitting ----

/// `id` cut at parameter `t` into two new curves that meet at `vm`. Both keep
/// its tag and its ancestor.
pub open spec fn split_at(ar: Arith, w: Work, id: CurveId, t: Scalar, vm: VertexId) -> Work {
    let c = curve_of(w.g, id);
    let (l, r) = spec_split(ar, points_of(w.g, id), t);
    let root = w.root[id.0 as int];
    with_curve(
        with_curve(
            without_curve(w, id),
            Curve { v0: c.v0, c0: l.p1, c1: l.p2, v1: vm, tag: c.tag },
            root,
        ),
        Curve { v0: vm, c0: r.p1, c1: r.p2, v1: c.v1, tag: c.tag },
        root,
    )
}

/// `id` cut at both parameters of its double point into three new curves that
/// meet at a new vertex there, the middle one a loop. All keep its tag and
/// its ancestor.
pub open spec fn cut_loop(ar: Arith, w: Work, id: CurveId, h: Hit) -> Work {
    let c = curve_of(w.g, id);
    let pts = points_of(w.g, id);
    let root = w.root[id.0 as int];
    let vm = next_vertex(w);
    let s0 = spec_subsegment(ar, pts, num(ZERO), h.t);
    let s1 = spec_subsegment(ar, pts, h.t, h.u);
    let s2 = spec_subsegment(ar, pts, h.u, num(ONE));
    with_curve(
        with_curve(
            with_curve(
                without_curve(with_vertex(w, h.p), id),
                Curve { v0: c.v0, c0: s0.p1, c1: s0.p2, v1: vm, tag: c.tag },
                root,
            ),
            Curve { v0: vm, c0: s1.p1, c1: s1.p2, v1: vm, tag: c.tag },
            root,
        ),
        Curve { v0: vm, c0: s2.p1, c1: s2.p2, v1: c.v1, tag: c.tag },
        root,
    )
}

// ---- merging vertices ----

/// The curve with `keep` in place of `lose`.
pub open spec fn redirect(c: Curve, keep: VertexId, lose: VertexId) -> Curve {
    Curve {
        v0: if c.v0 == lose { keep } else { c.v0 },
        v1: if c.v1 == lose { keep } else { c.v1 },
        ..c
    }
}

pub open spec fn redirect_all(curves: Seq<Option<Curve>>, keep: VertexId, lose: VertexId) -> Seq<
    Option<Curve>,
> {
    Seq::new(
        curves.len(),
        |i: int|
            match curves[i] {
                Some(c) => Some(redirect(c, keep, lose)),
                None => None,
            },
    )
}

/// `lose` merged into `keep`, whose position stays. Every curve that had
/// `lose`, and then every curve at `keep`, is queued.
pub open spec fn merged(w: Work, keep: VertexId, lose: VertexId) -> Work {
    let curves = redirect_all(w.g.curves, keep, lose);
    Work {
        g: Graph { curves, verts: w.g.verts.update(lose.0 as int, None), ..w.g },
        queue: w.queue + pick(w.g.curves, touching(lose), w.g.curves.len() as int) + pick(
            curves,
            touching(keep),
            curves.len() as int,
        ),
        root: w.root,
    }
}

// ---- degenerate and duplicate curves ----

/// A loop that is tiny, or that never leaves the straightened stubs.
pub open spec fn degenerate(ar: Arith, g: Graph, id: CurveId) -> bool {
    let c = curve_of(g, id);
    c.v0 == c.v1 && (spec_polygon_len(ar, points_of(g, id)).spec_lt(g.snap) || polyline_of(
        ar,
        g,
        id,
    ).len() < 3)
}

/// The other curves between the same two vertices as `cid`.
pub open spec fn rival_of(cid: CurveId, a: VertexId, b: VertexId) -> spec_fn(CurveId, Curve) -> bool {
    |id: CurveId, c: Curve|
        id != cid && ((c.v0 == a && c.v1 == b) || (c.v0 == b && c.v1 == a))
}

pub open spec fn rivals_of(g: Graph, cid: CurveId) -> Seq<CurveId> {
    let c = curve_of(g, cid);
    pick(g.curves, rival_of(cid, c.v0, c.v1), g.curves.len() as int)
}

/// `p` lies within `eps` of some segment of `poly`.
pub open spec fn touches(ar: Arith, p: Point, poly: Seq<Point>, eps: Scalar) -> bool {
    exists|j: int|
        0 <= j < poly.len() - 1 && spec_seg_dist(ar, p, #[trigger] poly[j], poly[j + 1]).spec_lt(
            eps,
        )
}

/// Every point of `poly` lies within `eps` of `other`.
pub open spec fn runs_along(ar: Arith, poly: Seq<Point>, other: Seq<Point>, eps: Scalar) -> bool {
    forall|i: int| 0 <= i < poly.len() ==> touches(ar, #[trigger] poly[i], other, eps)
}

/// Two curves' polylines are within `eps` of each other, both ways.
#[verifier::opaque]
pub open spec fn coincide(ar: Arith, g: Graph, a: CurveId, b: CurveId) -> bool {
    let pa = untagged(polyline_of(ar, g, a));
    let pb = untagged(polyline_of(ar, g, b));
    runs_along(ar, pa, pb, eps_of(ar, g)) && runs_along(ar, pb, pa, eps_of(ar, g))
}

/// `cid` held against its rivals from the `i`-th on: of two curves that
/// coincide the one with the higher id goes. Tells whether that was `cid`.
pub open spec fn dedup(ar: Arith, w: Work, cid: CurveId, rivals: Seq<CurveId>, i: int) -> (bool, Work)
    decreases rivals.len() - i,
{
    if i >= rivals.len() {
        (false, w)
    } else if coincide(ar, w.g, cid, rivals[i]) {
        if cid.0 > rivals[i].0 {
            (true, without_curve(w, cid))
        } else {
            dedup(ar, enqueue(without_curve(w, rivals[i]), seq![cid]), cid, rivals, i + 1)
        }
    } else {
        dedup(ar, w, cid, rivals, i + 1)
    }
}

// ---- self-intersections ----

pub open spec fn within_snap(ar: Arith, g: Graph, p: Point, v: VertexId) -> bool {
    spec_dist(ar, p, vpos_of(g, v)).spec_lt(g.snap)
}

/// A parameter far enough from both ends to cut at.
pub open spec fn spec_cuttable(t: Scalar) -> bool {
    num(E4).spec_lt(t) && t.spec_lt(num(ONE_LESS_E4))
}

/// A meeting of the curve with itself at one of its endpoints, too close to the
/// end of the curve to cut there.
pub open spec fn harmless(ar: Arith, g: Graph, cid: CurveId, h: Hit) -> bool {
    let c = curve_of(g, cid);
    let near0 = within_snap(ar, g, h.p, c.v0);
    &&& near0 || within_snap(ar, g, h.p, c.v1)
    &&& !spec_cuttable(if near0 { h.u } else { h.t })
}

/// The first of the hits from the `j`-th on that calls for a cut.
pub open spec fn first_tangle(ar: Arith, g: Graph, cid: CurveId, hits: Seq<Hit>, j: int) -> Option<
    Hit,
>
    decreases hits.len() - j,
{
    if j >= hits.len() {
        None
    } else if !harmless(ar, g, cid, hits[j]) {
        Some(hits[j])
    } else {
        first_tangle(ar, g, cid, hits, j + 1)
    }
}

/// The double point of a curve, where it has one.
pub open spec fn double_point(ar: Arith, g: Graph, cid: CurveId) -> Option<Hit> {
    let pts = points_of(g, cid);
    match spec_self_intersection(ar, pts) {
        Some((t1, t2)) => Some(Hit { t: t1, u: t2, p: spec_eval(ar, pts, t1) }),
        None => None,
    }
}

/// Where a curve meets itself and has to be cut: the exact double point, or
/// else the first crossing or near-miss of its polyline.
pub open spec fn self_hit(ar: Arith, g: Graph, cid: CurveId) -> Result<Option<Hit>, Fault> {
    let exact = double_point(ar, g, cid);
    if exact is Some && !harmless(ar, g, cid, exact->0) {
        Ok(exact)
    } else {
        match spec_poly_self_hits(ar, polyline_of(ar, g, cid), eps_of(ar, g)) {
            Err(e) => Err(e),
            Ok(hits) => Ok(first_tangle(ar, g, cid, hits, 0)),
        }
    }
}

/// What is done about a curve that meets itself at `h`: if that is at one of
/// its endpoints, one cut there, where the parameter allows it; else two cuts.
pub open spec fn untangled(ar: Arith, w: Work, cid: CurveId, h: Hit) -> Option<Work> {
    let c = curve_of(w.g, cid);
    let near0 = within_snap(ar, w.g, h.p, c.v0);
    let near1 = within_snap(ar, w.g, h.p, c.v1);
    if near0 || near1 {
        let vend = if near0 { c.v0 } else { c.v1 };
        let t = if near0 { h.u } else { h.t };
        if spec_cuttable(t) {
            Some(enqueue(split_at(ar, w, cid, t, vend), seq![next_curve(w, 0), next_curve(w, 1)]))
        } else {
            None
        }
    } else {
        Some(
            enqueue(
                cut_loop(ar, w, cid, h),
                seq![next_curve(w, 0), next_curve(w, 1), next_curve(w, 2)],
            ),
        )
    }
}

// ---- crossings ----

/// Whether a parameter lies on the straightened first and last segment of a
/// tagged polyline. Both can hold for short curves.
pub open spec fn spec_stub_side(poly: Seq<Tagged>, t: Scalar) -> (bool, bool) {
    if poly.len() < 2 {
        (true, true)
    } else {
        (t.spec_le(poly[1].0), poly[poly.len() - 2].0.spec_le(t))
    }
}

/// What a meeting of two curves calls for.
#[derive(Clone, Copy, PartialEq, Eq, Structural)]
pub enum Remedy {
    /// Stubs of one vertex graze each other: nothing.
    Leave,
    /// Stubs of two vertices conflict: they become one.
    Merge { keep: VertexId, lose: VertexId },
    /// This curve's endpoint lies on the other one: cut the other there.
    CutOther { at: VertexId },
    /// The other curve's endpoint lies on this one: cut this one there.
    CutThis { at: VertexId },
    /// A plain crossing: cut both at a new vertex.
    CutBoth,
}

/// A meeting counts as at an endpoint only if it lies on that curve's stub
/// and within snap of the vertex; a pass close to some vertex in mid-body is a
/// crossing.
pub open spec fn remedy_for(ar: Arith, g: Graph, cid: CurveId, oid: CurveId, h: Hit) -> Remedy {
    let c = curve_of(g, cid);
    let o = curve_of(g, oid);
    let cs = spec_stub_side(polyline_of(ar, g, cid), h.t);
    let os = spec_stub_side(polyline_of(ar, g, oid), h.u);
    let near_c0 = cs.0 && within_snap(ar, g, h.p, c.v0);
    let near_c1 = cs.1 && within_snap(ar, g, h.p, c.v1);
    let near_o0 = os.0 && within_snap(ar, g, h.p, o.v0);
    let near_o1 = os.1 && within_snap(ar, g, h.p, o.v1);
    let vc = if near_c0 { c.v0 } else { c.v1 };
    let vo = if near_o0 { o.v0 } else { o.v1 };
    match (near_c0 || near_c1, near_o0 || near_o1) {
        (true, true) => if vc == vo {
            Remedy::Leave
        } else if spec_dist(ar, h.p, vpos_of(g, vc)).spec_le(spec_dist(ar, h.p, vpos_of(g, vo))) {
            Remedy::Merge { keep: vc, lose: vo }
        } else {
            Remedy::Merge { keep: vo, lose: vc }
        },
        (true, false) => Remedy::CutOther { at: vc },
        (false, true) => Remedy::CutThis { at: vo },
        (false, false) => Remedy::CutBoth,
    }
}

/// The first of the hits from the `j`-th on that calls for something.
pub open spec fn first_conflict(
    ar: Arith,
    g: Graph,
    cid: CurveId,
    oid: CurveId,
    hits: Seq<Hit>,
    j: int,
) -> Option<Hit>
    decreases hits.len() - j,
{
    if j >= hits.len() {
        None
    } else if remedy_for(ar, g, cid, oid, hits[j]) != Remedy::Leave {
        Some(hits[j])
    } else {
        first_conflict(ar, g, cid, oid, hits, j + 1)
    }
}

/// The first curve has the higher id.
pub open spec fn comes_after(a: CurveId, b: CurveId) -> bool {
    b.0 < a.0
}

/// The first conflict between two curves' polylines, from the one's start.
/// Where they cross is taken as seen from the one with the lower id.
pub open spec fn conflict(ar: Arith, g: Graph, cid: CurveId, oid: CurveId) -> Result<
    Option<Hit>,
    Fault,
> {
    match spec_poly_hits(
        ar,
        polyline_of(ar, g, cid),
        polyline_of(ar, g, oid),
        eps_of(ar, g),
        comes_after(cid, oid),
    ) {
        Err(e) => Err(e),
        Ok(hits) => Ok(first_conflict(ar, g, cid, oid, hits, 0)),
    }
}

pub open spec fn other_than(cid: CurveId) -> spec_fn(CurveId, Curve) -> bool {
    |id: CurveId, c: Curve| id != cid
}

pub open spec fn others_of(g: Graph, cid: CurveId) -> Seq<CurveId> {
    pick(g.curves, other_than(cid), g.curves.len() as int)
}

/// The first conflict of `cid` with one of `others`, from the `i`-th on.
pub open spec fn first_crossing(
    ar: Arith,
    g: Graph,
    cid: CurveId,
    others: Seq<CurveId>,
    i: int,
) -> Result<Option<(CurveId, Hit)>, Fault>
    decreases others.len() - i,
{
    if i >= others.len() {
        Ok(None)
    } else {
        match conflict(ar, g, cid, others[i]) {
            Err(e) => Err(e),
            Ok(Some(h)) => Ok(Some((others[i], h))),
            Ok(None) => first_crossing(ar, g, cid, others, i + 1),
        }
    }
}

/// The conflict of `cid` and `oid` at `h` resolved.
pub open spec fn resolved(ar: Arith, w: Work, cid: CurveId, oid: CurveId, h: Hit) -> Work {
    match remedy_for(ar, w.g, cid, oid, h) {
        Remedy::Leave => w,
        Remedy::Merge { keep, lose } => enqueue(merged(w, keep, lose), seq![cid]),
        Remedy::CutOther { at } => enqueue(
            split_at(ar, w, oid, h.u, at),
            seq![next_curve(w, 0), next_curve(w, 1), cid],
        ),
        Remedy::CutThis { at } => enqueue(
            split_at(ar, w, cid, h.t, at),
            seq![next_curve(w, 0), next_curve(w, 1), oid],
        ),
        Remedy::CutBoth => enqueue(
            split_at(
                ar,
                split_at(ar, with_vertex(w, h.p), cid, h.t, next_vertex(w)),
                oid,
                h.u,
                next_vertex(w),
            ),
            seq![next_curve(w, 0), next_curve(w, 1), next_curve(w, 2), next_curve(w, 3)],
        ),
    }
}

// ---- snapping ----

/// The two vertices lie within snap, measured from the one or from the other.
pub open spec fn close(ar: Arith, g: Graph, u: VertexId, v: VertexId) -> bool {
    within_snap(ar, g, vpos_of(g, u), v) || within_snap(ar, g, vpos_of(g, v), u)
}

/// The first of `ids` from the `i`-th on, other than `v`, that lies within
/// snap of `v`.
pub open spec fn nearby(ar: Arith, g: Graph, v: VertexId, ids: Seq<VertexId>, i: int) -> Option<
    VertexId,
>
    decreases ids.len() - i,
{
    if i >= ids.len() {
        None
    } else if ids[i] != v && close(ar, g, v, ids[i]) {
        Some(ids[i])
    } else {
        nearby(ar, g, v, ids, i + 1)
    }
}

/// The pair of vertices that an endpoint of `cid` calls to merge: the one to
/// keep, which has the lower id, and the one to lose.
pub open spec fn snap_pair(ar: Arith, g: Graph, cid: CurveId) -> Option<(VertexId, VertexId)> {
    let c = curve_of(g, cid);
    match nearby(ar, g, c.v0, vertex_ids_of(g), 0) {
        Some(x) => Some(if c.v0.0 < x.0 { (c.v0, x) } else { (x, c.v0) }),
        None => match nearby(ar, g, c.v1, vertex_ids_of(g), 0) {
            Some(x) => Some(if c.v1.0 < x.0 { (c.v1, x) } else { (x, c.v1) }),
            None => None,
        },
    }
}

// ---- one curve, and all of them ----

/// Crossings and snapping of a curve that is otherwise in order.
pub open spec fn examine_neighbours(ar: Arith, w: Work, cid: CurveId) -> Step {
    match first_crossing(ar, w.g, cid, others_of(w.g, cid), 0) {
        Err(e) => Step { w, fault: Some(e) },
        Ok(Some((oid, h))) => Step { w: resolved(ar, w, cid, oid, h), fault: None },
        Ok(None) => match snap_pair(ar, w.g, cid) {
            Some((keep, lose)) => Step { w: merged(w, keep, lose), fault: None },
            None => Step { w, fault: None },
        },
    }
}

/// Self-intersections first, then crossings and snapping.
pub open spec fn examine_shape(ar: Arith, w: Work, cid: CurveId) -> Step {
    match self_hit(ar, w.g, cid) {
        Err(e) => Step { w, fault: Some(e) },
        Ok(None) => examine_neighbours(ar, w, cid),
        Ok(Some(h)) => match untangled(ar, w, cid, h) {
            Some(w2) => Step { w: w2, fault: None },
            None => examine_neighbours(ar, w, cid),
        },
    }
}

/// The rules applied to one curve, in order: the first that calls for
/// something decides.
pub open spec fn examine(ar: Arith, w: Work, cid: CurveId) -> Step {
    if !curve_live(w.g, cid) {
        Step { w, fault: None }
    } else if degenerate(ar, w.g, cid) {
        Step { w: without_curve(w, cid), fault: None }
    } else {
        let (gone, w1) = dedup(ar, w, cid, rivals_of(w.g, cid), 0);
        if gone {
            Step { w: w1, fault: None }
        } else {
            examine_shape(ar, w1, cid)
        }
    }
}

pub open spec fn popped(w: Work) -> Work {
    Work { queue: w.queue.skip(1), ..w }
}

/// The pipeline from `w` on, after `steps` curves: it looks at the queued
/// curves in turn until none is left.
pub open spec fn run(ar: Arith, w: Work, steps: int) -> Step
    decreases MAX_STEPS - steps,
{
    if w.queue.len() == 0 {
        Step { w, fault: None }
    } else if steps + 1 >= MAX_STEPS {
        Step { w: popped(w), fault: Some(Fault::Unsettled) }
    } else {
        let s = examine(ar, popped(w), w.queue[0]);
        if s.fault is Some {
            s
        } else {
            run(ar, s.w, steps + 1)
        }
    }
}

/// Every curve is its own ancestor.
pub open spec fn own_roots(g: Graph) -> Seq<CurveId> {
    Seq::new(g.curves.len(), |i: int| CurveId(i as u32))
}

/// The pipeline over the curves `dirty` of `g`.
pub open spec fn integrated(ar: Arith, g: Graph, dirty: Seq<CurveId>) -> Step {
    run(ar, Work { g, queue: dirty, root: own_roots(g) }, 0)
}

pub open spec fn descends_from(root: Seq<CurveId>, t: CurveId) -> spec_fn(CurveId, Curve) -> bool {
    |id: CurveId, c: Curve| root[id.0 as int] == t
}

/// The live curves that descend from `t`, in ascending order.
pub open spec fn descendants(w: Work, t: CurveId) -> Seq<CurveId> {
    pick(w.g.curves, descends_from(w.root, t), w.g.curves.len() as int)
}

// ---- what every part keeps ----

pub proof fn lemma_split_wf(ar: Arith, w: Work, id: CurveId, t: Scalar, vm: VertexId)
    requires
        work_wf(w),
        curve_live(w.g, id),
        vertex_live(w.g, vm),
        w.g.curves.len() + 2 <= u32::MAX,
    ensures
        work_wf(split_at(ar, w, id, t, vm)),
        split_at(ar, w, id, t, vm).g.curves.len() == w.g.curves.len() + 2,
        split_at(ar, w, id, t, vm).g.verts == w.g.verts,
{
}

pub proof fn lemma_cut_loop_wf(ar: Arith, w: Work, id: CurveId, h: Hit)
    requires
        work_wf(w),
        curve_live(w.g, id),
        w.g.curves.len() + 3 <= u32::MAX,
        w.g.verts.len() + 1 <= u32::MAX,
    ensures
        work_wf(cut_loop(ar, w, id, h)),
        cut_loop(ar, w, id, h).g.curves.len() == w.g.curves.len() + 3,
        cut_loop(ar, w, id, h).g.verts.len() == w.g.verts.len() + 1,
{
    let w2 = cut_loop(ar, w, id, h);
    assert forall|i: int| 0 <= i < w2.g.curves.len() && (#[trigger] w2.g.curves[i]) is Some implies
        vertex_live(w2.g, (w2.g.curves[i]->0).v0) && vertex_live(w2.g, (w2.g.curves[i]->0).v1) by {
        if i < w.g.curves.len() {
            assert(w.g.curves[i] is Some);
        }
        assert(w.g.curves[id.0 as int] is Some);
    }
}

pub proof fn lemma_merged_wf(w: Work, keep: VertexId, lose: VertexId)
    requires
        work_wf(w),
        vertex_live(w.g, keep),
        vertex_live(w.g, lose),
        keep != lose,
    ensures
        work_wf(merged(w, keep, lose)),
        merged(w, keep, lose).g.curves.len() == w.g.curves.len(),
        merged(w, keep, lose).g.verts.len() == w.g.verts.len(),
{
    let w2 = merged(w, keep, lose);
    assert forall|i: int| 0 <= i < w2.g.curves.len() && (#[trigger] w2.g.curves[i]) is Some implies
        vertex_live(w2.g, (w2.g.curves[i]->0).v0) && vertex_live(w2.g, (w2.g.curves[i]->0).v1) by {
        assert(w.g.curves[i] is Some);
    }
}

/// A list of distinct live curves.
pub open spec fn all_live(g: Graph, ids: Seq<CurveId>, from: int) -> bool {
    forall|i: int|
        #![trigger ids[i]]
        from <= i < ids.len() ==> curve_live(g, ids[i]) && forall|j: int|
            from <= j < ids.len() && i != j ==> ids[i] != #[trigger] ids[j]
}

pub proof fn lemma_dedup_wf(ar: Arith, w: Work, cid: CurveId, rivals: Seq<CurveId>, i: int)
    requires
        work_wf(w),
        curve_live(w.g, cid),
        0 <= i <= rivals.len(),
        all_live(w.g, rivals, i),
        forall|j: int| i <= j < rivals.len() ==> #[trigger] rivals[j] != cid,
    ensures
        ({
            let (gone, w2) = dedup(ar, w, cid, rivals, i);
            &&& work_wf(w2)
            &&& w2.g.curves.len() == w.g.curves.len()
            &&& w2.g.verts == w.g.verts
            &&& !gone ==> curve_live(w2.g, cid)
        }),
    decreases rivals.len() - i,
{
    if i < rivals.len() {
        if coincide(ar, w.g, cid, rivals[i]) {
            if cid.0 > rivals[i].0 {
            } else {
                let w1 = enqueue(without_curve(w, rivals[i]), seq![cid]);
                lemma_dedup_wf(ar, w1, cid, rivals, i + 1);
            }
        } else {
            lemma_dedup_wf(ar, w, cid, rivals, i + 1);
        }
    }
}

/// The rivals of a live curve are live, distinct, and not the curve itself.
pub proof fn lemma_rivals(g: Graph, cid: CurveId)
    requires
        graph_wf(g),
    ensures
        all_live(g, rivals_of(g, cid), 0),
        forall|j: int| 0 <= j < rivals_of(g, cid).len() ==> #[trigger] rivals_of(g, cid)[j] != cid,
{
    let c = curve_of(g, cid);
    let pred = rival_of(cid, c.v0, c.v1);
    let r = rivals_of(g, cid);
    lemma_pick(g.curves, pred, g.curves.len() as int);
    assert forall|i: int| #![trigger r[i]] 0 <= i < r.len() implies curve_live(g, r[i]) && forall|
        j: int,
    |
        0 <= j < r.len() && i != j ==> r[i] != #[trigger] r[j] by {
        assert forall|j: int| 0 <= j < r.len() && i != j implies r[i] != #[trigger] r[j] by {
            if i < j {
                assert(r[i].0 < r[j].0);
            } else {
                assert(r[j].0 < r[i].0);
            }
        }
    }
}

pub proof fn lemma_others(g: Graph, cid: CurveId)
    requires
        graph_wf(g),
    ensures
        forall|i: int|
            #![trigger others_of(g, cid)[i]]
            0 <= i < others_of(g, cid).len() ==> curve_live(g, others_of(g, cid)[i]) && others_of(
                g,
                cid,
            )[i] != cid,
        forall|id: CurveId|
            #![trigger others_of(g, cid).contains(id)]
            others_of(g, cid).contains(id) <==> curve_live(g, id) && id != cid,
{
    lemma_pick(g.curves, other_than(cid), g.curves.len() as int);
}

proof fn lemma_first_crossing(ar: Arith, g: Graph, cid: CurveId, others: Seq<CurveId>, i: int)
    requires
        0 <= i <= others.len(),
    ensures
        first_crossing(ar, g, cid, others, i) matches Ok(Some((oid, h))) ==> exists|j: int|
            i <= j < others.len() && #[trigger] others[j] == oid && conflict(ar, g, cid, oid)
                == Ok::<Option<Hit>, Fault>(Some(h)),
    decreases others.len() - i,
{
    if i < others.len() {
        lemma_first_crossing(ar, g, cid, others, i + 1);
        assert(others[i] == others[i]);
    }
}

proof fn lemma_first_conflict(
    ar: Arith,
    g: Graph,
    cid: CurveId,
    oid: CurveId,
    hits: Seq<Hit>,
    j: int,
)
    requires
        0 <= j <= hits.len(),
    ensures
        first_conflict(ar, g, cid, oid, hits, j) matches Some(h) ==> remedy_for(
            ar,
            g,
            cid,
            oid,
            h,
        ) != Remedy::Leave,
    decreases hits.len() - j,
{
    if j < hits.len() {
        lemma_first_conflict(ar, g, cid, oid, hits, j + 1);
    }
}

proof fn lemma_first_tangle(ar: Arith, g: Graph, cid: CurveId, hits: Seq<Hit>, j: int)
    requires
        0 <= j <= hits.len(),
    ensures
        first_tangle(ar, g, cid, hits, j) matches Some(h) ==> !harmless(ar, g, cid, h),
    decreases hits.len() - j,
{
    if j < hits.len() {
        lemma_first_tangle(ar, g, cid, hits, j + 1);
    }
}

/// Where a curve has to be cut because it meets itself, it is.
pub proof fn lemma_self_hit(ar: Arith, w: Work, cid: CurveId)
    ensures
        self_hit(ar, w.g, cid) matches Ok(Some(h)) ==> untangled(ar, w, cid, h) is Some,
{
    if let Ok(hits) = spec_poly_self_hits(ar, polyline_of(ar, w.g, cid), eps_of(ar, w.g)) {
        lemma_first_tangle(ar, w.g, cid, hits, 0);
    }
}

/// The crossing that is found is with another live curve, and calls for
/// something.
pub proof fn lemma_crossing(ar: Arith, g: Graph, cid: CurveId)
    requires
        graph_wf(g),
    ensures
        first_crossing(ar, g, cid, others_of(g, cid), 0) matches Ok(Some((oid, h))) ==> {
            &&& curve_live(g, oid)
            &&& oid != cid
            &&& remedy_for(ar, g, cid, oid, h) != Remedy::Leave
        },
{
    let others = others_of(g, cid);
    lemma_others(g, cid);
    lemma_first_crossing(ar, g, cid, others, 0);
    if let Ok(Some((oid, h))) = first_crossing(ar, g, cid, others, 0) {
        let j = choose|j: int|
            0 <= j < others.len() && #[trigger] others[j] == oid && conflict(ar, g, cid, oid)
                == Ok::<Option<Hit>, Fault>(Some(h));
        if let Ok(hits) = spec_poly_hits(
            ar,
            polyline_of(ar, g, cid),
            polyline_of(ar, g, oid),
            eps_of(ar, g),
            comes_after(cid, oid),
        ) {
            lemma_first_conflict(ar, g, cid, oid, hits, 0);
        }
    }
}

proof fn lemma_nearby(ar: Arith, g: Graph, v: VertexId, ids: Seq<VertexId>, i: int)
    requires
        0 <= i <= ids.len(),
    ensures
        match nearby(ar, g, v, ids, i) {
            Some(x) => x != v && close(ar, g, v, x) && exists|j: int|
                i <= j < ids.len() && #[trigger] ids[j] == x,
            None => forall|j: int|
                i <= j < ids.len() && #[trigger] ids[j] != v ==> !close(ar, g, v, ids[j]),
        },
    decreases ids.len() - i,
{
    if i < ids.len() {
        if ids[i] != v && close(ar, g, v, ids[i]) {
        } else {
            lemma_nearby(ar, g, v, ids, i + 1);
        }
    }
}

/// A pair to be snapped is two live vertices, one of them an endpoint. When
/// there is none, no other vertex lies within snap of either endpoint.
pub proof fn lemma_snap_pair(ar: Arith, g: Graph, cid: CurveId)
    requires
        graph_wf(g),
        curve_live(g, cid),
    ensures
        match snap_pair(ar, g, cid) {
            Some((keep, lose)) => {
                &&& vertex_live(g, keep)
                &&& vertex_live(g, lose)
                &&& keep != lose
                &&& keep == curve_of(g, cid).v0 || keep == curve_of(g, cid).v1 || lose == curve_of(
                    g,
                    cid,
                ).v0 || lose == curve_of(g, cid).v1
            },
            None => forall|x: VertexId| #[trigger]
                vertex_live(g, x) ==> {
                    &&& x != curve_of(g, cid).v0 ==> !close(ar, g, curve_of(g, cid).v0, x)
                    &&& x != curve_of(g, cid).v1 ==> !close(ar, g, curve_of(g, cid).v1, x)
                },
        },
{
    let c = curve_of(g, cid);
    let ids = vertex_ids_of(g);
    lemma_vertices(g.verts, g.verts.len() as int);
    lemma_nearby(ar, g, c.v0, ids, 0);
    lemma_nearby(ar, g, c.v1, ids, 0);
    assert(g.curves[cid.0 as int] is Some);
    if snap_pair(ar, g, cid) is None {
        assert forall|x: VertexId| #[trigger] vertex_live(g, x) implies {
            &&& x != c.v0 ==> !close(ar, g, c.v0, x)
            &&& x != c.v1 ==> !close(ar, g, c.v1, x)
        } by {
            assert(ids.contains(x));
            let j = choose|j: int| 0 <= j < ids.len() && ids[j] == x;
            assert(ids[j] == x);
        }
    }
}

/// A remedy merges two distinct live vertices, or cuts at a live vertex.
pub proof fn lemma_remedy(ar: Arith, g: Graph, cid: CurveId, oid: CurveId, h: Hit)
    requires
        graph_wf(g),
        curve_live(g, cid),
        curve_live(g, oid),
    ensures
        match remedy_for(ar, g, cid, oid, h) {
            Remedy::Merge { keep, lose } => vertex_live(g, keep) && vertex_live(g, lose) && keep
                != lose,
            Remedy::CutOther { at } => vertex_live(g, at),
            Remedy::CutThis { at } => vertex_live(g, at),
            _ => true,
        },
{
    assert(g.curves[cid.0 as int] is Some);
    assert(g.curves[oid.0 as int] is Some);
}

/// Room for the pipeline to take one more step.
pub open spec fn step_room(g: Graph) -> bool {
    g.curves.len() + 4 <= u32::MAX && g.verts.len() + 1 <= u32::MAX
}

/// `b` has come out of `a` in one step, as far as sizes go.
pub open spec fn step_grown(a: Graph, b: Graph) -> bool {
    &&& a.curves.len() <= b.curves.len() <= a.curves.len() + 4
    &&& a.verts.len() <= b.verts.len() <= a.verts.len() + 1
}

pub proof fn lemma_resolved_wf(ar: Arith, w: Work, cid: CurveId, oid: CurveId, h: Hit)
    requires
        work_wf(w),
        curve_live(w.g, cid),
        curve_live(w.g, oid),
        cid != oid,
        step_room(w.g),
    ensures
        work_wf(resolved(ar, w, cid, oid, h)),
        step_grown(w.g, resolved(ar, w, cid, oid, h).g),
{
    lemma_remedy(ar, w.g, cid, oid, h);
    match remedy_for(ar, w.g, cid, oid, h) {
        Remedy::Leave => {},
        Remedy::Merge { keep, lose } => {
            lemma_merged_wf(w, keep, lose);
        },
        Remedy::CutOther { at } => {
            lemma_split_wf(ar, w, oid, h.u, at);
        },
        Remedy::CutThis { at } => {
            lemma_split_wf(ar, w, cid, h.t, at);
        },
        Remedy::CutBoth => {
            let w1 = with_vertex(w, h.p);
            assert forall|i: int|
                0 <= i < w1.g.curves.len() && (#[trigger] w1.g.curves[i]) is Some implies vertex_live(
                w1.g,
                (w1.g.curves[i]->0).v0,
            ) && vertex_live(w1.g, (w1.g.curves[i]->0).v1) by {
                assert(w.g.curves[i] is Some);
            }
            assert(work_wf(w1));
            lemma_split_wf(ar, w1, cid, h.t, next_vertex(w));
            lemma_split_wf(
                ar,
                split_at(ar, w1, cid, h.t, next_vertex(w)),
                oid,
                h.u,
                next_vertex(w),
            );
        },
    }
}

pub proof fn lemma_untangled_wf(ar: Arith, w: Work, cid: CurveId, h: Hit)
    requires
        work_wf(w),
        curve_live(w.g, cid),
        step_room(w.g),
    ensures
        untangled(ar, w, cid, h) matches Some(w2) ==> work_wf(w2) && step_grown(w.g, w2.g),
{
    let c = curve_of(w.g, cid);
    let near0 = within_snap(ar, w.g, h.p, c.v0);
    assert(w.g.curves[cid.0 as int] is Some);
    if near0 || within_snap(ar, w.g, h.p, c.v1) {
        let vend = if near0 { c.v0 } else { c.v1 };
        let t = if near0 { h.u } else { h.t };
        lemma_split_wf(ar, w, cid, t, vend);
    } else {
        lemma_cut_loop_wf(ar, w, cid, h);
    }
}

/// Looking at a curve keeps the arrangement in order, and takes at most four
/// curve slots and one vertex slot.
pub proof fn lemma_examine_wf(ar: Arith, w: Work, cid: CurveId)
    requires
        work_wf(w),
        step_room(w.g),
    ensures
        work_wf(examine(ar, w, cid).w),
        step_grown(w.g, examine(ar, w, cid).w.g),
{
    if curve_live(w.g, cid) && !degenerate(ar, w.g, cid) {
        lemma_rivals(w.g, cid);
        lemma_dedup_wf(ar, w, cid, rivals_of(w.g, cid), 0);
        let (gone, w1) = dedup(ar, w, cid, rivals_of(w.g, cid), 0);
        if !gone {
            match self_hit(ar, w1.g, cid) {
                Err(e) => {},
                Ok(None) => {
                    lemma_neighbours_wf(ar, w1, cid);
                },
                Ok(Some(h)) => {
                    lemma_untangled_wf(ar, w1, cid, h);
                    lemma_neighbours_wf(ar, w1, cid);
                },
            }
        }
    }
}

proof fn lemma_neighbours_wf(ar: Arith, w: Work, cid: CurveId)
    requires
        work_wf(w),
        curve_live(w.g, cid),
        step_room(w.g),
    ensures
        work_wf(examine_neighbours(ar, w, cid).w),
        step_grown(w.g, examine_neighbours(ar, w, cid).w.g),
{
    lemma_crossing(ar, w.g, cid);
    match first_crossing(ar, w.g, cid, others_of(w.g, cid), 0) {
        Err(e) => {},
        Ok(Some((oid, h))) => {
            lemma_resolved_wf(ar, w, cid, oid, h);
        },
        Ok(None) => {
            lemma_snap_pair(ar, w.g, cid);
            if let Some((keep, lose)) = snap_pair(ar, w.g, cid) {
                lemma_merged_wf(w, keep, lose);
            }
        },
    }
}

} // verus!
