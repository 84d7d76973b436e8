//! No ink is lost: what becomes of curves and vertices when the rules are run.

use vstd::prelude::*;

use crate::calc::{Arith, Op};
use crate::cuts::{cut_where_met, law_cut_where_met};
use crate::error::Fault;
use crate::fill::Fill;
use crate::geom::{
    spec_dist, spec_poly_hits, spec_poly_self_hits, spec_polygon_len, spec_seg_dist,
    spec_self_intersection, untagged, Cubic, Hit, Tagged,
};
use crate::graph::{
    curve_live, curve_of, eps_of, graph_wf, lemma_pick, lemma_vertices, points_of, polyline_of,
    swept, vertex_ids_of, vertex_live, vertex_used, Curve, CurveId, Graph, VertexId,
};
use crate::integrate::run_room;
use crate::pipeline::{
    all_live, close, coincide, comes_after, conflict, cut_loop, dedup, degenerate, double_point,
    enqueue, examine, examine_neighbours, examine_shape, first_conflict, first_crossing,
    first_tangle, integrated, lemma_crossing, lemma_dedup_wf, lemma_examine_wf, lemma_remedy,
    lemma_rivals, lemma_snap_pair, lemma_split_wf, merged, nearby, next_vertex, other_than,
    others_of, own_roots, popped, redirect, remedy_for, resolved, rival_of, rivals_of, run,
    runs_along, self_hit, snap_pair, split_at, step_room, touches, with_vertex, without_curve,
    work_wf, Remedy, Step, Work, MAX_STEPS,
};
use crate::planar::{law_planar_vertices_snapped, parallel, planar, settled, settled_beside};
use crate::point::Point;
use crate::scalar::{num, Scalar, ONE, QUARTER, ZERO};
use crate::scene::replanarized;
use crate::shape::{
    cubic_of, inner_after, inner_before, inner_between, joint, law_cut_keeps_shape,
    law_loop_cut_keeps_shape, law_split_by_construction,
};

verus! {

// ---- fates ----

/// A loop whose control polygon is shorter than the snap distance, or whose
/// polyline is no more than a line there.
pub open spec fn tiny(ar: Arith, g: Graph, c: CurveId) -> bool {
    let d = g.curves[c.0 as int]->0;
    &&& d.v0 == d.v1
    &&& spec_polygon_len(ar, cubic_of(g, d)).spec_lt(g.snap) || polyline_of(ar, g, c).len() <= 2
}

/// The point is within `eps` of a segment of the tagged polyline.
pub open spec fn passes(ar: Arith, p: Point, poly: Seq<Tagged>, eps: Scalar) -> bool {
    exists|y: int|
        0 <= y < poly.len() - 1 && spec_seg_dist(
            ar,
            p,
            (#[trigger] poly[y]).1,
            poly[y + 1].1,
        ).spec_lt(eps)
}

/// Every point of the polyline of `a` is within a quarter of the snap distance of
/// a segment of that of `b`.
pub open spec fn runs_beside(ar: Arith, g: Graph, a: CurveId, b: CurveId) -> bool {
    forall|x: int|
        0 <= x < polyline_of(ar, g, a).len() ==> passes(
            ar,
            (#[trigger] polyline_of(ar, g, a)[x]).1,
            polyline_of(ar, g, b),
            ar(Op::Mul, g.snap, num(QUARTER)),
        )
}

/// A live curve with a lower id runs between the same two vertices, beside this
/// one all along, and this one beside it.
pub open spec fn doubled(ar: Arith, g: Graph, c: CurveId) -> bool {
    let d = g.curves[c.0 as int]->0;
    exists|o: CurveId|
        {
            let e = g.curves[o.0 as int]->0;
            &&& o.0 < c.0
            &&& (#[trigger] g.curves[o.0 as int]) is Some
            &&& (e.v0 == d.v0 && e.v1 == d.v1) || (e.v0 == d.v1 && e.v1 == d.v0)
            &&& runs_beside(ar, g, c, o)
            &&& runs_beside(ar, g, o, c)
        }
}

/// The two parts of `c` before and after `t`, joined at `x`.
pub open spec fn two_parts(
    ar: Arith,
    g: Graph,
    c: Curve,
    t: Scalar,
    x: VertexId,
    a: Option<Curve>,
    b: Option<Curve>,
) -> bool {
    let (l, r) = (inner_before(ar, cubic_of(g, c), t), inner_after(ar, cubic_of(g, c), t));
    &&& a == Some(Curve { v0: c.v0, c0: l.0, c1: l.1, v1: x, tag: c.tag })
    &&& b == Some(Curve { v0: x, c0: r.0, c1: r.1, v1: c.v1, tag: c.tag })
}

/// The three parts of `c` up to `t`, from there to `u`, and on, joined at `x`.
pub open spec fn three_parts(
    ar: Arith,
    g: Graph,
    c: Curve,
    t: Scalar,
    u: Scalar,
    x: VertexId,
    a: Option<Curve>,
    b: Option<Curve>,
    d: Option<Curve>,
) -> bool {
    let p = cubic_of(g, c);
    let (l, m, r) = (
        inner_between(ar, p, num(ZERO), t),
        inner_between(ar, p, t, u),
        inner_between(ar, p, u, num(ONE)),
    );
    &&& a == Some(Curve { v0: c.v0, c0: l.0, c1: l.1, v1: x, tag: c.tag })
    &&& b == Some(Curve { v0: x, c0: m.0, c1: m.1, v1: x, tag: c.tag })
    &&& d == Some(Curve { v0: x, c0: r.0, c1: r.1, v1: c.v1, tag: c.tag })
}

/// In place of `c` there are its parts, next to each other among the new curves.
pub open spec fn in_parts(ar: Arith, g1: Graph, g2: Graph, c: CurveId) -> bool {
    let d = g1.curves[c.0 as int]->0;
    let n = g1.curves.len() as int;
    ||| exists|k: int, t: Scalar, x: VertexId|
        n <= k && k + 1 < g2.curves.len() && #[trigger] two_parts(
            ar,
            g1,
            d,
            t,
            x,
            g2.curves[k],
            g2.curves[k + 1],
        )
    ||| exists|k: int, t: Scalar, u: Scalar, x: VertexId|
        n <= k && k + 2 < g2.curves.len() && #[trigger] three_parts(
            ar,
            g1,
            d,
            t,
            u,
            x,
            g2.curves[k],
            g2.curves[k + 1],
            g2.curves[k + 2],
        )
}

/// The new curve in slot `k` is one of the parts of a curve that is gone, and has
/// its ancestor.
pub open spec fn is_part(ar: Arith, w1: Work, w2: Work, k: int) -> bool {
    exists|c: CurveId|
        c.0 < w1.g.curves.len() && (#[trigger] w1.g.curves[c.0 as int]) is Some
            && w2.g.curves[c.0 as int] is None && part_of(
            ar,
            cubic_of(w1.g, w1.g.curves[c.0 as int]->0),
            (w1.g.curves[c.0 as int]->0).tag,
            w2.g.curves[k]->0,
        ) && w2.root[k] == w1.root[c.0 as int]
}

/// The curve has the inner control points of a part of `p`, and the tag.
pub open spec fn part_of(ar: Arith, p: Cubic, tag: u64, d: Curve) -> bool {
    d.tag == tag && {
        ||| exists|t: Scalar| (d.c0, d.c1) == #[trigger] inner_before(ar, p, t)
        ||| exists|t: Scalar| (d.c0, d.c1) == #[trigger] inner_after(ar, p, t)
        ||| exists|t: Scalar, u: Scalar| (d.c0, d.c1) == #[trigger] inner_between(ar, p, t, u)
    }
}

/// From `w1` to `w2` curves have only been cut: a curve that is still there has
/// its inner control points, its tag and its ancestor, one that is gone is there in parts, and a
/// new one is one of those parts.
pub open spec fn only_cut(ar: Arith, w1: Work, w2: Work) -> bool {
    &&& w1.root.len() == w1.g.curves.len()
    &&& w2.root.len() == w2.g.curves.len()
    &&& forall|i: int| #![trigger w2.root[i]] 0 <= i < w1.root.len() ==> w2.root[i] == w1.root[i]
    &&& w1.g.snap == w2.g.snap
    &&& w1.g.tol == w2.g.tol
    &&& w1.g.curves.len() <= w2.g.curves.len()
    &&& forall|c: CurveId|
        #![trigger w2.g.curves[c.0 as int]]
        c.0 < w1.g.curves.len() && w2.g.curves[c.0 as int] is Some ==> {
            &&& w1.g.curves[c.0 as int] is Some
            &&& (w2.g.curves[c.0 as int]->0).c0 == (w1.g.curves[c.0 as int]->0).c0
            &&& (w2.g.curves[c.0 as int]->0).c1 == (w1.g.curves[c.0 as int]->0).c1
            &&& (w2.g.curves[c.0 as int]->0).tag == (w1.g.curves[c.0 as int]->0).tag
        }
    &&& forall|c: CurveId|
        #![trigger w2.g.curves[c.0 as int]]
        c.0 < w1.g.curves.len() && w2.g.curves[c.0 as int] is None && w1.g.curves[c.0 as int] is Some
            ==> in_parts(ar, w1.g, w2.g, c)
    &&& forall|k: int|
        #![trigger w2.g.curves[k]]
        w1.g.curves.len() <= k < w2.g.curves.len() && w2.g.curves[k] is Some ==> is_part(ar, w1, w2, k)
}

proof fn lemma_split_only_cuts(ar: Arith, w: Work, id: CurveId, t: Scalar, vm: VertexId)
    requires
        work_wf(w),
        curve_live(w.g, id),
    ensures
        only_cut(ar, w, split_at(ar, w, id, t, vm)),
{
    law_cut_keeps_shape(ar, w, id, t, vm);
    let w2 = split_at(ar, w, id, t, vm);
    let n = w.g.curves.len() as int;
    let c = w.g.curves[id.0 as int]->0;
    assert(two_parts(ar, w.g, c, t, vm, w2.g.curves[n], w2.g.curves[n + 1]));
    assert(in_parts(ar, w.g, w2.g, id));
    assert forall|k: int| #![trigger w2.g.curves[k]] n <= k < n + 2 implies is_part(
        ar,
        w,
        w2,
        k,
    ) by {
        let p = cubic_of(w.g, c);
        assert(k == n || k == n + 1);
        assert(inner_before(ar, p, t) == inner_before(ar, p, t));
        assert(inner_after(ar, p, t) == inner_after(ar, p, t));
        assert(part_of(ar, p, c.tag, w2.g.curves[k]->0));
        assert(w.g.curves[id.0 as int] is Some);
    }
}

proof fn lemma_loop_only_cuts(ar: Arith, w: Work, id: CurveId, h: Hit)
    requires
        work_wf(w),
        curve_live(w.g, id),
        w.g.verts.len() < u32::MAX,
    ensures
        only_cut(ar, w, cut_loop(ar, w, id, h)),
{
    law_loop_cut_keeps_shape(ar, w, id, h);
    let w2 = cut_loop(ar, w, id, h);
    let n = w.g.curves.len() as int;
    let c = w.g.curves[id.0 as int]->0;
    let vm = VertexId(w.g.verts.len() as u32);
    let p = cubic_of(w.g, c);
    assert(three_parts(
        ar,
        w.g,
        c,
        h.t,
        h.u,
        vm,
        w2.g.curves[n],
        w2.g.curves[n + 1],
        w2.g.curves[n + 2],
    ));
    assert(in_parts(ar, w.g, w2.g, id));
    assert forall|k: int| #![trigger w2.g.curves[k]] n <= k < n + 3 implies is_part(
        ar,
        w,
        w2,
        k,
    ) by {
        let (a, b, d) = (
            inner_between(ar, p, num(ZERO), h.t),
            inner_between(ar, p, h.t, h.u),
            inner_between(ar, p, h.u, num(ONE)),
        );
        assert(k == n || k == n + 1 || k == n + 2);
        assert(part_of(ar, p, c.tag, w2.g.curves[k]->0));
        assert(w.g.curves[id.0 as int] is Some);
    }
}

/// Two cuts, one after the other, of two curves.
proof fn lemma_both_only_cut(
    ar: Arith,
    w: Work,
    p: Point,
    a: CurveId,
    t: Scalar,
    b: CurveId,
    u: Scalar,
    vm: VertexId,
)
    requires
        work_wf(w),
        work_wf(with_vertex(w, p)),
        work_wf(split_at(ar, with_vertex(w, p), a, t, vm)),
        curve_live(w.g, a),
        curve_live(w.g, b),
        a != b,
    ensures
        only_cut(ar, w, split_at(ar, split_at(ar, with_vertex(w, p), a, t, vm), b, u, vm)),
{
    let w1 = with_vertex(w, p);
    let w2 = split_at(ar, w1, a, t, vm);
    let w3 = split_at(ar, w2, b, u, vm);
    let n = w.g.curves.len() as int;
    law_cut_keeps_shape(ar, w1, a, t, vm);
    assert(w2.g.curves[b.0 as int] == w.g.curves[b.0 as int]);
    law_cut_keeps_shape(ar, w2, b, u, vm);
    let (c, d) = (w.g.curves[a.0 as int]->0, w.g.curves[b.0 as int]->0);
    assert(vertex_live(w.g, c.v0) && vertex_live(w.g, c.v1)) by {
        assert(w.g.curves[a.0 as int] is Some);
    }
    assert(vertex_live(w.g, d.v0) && vertex_live(w.g, d.v1)) by {
        assert(w.g.curves[b.0 as int] is Some);
    }
    assert(cubic_of(w1.g, c) == cubic_of(w.g, c));
    assert(cubic_of(w2.g, d) == cubic_of(w.g, d));
    assert(w3.g.curves[n] == w2.g.curves[n] && w3.g.curves[n + 1] == w2.g.curves[n + 1]);
    assert(two_parts(ar, w.g, c, t, vm, w3.g.curves[n], w3.g.curves[n + 1]));
    assert(two_parts(ar, w.g, d, u, vm, w3.g.curves[n + 2], w3.g.curves[n + 2 + 1]));
    assert(in_parts(ar, w.g, w3.g, a));
    assert(in_parts(ar, w.g, w3.g, b));
    assert(w3.g.curves[a.0 as int] == w2.g.curves[a.0 as int]);
    assert forall|x: CurveId|
        #![trigger w3.g.curves[x.0 as int]]
        x.0 < n && x != a && x != b implies w3.g.curves[x.0 as int] == w.g.curves[x.0 as int] by {
        assert(w3.g.curves[x.0 as int] == w2.g.curves[x.0 as int]);
    }
    assert forall|k: int| #![trigger w3.g.curves[k]] n <= k < n + 4 implies is_part(
        ar,
        w,
        w3,
        k,
    ) by {
        let (x, y) = (cubic_of(w.g, c), cubic_of(w.g, d));
        assert(k == n || k == n + 1 || k == n + 2 || k == n + 3);
        assert(inner_before(ar, x, t) == inner_before(ar, x, t));
        assert(inner_after(ar, x, t) == inner_after(ar, x, t));
        assert(inner_before(ar, y, u) == inner_before(ar, y, u));
        assert(inner_after(ar, y, u) == inner_after(ar, y, u));
        if k < n + 2 {
            assert(part_of(ar, x, c.tag, w3.g.curves[k]->0));
            assert(w.g.curves[a.0 as int] is Some);
        } else {
            assert(part_of(ar, y, d.tag, w3.g.curves[k]->0));
            assert(w.g.curves[b.0 as int] is Some);
        }
    }
}

proof fn lemma_merge_only_cuts(ar: Arith, w: Work, keep: VertexId, lose: VertexId)
    requires
        work_wf(w),
    ensures
        only_cut(ar, w, merged(w, keep, lose)),
{
    let w2 = merged(w, keep, lose);
    assert forall|c: CurveId| #![trigger w2.g.curves[c.0 as int]] c.0 < w.g.curves.len() implies (
    w2.g.curves[c.0 as int] == match w.g.curves[c.0 as int] {
        Some(d) => Some(redirect(d, keep, lose)),
        None => None,
    }) by {}
}

proof fn lemma_resolved_only_cuts(
    ar: Arith,
    w: Work,
    cid: CurveId,
    oid: CurveId,
    h: Hit,
)
    requires
        work_wf(w),
        step_room(w.g),
        curve_live(w.g, cid),
        curve_live(w.g, oid),
        cid != oid,
    ensures
        only_cut(ar, w, resolved(ar, w, cid, oid, h)),
{
    lemma_remedy(ar, w.g, cid, oid, h);
    match remedy_for(ar, w.g, cid, oid, h) {
        Remedy::Leave => {},
        Remedy::Merge { keep, lose } => {
            lemma_merge_only_cuts(ar, w, keep, lose);
        },
        Remedy::CutOther { at } => {
            lemma_split_only_cuts(ar, w, oid, h.u, at);
        },
        Remedy::CutThis { at } => {
            lemma_split_only_cuts(ar, w, cid, h.t, at);
        },
        Remedy::CutBoth => {
            let w1 = with_vertex(w, h.p);
            let vm = next_vertex(w);
            assert forall|i: int|
                0 <= i < w1.g.curves.len() && (#[trigger] w1.g.curves[i]) is Some implies vertex_live(
                w1.g,
                (w1.g.curves[i]->0).v0,
            ) && vertex_live(w1.g, (w1.g.curves[i]->0).v1) by {
                assert(w.g.curves[i] is Some);
            }
            lemma_split_wf(ar, w1, cid, h.t, vm);
            lemma_both_only_cut(ar, w, h.p, cid, h.t, oid, h.u, vm);
        },
    }
}

proof fn lemma_neighbours_only_cut(ar: Arith, w: Work, cid: CurveId)
    requires
        work_wf(w),
        step_room(w.g),
        curve_live(w.g, cid),
    ensures
        only_cut(ar, w, examine_neighbours(ar, w, cid).w),
{
    lemma_crossing(ar, w.g, cid);
    match first_crossing(ar, w.g, cid, others_of(w.g, cid), 0) {
        Err(e) => {},
        Ok(Some((oid, h))) => {
            lemma_resolved_only_cuts(ar, w, cid, oid, h);
        },
        Ok(None) => {
            if let Some((keep, lose)) = snap_pair(ar, w.g, cid) {
                lemma_merge_only_cuts(ar, w, keep, lose);
            }
        },
    }
}

proof fn lemma_shape_only_cut(ar: Arith, w: Work, cid: CurveId)
    requires
        work_wf(w),
        step_room(w.g),
        curve_live(w.g, cid),
    ensures
        only_cut(ar, w, examine_shape(ar, w, cid).w),
{
    lemma_neighbours_only_cut(ar, w, cid);
    if let Ok(Some(h)) = self_hit(ar, w.g, cid) {
        let c = curve_of(w.g, cid);
        lemma_split_only_cuts(ar, w, cid, h.u, c.v0);
        lemma_split_only_cuts(ar, w, cid, h.t, c.v1);
        lemma_loop_only_cuts(ar, w, cid, h);
    }
}

// ---- duplicates ----

proof fn lemma_runs_along(ar: Arith, g: Graph, a: CurveId, b: CurveId)
    requires
        runs_along(
            ar,
            untagged(polyline_of(ar, g, a)),
            untagged(polyline_of(ar, g, b)),
            eps_of(ar, g),
        ),
    ensures
        runs_beside(ar, g, a, b),
{
    let (pa, pb) = (polyline_of(ar, g, a), polyline_of(ar, g, b));
    let (ua, ub) = (untagged(pa), untagged(pb));
    assert forall|x: int| 0 <= x < pa.len() implies passes(
        ar,
        (#[trigger] polyline_of(ar, g, a)[x]).1,
        pb,
        ar(Op::Mul, g.snap, num(QUARTER)),
    ) by {
        assert(ua[x] == pa[x].1);
        assert(touches(ar, ua[x], ub, eps_of(ar, g)));
        let y = choose|y: int|
            0 <= y < ub.len() - 1 && spec_seg_dist(
                ar,
                ua[x],
                #[trigger] ub[y],
                ub[y + 1],
            ).spec_lt(eps_of(ar, g));
        assert(ub[y] == pb[y].1 && ub[y + 1] == pb[y + 1].1);
        assert(pb[y] == pb[y]);
    }
}

/// From `g1` to `g2` some curves have gone, each doubled by another.
pub open spec fn only_dedup(ar: Arith, g1: Graph, g2: Graph) -> bool {
    &&& g1.snap == g2.snap
    &&& g1.tol == g2.tol
    &&& g1.verts == g2.verts
    &&& g1.curves.len() == g2.curves.len()
    &&& forall|c: CurveId|
        #![trigger g2.curves[c.0 as int]]
        c.0 < g1.curves.len() ==> g2.curves[c.0 as int] == g1.curves[c.0 as int]
            || g2.curves[c.0 as int] is None && g1.curves[c.0 as int] is Some && doubled(ar, g1, c)
}

/// `g2` is `g1` without some of its curves.
pub open spec fn thinner(g1: Graph, g2: Graph) -> bool {
    &&& g1.snap == g2.snap
    &&& g1.tol == g2.tol
    &&& g1.verts == g2.verts
    &&& g1.curves.len() == g2.curves.len()
    &&& forall|i: int|
        #![trigger g2.curves[i]]
        0 <= i < g2.curves.len() && g2.curves[i] is Some ==> g2.curves[i] == g1.curves[i]
}

proof fn lemma_doubled(ar: Arith, g1: Graph, g: Graph, hi: CurveId, lo: CurveId)
    requires
        thinner(g1, g),
        curve_live(g, hi),
        curve_live(g, lo),
        lo.0 < hi.0,
        coincide(ar, g, hi, lo) || coincide(ar, g, lo, hi),
        ({
            let (d, e) = (g.curves[hi.0 as int]->0, g.curves[lo.0 as int]->0);
            (e.v0 == d.v0 && e.v1 == d.v1) || (e.v0 == d.v1 && e.v1 == d.v0)
        }),
    ensures
        doubled(ar, g1, hi),
{
    reveal(coincide);
    lemma_runs_if(ar, g, hi, lo);
    reveal(polyline_of);
    assert(g.curves[hi.0 as int] == g1.curves[hi.0 as int]);
    assert(g.curves[lo.0 as int] == g1.curves[lo.0 as int]);
    assert(polyline_of(ar, g, hi) == polyline_of(ar, g1, hi));
    assert(polyline_of(ar, g, lo) == polyline_of(ar, g1, lo));
    assert(runs_beside(ar, g1, hi, lo));
    assert(runs_beside(ar, g1, lo, hi));
    assert(g1.curves[lo.0 as int] is Some);
}

pub(crate) proof fn lemma_runs_if(ar: Arith, g: Graph, a: CurveId, b: CurveId)
    requires
        coincide(ar, g, a, b) || coincide(ar, g, b, a),
    ensures
        runs_beside(ar, g, a, b),
        runs_beside(ar, g, b, a),
{
    reveal(coincide);
    lemma_runs_along(ar, g, a, b);
    lemma_runs_along(ar, g, b, a);
}

pub(crate) proof fn lemma_dedup_only(
    ar: Arith,
    g1: Graph,
    w: Work,
    cid: CurveId,
    rivals: Seq<CurveId>,
    i: int,
)
    requires
        thinner(g1, w.g),
        only_dedup(ar, g1, w.g),
        curve_live(w.g, cid),
        0 <= i <= rivals.len(),
        all_live(w.g, rivals, i),
        forall|j: int| i <= j < rivals.len() ==> #[trigger] rivals[j] != cid,
        forall|j: int|
            #![trigger rivals[j]]
            i <= j < rivals.len() ==> {
                let (d, e) = (w.g.curves[cid.0 as int]->0, w.g.curves[rivals[j].0 as int]->0);
                (e.v0 == d.v0 && e.v1 == d.v1) || (e.v0 == d.v1 && e.v1 == d.v0)
            },
    ensures
        only_dedup(ar, g1, dedup(ar, w, cid, rivals, i).1.g),
        thinner(g1, dedup(ar, w, cid, rivals, i).1.g),
        dedup(ar, w, cid, rivals, i).1.root == w.root,
    decreases rivals.len() - i,
{
    if i < rivals.len() {
        let o = rivals[i];
        assert(curve_live(w.g, o));
        if coincide(ar, w.g, cid, o) {
            if cid.0 > o.0 {
                lemma_doubled(ar, g1, w.g, cid, o);
                assert(g1.curves[cid.0 as int] == w.g.curves[cid.0 as int]);
            } else {
                lemma_doubled(ar, g1, w.g, o, cid);
                assert(g1.curves[o.0 as int] == w.g.curves[o.0 as int]);
                let w2 = enqueue(without_curve(w, o), seq![cid]);
                assert forall|j: int| #![trigger rivals[j]] i + 1 <= j < rivals.len() implies {
                    let (d, e) = (w2.g.curves[cid.0 as int]->0, w2.g.curves[rivals[j].0 as int]->0);
                    (e.v0 == d.v0 && e.v1 == d.v1) || (e.v0 == d.v1 && e.v1 == d.v0)
                } by {
                    assert(rivals[j] != rivals[i]);
                }
                lemma_dedup_only(ar, g1, w2, cid, rivals, i + 1);
            }
        } else {
            lemma_dedup_only(ar, g1, w, cid, rivals, i + 1);
        }
    }
}

// ---- one look at a curve ----

/// One look at a curve loses no ink: a curve that is still there has its inner
/// control points, its tag and its ancestor; one that is gone was a tiny loop, or doubled by
/// another, or is there in parts that keep its shape, tag and ancestor; and a new curve is
/// such a part.
pub open spec fn ink_kept(ar: Arith, w1: Work, w2: Work) -> bool {
    &&& w2.g.snap == w1.g.snap
    &&& w2.g.tol == w1.g.tol
    &&& w2.root.len() == w2.g.curves.len()
    &&& forall|i: int| #![trigger w2.root[i]] 0 <= i < w1.root.len() ==> w2.root[i] == w1.root[i]
    &&& w1.g.curves.len() <= w2.g.curves.len()
    &&& forall|c: CurveId|
        #![trigger w2.g.curves[c.0 as int]]
        c.0 < w1.g.curves.len() && w2.g.curves[c.0 as int] is Some ==> {
            &&& w1.g.curves[c.0 as int] is Some
            &&& (w2.g.curves[c.0 as int]->0).c0 == (w1.g.curves[c.0 as int]->0).c0
            &&& (w2.g.curves[c.0 as int]->0).c1 == (w1.g.curves[c.0 as int]->0).c1
            &&& (w2.g.curves[c.0 as int]->0).tag == (w1.g.curves[c.0 as int]->0).tag
        }
    &&& forall|c: CurveId|
        #![trigger w2.g.curves[c.0 as int]]
        c.0 < w1.g.curves.len() && w2.g.curves[c.0 as int] is None && w1.g.curves[c.0 as int] is Some
            ==> tiny(ar, w1.g, c) || doubled(ar, w1.g, c) || in_parts(ar, w1.g, w2.g, c)
    &&& forall|k: int|
        #![trigger w2.g.curves[k]]
        w1.g.curves.len() <= k < w2.g.curves.len() && w2.g.curves[k] is Some ==> is_part(ar, w1, w2, k)
}

proof fn lemma_dedup_then_cut(ar: Arith, w1: Work, w: Work, w2: Work)
    requires
        only_dedup(ar, w1.g, w.g),
        w.root == w1.root,
        only_cut(ar, w, w2),
    ensures
        ink_kept(ar, w1, w2),
{
    let g1 = w1.g;
    let g = w.g;
    let g2 = w2.g;
    assert forall|c: CurveId|
        #![trigger g2.curves[c.0 as int]]
        c.0 < g1.curves.len() && g2.curves[c.0 as int] is None && g1.curves[c.0 as int]
        is Some implies tiny(ar, g1, c) || doubled(ar, g1, c) || in_parts(ar, g1, g2, c) by {
        if g.curves[c.0 as int] is Some {
            assert(in_parts(ar, g, g2, c));
            let d = g.curves[c.0 as int]->0;
            let n = g.curves.len() as int;
            assert(cubic_of(g, d) == cubic_of(g1, d));
            if exists|k: int, t: Scalar, x: VertexId|
                n <= k && k + 1 < g2.curves.len() && #[trigger] two_parts(
                    ar,
                    g,
                    d,
                    t,
                    x,
                    g2.curves[k],
                    g2.curves[k + 1],
                ) {
                let (k, t, x) = choose|k: int, t: Scalar, x: VertexId|
                    n <= k && k + 1 < g2.curves.len() && #[trigger] two_parts(
                        ar,
                        g,
                        d,
                        t,
                        x,
                        g2.curves[k],
                        g2.curves[k + 1],
                    );
                assert(two_parts(ar, g1, d, t, x, g2.curves[k], g2.curves[k + 1]));
            } else {
                let (k, t, u, x) = choose|k: int, t: Scalar, u: Scalar, x: VertexId|
                    n <= k && k + 2 < g2.curves.len() && #[trigger] three_parts(
                        ar,
                        g,
                        d,
                        t,
                        u,
                        x,
                        g2.curves[k],
                        g2.curves[k + 1],
                        g2.curves[k + 2],
                    );
                assert(three_parts(
                    ar,
                    g1,
                    d,
                    t,
                    u,
                    x,
                    g2.curves[k],
                    g2.curves[k + 1],
                    g2.curves[k + 2],
                ));
            }
        }
    }
    assert forall|k: int|
        #![trigger g2.curves[k]]
        g1.curves.len() <= k < g2.curves.len() && g2.curves[k] is Some implies is_part(
        ar,
        w1,
        w2,
        k,
    ) by {
        assert(is_part(ar, w, w2, k));
        let c = choose|c: CurveId|
            c.0 < g.curves.len() && (#[trigger] g.curves[c.0 as int]) is Some
                && g2.curves[c.0 as int] is None && part_of(
                ar,
                cubic_of(g, g.curves[c.0 as int]->0),
                (g.curves[c.0 as int]->0).tag,
                g2.curves[k]->0,
            ) && w2.root[k] == w.root[c.0 as int];
        assert(g.curves[c.0 as int] == g1.curves[c.0 as int]);
        assert(cubic_of(g, g.curves[c.0 as int]->0) == cubic_of(g1, g.curves[c.0 as int]->0));
        assert(g1.curves[c.0 as int] is Some);
    }
}

pub(crate) proof fn lemma_rivals_beside(g: Graph, cid: CurveId)
    requires
        graph_wf(g),
        curve_live(g, cid),
    ensures
        forall|j: int|
            #![trigger rivals_of(g, cid)[j]]
            0 <= j < rivals_of(g, cid).len() ==> {
                let (d, e) = (
                    g.curves[cid.0 as int]->0,
                    g.curves[rivals_of(g, cid)[j].0 as int]->0,
                );
                (e.v0 == d.v0 && e.v1 == d.v1) || (e.v0 == d.v1 && e.v1 == d.v0)
            },
{
    let c = curve_of(g, cid);
    lemma_pick(g.curves, rival_of(cid, c.v0, c.v1), g.curves.len() as int);
}

/// One look at a curve loses no ink.
pub proof fn law_one_look_keeps_ink(ar: Arith, w: Work, cid: CurveId)
    requires
        work_wf(w),
        step_room(w.g),
    ensures
        ink_kept(ar, w, examine(ar, w, cid).w),
{
    let w2 = examine(ar, w, cid).w;
    if !curve_live(w.g, cid) {
    } else if degenerate(ar, w.g, cid) {
        assert(points_of(w.g, cid) == cubic_of(w.g, w.g.curves[cid.0 as int]->0));
        assert(tiny(ar, w.g, cid));
    } else {
        let rivals = rivals_of(w.g, cid);
        lemma_rivals(w.g, cid);
        lemma_rivals_beside(w.g, cid);
        lemma_dedup_wf(ar, w, cid, rivals, 0);
        lemma_dedup_only(ar, w.g, w, cid, rivals, 0);
        let (gone, w1) = dedup(ar, w, cid, rivals, 0);
        if gone {
        } else {
            lemma_shape_only_cut(ar, w1, cid);
            lemma_dedup_then_cut(ar, w, w1, w2);
        }
    }
}

// ---- vertices ----

/// Both vertices are nearer than the snap distance: to each other, or to a place
/// between them where curves meet.
pub open spec fn near_each_other(ar: Arith, g: Graph, u: VertexId, v: VertexId) -> bool {
    let p = g.verts[u.0 as int]->0;
    let q = g.verts[v.0 as int]->0;
    ||| spec_dist(ar, p, q).spec_lt(g.snap)
    ||| spec_dist(ar, q, p).spec_lt(g.snap)
    ||| exists|m: Point| #[trigger]
        spec_dist(ar, m, p).spec_lt(g.snap) && spec_dist(ar, m, q).spec_lt(g.snap)
}

/// `lose` has been merged into `keep`, and nothing else has changed about the
/// vertices: `keep` is where it was, and every curve that ended at `lose` ends at
/// `keep`.
pub open spec fn merged_into(ar: Arith, g1: Graph, g2: Graph, keep: VertexId, lose: VertexId) -> bool {
    &&& keep != lose
    &&& keep.0 < g1.verts.len()
    &&& lose.0 < g1.verts.len()
    &&& g1.verts[keep.0 as int] is Some
    &&& g1.verts[lose.0 as int] is Some
    &&& near_each_other(ar, g1, keep, lose)
    &&& g2.verts == g1.verts.update(lose.0 as int, None)
    &&& forall|i: int|
        #![trigger g2.curves[i]]
        0 <= i < g1.curves.len() && g2.curves[i] is Some ==> {
            let (c, d) = (g1.curves[i]->0, g2.curves[i]->0);
            &&& d.v0 == if c.v0 == lose {
                keep
            } else {
                c.v0
            }
            &&& d.v1 == if c.v1 == lose {
                keep
            } else {
                c.v1
            }
        }
}

/// Every curve that is still there ends where it did.
pub open spec fn ends_kept(g1: Graph, g2: Graph) -> bool {
    forall|i: int|
        #![trigger g2.curves[i]]
        0 <= i < g1.curves.len() && g2.curves[i] is Some ==> {
            &&& (g2.curves[i]->0).v0 == (g1.curves[i]->0).v0
            &&& (g2.curves[i]->0).v1 == (g1.curves[i]->0).v1
        }
}

/// The polylines of the two curves have the hit.
pub open spec fn hit_of_two(ar: Arith, g: Graph, c: CurveId, o: CurveId, h: Hit) -> bool {
    spec_poly_hits(
        ar,
        polyline_of(ar, g, c),
        polyline_of(ar, g, o),
        ar(Op::Mul, g.snap, num(QUARTER)),
        o.0 < c.0,
    ) matches Ok(hits) && hits.contains(h)
}

/// The polyline of the curve has the hit with itself.
pub open spec fn hit_of_one(ar: Arith, g: Graph, c: CurveId, h: Hit) -> bool {
    spec_poly_self_hits(
        ar,
        polyline_of(ar, g, c),
        ar(Op::Mul, g.snap, num(QUARTER)),
    ) matches Ok(hits) && hits.contains(h)
}

/// The curve meets itself or another live curve at `p`: there its polyline, and
/// that of the other, have a hit, or it has its double point.
pub open spec fn met_at(ar: Arith, g: Graph, c: CurveId, p: Point) -> bool {
    ||| exists|o: CurveId, h: Hit|
        o != c && o.0 < g.curves.len() && g.curves[o.0 as int] is Some && h.p == p
            && #[trigger] hit_of_two(ar, g, c, o, h)
    ||| exists|h: Hit| h.p == p && #[trigger] hit_of_one(ar, g, c, h)
    ||| spec_self_intersection(ar, cubic_of(g, g.curves[c.0 as int]->0)) matches Some((t, _)) && p
        == joint(ar, cubic_of(g, g.curves[c.0 as int]->0), t)
}

/// What one look at a curve does to the vertices: nothing; or it makes one more,
/// where the curve meets something; or it merges two that are near each other.
pub open spec fn vertices_kept(ar: Arith, g1: Graph, g2: Graph, cid: CurveId) -> bool {
    ||| g2.verts == g1.verts && ends_kept(g1, g2)
    ||| ends_kept(g1, g2) && g2.verts.len() == g1.verts.len() + 1 && g2.verts
        == g1.verts.push(g2.verts.last()) && (g2.verts.last() matches Some(p) && met_at(
        ar,
        g1,
        cid,
        p,
    ))
    ||| exists|keep: VertexId, lose: VertexId| #[trigger] merged_into(ar, g1, g2, keep, lose)
}

proof fn lemma_conflict_is_hit(
    ar: Arith,
    g: Graph,
    cid: CurveId,
    oid: CurveId,
    hits: Seq<Hit>,
    j: int,
)
    requires
        0 <= j <= hits.len(),
    ensures
        first_conflict(ar, g, cid, oid, hits, j) matches Some(h) ==> hits.contains(h),
    decreases hits.len() - j,
{
    if j < hits.len() {
        lemma_conflict_is_hit(ar, g, cid, oid, hits, j + 1);
        assert(hits.contains(hits[j]));
    }
}

pub(crate) proof fn lemma_tangle_is_hit(ar: Arith, g: Graph, cid: CurveId, hits: Seq<Hit>, j: int)
    requires
        0 <= j <= hits.len(),
    ensures
        first_tangle(ar, g, cid, hits, j) matches Some(h) ==> hits.contains(h),
    decreases hits.len() - j,
{
    if j < hits.len() {
        lemma_tangle_is_hit(ar, g, cid, hits, j + 1);
        assert(hits.contains(hits[j]));
    }
}

pub(crate) proof fn lemma_crossing_is_hit(
    ar: Arith,
    g: Graph,
    cid: CurveId,
    others: Seq<CurveId>,
    i: int,
)
    requires
        0 <= i <= others.len(),
    ensures
        first_crossing(ar, g, cid, others, i) matches Ok(Some((oid, h))) ==> spec_poly_hits(
            ar,
            polyline_of(ar, g, cid),
            polyline_of(ar, g, oid),
            eps_of(ar, g),
            comes_after(cid, oid),
        ) matches Ok(hits) && hits.contains(h),
    decreases others.len() - i,
{
    if i < others.len() {
        lemma_crossing_is_hit(ar, g, cid, others, i + 1);
        if let Ok(hits) = spec_poly_hits(
            ar,
            polyline_of(ar, g, cid),
            polyline_of(ar, g, others[i]),
            eps_of(ar, g),
            comes_after(cid, others[i]),
        ) {
            lemma_conflict_is_hit(ar, g, cid, others[i], hits, 0);
        }
    }
}

pub(crate) proof fn lemma_merged_into(ar: Arith, w: Work, keep: VertexId, lose: VertexId)
    requires
        keep != lose,
        vertex_live(w.g, keep),
        vertex_live(w.g, lose),
        near_each_other(ar, w.g, keep, lose),
    ensures
        merged_into(ar, w.g, merged(w, keep, lose).g, keep, lose),
{
    let w2 = merged(w, keep, lose);
    assert forall|i: int|
        #![trigger w2.g.curves[i]]
        0 <= i < w.g.curves.len() && w2.g.curves[i] is Some implies w2.g.curves[i] == Some(
        redirect(w.g.curves[i]->0, keep, lose),
    ) by {}
}

proof fn lemma_resolved_vertices(ar: Arith, w: Work, cid: CurveId, oid: CurveId, h: Hit)
    requires
        work_wf(w),
        step_room(w.g),
        curve_live(w.g, cid),
        curve_live(w.g, oid),
        cid != oid,
        met_at(ar, w.g, cid, h.p),
    ensures
        vertices_kept(ar, w.g, resolved(ar, w, cid, oid, h).g, cid),
{
    lemma_remedy(ar, w.g, cid, oid, h);
    let w2 = resolved(ar, w, cid, oid, h);
    match remedy_for(ar, w.g, cid, oid, h) {
        Remedy::Leave => {},
        Remedy::Merge { keep, lose } => {
            let (p, q) = (w.g.verts[keep.0 as int]->0, w.g.verts[lose.0 as int]->0);
            assert(spec_dist(ar, h.p, p).spec_lt(w.g.snap) && spec_dist(ar, h.p, q).spec_lt(
                w.g.snap,
            ));
            lemma_merged_into(ar, w, keep, lose);
        },
        Remedy::CutOther { at } => {
            law_cut_keeps_shape(ar, w, oid, h.u, at);
        },
        Remedy::CutThis { at } => {
            law_cut_keeps_shape(ar, w, cid, h.t, at);
        },
        Remedy::CutBoth => {
            let w1 = with_vertex(w, h.p);
            let vm = next_vertex(w);
            assert forall|i: int|
                0 <= i < w1.g.curves.len() && (#[trigger] w1.g.curves[i]) is Some implies vertex_live(
                w1.g,
                (w1.g.curves[i]->0).v0,
            ) && vertex_live(w1.g, (w1.g.curves[i]->0).v1) by {
                assert(w.g.curves[i] is Some);
            }
            lemma_split_wf(ar, w1, cid, h.t, vm);
            law_cut_keeps_shape(ar, w1, cid, h.t, vm);
            let w3 = split_at(ar, w1, cid, h.t, vm);
            assert(w3.g.curves[oid.0 as int] == w.g.curves[oid.0 as int]);
            law_cut_keeps_shape(ar, w3, oid, h.u, vm);
            assert(w2.g.verts == w.g.verts.push(Some(h.p)));
            assert(w2.g.verts.last() == Some(h.p));
            assert forall|i: int|
                #![trigger w2.g.curves[i]]
                0 <= i < w.g.curves.len() && w2.g.curves[i] is Some implies w2.g.curves[i]
                == w.g.curves[i] by {
                assert(w2.g.curves[i] == w3.g.curves[i]);
            }
        },
    }
}

proof fn lemma_snap_near(ar: Arith, g: Graph, cid: CurveId)
    requires
        graph_wf(g),
        curve_live(g, cid),
    ensures
        snap_pair(ar, g, cid) matches Some((keep, lose)) ==> near_each_other(ar, g, keep, lose),
{
    let c = curve_of(g, cid);
    let ids = vertex_ids_of(g);
    lemma_nearby_close(ar, g, c.v0, ids, 0);
    lemma_nearby_close(ar, g, c.v1, ids, 0);
}

proof fn lemma_nearby_close(ar: Arith, g: Graph, v: VertexId, ids: Seq<VertexId>, i: int)
    requires
        0 <= i <= ids.len(),
    ensures
        nearby(ar, g, v, ids, i) matches Some(x) ==> near_each_other(ar, g, v, x)
            && near_each_other(ar, g, x, v),
    decreases ids.len() - i,
{
    if i < ids.len() {
        lemma_nearby_close(ar, g, v, ids, i + 1);
    }
}

proof fn lemma_neighbours_vertices(ar: Arith, w: Work, cid: CurveId)
    requires
        work_wf(w),
        step_room(w.g),
        curve_live(w.g, cid),
    ensures
        vertices_kept(ar, w.g, examine_neighbours(ar, w, cid).w.g, cid),
{
    lemma_crossing(ar, w.g, cid);
    lemma_crossing_is_hit(ar, w.g, cid, others_of(w.g, cid), 0);
    match first_crossing(ar, w.g, cid, others_of(w.g, cid), 0) {
        Err(e) => {},
        Ok(Some((oid, h))) => {
            assert(w.g.curves[oid.0 as int] is Some);
            assert(comes_after(cid, oid) == (oid.0 < cid.0));
            assert(hit_of_two(ar, w.g, cid, oid, h));
            assert(met_at(ar, w.g, cid, h.p));
            lemma_resolved_vertices(ar, w, cid, oid, h);
        },
        Ok(None) => {
            lemma_snap_pair(ar, w.g, cid);
            lemma_snap_near(ar, w.g, cid);
            if let Some((keep, lose)) = snap_pair(ar, w.g, cid) {
                lemma_merged_into(ar, w, keep, lose);
            }
        },
    }
}

proof fn lemma_shape_vertices(ar: Arith, w: Work, cid: CurveId)
    requires
        work_wf(w),
        step_room(w.g),
        curve_live(w.g, cid),
    ensures
        vertices_kept(ar, w.g, examine_shape(ar, w, cid).w.g, cid),
{
    lemma_neighbours_vertices(ar, w, cid);
    if let Ok(Some(h)) = self_hit(ar, w.g, cid) {
        let c = curve_of(w.g, cid);
        let p = cubic_of(w.g, c);
        assert(points_of(w.g, cid) == p);
        law_cut_keeps_shape(ar, w, cid, h.u, c.v0);
        law_cut_keeps_shape(ar, w, cid, h.t, c.v1);
        law_loop_cut_keeps_shape(ar, w, cid, h);
        if double_point(ar, w.g, cid) == Some(h) {
            let (t, u) = spec_self_intersection(ar, p)->0;
            law_split_by_construction(ar, p, t);
            assert(met_at(ar, w.g, cid, h.p));
        } else {
            let hits = spec_poly_self_hits(
                ar,
                polyline_of(ar, w.g, cid),
                ar(Op::Mul, w.g.snap, num(QUARTER)),
            )->Ok_0;
            lemma_tangle_is_hit(ar, w.g, cid, hits, 0);
            assert(hit_of_one(ar, w.g, cid, h));
            assert(met_at(ar, w.g, cid, h.p));
        }
        let w2 = cut_loop(ar, w, cid, h);
        assert(w2.g.verts.last() == Some(h.p));
    }
}

proof fn lemma_met_before_dedup(ar: Arith, g1: Graph, g: Graph, cid: CurveId, p: Point)
    requires
        thinner(g1, g),
        curve_live(g, cid),
        met_at(ar, g, cid, p),
    ensures
        met_at(ar, g1, cid, p),
{
    reveal(polyline_of);
    assert(g.curves[cid.0 as int] == g1.curves[cid.0 as int]);
    assert(points_of(g, cid) == points_of(g1, cid));
    assert(polyline_of(ar, g, cid) == polyline_of(ar, g1, cid));
    if exists|o: CurveId, h: Hit|
        o != cid && o.0 < g.curves.len() && g.curves[o.0 as int] is Some && h.p == p
            && #[trigger] hit_of_two(ar, g, cid, o, h) {
        let (o, h) = choose|o: CurveId, h: Hit|
            o != cid && o.0 < g.curves.len() && g.curves[o.0 as int] is Some && h.p == p
                && #[trigger] hit_of_two(ar, g, cid, o, h);
        assert(g.curves[o.0 as int] == g1.curves[o.0 as int]);
        assert(points_of(g, o) == points_of(g1, o));
        assert(polyline_of(ar, g, o) == polyline_of(ar, g1, o));
        assert(hit_of_two(ar, g1, cid, o, h));
    } else if exists|h: Hit| h.p == p && #[trigger] hit_of_one(ar, g, cid, h) {
        let h = choose|h: Hit| h.p == p && #[trigger] hit_of_one(ar, g, cid, h);
        assert(hit_of_one(ar, g1, cid, h));
    }
}

proof fn lemma_vertices_after_dedup(ar: Arith, g1: Graph, g: Graph, g2: Graph, cid: CurveId)
    requires
        thinner(g1, g),
        curve_live(g, cid),
        g.curves.len() <= g2.curves.len(),
        forall|c: CurveId|
            #![trigger g2.curves[c.0 as int]]
            c.0 < g.curves.len() && g2.curves[c.0 as int] is Some ==> g.curves[c.0 as int] is Some,
        g.curves.len() <= u32::MAX,
        vertices_kept(ar, g, g2, cid),
    ensures
        vertices_kept(ar, g1, g2, cid),
{
    assert forall|i: int| #![trigger g2.curves[i]] 0 <= i < g1.curves.len() && g2.curves[i]
        is Some implies g.curves[i] == g1.curves[i] by {
        assert(g2.curves[CurveId(i as u32).0 as int] is Some);
        assert(g.curves[i] is Some);
    }
    if exists|keep: VertexId, lose: VertexId| #[trigger] merged_into(ar, g, g2, keep, lose) {
        let (keep, lose) = choose|keep: VertexId, lose: VertexId| #[trigger]
            merged_into(ar, g, g2, keep, lose);
        assert(near_each_other(ar, g1, keep, lose));
        assert(merged_into(ar, g1, g2, keep, lose));
    } else if g2.verts.len() == g.verts.len() + 1 {
        lemma_met_before_dedup(ar, g1, g, cid, g2.verts.last()->0);
    }
}

/// One look at a curve leaves the vertices as they are, or makes one where the
/// curve meets something, or merges two that are near each other.
pub proof fn law_one_look_keeps_vertices(ar: Arith, w: Work, cid: CurveId)
    requires
        work_wf(w),
        step_room(w.g),
    ensures
        vertices_kept(ar, w.g, examine(ar, w, cid).w.g, cid),
{
    let w2 = examine(ar, w, cid).w;
    if !curve_live(w.g, cid) {
    } else if degenerate(ar, w.g, cid) {
    } else {
        let rivals = rivals_of(w.g, cid);
        lemma_rivals(w.g, cid);
        lemma_rivals_beside(w.g, cid);
        lemma_dedup_wf(ar, w, cid, rivals, 0);
        lemma_dedup_only(ar, w.g, w, cid, rivals, 0);
        let (gone, w1) = dedup(ar, w, cid, rivals, 0);
        if !gone {
            lemma_shape_vertices(ar, w1, cid);
            lemma_shape_only_cut(ar, w1, cid);
            lemma_vertices_after_dedup(ar, w.g, w1.g, w2.g, cid);
        }
    }
}

// ---- the whole run ----

/// The rules come to their result look by look: there is a chain of states, from
/// the arrangement with every curve its own ancestor to what is left in the end,
/// each of which comes from the one before by a look at one curve, which loses no
/// ink, keeps the vertices, and cuts only where that curve meets another or itself.
pub proof fn law_rules_lose_no_ink(ar: Arith, g: Graph, dirty: Seq<CurveId>) -> (chain: Seq<Work>)
    requires
        graph_wf(g),
        run_room(g),
    ensures
        chain.len() > 0,
        chain[0].g == g,
        chain[0].root.len() == g.curves.len(),
        forall|i: int| 0 <= i < g.curves.len() ==> #[trigger] chain[0].root[i] == CurveId(i as u32),
        chain.last().g == integrated(ar, g, dirty).w.g,
        chain.last().root == integrated(ar, g, dirty).w.root,
        forall|i: int|
            #![trigger chain[i]]
            0 <= i < chain.len() - 1 ==> ink_kept(ar, chain[i], chain[i + 1]) && exists|c: CurveId|
                #[trigger] vertices_kept(ar, chain[i].g, chain[i + 1].g, c) && cut_where_met(
                    ar,
                    chain[i].g,
                    chain[i + 1].g,
                    c,
                ),
{
    lemma_run_chain(ar, Work { g, queue: dirty, root: own_roots(g) }, 0)
}

proof fn lemma_run_chain(ar: Arith, w: Work, steps: int) -> (chain: Seq<Work>)
    requires
        work_wf(w),
        0 <= steps < MAX_STEPS,
        w.g.curves.len() + 4 * (MAX_STEPS - steps) <= u32::MAX,
        w.g.verts.len() + (MAX_STEPS - steps) <= u32::MAX,
    ensures
        chain.len() > 0,
        chain[0].g == w.g,
        chain[0].root == w.root,
        chain.last().g == run(ar, w, steps).w.g,
        chain.last().root == run(ar, w, steps).w.root,
        forall|i: int|
            #![trigger chain[i]]
            0 <= i < chain.len() - 1 ==> ink_kept(ar, chain[i], chain[i + 1]) && exists|c: CurveId|
                #[trigger] vertices_kept(ar, chain[i].g, chain[i + 1].g, c) && cut_where_met(
                    ar,
                    chain[i].g,
                    chain[i + 1].g,
                    c,
                ),
    decreases MAX_STEPS - steps,
{
    if w.queue.len() == 0 {
        seq![w]
    } else if steps + 1 >= MAX_STEPS {
        seq![popped(w)]
    } else {
        let cid = w.queue[0];
        let s = examine(ar, popped(w), cid);
        lemma_examine_wf(ar, popped(w), cid);
        law_one_look_keeps_ink(ar, popped(w), cid);
        law_one_look_keeps_vertices(ar, popped(w), cid);
        law_cut_where_met(ar, popped(w), cid);
        assert(vertices_kept(ar, popped(w).g, s.w.g, cid));
        if s.fault is Some {
            let chain = seq![popped(w), s.w];
            assert(vertices_kept(ar, chain[0].g, chain[1].g, cid));
            chain
        } else {
            let rest = lemma_run_chain(ar, s.w, steps + 1);
            let chain = seq![popped(w)] + rest;
            lemma_ink_by_parts(ar, popped(w), s.w, rest[0]);
            assert forall|i: int| #![trigger chain[i]] 0 <= i < chain.len() - 1 implies ink_kept(
                ar,
                chain[i],
                chain[i + 1],
            ) && exists|c: CurveId|
                #[trigger] vertices_kept(ar, chain[i].g, chain[i + 1].g, c) && cut_where_met(
                    ar,
                    chain[i].g,
                    chain[i + 1].g,
                    c,
                ) by {
                if i == 0 {
                    assert(chain[1] == rest[0]);
                    assert(vertices_kept(ar, chain[0].g, chain[1].g, cid));
                } else {
                    assert(chain[i] == rest[i - 1] && chain[i + 1] == rest[i - 1 + 1]);
                }
            }
            assert(chain.last() == rest.last());
            chain
        }
    }
}

/// What is kept does not depend on the queue.
proof fn lemma_ink_by_parts(ar: Arith, w1: Work, w2: Work, w3: Work)
    requires
        ink_kept(ar, w1, w2),
        w3.g == w2.g,
        w3.root == w2.root,
    ensures
        ink_kept(ar, w1, w3),
{
    assert forall|k: int|
        #![trigger w3.g.curves[k]]
        w1.g.curves.len() <= k < w3.g.curves.len() && w3.g.curves[k] is Some implies is_part(
        ar,
        w1,
        w3,
        k,
    ) by {
        assert(is_part(ar, w1, w2, k));
        let c = choose|c: CurveId|
            c.0 < w1.g.curves.len() && (#[trigger] w1.g.curves[c.0 as int]) is Some
                && w2.g.curves[c.0 as int] is None && part_of(
                ar,
                cubic_of(w1.g, w1.g.curves[c.0 as int]->0),
                (w1.g.curves[c.0 as int]->0).tag,
                w2.g.curves[k]->0,
            ) && w2.root[k] == w1.root[c.0 as int];
        assert(w1.g.curves[c.0 as int] is Some);
    }
}

// ---- what is in order stays ----

pub(crate) proof fn lemma_no_duplicates(ar: Arith, w: Work, cid: CurveId, rivals: Seq<CurveId>, i: int)
    requires
        0 <= i <= rivals.len(),
        forall|j: int| i <= j < rivals.len() ==> !coincide(ar, w.g, cid, #[trigger] rivals[j]),
    ensures
        dedup(ar, w, cid, rivals, i) == (false, w),
    decreases rivals.len() - i,
{
    if i < rivals.len() {
        lemma_no_duplicates(ar, w, cid, rivals, i + 1);
    }
}

proof fn lemma_no_crossing(ar: Arith, g: Graph, cid: CurveId, others: Seq<CurveId>, i: int)
    requires
        0 <= i <= others.len(),
        forall|j: int|
            i <= j < others.len() ==> conflict(ar, g, cid, #[trigger] others[j]) == Ok::<
                Option<Hit>,
                Fault,
            >(None),
    ensures
        first_crossing(ar, g, cid, others, i) == Ok::<Option<(CurveId, Hit)>, Fault>(None),
    decreases others.len() - i,
{
    if i < others.len() {
        lemma_no_crossing(ar, g, cid, others, i + 1);
    }
}

proof fn lemma_none_nearby(ar: Arith, g: Graph, v: VertexId, ids: Seq<VertexId>, i: int)
    requires
        0 <= i <= ids.len(),
        forall|j: int|
            i <= j < ids.len() && #[trigger] ids[j] != v ==> !close(ar, g, v, ids[j]),
    ensures
        nearby(ar, g, v, ids, i) is None,
    decreases ids.len() - i,
{
    if i < ids.len() {
        lemma_none_nearby(ar, g, v, ids, i + 1);
    }
}

/// Every live vertex is an end of a live curve.
pub open spec fn none_idle(g: Graph) -> bool {
    forall|v: VertexId| #[trigger]
        vertex_ids_of(g).contains(v) ==> vertex_used(g, v.0 as int)
}

proof fn lemma_planar_rivals(ar: Arith, g: Graph, cid: CurveId)
    requires
        graph_wf(g),
        planar(ar, g),
        curve_live(g, cid),
    ensures
        forall|j: int|
            0 <= j < rivals_of(g, cid).len() ==> !coincide(ar, g, cid, #[trigger] rivals_of(g, cid)[j]),
{
    let rivals = rivals_of(g, cid);
    lemma_rivals(g, cid);
    lemma_rivals_beside(g, cid);
    assert forall|j: int| 0 <= j < rivals.len() implies !coincide(
        ar,
        g,
        cid,
        #[trigger] rivals_of(g, cid)[j],
    ) by {
        assert(curve_live(g, rivals[j]) && rivals[j] != cid);
        assert(settled_beside(ar, g, cid, rivals[j]));
        assert(parallel(g, cid, rivals[j]));
    }
}

proof fn lemma_planar_others(ar: Arith, g: Graph, cid: CurveId)
    requires
        graph_wf(g),
        planar(ar, g),
        curve_live(g, cid),
    ensures
        first_crossing(ar, g, cid, others_of(g, cid), 0) == Ok::<Option<(CurveId, Hit)>, Fault>(
            None,
        ),
{
    let others = others_of(g, cid);
    lemma_pick(g.curves, other_than(cid), g.curves.len() as int);
    assert forall|j: int| 0 <= j < others.len() implies conflict(
        ar,
        g,
        cid,
        #[trigger] others[j],
    ) == Ok::<Option<Hit>, Fault>(None) by {
        assert(curve_live(g, others[j]) && others[j] != cid);
        assert(settled_beside(ar, g, cid, others[j]));
    }
    lemma_no_crossing(ar, g, cid, others, 0);
}

proof fn lemma_planar_nearby(ar: Arith, g: Graph, v: VertexId)
    requires
        graph_wf(g),
        planar(ar, g),
        none_idle(g),
        vertex_live(g, v),
    ensures
        nearby(ar, g, v, vertex_ids_of(g), 0) is None,
{
    let ids = vertex_ids_of(g);
    lemma_vertices(g.verts, g.verts.len() as int);
    assert(ids.contains(v));
    assert(vertex_used(g, v.0 as int));
    assert forall|j: int| 0 <= j < ids.len() && #[trigger] ids[j] != v implies !close(
        ar,
        g,
        v,
        ids[j],
    ) by {
        assert(ids.contains(ids[j]));
        law_planar_vertices_snapped(ar, g, v, ids[j]);
    }
    lemma_none_nearby(ar, g, v, ids, 0);
}

proof fn lemma_planar_settled(ar: Arith, g: Graph, cid: CurveId)
    requires
        graph_wf(g),
        planar(ar, g),
        curve_live(g, cid),
    ensures
        !degenerate(ar, g, cid),
        self_hit(ar, g, cid) == Ok::<Option<Hit>, Fault>(None),
        vertex_live(g, curve_of(g, cid).v0),
        vertex_live(g, curve_of(g, cid).v1),
{
    assert(settled(ar, g, cid));
    assert(g.curves[cid.0 as int] is Some);
}

/// A look at a curve of a planar arrangement without idle vertices changes
/// nothing.
proof fn lemma_look_at_planar(ar: Arith, w: Work, cid: CurveId)
    requires
        graph_wf(w.g),
        planar(ar, w.g),
        none_idle(w.g),
    ensures
        examine(ar, w, cid) == (Step { w, fault: None }),
{
    if curve_live(w.g, cid) {
        lemma_planar_settled(ar, w.g, cid);
        lemma_planar_rivals(ar, w.g, cid);
        lemma_no_duplicates(ar, w, cid, rivals_of(w.g, cid), 0);
        lemma_planar_others(ar, w.g, cid);
        lemma_planar_nearby(ar, w.g, curve_of(w.g, cid).v0);
        lemma_planar_nearby(ar, w.g, curve_of(w.g, cid).v1);
        lemma_quiet_look(ar, w, cid);
    }
}

proof fn lemma_quiet_look(ar: Arith, w: Work, cid: CurveId)
    requires
        curve_live(w.g, cid),
        !degenerate(ar, w.g, cid),
        self_hit(ar, w.g, cid) == Ok::<Option<Hit>, Fault>(None),
        dedup(ar, w, cid, rivals_of(w.g, cid), 0) == (false, w),
        first_crossing(ar, w.g, cid, others_of(w.g, cid), 0) == Ok::<
            Option<(CurveId, Hit)>,
            Fault,
        >(None),
        nearby(ar, w.g, curve_of(w.g, cid).v0, vertex_ids_of(w.g), 0) is None,
        nearby(ar, w.g, curve_of(w.g, cid).v1, vertex_ids_of(w.g), 0) is None,
    ensures
        examine(ar, w, cid) == (Step { w, fault: None }),
{
    assert(snap_pair(ar, w.g, cid) is None);
    assert(examine_neighbours(ar, w, cid) == (Step { w, fault: None }));
    assert(examine_shape(ar, w, cid) == (Step { w, fault: None }));
}

proof fn lemma_run_on_planar(ar: Arith, w: Work, steps: int)
    requires
        graph_wf(w.g),
        planar(ar, w.g),
        none_idle(w.g),
        0 <= steps,
        steps + w.queue.len() < MAX_STEPS,
    ensures
        run(ar, w, steps).w.g == w.g,
        run(ar, w, steps).w.root == w.root,
        run(ar, w, steps).fault is None,
    decreases w.queue.len(),
{
    if w.queue.len() > 0 {
        lemma_look_at_planar(ar, popped(w), w.queue[0]);
        lemma_run_on_planar(ar, popped(w), steps + 1);
    }
}

/// What is in order stays as it is: running the rules on a planar arrangement in
/// which every vertex has a curve, whichever curves are looked at, changes nothing
/// in it, whatever the fills are.
pub proof fn law_planar_stays(
    ar: Arith,
    g: Graph,
    dirty: Seq<CurveId>,
    fills: Seq<Option<Fill>>,
)
    requires
        graph_wf(g),
        planar(ar, g),
        none_idle(g),
        dirty.len() < MAX_STEPS,
    ensures
        replanarized(ar, g, dirty, fills) matches Ok(m) ==> m.g == g,
{
    lemma_run_on_planar(ar, Work { g, queue: dirty, root: own_roots(g) }, 0);
    lemma_nothing_to_sweep(g);
}

proof fn lemma_nothing_to_sweep(g: Graph)
    requires
        graph_wf(g),
        none_idle(g),
    ensures
        swept(g) == g,
{
    lemma_vertices(g.verts, g.verts.len() as int);
    assert forall|v: int| 0 <= v < g.verts.len() implies swept(g).verts[v] == g.verts[v] by {
        if g.verts[v] is Some {
            assert(vertex_ids_of(g).contains(VertexId(v as u32)));
        }
    }
    assert(swept(g) =~= g);
}

} // verus!
