//! What becomes of each curve: every piece keeps the tag of the curve that it
//! descends from, and ids are never reused.

use vstd::prelude::*;

use crate::calc::Arith;
use crate::geom::Hit;
use crate::graph::{
    curve_live, curve_of, graph_wf, lemma_pick, vertex_live, vpos_of, Curve, CurveId, Graph,
    VertexId,
};
use crate::integrate::run_room;
use crate::pipeline::{
    all_live, coincide, cut_loop, dedup, degenerate, descendants, descends_from, enqueue, examine,
    examine_neighbours, first_crossing, integrated, lemma_crossing, lemma_dedup_wf,
    lemma_examine_wf, lemma_remedy, lemma_rivals, lemma_snap_pair, lemma_split_wf, merged,
    next_vertex, others_of, own_roots, popped, redirect, remedy_for, resolved, rivals_of, run,
    self_hit, snap_pair, split_at, step_room, untangled, with_vertex, within_snap, without_curve,
    work_wf, Remedy, Work, MAX_STEPS,
};
use crate::point::Point;
use crate::scalar::Scalar;

verus! {

/// Same control points and the same tag; the vertices may differ.
pub open spec fn same_body(a: Curve, b: Curve) -> bool {
    a.c0 == b.c0 && a.c1 == b.c1 && a.tag == b.tag
}

/// `g2` has come out of `g1` by steps that never reuse an id: slots are only
/// added, what is dead stays dead, a curve that keeps its id keeps its control
/// points and tag, and a vertex that keeps its id keeps its place.
pub open spec fn succeeds(g1: Graph, g2: Graph) -> bool {
    &&& g1.snap == g2.snap
    &&& g1.tol == g2.tol
    &&& g1.curves.len() <= g2.curves.len()
    &&& g1.verts.len() <= g2.verts.len()
    &&& forall|i: CurveId|
        #![trigger curve_live(g2, i)]
        curve_live(g2, i) && i.0 < g1.curves.len() ==> curve_live(g1, i) && same_body(
            curve_of(g1, i),
            curve_of(g2, i),
        )
    &&& forall|v: VertexId|
        #![trigger vertex_live(g2, v)]
        vertex_live(g2, v) && v.0 < g1.verts.len() ==> vertex_live(g1, v) && vpos_of(g1, v)
            == vpos_of(g2, v)
}

/// Every live curve descends from a live curve of `g0` with its tag.
pub open spec fn lineage(g0: Graph, w: Work) -> bool {
    &&& succeeds(g0, w.g)
    &&& forall|i: CurveId|
        #![trigger curve_live(w.g, i)]
        curve_live(w.g, i) ==> {
            let r = w.root[i.0 as int];
            curve_live(g0, r) && curve_of(g0, r).tag == curve_of(w.g, i).tag
        }
    &&& forall|i: int| 0 <= i < g0.curves.len() ==> #[trigger] w.root[i] == CurveId(i as u32)
}

proof fn lemma_split_lineage(
    ar: Arith,
    g0: Graph,
    w: Work,
    id: CurveId,
    t: Scalar,
    vm: VertexId,
)
    requires
        work_wf(w),
        curve_live(w.g, id),
        lineage(g0, w),
    ensures
        lineage(g0, split_at(ar, w, id, t, vm)),
{
    let w2 = split_at(ar, w, id, t, vm);
    assert forall|i: CurveId| #[trigger] curve_live(w2.g, i) implies {
        let r = w2.root[i.0 as int];
        curve_live(g0, r) && curve_of(g0, r).tag == curve_of(w2.g, i).tag
    } by {
        if i.0 < w.g.curves.len() {
            assert(curve_live(w.g, i));
        }
    }
    assert forall|i: CurveId|
        #[trigger] curve_live(w2.g, i) && i.0 < g0.curves.len() implies curve_live(g0, i)
        && same_body(curve_of(g0, i), curve_of(w2.g, i)) by {
        assert(curve_live(w.g, i));
    }
    assert forall|v: VertexId|
        #[trigger] vertex_live(w2.g, v) && v.0 < g0.verts.len() implies vertex_live(g0, v)
        && vpos_of(g0, v) == vpos_of(w2.g, v) by {
        assert(vertex_live(w.g, v));
    }
}

proof fn lemma_loop_lineage(ar: Arith, g0: Graph, w: Work, id: CurveId, h: Hit)
    requires
        work_wf(w),
        curve_live(w.g, id),
        lineage(g0, w),
    ensures
        lineage(g0, cut_loop(ar, w, id, h)),
{
    let w2 = cut_loop(ar, w, id, h);
    assert forall|i: CurveId| #[trigger] curve_live(w2.g, i) implies {
        let r = w2.root[i.0 as int];
        curve_live(g0, r) && curve_of(g0, r).tag == curve_of(w2.g, i).tag
    } by {
        if i.0 < w.g.curves.len() {
            assert(curve_live(w.g, i));
        }
    }
    assert forall|i: CurveId|
        #[trigger] curve_live(w2.g, i) && i.0 < g0.curves.len() implies curve_live(g0, i)
        && same_body(curve_of(g0, i), curve_of(w2.g, i)) by {
        assert(curve_live(w.g, i));
    }
    assert forall|v: VertexId|
        #[trigger] vertex_live(w2.g, v) && v.0 < g0.verts.len() implies vertex_live(g0, v)
        && vpos_of(g0, v) == vpos_of(w2.g, v) by {
        assert(vertex_live(w.g, v));
    }
}

proof fn lemma_vertex_lineage(g0: Graph, w: Work, p: Point)
    requires
        lineage(g0, w),
    ensures
        lineage(g0, with_vertex(w, p)),
{
    let w2 = with_vertex(w, p);
    assert forall|i: CurveId| #[trigger] curve_live(w2.g, i) implies curve_live(w.g, i) by {}
    assert forall|v: VertexId|
        #[trigger] vertex_live(w2.g, v) && v.0 < g0.verts.len() implies vertex_live(g0, v)
        && vpos_of(g0, v) == vpos_of(w2.g, v) by {
        assert(vertex_live(w.g, v));
    }
}

proof fn lemma_drop_lineage(g0: Graph, w: Work, id: CurveId)
    requires
        curve_live(w.g, id),
        lineage(g0, w),
    ensures
        lineage(g0, without_curve(w, id)),
{
    let w2 = without_curve(w, id);
    assert forall|i: CurveId| #[trigger] curve_live(w2.g, i) implies curve_live(w.g, i) && curve_of(
        w2.g,
        i,
    ) == curve_of(w.g, i) by {}
    assert forall|v: VertexId| #[trigger] vertex_live(w2.g, v) implies vertex_live(w.g, v) by {}
}

proof fn lemma_merged_lineage(g0: Graph, w: Work, keep: VertexId, lose: VertexId)
    requires
        vertex_live(w.g, lose),
        lineage(g0, w),
    ensures
        lineage(g0, merged(w, keep, lose)),
{
    let w2 = merged(w, keep, lose);
    assert forall|i: CurveId| #[trigger] curve_live(w2.g, i) implies curve_live(w.g, i) && same_body(
        curve_of(w.g, i),
        curve_of(w2.g, i),
    ) by {
        assert(w.g.curves[i.0 as int] is Some);
        assert(w2.g.curves[i.0 as int] == Some(redirect(curve_of(w.g, i), keep, lose)));
    }
    assert forall|v: VertexId| #[trigger] vertex_live(w2.g, v) implies vertex_live(w.g, v) && vpos_of(
        w2.g,
        v,
    ) == vpos_of(w.g, v) by {}
}

proof fn lemma_dedup_lineage(
    ar: Arith,
    g0: Graph,
    w: Work,
    cid: CurveId,
    rivals: Seq<CurveId>,
    i: int,
)
    requires
        work_wf(w),
        curve_live(w.g, cid),
        0 <= i <= rivals.len(),
        all_live(w.g, rivals, i),
        forall|j: int| i <= j < rivals.len() ==> #[trigger] rivals[j] != cid,
        lineage(g0, w),
    ensures
        lineage(g0, dedup(ar, w, cid, rivals, i).1),
    decreases rivals.len() - i,
{
    if i < rivals.len() {
        if coincide(ar, w.g, cid, rivals[i]) {
            if cid.0 > rivals[i].0 {
                lemma_drop_lineage(g0, w, cid);
            } else {
                let w2 = enqueue(without_curve(w, rivals[i]), seq![cid]);
                lemma_drop_lineage(g0, w, rivals[i]);
                assert(lineage(g0, w2));
                lemma_dedup_lineage(ar, g0, w2, cid, rivals, i + 1);
            }
        } else {
            lemma_dedup_lineage(ar, g0, w, cid, rivals, i + 1);
        }
    }
}

proof fn lemma_resolved_lineage(
    ar: Arith,
    g0: Graph,
    w: Work,
    cid: CurveId,
    oid: CurveId,
    h: Hit,
)
    requires
        work_wf(w),
        curve_live(w.g, cid),
        curve_live(w.g, oid),
        cid != oid,
        step_room(w.g),
        lineage(g0, w),
    ensures
        lineage(g0, resolved(ar, w, cid, oid, h)),
{
    lemma_remedy(ar, w.g, cid, oid, h);
    match remedy_for(ar, w.g, cid, oid, h) {
        Remedy::Leave => {},
        Remedy::Merge { keep, lose } => {
            lemma_merged_lineage(g0, w, keep, lose);
        },
        Remedy::CutOther { at } => {
            lemma_split_lineage(ar, g0, w, oid, h.u, at);
        },
        Remedy::CutThis { at } => {
            lemma_split_lineage(ar, g0, w, cid, h.t, at);
        },
        Remedy::CutBoth => {
            let w1 = with_vertex(w, h.p);
            let vm = next_vertex(w);
            lemma_vertex_lineage(g0, w, h.p);
            assert forall|i: int|
                0 <= i < w1.g.curves.len() && (#[trigger] w1.g.curves[i]) is Some implies vertex_live(
                w1.g,
                (w1.g.curves[i]->0).v0,
            ) && vertex_live(w1.g, (w1.g.curves[i]->0).v1) by {
                assert(w.g.curves[i] is Some);
            }
            lemma_split_wf(ar, w1, cid, h.t, vm);
            lemma_split_lineage(ar, g0, w1, cid, h.t, vm);
            lemma_split_lineage(ar, g0, split_at(ar, w1, cid, h.t, vm), oid, h.u, vm);
        },
    }
}

proof fn lemma_neighbours_lineage(ar: Arith, g0: Graph, w: Work, cid: CurveId)
    requires
        work_wf(w),
        curve_live(w.g, cid),
        step_room(w.g),
        lineage(g0, w),
    ensures
        lineage(g0, examine_neighbours(ar, w, cid).w),
{
    lemma_crossing(ar, w.g, cid);
    match first_crossing(ar, w.g, cid, others_of(w.g, cid), 0) {
        Err(e) => {},
        Ok(Some((oid, h))) => {
            lemma_resolved_lineage(ar, g0, w, cid, oid, h);
        },
        Ok(None) => {
            lemma_snap_pair(ar, w.g, cid);
            if let Some((keep, lose)) = snap_pair(ar, w.g, cid) {
                lemma_merged_lineage(g0, w, keep, lose);
            }
        },
    }
}

proof fn lemma_examine_lineage(ar: Arith, g0: Graph, w: Work, cid: CurveId)
    requires
        work_wf(w),
        step_room(w.g),
        lineage(g0, w),
    ensures
        lineage(g0, examine(ar, w, cid).w),
{
    if !curve_live(w.g, cid) {
    } else if degenerate(ar, w.g, cid) {
        lemma_drop_lineage(g0, w, cid);
    } else {
        let rivals = rivals_of(w.g, cid);
        lemma_rivals(w.g, cid);
        lemma_dedup_wf(ar, w, cid, rivals, 0);
        lemma_dedup_lineage(ar, g0, w, cid, rivals, 0);
        let (gone, w1) = dedup(ar, w, cid, rivals, 0);
        if !gone {
            match self_hit(ar, w1.g, cid) {
                Err(e) => {},
                Ok(None) => {
                    lemma_neighbours_lineage(ar, g0, w1, cid);
                },
                Ok(Some(h)) => {
                    let c = curve_of(w1.g, cid);
                    if within_snap(ar, w1.g, h.p, c.v0) {
                        lemma_split_lineage(ar, g0, w1, cid, h.u, c.v0);
                    } else if within_snap(ar, w1.g, h.p, c.v1) {
                        lemma_split_lineage(ar, g0, w1, cid, h.t, c.v1);
                    } else {
                        lemma_loop_lineage(ar, g0, w1, cid, h);
                    }
                    if untangled(ar, w1, cid, h) is None {
                        lemma_neighbours_lineage(ar, g0, w1, cid);
                    }
                },
            }
        }
    }
}

proof fn lemma_run_lineage(ar: Arith, g0: Graph, w: Work, steps: int)
    requires
        work_wf(w),
        0 <= steps < MAX_STEPS,
        w.g.curves.len() + 4 * (MAX_STEPS - steps) <= u32::MAX,
        w.g.verts.len() + (MAX_STEPS - steps) <= u32::MAX,
        lineage(g0, w),
    ensures
        work_wf(run(ar, w, steps).w),
        lineage(g0, run(ar, w, steps).w),
        run(ar, w, steps).w.g.curves.len() <= w.g.curves.len() + 4 * (MAX_STEPS - steps),
        run(ar, w, steps).w.g.verts.len() <= w.g.verts.len() + (MAX_STEPS - steps),
    decreases MAX_STEPS - steps,
{
    if w.queue.len() == 0 {
    } else if steps + 1 < MAX_STEPS {
        let s = examine(ar, popped(w), w.queue[0]);
        lemma_examine_wf(ar, popped(w), w.queue[0]);
        assert(lineage(g0, popped(w)));
        lemma_examine_lineage(ar, g0, popped(w), w.queue[0]);
        if s.fault is None {
            lemma_run_lineage(ar, g0, s.w, steps + 1);
        }
    } else {
        assert(lineage(g0, popped(w)));
    }
}

/// Tags ride through every split, and ids are never reused: after the pipeline
/// every live curve has the tag of the curve of `g` that it descends from, and
/// what keeps its id keeps its shape.
pub proof fn law_integrated_lineage(ar: Arith, g: Graph, dirty: Seq<CurveId>)
    requires
        graph_wf(g),
        run_room(g),
    ensures
        work_wf(integrated(ar, g, dirty).w),
        lineage(g, integrated(ar, g, dirty).w),
        integrated(ar, g, dirty).w.g.curves.len() <= g.curves.len() + 4 * MAX_STEPS,
        integrated(ar, g, dirty).w.g.verts.len() <= g.verts.len() + MAX_STEPS,
{
    let w = Work { g, queue: dirty, root: own_roots(g) };
    lemma_run_lineage(ar, g, w, 0);
}

/// The pieces of a curve are live, in ascending order, and carry its tag; and
/// every live curve is a piece of exactly one curve of `g`.
pub proof fn law_pieces(ar: Arith, g: Graph, dirty: Seq<CurveId>, t: CurveId)
    requires
        graph_wf(g),
        run_room(g),
    ensures
        ({
            let w = integrated(ar, g, dirty).w;
            let pieces = descendants(w, t);
            &&& forall|i: int|
                #![trigger pieces[i]]
                0 <= i < pieces.len() ==> curve_live(w.g, pieces[i]) && curve_live(g, t)
                    && curve_of(w.g, pieces[i]).tag == curve_of(g, t).tag
            &&& forall|i: int, j: int|
                0 <= i < j < pieces.len() ==> (#[trigger] pieces[i]).0 < (#[trigger] pieces[j]).0
            &&& forall|c: CurveId|
                #![trigger curve_live(w.g, c)]
                curve_live(w.g, c) ==> (pieces.contains(c) <==> w.root[c.0 as int] == t)
        }),
{
    let w = integrated(ar, g, dirty).w;
    law_integrated_lineage(ar, g, dirty);
    lemma_pick(w.g.curves, descends_from(w.root, t), w.g.curves.len() as int);
    let pieces = descendants(w, t);
    assert forall|i: int| #![trigger pieces[i]] 0 <= i < pieces.len() implies curve_live(
        w.g,
        pieces[i],
    ) && curve_live(g, t) && curve_of(w.g, pieces[i]).tag == curve_of(g, t).tag by {
        assert(curve_live(w.g, pieces[i]));
    }
}

} // verus!
