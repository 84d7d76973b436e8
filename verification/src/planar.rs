//! What the rules pipeline restores: the arrangement is planar, vertices are
//! snapped, and every piece of a curve keeps its tag.

use vstd::prelude::*;

use crate::calc::Arith;
use crate::error::Fault;
use crate::geom::{
    all_gathered, is_gathered, is_meeting, law_hits_are_meetings, law_meetings_make_hits,
    law_meetings_symmetric, law_self_meetings_are_hits, lemma_meetings, spec_crossing, spec_dist,
    spec_frac, spec_lerp, spec_off, spec_pair_hits, spec_poly_hits, spec_poly_self_hits,
    spec_seg_dist, spec_seg_isect, spec_segs, spec_self_pair_hit, spec_swap, spec_touch, Hit,
};
use crate::graph::{
    curve_live, curve_of, ends_at, eps_of, graph_wf, law_polyline_keeps_endpoints, lemma_pick, pick,
    points_of, polyline_of, touching, vertex_live, vertex_used, vpos_of, CurveId, Graph, VertexId,
};
use crate::integrate::run_room;
use crate::pipeline::{
    all_live, close, coincide, comes_after, conflict, cut_loop, dedup, degenerate, double_point,
    enqueue, examine, examine_neighbours, first_conflict, first_crossing, first_tangle, harmless,
    integrated, lemma_crossing, lemma_dedup_wf, lemma_examine_wf, lemma_others, lemma_remedy,
    lemma_rivals, lemma_self_hit, lemma_snap_pair, lemma_split_wf, merged, next_curve, next_vertex,
    others_of, own_roots, popped, redirect, remedy_for, resolved, rival_of, rivals_of, run,
    self_hit, snap_pair, spec_stub_side, split_at, step_room, untangled, with_vertex, within_snap,
    without_curve, work_wf, Remedy, Work, MAX_STEPS,
};
use crate::point::Point;
use crate::scalar::Scalar;

verus! {

// ---- the invariant ----

/// The curve does not meet itself, but for touches at its own endpoints too
/// close to the end of the curve to cut there.
pub open spec fn simple(ar: Arith, g: Graph, c: CurveId) -> bool {
    self_hit(ar, g, c) == Ok::<Option<Hit>, Fault>(None)
}

/// Two vertices are one, or not within snap of each other, whichever the
/// distance is measured from.
pub open spec fn snapped(ar: Arith, g: Graph, a: VertexId, b: VertexId) -> bool {
    a == b || !close(ar, g, a, b)
}

/// Two curves between the same two vertices.
pub open spec fn parallel(g: Graph, a: CurveId, b: CurveId) -> bool {
    let c = curve_of(g, a);
    let d = curve_of(g, b);
    (c.v0 == d.v0 && c.v1 == d.v1) || (c.v0 == d.v1 && c.v1 == d.v0)
}

/// The curve is in order by itself.
pub open spec fn settled(ar: Arith, g: Graph, c: CurveId) -> bool {
    &&& !degenerate(ar, g, c)
    &&& simple(ar, g, c)
    &&& snapped(ar, g, curve_of(g, c).v0, curve_of(g, c).v1)
}

/// The two curves meet nowhere but where they leave a vertex that they share.
pub open spec fn uncrossed(ar: Arith, g: Graph, a: CurveId, b: CurveId) -> bool {
    &&& conflict(ar, g, a, b) == Ok::<Option<Hit>, Fault>(None)
    &&& conflict(ar, g, b, a) == Ok::<Option<Hit>, Fault>(None)
}

/// No two of the endpoints of the two curves are within snap.
pub open spec fn ends_snapped(ar: Arith, g: Graph, a: CurveId, b: CurveId) -> bool {
    let c = curve_of(g, a);
    let d = curve_of(g, b);
    &&& snapped(ar, g, c.v0, d.v0)
    &&& snapped(ar, g, c.v0, d.v1)
    &&& snapped(ar, g, c.v1, d.v0)
    &&& snapped(ar, g, c.v1, d.v1)
}

/// The two curves are in order beside each other.
pub open spec fn settled_beside(ar: Arith, g: Graph, a: CurveId, b: CurveId) -> bool {
    &&& uncrossed(ar, g, a, b)
    &&& parallel(g, a, b) ==> !coincide(ar, g, a, b)
    &&& ends_snapped(ar, g, a, b)
}

/// Every live curve outside `but` is in order, by itself and beside every
/// other.
pub open spec fn planar_but(ar: Arith, g: Graph, but: Seq<CurveId>) -> bool {
    &&& forall|a: CurveId|
        #![trigger curve_live(g, a)]
        curve_live(g, a) && !but.contains(a) ==> settled(ar, g, a)
    &&& forall|a: CurveId, b: CurveId|
        #![trigger curve_live(g, a), curve_live(g, b)]
        curve_live(g, a) && curve_live(g, b) && a != b && !but.contains(a) && !but.contains(b)
            ==> settled_beside(ar, g, a, b)
}

/// The arrangement is planar: no live curve meets itself, but for touches at its
/// own endpoints, or another, but where the two leave a vertex that they share;
/// no two coincide, and no two of their vertices are within snap.
pub open spec fn planar(ar: Arith, g: Graph) -> bool {
    planar_but(ar, g, Seq::empty())
}

// ---- what one step leaves alone ----

/// `id` has the same shape in both arrangements.
pub open spec fn same_curve(g1: Graph, g2: Graph, id: CurveId) -> bool {
    &&& curve_live(g1, id)
    &&& curve_live(g2, id)
    &&& curve_of(g1, id) == curve_of(g2, id)
    &&& vpos_of(g1, curve_of(g1, id).v0) == vpos_of(g2, curve_of(g1, id).v0)
    &&& vpos_of(g1, curve_of(g1, id).v1) == vpos_of(g2, curve_of(g1, id).v1)
}

/// From `w1` to `w2` every live curve has stayed as it was or is queued, and
/// no queued curve has been forgotten.
pub open spec fn carried(w1: Work, w2: Work) -> bool {
    &&& w1.g.snap == w2.g.snap
    &&& w1.g.tol == w2.g.tol
    &&& w1.g.curves.len() <= w2.g.curves.len()
    &&& w1.g.verts.len() <= w2.g.verts.len()
    &&& forall|q: CurveId| #[trigger] w1.queue.contains(q) ==> w2.queue.contains(q)
    &&& forall|v: VertexId|
        #![trigger vertex_live(w2.g, v)]
        vertex_live(w2.g, v) && v.0 < w1.g.verts.len() ==> vertex_live(w1.g, v) && vpos_of(w2.g, v)
            == vpos_of(w1.g, v)
    &&& forall|i: CurveId|
        #![trigger curve_live(w2.g, i)]
        curve_live(w2.g, i) ==> w2.queue.contains(i) || (curve_live(w1.g, i) && curve_of(w2.g, i)
            == curve_of(w1.g, i))
}

proof fn lemma_carried_curve(w1: Work, w2: Work, i: CurveId)
    requires
        work_wf(w1),
        work_wf(w2),
        carried(w1, w2),
        curve_live(w2.g, i),
        !w2.queue.contains(i),
    ensures
        same_curve(w1.g, w2.g, i),
{
    assert(w1.g.curves[i.0 as int] is Some);
    assert(w2.g.curves[i.0 as int] is Some);
    let c = curve_of(w2.g, i);
    assert(vertex_live(w2.g, c.v0));
    assert(vertex_live(w2.g, c.v1));
}

/// The curve `a` of `g1` has the shape of the curve `b` of `g2`.
pub open spec fn alike(g1: Graph, a: CurveId, g2: Graph, b: CurveId) -> bool {
    let c = curve_of(g1, a);
    let d = curve_of(g2, b);
    &&& g1.snap == g2.snap
    &&& g1.tol == g2.tol
    &&& points_of(g1, a) == points_of(g2, b)
    &&& (c.v0 == c.v1) == (d.v0 == d.v1)
}

/// The curves `a` and `b` of `g1` share the vertices that `c` and `d` of `g2`
/// share, and are in the same order.
pub open spec fn alike_joints(
    g1: Graph,
    a: CurveId,
    b: CurveId,
    g2: Graph,
    c: CurveId,
    d: CurveId,
) -> bool {
    let (ca, cb) = (curve_of(g1, a), curve_of(g1, b));
    let (cc, cd) = (curve_of(g2, c), curve_of(g2, d));
    &&& comes_after(a, b) == comes_after(c, d)
    &&& comes_after(b, a) == comes_after(d, c)
    &&& (ca.v0 == cb.v0) == (cc.v0 == cd.v0)
    &&& (ca.v0 == cb.v1) == (cc.v0 == cd.v1)
    &&& (ca.v1 == cb.v0) == (cc.v1 == cd.v0)
    &&& (ca.v1 == cb.v1) == (cc.v1 == cd.v1)
}

proof fn lemma_alike_tangles(
    ar: Arith,
    g1: Graph,
    a: CurveId,
    g2: Graph,
    b: CurveId,
    hits: Seq<Hit>,
    j: int,
)
    requires
        alike(g1, a, g2, b),
        0 <= j <= hits.len(),
    ensures
        first_tangle(ar, g1, a, hits, j) == first_tangle(ar, g2, b, hits, j),
    decreases hits.len() - j,
{
    if j < hits.len() {
        lemma_alike_tangles(ar, g1, a, g2, b, hits, j + 1);
    }
}

/// Whether a curve is in order depends on nothing but its own shape.
pub proof fn lemma_alike_settled(ar: Arith, g1: Graph, a: CurveId, g2: Graph, b: CurveId)
    requires
        alike(g1, a, g2, b),
    ensures
        settled(ar, g1, a) == settled(ar, g2, b),
{
    reveal(polyline_of);
    if let Ok(hits) = spec_poly_self_hits(ar, polyline_of(ar, g1, a), eps_of(ar, g1)) {
        lemma_alike_tangles(ar, g1, a, g2, b, hits, 0);
    }
}

proof fn lemma_alike_hits(
    ar: Arith,
    g1: Graph,
    a: CurveId,
    b: CurveId,
    g2: Graph,
    c: CurveId,
    d: CurveId,
    hits: Seq<Hit>,
    j: int,
)
    requires
        alike(g1, a, g2, c),
        alike(g1, b, g2, d),
        alike_joints(g1, a, b, g2, c, d),
        0 <= j <= hits.len(),
    ensures
        first_conflict(ar, g1, a, b, hits, j) == first_conflict(ar, g2, c, d, hits, j),
    decreases hits.len() - j,
{
    reveal(polyline_of);
    if j < hits.len() {
        lemma_alike_hits(ar, g1, a, b, g2, c, d, hits, j + 1);
    }
}

proof fn lemma_alike_conflict(
    ar: Arith,
    g1: Graph,
    a: CurveId,
    b: CurveId,
    g2: Graph,
    c: CurveId,
    d: CurveId,
)
    requires
        alike(g1, a, g2, c),
        alike(g1, b, g2, d),
        alike_joints(g1, a, b, g2, c, d),
    ensures
        conflict(ar, g1, a, b) == conflict(ar, g2, c, d),
{
    reveal(polyline_of);
    if let Ok(hits) = spec_poly_hits(
        ar,
        polyline_of(ar, g1, a),
        polyline_of(ar, g1, b),
        eps_of(ar, g1),
        comes_after(a, b),
    ) {
        lemma_alike_hits(ar, g1, a, b, g2, c, d, hits, 0);
    }
}

/// Whether two curves are in order beside each other depends on nothing but
/// their shapes and the vertices that they share.
pub proof fn lemma_alike_beside(
    ar: Arith,
    g1: Graph,
    a: CurveId,
    b: CurveId,
    g2: Graph,
    c: CurveId,
    d: CurveId,
)
    requires
        alike(g1, a, g2, c),
        alike(g1, b, g2, d),
        alike_joints(g1, a, b, g2, c, d),
    ensures
        settled_beside(ar, g1, a, b) == settled_beside(ar, g2, c, d),
{
    lemma_alike_conflict(ar, g1, a, b, g2, c, d);
    lemma_alike_conflict(ar, g1, b, a, g2, d, c);
    reveal(polyline_of);
    reveal(coincide);
}

// ---- each part carries the rest along ----

proof fn lemma_queued(q: Seq<CurveId>, more: Seq<CurveId>)
    ensures
        forall|x: CurveId| #[trigger] q.contains(x) ==> (q + more).contains(x),
        forall|x: CurveId| #[trigger] more.contains(x) ==> (q + more).contains(x),
{
    assert forall|x: CurveId| #[trigger] q.contains(x) implies (q + more).contains(x) by {
        let i = choose|i: int| 0 <= i < q.len() && q[i] == x;
        assert((q + more)[i] == x);
    }
    assert forall|x: CurveId| #[trigger] more.contains(x) implies (q + more).contains(x) by {
        let i = choose|i: int| 0 <= i < more.len() && more[i] == x;
        assert((q + more)[q.len() + i] == x);
    }
}

/// One curve cut in two, with both pieces queued.
proof fn lemma_split_carried(
    ar: Arith,
    w: Work,
    id: CurveId,
    t: Scalar,
    vm: VertexId,
    more: Seq<CurveId>,
)
    requires
        work_wf(w),
        curve_live(w.g, id),
        w.g.curves.len() + 2 <= u32::MAX,
        more.contains(next_curve(w, 0)),
        more.contains(next_curve(w, 1)),
    ensures
        carried(w, enqueue(split_at(ar, w, id, t, vm), more)),
        !curve_live(split_at(ar, w, id, t, vm).g, id),
{
    lemma_queued(w.queue, more);
    let w2 = enqueue(split_at(ar, w, id, t, vm), more);
    assert forall|i: CurveId| #[trigger] curve_live(w2.g, i) implies w2.queue.contains(i) || (
    curve_live(w.g, i) && curve_of(w2.g, i) == curve_of(w.g, i)) by {
        if i.0 == w.g.curves.len() {
            assert(i == next_curve(w, 0));
        } else if i.0 == w.g.curves.len() + 1 {
            assert(i == next_curve(w, 1));
        }
    }
}

proof fn lemma_loop_carried(ar: Arith, w: Work, id: CurveId, h: Hit, more: Seq<CurveId>)
    requires
        work_wf(w),
        curve_live(w.g, id),
        step_room(w.g),
        more.contains(next_curve(w, 0)),
        more.contains(next_curve(w, 1)),
        more.contains(next_curve(w, 2)),
    ensures
        carried(w, enqueue(cut_loop(ar, w, id, h), more)),
        !curve_live(cut_loop(ar, w, id, h).g, id),
{
    lemma_queued(w.queue, more);
    let w2 = enqueue(cut_loop(ar, w, id, h), more);
    assert forall|i: CurveId| #[trigger] curve_live(w2.g, i) implies w2.queue.contains(i) || (
    curve_live(w.g, i) && curve_of(w2.g, i) == curve_of(w.g, i)) by {
        if i.0 == w.g.curves.len() {
            assert(i == next_curve(w, 0));
        } else if i.0 == w.g.curves.len() + 1 {
            assert(i == next_curve(w, 1));
        } else if i.0 == w.g.curves.len() + 2 {
            assert(i == next_curve(w, 2));
        }
    }
}

proof fn lemma_merged_carried(w: Work, keep: VertexId, lose: VertexId)
    requires
        work_wf(w),
        vertex_live(w.g, keep),
        vertex_live(w.g, lose),
        keep != lose,
    ensures
        carried(w, merged(w, keep, lose)),
        forall|c: CurveId|
            #![trigger curve_live(w.g, c)]
            curve_live(w.g, c) && (curve_of(w.g, c).v0 == keep || curve_of(w.g, c).v1 == keep
                || curve_of(w.g, c).v0 == lose || curve_of(w.g, c).v1 == lose) ==> merged(
                w,
                keep,
                lose,
            ).queue.contains(c),
{
    let w2 = merged(w, keep, lose);
    let n = w.g.curves.len() as int;
    let at_lose = pick(w.g.curves, touching(lose), n);
    let at_keep = pick(w2.g.curves, touching(keep), n);
    lemma_pick(w.g.curves, touching(lose), n);
    lemma_pick(w2.g.curves, touching(keep), n);
    lemma_queued(w.queue, at_lose);
    lemma_queued(w.queue + at_lose, at_keep);
    assert forall|c: CurveId| #[trigger] curve_live(w.g, c) && (curve_of(w.g, c).v0 == keep
        || curve_of(w.g, c).v1 == keep || curve_of(w.g, c).v0 == lose || curve_of(w.g, c).v1
        == lose) implies w2.queue.contains(c) by {
        if curve_of(w.g, c).v0 == lose || curve_of(w.g, c).v1 == lose {
            assert(at_lose.contains(c));
        } else {
            assert(w2.g.curves[c.0 as int] == Some(redirect(curve_of(w.g, c), keep, lose)));
            assert(at_keep.contains(c));
        }
    }
    assert forall|i: CurveId| #[trigger] curve_live(w2.g, i) implies w2.queue.contains(i) || (
    curve_live(w.g, i) && curve_of(w2.g, i) == curve_of(w.g, i)) by {
        assert(curve_live(w.g, i));
        assert(w2.g.curves[i.0 as int] == Some(redirect(curve_of(w.g, i), keep, lose)));
    }
}

proof fn lemma_carried_trans(w1: Work, w2: Work, w3: Work)
    requires
        carried(w1, w2),
        carried(w2, w3),
    ensures
        carried(w1, w3),
{
    assert forall|i: CurveId| #[trigger] curve_live(w3.g, i) implies w3.queue.contains(i) || (
    curve_live(w1.g, i) && curve_of(w3.g, i) == curve_of(w1.g, i)) by {
        if !w3.queue.contains(i) {
            assert(curve_live(w2.g, i));
            if w2.queue.contains(i) {
                assert(w3.queue.contains(i));
            }
        }
    }
    assert forall|v: VertexId|
        #[trigger] vertex_live(w3.g, v) && v.0 < w1.g.verts.len() implies vertex_live(w1.g, v)
        && vpos_of(w3.g, v) == vpos_of(w1.g, v) by {
        assert(vertex_live(w2.g, v));
    }
}

proof fn lemma_enqueue_carried(w: Work, more: Seq<CurveId>)
    ensures
        carried(w, enqueue(w, more)),
        forall|x: CurveId| #[trigger] more.contains(x) ==> enqueue(w, more).queue.contains(x),
{
    lemma_queued(w.queue, more);
}

/// A curve that is neither queued nor gone after a resolved conflict does not
/// exist: `cid` is one or the other.
proof fn lemma_resolved_carried(ar: Arith, w: Work, cid: CurveId, oid: CurveId, h: Hit)
    requires
        work_wf(w),
        curve_live(w.g, cid),
        curve_live(w.g, oid),
        cid != oid,
        step_room(w.g),
        remedy_for(ar, w.g, cid, oid, h) != Remedy::Leave,
    ensures
        carried(w, resolved(ar, w, cid, oid, h)),
        curve_live(resolved(ar, w, cid, oid, h).g, cid) ==> resolved(
            ar,
            w,
            cid,
            oid,
            h,
        ).queue.contains(cid),
{
    lemma_remedy(ar, w.g, cid, oid, h);
    let (n0, n1, n2, n3) = (next_curve(w, 0), next_curve(w, 1), next_curve(w, 2), next_curve(w, 3));
    match remedy_for(ar, w.g, cid, oid, h) {
        Remedy::Leave => {},
        Remedy::Merge { keep, lose } => {
            lemma_merged_carried(w, keep, lose);
            let w1 = merged(w, keep, lose);
            assert(seq![cid][0] == cid);
            assert(seq![cid].contains(cid));
            lemma_enqueue_carried(w1, seq![cid]);
            lemma_carried_trans(w, w1, enqueue(w1, seq![cid]));
        },
        Remedy::CutOther { at } => {
            let more = seq![n0, n1, cid];
            assert(more[0] == n0 && more[1] == n1 && more[2] == cid);
            assert(more.contains(n0) && more.contains(n1) && more.contains(cid));
            lemma_split_carried(ar, w, oid, h.u, at, more);
            lemma_queued(w.queue, more);
        },
        Remedy::CutThis { at } => {
            let more = seq![n0, n1, oid];
            assert(more[0] == n0 && more[1] == n1);
            assert(more.contains(n0) && more.contains(n1));
            lemma_split_carried(ar, w, cid, h.t, at, more);
        },
        Remedy::CutBoth => {
            let w1 = with_vertex(w, h.p);
            let vm = next_vertex(w);
            assert forall|i: int|
                0 <= i < w1.g.curves.len() && (#[trigger] w1.g.curves[i]) is Some implies vertex_live(
                w1.g,
                (w1.g.curves[i]->0).v0,
            ) && vertex_live(w1.g, (w1.g.curves[i]->0).v1) by {
                assert(w.g.curves[i] is Some);
            }
            let w2 = split_at(ar, w1, cid, h.t, vm);
            lemma_split_wf(ar, w1, cid, h.t, vm);
            let w3 = split_at(ar, w2, oid, h.u, vm);
            let more = seq![n0, n1, n2, n3];
            assert(more[0] == n0 && more[1] == n1 && more[2] == n2 && more[3] == n3);
            assert(more.contains(n0) && more.contains(n1) && more.contains(n2) && more.contains(
                n3,
            ));
            lemma_queued(w.queue, more);
            let w4 = enqueue(w3, more);
            assert forall|i: CurveId| #[trigger] curve_live(w4.g, i) implies w4.queue.contains(i)
                || (curve_live(w.g, i) && curve_of(w4.g, i) == curve_of(w.g, i)) by {
                if i.0 >= w.g.curves.len() {
                    assert(i == n0 || i == n1 || i == n2 || i == n3);
                }
            }
        },
    }
}

proof fn lemma_untangled_carried(ar: Arith, w: Work, cid: CurveId, h: Hit)
    requires
        work_wf(w),
        curve_live(w.g, cid),
        step_room(w.g),
    ensures
        untangled(ar, w, cid, h) matches Some(w2) ==> carried(w, w2) && !curve_live(w2.g, cid),
{
    let c = curve_of(w.g, cid);
    let (n0, n1, n2) = (next_curve(w, 0), next_curve(w, 1), next_curve(w, 2));
    let near0 = within_snap(ar, w.g, h.p, c.v0);
    if near0 || within_snap(ar, w.g, h.p, c.v1) {
        let vend = if near0 { c.v0 } else { c.v1 };
        let t = if near0 { h.u } else { h.t };
        let more = seq![n0, n1];
        assert(more[0] == n0 && more[1] == n1);
        lemma_split_carried(ar, w, cid, t, vend, more);
    } else {
        let more = seq![n0, n1, n2];
        assert(more[0] == n0 && more[1] == n1 && more[2] == n2);
        lemma_loop_carried(ar, w, cid, h, more);
    }
}

proof fn lemma_drop_carried(w: Work, gone: CurveId, queued: CurveId)
    requires
        curve_live(w.g, gone),
    ensures
        carried(w, enqueue(without_curve(w, gone), seq![queued])),
        enqueue(without_curve(w, gone), seq![queued]).queue.contains(queued),
{
    assert(seq![queued][0] == queued);
    assert(seq![queued].contains(queued));
    lemma_queued(w.queue, seq![queued]);
}

/// Comparing `cid` with its rivals leaves it dead, or queued, or coinciding
/// with none of them.
proof fn lemma_dedup_carried(ar: Arith, w: Work, cid: CurveId, rivals: Seq<CurveId>, i: int)
    requires
        work_wf(w),
        curve_live(w.g, cid),
        0 <= i <= rivals.len(),
        all_live(w.g, rivals, i),
        forall|j: int| i <= j < rivals.len() ==> #[trigger] rivals[j] != cid,
    ensures
        ({
            let (gone, w2) = dedup(ar, w, cid, rivals, i);
            &&& carried(w, w2)
            &&& gone ==> !curve_live(w2.g, cid)
            &&& !gone ==> w2.queue.contains(cid) || (w2 == w && forall|j: int|
                i <= j < rivals.len() ==> !coincide(ar, w.g, cid, #[trigger] rivals[j]))
        }),
    decreases rivals.len() - i,
{
    if i < rivals.len() {
        if coincide(ar, w.g, cid, rivals[i]) {
            if cid.0 > rivals[i].0 {
                assert(carried(w, without_curve(w, cid)));
            } else {
                let w2 = enqueue(without_curve(w, rivals[i]), seq![cid]);
                assert(work_wf(w2) && curve_live(w2.g, cid) && all_live(w2.g, rivals, i + 1));
                lemma_drop_carried(w, rivals[i], cid);
                lemma_dedup_carried(ar, w2, cid, rivals, i + 1);
                let w3 = dedup(ar, w2, cid, rivals, i + 1).1;
                lemma_carried_trans(w, w2, w3);
            }
        } else {
            lemma_dedup_carried(ar, w, cid, rivals, i + 1);
        }
    }
}

proof fn lemma_no_crossing(ar: Arith, g: Graph, cid: CurveId, others: Seq<CurveId>, i: int)
    requires
        0 <= i <= others.len(),
        first_crossing(ar, g, cid, others, i) == Ok::<Option<(CurveId, Hit)>, Fault>(None),
    ensures
        forall|j: int|
            i <= j < others.len() ==> conflict(ar, g, cid, #[trigger] others[j]) == Ok::<
                Option<Hit>,
                Fault,
            >(None),
    decreases others.len() - i,
{
    if i < others.len() {
        lemma_no_crossing(ar, g, cid, others, i + 1);
    }
}

/// Looking at crossings and snapping leaves the curve dead, queued, or in
/// order beside every other.
proof fn lemma_neighbours_carried(ar: Arith, w: Work, cid: CurveId)
    requires
        work_wf(w),
        curve_live(w.g, cid),
        step_room(w.g),
        examine_neighbours(ar, w, cid).fault is None,
    ensures
        ({
            let w2 = examine_neighbours(ar, w, cid).w;
            &&& carried(w, w2)
            &&& curve_live(w2.g, cid) && !w2.queue.contains(cid) ==> {
                    &&& w2 == w
                    &&& forall|o: CurveId|
                        #![trigger curve_live(w.g, o)]
                        curve_live(w.g, o) && o != cid ==> conflict(ar, w.g, cid, o) == Ok::<
                            Option<Hit>,
                            Fault,
                        >(None)
                    &&& snap_pair(ar, w.g, cid) is None
                }
        }),
{
    lemma_crossing(ar, w.g, cid);
    match first_crossing(ar, w.g, cid, others_of(w.g, cid), 0) {
        Err(e) => {},
        Ok(Some((oid, h))) => {
            lemma_resolved_carried(ar, w, cid, oid, h);
        },
        Ok(None) => {
            lemma_snap_pair(ar, w.g, cid);
            match snap_pair(ar, w.g, cid) {
                Some((keep, lose)) => {
                    lemma_merged_carried(w, keep, lose);
                },
                None => {
                    let others = others_of(w.g, cid);
                    lemma_others(w.g, cid);
                    lemma_no_crossing(ar, w.g, cid, others, 0);
                    assert forall|o: CurveId| #[trigger]
                        curve_live(w.g, o) && o != cid implies conflict(ar, w.g, cid, o) == Ok::<
                        Option<Hit>,
                        Fault,
                    >(None) by {
                        assert(others.contains(o));
                        let j = choose|j: int| 0 <= j < others.len() && others[j] == o;
                        assert(others[j] == o);
                    }
                },
            }
        },
    }
}

proof fn lemma_snapped_beside(ar: Arith, g: Graph, a: CurveId, b: CurveId)
    requires
        graph_wf(g),
        curve_live(g, a),
        curve_live(g, b),
        snap_pair(ar, g, a) is None,
    ensures
        ends_snapped(ar, g, a, b),
{
    lemma_snap_pair(ar, g, a);
    assert(g.curves[a.0 as int] is Some);
    assert(g.curves[b.0 as int] is Some);
    assert(vertex_live(g, curve_of(g, b).v0));
    assert(vertex_live(g, curve_of(g, b).v1));
}

/// Looking at a curve keeps the rest in order, and leaves the curve itself
/// dead, queued, or in order.
proof fn lemma_examine_carried(ar: Arith, w: Work, cid: CurveId)
    requires
        work_wf(w),
        step_room(w.g),
        examine(ar, w, cid).fault is None,
    ensures
        ({
            let w2 = examine(ar, w, cid).w;
            &&& carried(w, w2)
            &&& curve_live(w2.g, cid) && !w2.queue.contains(cid) ==> {
                    &&& w2 == w
                    &&& settled(ar, w.g, cid)
                    &&& forall|o: CurveId|
                        #![trigger curve_live(w.g, o)]
                        curve_live(w.g, o) && o != cid ==> settled_beside(ar, w.g, cid, o)
                            && settled_beside(ar, w.g, o, cid)
                }
        }),
{
    if curve_live(w.g, cid) && !degenerate(ar, w.g, cid) {
        let rivals = rivals_of(w.g, cid);
        lemma_rivals(w.g, cid);
        lemma_dedup_wf(ar, w, cid, rivals, 0);
        lemma_dedup_carried(ar, w, cid, rivals, 0);
        let (gone, w1) = dedup(ar, w, cid, rivals, 0);
        if !gone {
            match self_hit(ar, w1.g, cid) {
                Err(e) => {},
                Ok(None) => {
                    lemma_neighbours_carried(ar, w1, cid);
                    lemma_carried_trans(w, w1, examine(ar, w, cid).w);
                    if !w1.queue.contains(cid) {
                        lemma_in_order(ar, w, cid);
                    }
                },
                Ok(Some(h)) => {
                    lemma_untangled_carried(ar, w1, cid, h);
                    match untangled(ar, w1, cid, h) {
                        Some(w2) => {
                            lemma_carried_trans(w, w1, w2);
                        },
                        None => {
                            lemma_neighbours_carried(ar, w1, cid);
                            lemma_carried_trans(w, w1, examine(ar, w, cid).w);
                            if !w1.queue.contains(cid) {
                                lemma_in_order(ar, w, cid);
                            }
                        },
                    }
                },
            }
        }
    }
}

/// A meeting is left alone from the one curve when it is from the other.
proof fn lemma_leave_symmetric(ar: Arith, g: Graph, a: CurveId, b: CurveId, h: Hit)
    requires
        remedy_for(ar, g, a, b, h) == Remedy::Leave,
    ensures
        remedy_for(ar, g, b, a, spec_swap(h)) == Remedy::Leave,
{
}

proof fn lemma_all_left(ar: Arith, g: Graph, a: CurveId, b: CurveId, hits: Seq<Hit>, j: int)
    requires
        0 <= j <= hits.len(),
    ensures
        first_conflict(ar, g, a, b, hits, j) is None <==> forall|i: int|
            j <= i < hits.len() ==> remedy_for(ar, g, a, b, #[trigger] hits[i]) == Remedy::Leave,
    decreases hits.len() - j,
{
    if j < hits.len() {
        lemma_all_left(ar, g, a, b, hits, j + 1);
    }
}

/// Every meeting of two segments of the curves' polylines is left alone.
spec fn all_left_alone(ar: Arith, g: Graph, a: CurveId, b: CurveId) -> bool {
    let pa = polyline_of(ar, g, a);
    let pb = polyline_of(ar, g, b);
    let eps = eps_of(ar, g);
    let turned = comes_after(a, b);
    forall|i: int, j: int|
        #![trigger spec_pair_hits(ar, pa, pb, eps, turned, i, j)]
        0 <= i < pa.len() - 1 && 0 <= j < pb.len() - 1 ==> match spec_pair_hits(
            ar,
            pa,
            pb,
            eps,
            turned,
            i,
            j,
        ) {
            Err(_) => false,
            Ok(more) => forall|h: Hit| #[trigger]
                more.contains(h) ==> remedy_for(ar, g, a, b, h) == Remedy::Leave,
        }
}

/// Two curves that have no conflict seen from the one have none seen from the
/// other.
pub proof fn lemma_conflict_symmetric(ar: Arith, g: Graph, a: CurveId, b: CurveId)
    requires
        a != b,
        conflict(ar, g, a, b) == Ok::<Option<Hit>, Fault>(None),
    ensures
        conflict(ar, g, b, a) == Ok::<Option<Hit>, Fault>(None),
{
    let pa = polyline_of(ar, g, a);
    let pb = polyline_of(ar, g, b);
    let eps = eps_of(ar, g);
    let turned = comes_after(a, b);
    law_polyline_keeps_endpoints(ar, g, a);
    law_polyline_keeps_endpoints(ar, g, b);
    let hits = spec_poly_hits(ar, pa, pb, eps, turned)->Ok_0;
    lemma_all_left(ar, g, a, b, hits, 0);
    law_hits_are_meetings(ar, pa, pb, eps, turned);
    let back = comes_after(b, a);
    assert(back == !turned);
    assert forall|i: int, j: int|
        #![trigger spec_pair_hits(ar, pb, pa, eps, back, i, j)]
        0 <= i < pb.len() - 1 && 0 <= j < pa.len() - 1 implies match spec_pair_hits(
        ar,
        pb,
        pa,
        eps,
        back,
        i,
        j,
    ) {
        Err(_) => false,
        Ok(more) => forall|h: Hit| #[trigger]
            more.contains(h) ==> remedy_for(ar, g, b, a, h) == Remedy::Leave,
    } by {
        law_meetings_symmetric(ar, pa, pb, eps, turned, j, i);
        law_meetings_symmetric(ar, pb, pa, eps, back, i, j);
        assert(all_gathered(spec_pair_hits(ar, pa, pb, eps, turned, j, i), hits));
        if let Ok(more) = spec_pair_hits(ar, pb, pa, eps, back, i, j) {
            assert forall|h: Hit| #[trigger] more.contains(h) implies remedy_for(ar, g, b, a, h)
                == Remedy::Leave by {
                assert(hits.contains(spec_swap(h)));
                let m = choose|m: int| 0 <= m < hits.len() && hits[m] == spec_swap(h);
                assert(remedy_for(ar, g, a, b, hits[m]) == Remedy::Leave);
                lemma_leave_symmetric(ar, g, a, b, spec_swap(h));
                assert(spec_swap(spec_swap(h)) == h);
            }
        }
    }
    assert(all_left_alone(ar, g, b, a));
    lemma_left_hits(ar, g, b, a);
}

/// Where every meeting of two curves is left alone there is no conflict: its
/// parameter is a number, so the meetings can be put in order.
proof fn lemma_left_hits(ar: Arith, g: Graph, a: CurveId, b: CurveId)
    requires
        all_left_alone(ar, g, a, b),
    ensures
        conflict(ar, g, a, b) == Ok::<Option<Hit>, Fault>(None),
{
    let pa = polyline_of(ar, g, a);
    let pb = polyline_of(ar, g, b);
    let eps = eps_of(ar, g);
    let turned = comes_after(a, b);
    law_polyline_keeps_endpoints(ar, g, a);
    law_polyline_keeps_endpoints(ar, g, b);
    law_meetings_make_hits(ar, pa, pb, eps, turned);
    law_hits_are_meetings(ar, pa, pb, eps, turned);
    assert forall|h: Hit| #[trigger] is_meeting(ar, pa, pb, eps, turned, h) implies remedy_for(
        ar,
        g,
        a,
        b,
        h,
    ) == Remedy::Leave && !h.t.spec_is_nan() by {
        let (i, j) = choose|i: int, j: int|
            0 <= i < spec_segs(pa) && 0 <= j < spec_segs(pb) && (#[trigger] spec_pair_hits(
                ar,
                pa,
                pb,
                eps,
                turned,
                i,
                j,
            ) matches Ok(more) && more.contains(h));
        let more = spec_pair_hits(ar, pa, pb, eps, turned, i, j)->Ok_0;
        assert(more.contains(h));
    }
    assert forall|i: int, j: int|
        #![trigger spec_pair_hits(ar, pa, pb, eps, turned, i, j)]
        0 <= i < pa.len() - 1 && 0 <= j < pb.len() - 1 implies spec_pair_hits(
        ar,
        pa,
        pb,
        eps,
        turned,
        i,
        j,
    ) is Ok by {}
    assert(spec_poly_hits(ar, pa, pb, eps, turned) is Ok);
    let hits = spec_poly_hits(ar, pa, pb, eps, turned)->Ok_0;
    assert forall|i: int| 0 <= i < hits.len() implies remedy_for(ar, g, a, b, #[trigger] hits[i])
        == Remedy::Leave by {
        assert(hits.contains(hits[i]));
    }
    lemma_all_left(ar, g, a, b, hits, 0);
}

/// A curve in which every rule finds nothing to do is in order.
proof fn lemma_in_order(ar: Arith, w: Work, cid: CurveId)
    requires
        work_wf(w),
        curve_live(w.g, cid),
        !degenerate(ar, w.g, cid),
        dedup(ar, w, cid, rivals_of(w.g, cid), 0) == (false, w),
        forall|j: int|
            0 <= j < rivals_of(w.g, cid).len() ==> !coincide(
                ar,
                w.g,
                cid,
                #[trigger] rivals_of(w.g, cid)[j],
            ),
        self_hit(ar, w.g, cid) is Ok,
        self_hit(ar, w.g, cid) matches Ok(Some(h)) ==> untangled(ar, w, cid, h) is None,
    ensures
        ({
            &&& forall|o: CurveId|
                #![trigger curve_live(w.g, o)]
                curve_live(w.g, o) && o != cid ==> conflict(ar, w.g, cid, o) == Ok::<
                    Option<Hit>,
                    Fault,
                >(None)
            &&& snap_pair(ar, w.g, cid) is None
        }) ==> {
            &&& settled(ar, w.g, cid)
            &&& forall|o: CurveId|
                #![trigger curve_live(w.g, o)]
                curve_live(w.g, o) && o != cid ==> settled_beside(ar, w.g, cid, o)
                    && settled_beside(ar, w.g, o, cid)
        },
{
    let g = w.g;
    if (forall|o: CurveId|
        #![trigger curve_live(g, o)]
        curve_live(g, o) && o != cid ==> conflict(ar, g, cid, o) == Ok::<Option<Hit>, Fault>(None))
        && snap_pair(ar, g, cid) is None {
        lemma_snapped_beside(ar, g, cid, cid);
        lemma_self_hit(ar, w, cid);
        let rivals = rivals_of(g, cid);
        let c = curve_of(g, cid);
        lemma_pick(
            g.curves,
            rival_of(cid, c.v0, c.v1),
            g.curves.len() as int,
        );
        assert forall|o: CurveId| #[trigger] curve_live(g, o) && o != cid implies settled_beside(
            ar,
            g,
            cid,
            o,
        ) && settled_beside(ar, g, o, cid) by {
            lemma_snapped_beside(ar, g, cid, o);
            lemma_conflict_symmetric(ar, g, cid, o);
            if parallel(g, cid, o) {
                assert(rivals.contains(o));
                let j = choose|j: int| 0 <= j < rivals.len() && rivals[j] == o;
                assert(!coincide(ar, g, cid, rivals[j]));
                reveal(coincide);
            }
        }
    }
}

/// One step keeps every curve that is not queued in order.
proof fn lemma_step_planar(ar: Arith, w: Work)
    requires
        work_wf(w),
        step_room(w.g),
        w.queue.len() > 0,
        planar_but(ar, w.g, w.queue),
        examine(ar, popped(w), w.queue[0]).fault is None,
    ensures
        ({
            let w2 = examine(ar, popped(w), w.queue[0]).w;
            planar_but(ar, w2.g, w2.queue)
        }),
{
    let cid = w.queue[0];
    let w1 = popped(w);
    lemma_examine_wf(ar, w1, cid);
    lemma_examine_carried(ar, w1, cid);
    let w2 = examine(ar, w1, cid).w;
    assert forall|q: CurveId| #[trigger] w.queue.contains(q) && q != cid implies w1.queue.contains(
        q,
    ) by {
        let i = choose|i: int| 0 <= i < w.queue.len() && w.queue[i] == q;
        assert(w1.queue[i - 1] == q);
    }
    assert forall|a: CurveId| #[trigger]
        curve_live(w2.g, a) && !w2.queue.contains(a) implies settled(ar, w2.g, a) by {
        lemma_carried_curve(w1, w2, a);
        lemma_alike_settled(ar, w1.g, a, w2.g, a);
        if a != cid {
            assert(!w1.queue.contains(a));
            assert(curve_live(w.g, a) && !w.queue.contains(a));
        }
    }
    assert forall|a: CurveId, b: CurveId|
        #![trigger curve_live(w2.g, a), curve_live(w2.g, b)]
        curve_live(w2.g, a) && curve_live(w2.g, b) && a != b && !w2.queue.contains(a)
            && !w2.queue.contains(b) implies settled_beside(ar, w2.g, a, b) by {
        lemma_carried_curve(w1, w2, a);
        lemma_carried_curve(w1, w2, b);
        lemma_alike_beside(ar, w1.g, a, b, w2.g, a, b);
        assert(curve_live(w1.g, a) && curve_live(w1.g, b));
        if a != cid && b != cid {
            assert(!w1.queue.contains(a) && !w1.queue.contains(b));
            assert(curve_live(w.g, a) && curve_live(w.g, b));
        }
    }
}

proof fn lemma_run_planar(ar: Arith, w: Work, steps: int)
    requires
        work_wf(w),
        0 <= steps < MAX_STEPS,
        w.g.curves.len() + 4 * (MAX_STEPS - steps) <= u32::MAX,
        w.g.verts.len() + (MAX_STEPS - steps) <= u32::MAX,
        planar_but(ar, w.g, w.queue),
    ensures
        run(ar, w, steps).fault is None ==> planar(ar, run(ar, w, steps).w.g),
    decreases MAX_STEPS - steps,
{
    if w.queue.len() == 0 {
        assert(w.queue =~= Seq::empty());
    } else if steps + 1 < MAX_STEPS {
        let s = examine(ar, popped(w), w.queue[0]);
        if s.fault is None {
            lemma_examine_wf(ar, popped(w), w.queue[0]);
            lemma_step_planar(ar, w);
            lemma_run_planar(ar, s.w, steps + 1);
        }
    }
}

/// Curves never cross: where all curves outside `dirty` are in order, the
/// pipeline over `dirty` leaves a planar arrangement.
pub proof fn law_integrated_planar(ar: Arith, g: Graph, dirty: Seq<CurveId>)
    requires
        graph_wf(g),
        run_room(g),
        planar_but(ar, g, dirty),
    ensures
        integrated(ar, g, dirty).fault is None ==> planar(ar, integrated(ar, g, dirty).w.g),
{
    lemma_run_planar(ar, Work { g, queue: dirty, root: own_roots(g) }, 0);
}

// ---- snapping by itself ----

/// No two endpoints of live curves outside `but` are within snap.
pub open spec fn snapped_but(ar: Arith, g: Graph, but: Seq<CurveId>) -> bool {
    forall|a: CurveId, b: CurveId|
        #![trigger curve_live(g, a), curve_live(g, b)]
        curve_live(g, a) && curve_live(g, b) && !but.contains(a) && !but.contains(b)
            ==> ends_snapped(ar, g, a, b)
}

proof fn lemma_step_snapped(ar: Arith, w: Work)
    requires
        work_wf(w),
        step_room(w.g),
        w.queue.len() > 0,
        snapped_but(ar, w.g, w.queue),
        examine(ar, popped(w), w.queue[0]).fault is None,
    ensures
        ({
            let w2 = examine(ar, popped(w), w.queue[0]).w;
            snapped_but(ar, w2.g, w2.queue)
        }),
{
    let cid = w.queue[0];
    let w1 = popped(w);
    lemma_examine_wf(ar, w1, cid);
    lemma_examine_carried(ar, w1, cid);
    let w2 = examine(ar, w1, cid).w;
    assert forall|q: CurveId| #[trigger] w.queue.contains(q) && q != cid implies w1.queue.contains(
        q,
    ) by {
        let i = choose|i: int| 0 <= i < w.queue.len() && w.queue[i] == q;
        assert(w1.queue[i - 1] == q);
    }
    assert forall|a: CurveId, b: CurveId|
        #![trigger curve_live(w2.g, a), curve_live(w2.g, b)]
        curve_live(w2.g, a) && curve_live(w2.g, b) && !w2.queue.contains(a) && !w2.queue.contains(
            b,
        ) implies ends_snapped(ar, w2.g, a, b) by {
        lemma_carried_curve(w1, w2, a);
        lemma_carried_curve(w1, w2, b);
        assert(curve_live(w1.g, a) && curve_live(w1.g, b));
        assert(ends_snapped(ar, w1.g, a, b) == ends_snapped(ar, w2.g, a, b));
        if a != cid && b != cid {
            assert(!w1.queue.contains(a) && !w1.queue.contains(b));
            assert(curve_live(w.g, a) && curve_live(w.g, b));
            assert(ends_snapped(ar, w.g, a, b));
        }
    }
}

proof fn lemma_run_snapped(ar: Arith, w: Work, steps: int)
    requires
        work_wf(w),
        0 <= steps < MAX_STEPS,
        w.g.curves.len() + 4 * (MAX_STEPS - steps) <= u32::MAX,
        w.g.verts.len() + (MAX_STEPS - steps) <= u32::MAX,
        snapped_but(ar, w.g, w.queue),
    ensures
        run(ar, w, steps).fault is None ==> work_wf(run(ar, w, steps).w) && snapped_but(
            ar,
            run(ar, w, steps).w.g,
            Seq::empty(),
        ),
    decreases MAX_STEPS - steps,
{
    if w.queue.len() == 0 {
        assert(w.queue =~= Seq::empty());
    } else if steps + 1 < MAX_STEPS {
        let s = examine(ar, popped(w), w.queue[0]);
        if s.fault is None {
            lemma_examine_wf(ar, popped(w), w.queue[0]);
            lemma_step_snapped(ar, w);
            lemma_run_snapped(ar, s.w, steps + 1);
        }
    }
}

/// Nearby vertices are one: where no two endpoints of curves outside `dirty`
/// are within snap, whatever else is amiss, the pipeline over `dirty` leaves no
/// two endpoints of curves within snap.
pub proof fn law_integrated_snapped(
    ar: Arith,
    g: Graph,
    dirty: Seq<CurveId>,
    u: VertexId,
    v: VertexId,
)
    requires
        graph_wf(g),
        run_room(g),
        snapped_but(ar, g, dirty),
    ensures
        ({
            let s = integrated(ar, g, dirty);
            let (p, q) = (vpos_of(s.w.g, u), vpos_of(s.w.g, v));
            s.fault is None && vertex_used(s.w.g, u.0 as int) && vertex_used(s.w.g, v.0 as int)
                ==> {
                &&& vertex_live(s.w.g, u)
                &&& vertex_live(s.w.g, v)
                &&& u != v ==> !spec_dist(ar, p, q).spec_lt(s.w.g.snap) && !spec_dist(
                    ar,
                    q,
                    p,
                ).spec_lt(s.w.g.snap)
            }
        }),
{
    let w = Work { g, queue: dirty, root: own_roots(g) };
    lemma_run_snapped(ar, w, 0);
    let s = integrated(ar, g, dirty);
    if s.fault is None && vertex_used(s.w.g, u.0 as int) && vertex_used(s.w.g, v.0 as int) {
        lemma_used_snapped(ar, s.w.g, u, v);
    }
}

proof fn lemma_used_snapped(ar: Arith, g: Graph, u: VertexId, v: VertexId)
    requires
        graph_wf(g),
        snapped_but(ar, g, Seq::empty()),
        vertex_used(g, u.0 as int),
        vertex_used(g, v.0 as int),
    ensures
        snapped(ar, g, u, v),
        vertex_live(g, u),
        vertex_live(g, v),
{
    let i = choose|i: int|
        0 <= i < g.curves.len() && (#[trigger] g.curves[i]) is Some && ((g.curves[i]->0).v0.0
            == u.0 || (g.curves[i]->0).v1.0 == u.0);
    let j = choose|j: int|
        0 <= j < g.curves.len() && (#[trigger] g.curves[j]) is Some && ((g.curves[j]->0).v0.0
            == v.0 || (g.curves[j]->0).v1.0 == v.0);
    let a = CurveId(i as u32);
    let b = CurveId(j as u32);
    assert(curve_live(g, a) && curve_live(g, b));
    assert(ends_snapped(ar, g, a, b));
}

// ---- what planar means ----

/// The two curves end at one vertex, and `p` lies within snap of it.
pub open spec fn at_shared_vertex(ar: Arith, g: Graph, a: CurveId, b: CurveId, p: Point) -> bool {
    exists|v: VertexId|
        ends_at(g, a, v) && ends_at(g, b, v) && within_snap(ar, g, p, v) && #[trigger] vertex_live(
            g,
            v,
        )
}

/// The parameter `t` lies on the stub by which the curve leaves or enters `v`.
pub open spec fn on_stub_of(ar: Arith, g: Graph, c: CurveId, t: Scalar, v: VertexId) -> bool {
    let side = spec_stub_side(polyline_of(ar, g, c), t);
    (side.0 && curve_of(g, c).v0 == v) || (side.1 && curve_of(g, c).v1 == v)
}

/// Both curves have a stub at one vertex, and meet there, on both stubs and
/// within snap of the vertex.
pub open spec fn at_shared_stubs(ar: Arith, g: Graph, a: CurveId, b: CurveId, h: Hit) -> bool {
    exists|v: VertexId|
        on_stub_of(ar, g, a, h.t, v) && on_stub_of(ar, g, b, h.u, v) && within_snap(
            ar,
            g,
            h.p,
            v,
        ) && #[trigger] vertex_live(g, v)
}

/// Wherever a segment of the polyline of `a` crosses a segment of that of `b`, at
/// a place that is not off the other, and wherever an end of the one passes within
/// eps of the other, is on the stubs of both at a vertex that they share, and
/// within snap of it.
pub open spec fn meets_at_vertices(ar: Arith, g: Graph, a: CurveId, b: CurveId) -> bool {
    let pa = polyline_of(ar, g, a);
    let pb = polyline_of(ar, g, b);
    forall|i: int, j: int|
        #![trigger spec_pair_hits(ar, pa, pb, eps_of(ar, g), comes_after(a, b), i, j)]
        0 <= i < pa.len() - 1 && 0 <= j < pb.len() - 1 ==> match spec_pair_hits(
            ar,
            pa,
            pb,
            eps_of(ar, g),
            comes_after(a, b),
            i,
            j,
        ) {
            Err(_) => false,
            Ok(hits) => forall|h: Hit| #[trigger]
                hits.contains(h) ==> at_shared_stubs(ar, g, a, b, h),
        }
}

proof fn lemma_leave(ar: Arith, g: Graph, a: CurveId, b: CurveId, hits: Seq<Hit>, j: int)
    requires
        graph_wf(g),
        curve_live(g, a),
        curve_live(g, b),
        0 <= j <= hits.len(),
        first_conflict(ar, g, a, b, hits, j) is None,
    ensures
        forall|i: int|
            j <= i < hits.len() ==> at_shared_stubs(ar, g, a, b, #[trigger] hits[i]),
    decreases hits.len() - j,
{
    if j < hits.len() {
        lemma_leave(ar, g, a, b, hits, j + 1);
        let h = hits[j];
        assert(g.curves[a.0 as int] is Some);
        assert(g.curves[b.0 as int] is Some);
        let c = curve_of(g, a);
        let v = if spec_stub_side(polyline_of(ar, g, a), h.t).0 && within_snap(
            ar,
            g,
            h.p,
            c.v0,
        ) {
            c.v0
        } else {
            c.v1
        };
        assert(on_stub_of(ar, g, a, h.t, v) && on_stub_of(ar, g, b, h.u, v) && within_snap(
            ar,
            g,
            h.p,
            v,
        ) && vertex_live(g, v));
    }
}

proof fn lemma_no_conflict(ar: Arith, g: Graph, a: CurveId, b: CurveId)
    requires
        graph_wf(g),
        curve_live(g, a),
        curve_live(g, b),
        conflict(ar, g, a, b) == Ok::<Option<Hit>, Fault>(None),
    ensures
        meets_at_vertices(ar, g, a, b),
{
    let pa = polyline_of(ar, g, a);
    let pb = polyline_of(ar, g, b);
    let eps = eps_of(ar, g);
    let turned = comes_after(a, b);
    let hits = spec_poly_hits(ar, pa, pb, eps, turned)->Ok_0;
    lemma_leave(ar, g, a, b, hits, 0);
    law_polyline_keeps_endpoints(ar, g, a);
    law_polyline_keeps_endpoints(ar, g, b);
    law_hits_are_meetings(ar, pa, pb, eps, turned);
    assert forall|i: int, j: int|
        #![trigger spec_pair_hits(ar, pa, pb, eps, turned, i, j)]
        0 <= i < pa.len() - 1 && 0 <= j < pb.len() - 1 implies match spec_pair_hits(
        ar,
        pa,
        pb,
        eps,
        turned,
        i,
        j,
    ) {
        Err(_) => false,
        Ok(more) => forall|h: Hit| #[trigger]
            more.contains(h) ==> at_shared_stubs(ar, g, a, b, h),
    } by {
        assert(all_gathered(spec_pair_hits(ar, pa, pb, eps, turned, i, j), hits));
        if let Ok(more) = spec_pair_hits(ar, pa, pb, eps, turned, i, j) {
            assert forall|h: Hit| #[trigger] more.contains(h) implies at_shared_stubs(
                ar,
                g,
                a,
                b,
                h,
            ) by {
                assert(hits.contains(h));
                let m = choose|m: int| 0 <= m < hits.len() && hits[m] == h;
                assert(at_shared_stubs(ar, g, a, b, hits[m]));
            }
        }
    }
}

/// Two live curves of a planar arrangement cross, or pass within eps of each
/// other, nowhere but on their stubs within snap of vertices that they share.
pub proof fn law_planar_curves_meet_at_vertices(ar: Arith, g: Graph, a: CurveId, b: CurveId)
    requires
        graph_wf(g),
        planar(ar, g),
        curve_live(g, a),
        curve_live(g, b),
        a != b,
    ensures
        meets_at_vertices(ar, g, a, b),
{
    assert(settled_beside(ar, g, a, b));
    lemma_no_conflict(ar, g, a, b);
}

/// Polylines within eps are welded: where a point of the polyline of one live
/// curve of a planar arrangement passes within eps of a segment of that of
/// another, is on the stubs of both at a vertex that they share, and within snap
/// of it.
pub proof fn law_planar_ends_are_welded(
    ar: Arith,
    g: Graph,
    a: CurveId,
    b: CurveId,
    i: int,
    j: int,
)
    requires
        graph_wf(g),
        planar(ar, g),
        curve_live(g, a),
        curve_live(g, b),
        a != b,
        0 <= i < polyline_of(ar, g, a).len(),
        0 <= j < polyline_of(ar, g, b).len() - 1,
        ({
            let pb = polyline_of(ar, g, b);
            spec_seg_dist(ar, polyline_of(ar, g, a)[i].1, pb[j].1, pb[j + 1].1).spec_lt(
                eps_of(ar, g),
            )
        }),
    ensures
        ({
            let q = polyline_of(ar, g, a)[i];
            let pb = polyline_of(ar, g, b);
            at_shared_stubs(
                ar,
                g,
                a,
                b,
                spec_touch(ar, q, pb[j], pb[j + 1], spec_frac(ar, q.1, pb[j].1, pb[j + 1].1).1),
            )
        }),
{
    let pa = polyline_of(ar, g, a);
    let pb = polyline_of(ar, g, b);
    let eps = eps_of(ar, g);
    let q = pa[i];
    let h = spec_touch(ar, q, pb[j], pb[j + 1], spec_frac(ar, q.1, pb[j].1, pb[j + 1].1).1);
    law_polyline_keeps_endpoints(ar, g, a);
    law_planar_curves_meet_at_vertices(ar, g, a, b);
    let at = if i == 0 {
        0
    } else {
        i - 1
    };
    let found = spec_pair_hits(ar, pa, pb, eps, comes_after(a, b), at, j);
    assert(found is Ok);
    lemma_meetings(ar, pa[at], pa[at + 1], pb[j], pb[j + 1], eps, comes_after(a, b), h);
    assert(found->Ok_0.contains(h));
}

/// Where a segment of the polyline of `a` crosses a segment of that of `b`, the
/// place of the crossing on the first, unless it is off the second, is within
/// snap of a vertex that both curves end at.
pub open spec fn crosses_at_vertices(ar: Arith, g: Graph, a: CurveId, b: CurveId) -> bool {
    let pa = polyline_of(ar, g, a);
    let pb = polyline_of(ar, g, b);
    forall|i: int, j: int|
        #![trigger pa[i], pb[j]]
        0 <= i < pa.len() - 1 && 0 <= j < pb.len() - 1 ==> match spec_seg_isect(
            ar,
            pa[i].1,
            pa[i + 1].1,
            pb[j].1,
            pb[j + 1].1,
        ) {
            None => true,
            Some((s, t)) => {
                let p = spec_lerp(ar, pa[i].1, pa[i + 1].1, s);
                spec_off(ar, p, spec_seg_dist(ar, p, pb[j].1, pb[j + 1].1), eps_of(ar, g))
                    || at_shared_vertex(ar, g, a, b, p)
            },
        }
}

/// Curves never cross: where segments of two live curves of a planar
/// arrangement cross, the place on the first curve is within snap of a vertex that
/// the curves share, or off the other segment, as it can be between segments along
/// one line. (Of two curves the one with the lower id comes first.)
pub proof fn law_planar_curves_do_not_cross(ar: Arith, g: Graph, a: CurveId, b: CurveId)
    requires
        graph_wf(g),
        planar(ar, g),
        curve_live(g, a),
        curve_live(g, b),
        a.0 < b.0,
    ensures
        crosses_at_vertices(ar, g, a, b),
{
    law_planar_curves_meet_at_vertices(ar, g, a, b);
    let pa = polyline_of(ar, g, a);
    let pb = polyline_of(ar, g, b);
    assert forall|i: int, j: int|
        #![trigger pa[i], pb[j]]
        0 <= i < pa.len() - 1 && 0 <= j < pb.len() - 1 implies match spec_seg_isect(
        ar,
        pa[i].1,
        pa[i + 1].1,
        pb[j].1,
        pb[j + 1].1,
    ) {
        None => true,
        Some((s, t)) => {
            let p = spec_lerp(ar, pa[i].1, pa[i + 1].1, s);
            spec_off(ar, p, spec_seg_dist(ar, p, pb[j].1, pb[j + 1].1), eps_of(ar, g))
                || at_shared_vertex(ar, g, a, b, p)
        },
    } by {
        let eps = eps_of(ar, g);
        let found = spec_pair_hits(ar, pa, pb, eps, false, i, j);
        assert(!comes_after(a, b));
        assert(found is Ok);
        if let Some(h) = spec_crossing(ar, pa[i], pa[i + 1], pb[j], pb[j + 1], eps, false) {
            lemma_meetings(ar, pa[i], pa[i + 1], pb[j], pb[j + 1], eps, false, h);
            assert(found->Ok_0.contains(h));
            assert(at_shared_stubs(ar, g, a, b, h));
            let v = choose|v: VertexId|
                on_stub_of(ar, g, a, h.t, v) && on_stub_of(ar, g, b, h.u, v) && within_snap(
                    ar,
                    g,
                    h.p,
                    v,
                ) && #[trigger] vertex_live(g, v);
            assert(ends_at(g, a, v) && ends_at(g, b, v) && vertex_live(g, v));
        }
    }
}

/// Where the curve has a double point, and where two segments of its polyline
/// that do not adjoin meet at parameters far enough apart, is a harmless touch at
/// one of its endpoints.
pub open spec fn meets_itself_at_ends(ar: Arith, g: Graph, c: CurveId) -> bool {
    let poly = polyline_of(ar, g, c);
    &&& double_point(ar, g, c) matches Some(h) ==> harmless(ar, g, c, h)
    &&& forall|i: int, j: int|
        #![trigger spec_self_pair_hit(ar, poly, eps_of(ar, g), i, j)]
        0 <= i && i + 2 <= j < poly.len() - 1 ==> match spec_self_pair_hit(
            ar,
            poly,
            eps_of(ar, g),
            i,
            j,
        ) {
            Err(_) => false,
            Ok(None) => true,
            Ok(Some(h)) => harmless(ar, g, c, h),
        }
}

proof fn lemma_no_tangle(ar: Arith, g: Graph, c: CurveId, hits: Seq<Hit>, j: int)
    requires
        0 <= j <= hits.len(),
        first_tangle(ar, g, c, hits, j) is None,
    ensures
        forall|i: int| j <= i < hits.len() ==> harmless(ar, g, c, #[trigger] hits[i]),
    decreases hits.len() - j,
{
    if j < hits.len() {
        lemma_no_tangle(ar, g, c, hits, j + 1);
    }
}

/// A live curve of a planar arrangement has no double point, and no two segments
/// of its polyline meet at parameters far enough apart, but for harmless touches at
/// its endpoints.
pub proof fn law_planar_curves_are_simple(ar: Arith, g: Graph, c: CurveId)
    requires
        graph_wf(g),
        planar(ar, g),
        curve_live(g, c),
    ensures
        meets_itself_at_ends(ar, g, c),
{
    let poly = polyline_of(ar, g, c);
    let eps = eps_of(ar, g);
    assert(settled(ar, g, c));
    let hits = spec_poly_self_hits(ar, poly, eps)->Ok_0;
    lemma_no_tangle(ar, g, c, hits, 0);
    law_polyline_keeps_endpoints(ar, g, c);
    law_self_meetings_are_hits(ar, poly, eps);
    assert forall|i: int, j: int|
        #![trigger spec_self_pair_hit(ar, poly, eps, i, j)]
        0 <= i && i + 2 <= j < poly.len() - 1 implies match spec_self_pair_hit(
        ar,
        poly,
        eps,
        i,
        j,
    ) {
        Err(_) => false,
        Ok(None) => true,
        Ok(Some(h)) => harmless(ar, g, c, h),
    } by {
        assert(is_gathered(spec_self_pair_hit(ar, poly, eps, i, j), hits));
        if let Ok(Some(h)) = spec_self_pair_hit(ar, poly, eps, i, j) {
            let m = choose|m: int| 0 <= m < hits.len() && hits[m] == h;
            assert(harmless(ar, g, c, hits[m]));
        }
    }
}

/// No segment of the polyline of `a` crosses a segment of that of `b`, at a place
/// that is not off the other, and no end of the one passes within eps of the
/// other.
pub open spec fn apart(ar: Arith, g: Graph, a: CurveId, b: CurveId) -> bool {
    let pa = polyline_of(ar, g, a);
    let pb = polyline_of(ar, g, b);
    forall|i: int, j: int|
        #![trigger spec_pair_hits(ar, pa, pb, eps_of(ar, g), comes_after(a, b), i, j)]
        0 <= i < pa.len() - 1 && 0 <= j < pb.len() - 1 ==> spec_pair_hits(
            ar,
            pa,
            pb,
            eps_of(ar, g),
            comes_after(a, b),
            i,
            j,
        ) == Ok::<Seq<Hit>, Fault>(Seq::empty())
}

/// Live curves of a planar arrangement that share no vertex are apart.
pub proof fn law_planar_strangers_are_apart(ar: Arith, g: Graph, a: CurveId, b: CurveId)
    requires
        graph_wf(g),
        planar(ar, g),
        curve_live(g, a),
        curve_live(g, b),
        a != b,
        !ends_at(g, a, curve_of(g, b).v0),
        !ends_at(g, a, curve_of(g, b).v1),
    ensures
        apart(ar, g, a, b),
{
    law_planar_curves_meet_at_vertices(ar, g, a, b);
    let pa = polyline_of(ar, g, a);
    let pb = polyline_of(ar, g, b);
    assert forall|h: Hit| !#[trigger] at_shared_stubs(ar, g, a, b, h) by {}
    assert forall|i: int, j: int|
        #![trigger spec_pair_hits(ar, pa, pb, eps_of(ar, g), comes_after(a, b), i, j)]
        0 <= i < pa.len() - 1 && 0 <= j < pb.len() - 1 implies spec_pair_hits(
        ar,
        pa,
        pb,
        eps_of(ar, g),
        comes_after(a, b),
        i,
        j,
    ) == Ok::<Seq<Hit>, Fault>(Seq::empty()) by {
        let hits = spec_pair_hits(ar, pa, pb, eps_of(ar, g), comes_after(a, b), i, j)->Ok_0;
        if hits.len() > 0 {
            assert(hits.contains(hits[0]));
            assert(at_shared_stubs(ar, g, a, b, hits[0]));
        }
        assert(hits =~= Seq::<Hit>::empty());
    }
}

/// Taking curves away from a planar arrangement leaves it planar.
pub proof fn law_subset_planar(ar: Arith, g1: Graph, g2: Graph)
    requires
        planar(ar, g1),
        g1.snap == g2.snap,
        g1.tol == g2.tol,
        forall|c: CurveId| #[trigger] curve_live(g2, c) ==> same_curve(g1, g2, c),
    ensures
        planar(ar, g2),
{
    lemma_planar_but(ar, g1, g2, Seq::empty());
}

/// Where every curve but some is as it was, all but those are in order still.
pub proof fn lemma_planar_but(ar: Arith, g1: Graph, g2: Graph, but: Seq<CurveId>)
    requires
        planar(ar, g1),
        g1.snap == g2.snap,
        g1.tol == g2.tol,
        forall|c: CurveId|
            #![trigger curve_live(g2, c)]
            curve_live(g2, c) && !but.contains(c) ==> same_curve(g1, g2, c),
    ensures
        planar_but(ar, g2, but),
{
    assert forall|a: CurveId| #[trigger] curve_live(g2, a) && !but.contains(a) implies settled(
        ar,
        g2,
        a,
    ) by {
        lemma_alike_settled(ar, g1, a, g2, a);
        assert(curve_live(g1, a));
    }
    assert forall|a: CurveId, b: CurveId|
        #![trigger curve_live(g2, a), curve_live(g2, b)]
        curve_live(g2, a) && curve_live(g2, b) && a != b && !but.contains(a) && !but.contains(
            b,
        ) implies settled_beside(ar, g2, a, b) by {
        lemma_alike_beside(ar, g1, a, b, g2, a, b);
        assert(curve_live(g1, a) && curve_live(g1, b));
    }
}

/// In a planar arrangement no two vertices at which curves end are within snap
/// of each other.
pub proof fn law_planar_vertices_snapped(ar: Arith, g: Graph, u: VertexId, v: VertexId)
    requires
        planar(ar, g),
        graph_wf(g),
        vertex_used(g, u.0 as int),
        vertex_used(g, v.0 as int),
    ensures
        snapped(ar, g, u, v),
{
    assert(snapped_but(ar, g, Seq::empty())) by {
        assert forall|a: CurveId, b: CurveId|
            #![trigger curve_live(g, a), curve_live(g, b)]
            curve_live(g, a) && curve_live(g, b) implies ends_snapped(ar, g, a, b) by {
            if a == b {
                assert(settled(ar, g, a));
            } else {
                assert(settled_beside(ar, g, a, b));
            }
        }
    }
    lemma_used_snapped(ar, g, u, v);
}

} // verus!
