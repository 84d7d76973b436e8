//! Where curves are cut, and which vertices become one.

use vstd::prelude::*;

use crate::calc::{Arith, Op};
use crate::error::Fault;
use crate::geom::{
    spec_dist, spec_poly_hits, spec_poly_self_hits, spec_seg_dist, spec_self_intersection, untagged,
    Hit,
};
use crate::graph::{
    curve_live, curve_of, eps_of, graph_wf, lemma_pick, lemma_vertices, points_of, polyline_of,
    vertex_ids_of, vertex_live, CurveId, Graph, VertexId,
};
use crate::ink::{
    hit_of_one, hit_of_two, lemma_crossing_is_hit, lemma_dedup_only, lemma_merged_into,
    lemma_no_duplicates, lemma_rivals_beside, lemma_runs_if, lemma_tangle_is_hit, merged_into,
    passes, runs_beside, thinner, three_parts, tiny, two_parts,
};
use crate::pipeline::{
    coincide, comes_after, conflict, dedup, degenerate, double_point, examine, examine_neighbours,
    examine_shape, first_conflict, first_crossing, first_tangle, harmless, lemma_crossing,
    lemma_dedup_wf, lemma_remedy, lemma_rivals, lemma_snap_pair, lemma_split_wf, merged, nearby,
    next_vertex, other_than, others_of, remedy_for, resolved, rival_of, rivals_of, runs_along,
    self_hit, snap_pair, split_at, step_room, touches, untangled, with_vertex, without_curve,
    work_wf, Remedy, Work,
};
use crate::point::Point;
use crate::scalar::{num, Scalar, E4, ONE_LESS_E4, QUARTER};
use crate::shape::{
    cubic_of, joint, law_cut_keeps_shape, law_loop_cut_keeps_shape, law_split_by_construction,
};

verus! {

// ---- two curves ----

/// The vertex at which a curve ends when it is met at parameter `t` in the place
/// `p`: it does where that is on the first segment of its polyline and nearer to
/// its first vertex than the snap distance, or so at its last.
pub open spec fn end_met(ar: Arith, g: Graph, c: CurveId, t: Scalar, p: Point) -> Option<VertexId> {
    let d = g.curves[c.0 as int]->0;
    let poly = polyline_of(ar, g, c);
    let n = poly.len() as int;
    if (n < 2 || t.spec_le(poly[1].0)) && spec_dist(ar, p, g.verts[d.v0.0 as int]->0).spec_lt(
        g.snap,
    ) {
        Some(d.v0)
    } else if (n < 2 || poly[n - 2].0.spec_le(t)) && spec_dist(
        ar,
        p,
        g.verts[d.v1.0 as int]->0,
    ).spec_lt(g.snap) {
        Some(d.v1)
    } else {
        None
    }
}

/// In place of the curve there are its parts before and after `t`, in the slots
/// `k` and `k + 1`, which join at `x`.
pub open spec fn cut_in_two(
    ar: Arith,
    g1: Graph,
    g2: Graph,
    c: CurveId,
    t: Scalar,
    x: VertexId,
    k: int,
) -> bool {
    &&& g1.curves[c.0 as int] is Some
    &&& g2.curves[c.0 as int] is None
    &&& two_parts(ar, g1, g1.curves[c.0 as int]->0, t, x, g2.curves[k], g2.curves[k + 1])
}

/// Two curves that meet at `h` are cut there, each at its own parameter: both at a
/// new vertex in that place, or the one, at the vertex at which the other ends
/// there.
pub open spec fn cut_apart(ar: Arith, g1: Graph, g2: Graph, c: CurveId, o: CurveId, h: Hit) -> bool {
    let n = g1.curves.len() as int;
    let new = VertexId(g1.verts.len() as u32);
    match (end_met(ar, g1, c, h.t, h.p), end_met(ar, g1, o, h.u, h.p)) {
        (None, None) => {
            &&& g2.verts == g1.verts.push(Some(h.p))
            &&& g2.curves.len() == n + 4
            &&& cut_in_two(ar, g1, g2, c, h.t, new, n)
            &&& cut_in_two(ar, g1, g2, o, h.u, new, n + 2)
        },
        (Some(v), None) => {
            &&& g2.verts == g1.verts
            &&& g2.curves.len() == n + 2
            &&& g2.curves[c.0 as int] == g1.curves[c.0 as int]
            &&& cut_in_two(ar, g1, g2, o, h.u, v, n)
        },
        (None, Some(v)) => {
            &&& g2.verts == g1.verts
            &&& g2.curves.len() == n + 2
            &&& g2.curves[o.0 as int] == g1.curves[o.0 as int]
            &&& cut_in_two(ar, g1, g2, c, h.t, v, n)
        },
        _ => false,
    }
}

/// Two curves that meet end to end at `h`, at two vertices, have these made one:
/// the nearer to that place stays.
pub open spec fn ends_joined(ar: Arith, g1: Graph, g2: Graph, c: CurveId, o: CurveId, h: Hit) -> bool {
    match (end_met(ar, g1, c, h.t, h.p), end_met(ar, g1, o, h.u, h.p)) {
        (Some(a), Some(b)) => if spec_dist(ar, h.p, g1.verts[a.0 as int]->0).spec_le(
            spec_dist(ar, h.p, g1.verts[b.0 as int]->0),
        ) {
            merged_into(ar, g1, g2, a, b)
        } else {
            merged_into(ar, g1, g2, b, a)
        },
        _ => false,
    }
}

/// What is done about two curves that meet: nothing where both end in one vertex
/// there; else they are cut, or their ends joined.
pub proof fn law_meeting_resolved(ar: Arith, w: Work, cid: CurveId, oid: CurveId, h: Hit)
    requires
        work_wf(w),
        step_room(w.g),
        curve_live(w.g, cid),
        curve_live(w.g, oid),
        cid != oid,
    ensures
        ({
            let g2 = resolved(ar, w, cid, oid, h).g;
            let (a, b) = (
                end_met(ar, w.g, cid, h.t, h.p),
                end_met(ar, w.g, oid, h.u, h.p),
            );
            &&& a is Some && a == b ==> resolved(ar, w, cid, oid, h) == w
            &&& a is Some && b is Some && a != b ==> ends_joined(ar, w.g, g2, cid, oid, h)
            &&& a is None || b is None ==> cut_apart(ar, w.g, g2, cid, oid, h)
            &&& a is None || b is None ==> forall|i: int|
                #![trigger g2.curves[i]]
                0 <= i < w.g.curves.len() && i != cid.0 && i != oid.0 ==> g2.curves[i]
                    == w.g.curves[i]
        }),
{
    lemma_remedy(ar, w.g, cid, oid, h);
    lemma_end_met(ar, w.g, cid, oid, h);
    let w2 = resolved(ar, w, cid, oid, h);
    match remedy_for(ar, w.g, cid, oid, h) {
        Remedy::Leave => {},
        Remedy::Merge { keep, lose } => {
            let (p, q) = (w.g.verts[keep.0 as int]->0, w.g.verts[lose.0 as int]->0);
            assert(spec_dist(ar, h.p, p).spec_lt(w.g.snap) && spec_dist(ar, h.p, q).spec_lt(
                w.g.snap,
            ));
            lemma_merged_into(ar, w, keep, lose);
        },
        Remedy::CutOther { at } => {
            law_cut_keeps_shape(ar, w, oid, h.u, at);
        },
        Remedy::CutThis { at } => {
            law_cut_keeps_shape(ar, w, cid, h.t, at);
        },
        Remedy::CutBoth => {
            lemma_cut_both(ar, w, cid, oid, h);
        },
    }
}

proof fn lemma_end_met(ar: Arith, g: Graph, cid: CurveId, oid: CurveId, h: Hit)
    ensures
        ({
            let (a, b) = (end_met(ar, g, cid, h.t, h.p), end_met(ar, g, oid, h.u, h.p));
            remedy_for(ar, g, cid, oid, h) == match (a, b) {
                (Some(x), Some(y)) => if x == y {
                    Remedy::Leave
                } else if spec_dist(ar, h.p, g.verts[x.0 as int]->0).spec_le(
                    spec_dist(ar, h.p, g.verts[y.0 as int]->0),
                ) {
                    Remedy::Merge { keep: x, lose: y }
                } else {
                    Remedy::Merge { keep: y, lose: x }
                },
                (Some(x), None) => Remedy::CutOther { at: x },
                (None, Some(y)) => Remedy::CutThis { at: y },
                (None, None) => Remedy::CutBoth,
            }
        }),
{
}

proof fn lemma_cut_both(ar: Arith, w: Work, cid: CurveId, oid: CurveId, h: Hit)
    requires
        work_wf(w),
        step_room(w.g),
        curve_live(w.g, cid),
        curve_live(w.g, oid),
        cid != oid,
    ensures
        ({
            let new = next_vertex(w);
            let w1 = split_at(ar, with_vertex(w, h.p), cid, h.t, new);
            let g2 = split_at(ar, w1, oid, h.u, new).g;
            let n = w.g.curves.len() as int;
            &&& g2.verts == w.g.verts.push(Some(h.p))
            &&& g2.curves.len() == n + 4
            &&& cut_in_two(ar, w.g, g2, cid, h.t, new, n)
            &&& cut_in_two(ar, w.g, g2, oid, h.u, new, n + 2)
            &&& forall|i: int|
                #![trigger g2.curves[i]]
                0 <= i < n && i != cid.0 && i != oid.0 ==> g2.curves[i] == w.g.curves[i]
        }),
{
    let vm = next_vertex(w);
    let w1 = with_vertex(w, h.p);
    assert forall|i: int|
        0 <= i < w1.g.curves.len() && (#[trigger] w1.g.curves[i]) is Some implies vertex_live(
        w1.g,
        (w1.g.curves[i]->0).v0,
    ) && vertex_live(w1.g, (w1.g.curves[i]->0).v1) by {
        assert(w.g.curves[i] is Some);
    }
    lemma_split_wf(ar, w1, cid, h.t, vm);
    law_cut_keeps_shape(ar, w1, cid, h.t, vm);
    let w2 = split_at(ar, w1, cid, h.t, vm);
    assert(w2.g.curves[oid.0 as int] == w.g.curves[oid.0 as int]);
    law_cut_keeps_shape(ar, w2, oid, h.u, vm);
    let w3 = split_at(ar, w2, oid, h.u, vm);
    let n = w.g.curves.len() as int;
    let (c, d) = (w.g.curves[cid.0 as int]->0, w.g.curves[oid.0 as int]->0);
    assert(vertex_live(w.g, c.v0) && vertex_live(w.g, c.v1)) by {
        assert(w.g.curves[cid.0 as int] is Some);
    }
    assert(vertex_live(w.g, d.v0) && vertex_live(w.g, d.v1)) by {
        assert(w.g.curves[oid.0 as int] is Some);
    }
    assert(cubic_of(w1.g, c) == cubic_of(w.g, c));
    assert(cubic_of(w2.g, d) == cubic_of(w.g, d));
    assert(w3.g.curves[n] == w2.g.curves[n] && w3.g.curves[n + 1] == w2.g.curves[n + 1]);
    assert(w3.g.curves[cid.0 as int] == w2.g.curves[cid.0 as int]);
    assert forall|i: int|
        #![trigger w3.g.curves[i]]
        0 <= i < n && i != cid.0 && i != oid.0 implies w3.g.curves[i] == w.g.curves[i] by {
        assert(w3.g.curves[i] == w2.g.curves[i]);
    }
}

// ---- a curve with itself ----

/// The curve meets itself at `h`: its polyline has that hit with itself, or `h` is
/// its double point.
pub open spec fn meets_itself(ar: Arith, g: Graph, c: CurveId, h: Hit) -> bool {
    let p = cubic_of(g, g.curves[c.0 as int]->0);
    ||| hit_of_one(ar, g, c, h)
    ||| spec_self_intersection(ar, p) == Some((h.t, h.u)) && h.p == joint(ar, p, h.t)
}

/// A curve that meets itself at `h` is cut there: where that is nearer to its first
/// vertex than the snap distance, at that vertex and the later parameter; where it
/// is so to its last, at that and the earlier one; else at both, at a new vertex in
/// that place.
pub open spec fn cut_loose(ar: Arith, g1: Graph, g2: Graph, c: CurveId, h: Hit) -> bool {
    let n = g1.curves.len() as int;
    let d = g1.curves[c.0 as int]->0;
    let new = VertexId(g1.verts.len() as u32);
    if spec_dist(ar, h.p, g1.verts[d.v0.0 as int]->0).spec_lt(g1.snap) {
        &&& g2.verts == g1.verts
        &&& g2.curves.len() == n + 2
        &&& cut_in_two(ar, g1, g2, c, h.u, d.v0, n)
    } else if spec_dist(ar, h.p, g1.verts[d.v1.0 as int]->0).spec_lt(g1.snap) {
        &&& g2.verts == g1.verts
        &&& g2.curves.len() == n + 2
        &&& cut_in_two(ar, g1, g2, c, h.t, d.v1, n)
    } else {
        &&& g2.verts == g1.verts.push(Some(h.p))
        &&& g2.curves.len() == n + 3
        &&& g2.curves[c.0 as int] is None
        &&& three_parts(
            ar,
            g1,
            d,
            h.t,
            h.u,
            new,
            g2.curves[n],
            g2.curves[n + 1],
            g2.curves[n + 2],
        )
    }
}

/// What is done about a curve that meets itself: it is cut there; only not where
/// one cut at an end would come too near to either end.
pub proof fn law_tangle_resolved(ar: Arith, w: Work, cid: CurveId, h: Hit)
    requires
        work_wf(w),
        step_room(w.g),
        curve_live(w.g, cid),
    ensures
        ({
            let d = w.g.curves[cid.0 as int]->0;
            let near0 = spec_dist(ar, h.p, w.g.verts[d.v0.0 as int]->0).spec_lt(w.g.snap);
            let near1 = spec_dist(ar, h.p, w.g.verts[d.v1.0 as int]->0).spec_lt(w.g.snap);
            let t = if near0 {
                h.u
            } else {
                h.t
            };
            match untangled(ar, w, cid, h) {
                None => (near0 || near1) && !(num(E4).spec_lt(t) && t.spec_lt(num(ONE_LESS_E4))),
                Some(w2) => {
                    &&& near0 || near1 ==> num(E4).spec_lt(t) && t.spec_lt(num(ONE_LESS_E4))
                    &&& cut_loose(ar, w.g, w2.g, cid, h)
                    &&& forall|i: int|
                        #![trigger w2.g.curves[i]]
                        0 <= i < w.g.curves.len() && i != cid.0 ==> w2.g.curves[i]
                            == w.g.curves[i]
                },
            }
        }),
{
    let d = w.g.curves[cid.0 as int]->0;
    law_cut_keeps_shape(ar, w, cid, h.u, d.v0);
    law_cut_keeps_shape(ar, w, cid, h.t, d.v1);
    law_loop_cut_keeps_shape(ar, w, cid, h);
}

// ---- which meeting comes first ----

/// Two curves both end in one vertex where they meet at `h`.
pub open spec fn idle(ar: Arith, g: Graph, c: CurveId, o: CurveId, h: Hit) -> bool {
    end_met(ar, g, c, h.t, h.p) is Some && end_met(ar, g, c, h.t, h.p) == end_met(
        ar,
        g,
        o,
        h.u,
        h.p,
    )
}

/// The meetings of two curves, in order along the first; `None` where they cannot
/// be told.
pub open spec fn hits_between(ar: Arith, g: Graph, c: CurveId, o: CurveId) -> Option<Seq<Hit>> {
    match spec_poly_hits(
        ar,
        polyline_of(ar, g, c),
        polyline_of(ar, g, o),
        ar(Op::Mul, g.snap, num(QUARTER)),
        o.0 < c.0,
    ) {
        Ok(hits) => Some(hits),
        Err(_) => None,
    }
}

/// The `k`-th meeting of the two curves is the first that is not idle.
pub open spec fn first_busy(ar: Arith, g: Graph, c: CurveId, o: CurveId, k: int, h: Hit) -> bool {
    hits_between(ar, g, c, o) matches Some(hits) && {
        &&& 0 <= k < hits.len()
        &&& hits[k] == h
        &&& !idle(ar, g, c, o, h)
        &&& forall|j: int| 0 <= j < k ==> idle(ar, g, c, o, #[trigger] hits[j])
    }
}

/// All meetings of the two curves are idle.
pub open spec fn all_idle(ar: Arith, g: Graph, c: CurveId, o: CurveId) -> bool {
    hits_between(ar, g, c, o) matches Some(hits) && forall|j: int|
        0 <= j < hits.len() ==> idle(ar, g, c, o, #[trigger] hits[j])
}

proof fn lemma_first_conflict(
    ar: Arith,
    g: Graph,
    cid: CurveId,
    oid: CurveId,
    hits: Seq<Hit>,
    i: int,
)
    requires
        0 <= i <= hits.len(),
        forall|j: int| 0 <= j < i ==> idle(ar, g, cid, oid, #[trigger] hits[j]),
    ensures
        match first_conflict(ar, g, cid, oid, hits, i) {
            None => forall|j: int|
                0 <= j < hits.len() ==> idle(ar, g, cid, oid, #[trigger] hits[j]),
            Some(h) => exists|k: int|
                0 <= k < hits.len() && #[trigger] hits[k] == h && !idle(ar, g, cid, oid, h)
                    && forall|j: int| 0 <= j < k ==> idle(ar, g, cid, oid, #[trigger] hits[j]),
        },
    decreases hits.len() - i,
{
    if i < hits.len() {
        lemma_end_met(ar, g, cid, oid, hits[i]);
        if remedy_for(ar, g, cid, oid, hits[i]) == Remedy::Leave {
            lemma_first_conflict(ar, g, cid, oid, hits, i + 1);
        } else {
            assert(hits[i] == hits[i]);
        }
    }
}

proof fn lemma_conflict(ar: Arith, g: Graph, cid: CurveId, oid: CurveId)
    ensures
        match conflict(ar, g, cid, oid) {
            Err(_) => hits_between(ar, g, cid, oid) is None,
            Ok(None) => all_idle(ar, g, cid, oid),
            Ok(Some(h)) => exists|k: int| #[trigger] first_busy(ar, g, cid, oid, k, h),
        },
{
    assert(comes_after(cid, oid) == (oid.0 < cid.0));
    if let Some(hits) = hits_between(ar, g, cid, oid) {
        lemma_first_conflict(ar, g, cid, oid, hits, 0);
        if let Some(h) = first_conflict(ar, g, cid, oid, hits, 0) {
            let k = choose|k: int|
                0 <= k < hits.len() && #[trigger] hits[k] == h && !idle(ar, g, cid, oid, h)
                    && forall|j: int| 0 <= j < k ==> idle(ar, g, cid, oid, #[trigger] hits[j]);
            assert(first_busy(ar, g, cid, oid, k, h));
        }
    }
}

spec fn others_idle(ar: Arith, g: Graph, c: CurveId, others: Seq<CurveId>, m: int) -> bool {
    0 <= m && forall|j: int| 0 <= j < m ==> all_idle(ar, g, c, #[trigger] others[j])
}

spec fn seen_to(
    ar: Arith,
    g: Graph,
    c: CurveId,
    others: Seq<CurveId>,
    o: CurveId,
    h: Hit,
) -> bool {
    &&& exists|k: int| #[trigger] first_busy(ar, g, c, o, k, h)
    &&& exists|m: int| #[trigger]
        others_idle(ar, g, c, others, m) && m < others.len() && others[m] == o
}

proof fn lemma_first_crossing(
    ar: Arith,
    g: Graph,
    cid: CurveId,
    others: Seq<CurveId>,
    i: int,
)
    requires
        i <= others.len(),
        others_idle(ar, g, cid, others, i),
    ensures
        first_crossing(ar, g, cid, others, i) == Ok::<Option<(CurveId, Hit)>, Fault>(None)
            ==> others_idle(ar, g, cid, others, others.len() as int),
        first_crossing(ar, g, cid, others, i) matches Ok(Some(r)) ==> seen_to(
            ar,
            g,
            cid,
            others,
            r.0,
            r.1,
        ),
    decreases others.len() - i,
{
    if i < others.len() {
        lemma_conflict(ar, g, cid, others[i]);
        if conflict(ar, g, cid, others[i]) == Ok::<Option<Hit>, Fault>(None) {
            assert(others_idle(ar, g, cid, others, i + 1));
            lemma_first_crossing(ar, g, cid, others, i + 1);
        } else if let Ok(Some(h)) = conflict(ar, g, cid, others[i]) {
            assert(others_idle(ar, g, cid, others, i));
            assert(seen_to(ar, g, cid, others, others[i], h));
        }
    }
}

/// Of the meetings with other curves the one seen to first is the first that is
/// not idle, along the curve, with the other curve of the lowest id that has one;
/// and none is seen to only where all are idle.
pub proof fn law_first_meeting(ar: Arith, g: Graph, cid: CurveId)
    requires
        graph_wf(g),
        curve_live(g, cid),
    ensures
        match first_crossing(ar, g, cid, others_of(g, cid), 0) {
            Err(_) => true,
            Ok(None) => forall|o: CurveId|
                #![trigger g.curves[o.0 as int]]
                o.0 < g.curves.len() && g.curves[o.0 as int] is Some && o != cid ==> all_idle(
                    ar,
                    g,
                    cid,
                    o,
                ),
            Ok(Some((o, h))) => {
                &&& o != cid
                &&& o.0 < g.curves.len()
                &&& g.curves[o.0 as int] is Some
                &&& exists|k: int| #[trigger] first_busy(ar, g, cid, o, k, h)
                &&& forall|b: CurveId|
                    #![trigger g.curves[b.0 as int]]
                    b.0 < o.0 && g.curves[b.0 as int] is Some && b != cid ==> all_idle(
                        ar,
                        g,
                        cid,
                        b,
                    )
            },
        },
{
    let others = others_of(g, cid);
    lemma_pick(g.curves, other_than(cid), g.curves.len() as int);
    lemma_first_crossing(ar, g, cid, others, 0);
    assert forall|b: CurveId|
        #![trigger g.curves[b.0 as int]]
        b.0 < g.curves.len() && g.curves[b.0 as int] is Some && b != cid implies exists|j: int|
        0 <= j < others.len() && others[j] == b by {
        assert(others.contains(b));
    }
    if let Ok(Some((o, h))) = first_crossing(ar, g, cid, others, 0) {
        assert(seen_to(ar, g, cid, others, o, h));
        let m = choose|m: int| #[trigger]
            others_idle(ar, g, cid, others, m) && m < others.len() && others[m] == o;
        assert(others.contains(others[m]));
        assert forall|b: CurveId|
            #![trigger g.curves[b.0 as int]]
            b.0 < o.0 && g.curves[b.0 as int] is Some && b != cid implies all_idle(
            ar,
            g,
            cid,
            b,
        ) by {
            let j = choose|j: int| 0 <= j < others.len() && others[j] == b;
            assert(others[j] == b);
            if m < j {
                assert(others[m].0 < others[j].0);
            }
        }
    } else if first_crossing(ar, g, cid, others, 0) is Ok {
        assert forall|o: CurveId|
            #![trigger g.curves[o.0 as int]]
            o.0 < g.curves.len() && g.curves[o.0 as int] is Some && o != cid implies all_idle(
            ar,
            g,
            cid,
            o,
        ) by {
            let j = choose|j: int| 0 <= j < others.len() && others[j] == o;
            assert(others[j] == o);
        }
    }
}

/// The curve meets itself at one of its ends, too near to the end of its other
/// parameter for a cut.
pub open spec fn trifling(ar: Arith, g: Graph, c: CurveId, h: Hit) -> bool {
    let d = g.curves[c.0 as int]->0;
    let near0 = spec_dist(ar, h.p, g.verts[d.v0.0 as int]->0).spec_lt(g.snap);
    let near1 = spec_dist(ar, h.p, g.verts[d.v1.0 as int]->0).spec_lt(g.snap);
    let t = if near0 {
        h.u
    } else {
        h.t
    };
    (near0 || near1) && !(num(E4).spec_lt(t) && t.spec_lt(num(ONE_LESS_E4)))
}

/// Where a curve has to be cut that meets itself: at its double point, where it has
/// one that is not trifling; else at the first such hit of its polyline with itself.
pub proof fn law_first_tangle(ar: Arith, g: Graph, cid: CurveId)
    requires
        graph_wf(g),
        curve_live(g, cid),
    ensures
        ({
            let p = cubic_of(g, g.curves[cid.0 as int]->0);
            let hits = spec_poly_self_hits(
                ar,
                polyline_of(ar, g, cid),
                ar(Op::Mul, g.snap, num(QUARTER)),
            );
            match spec_self_intersection(ar, p) {
                Some((t, u)) if !trifling(ar, g, cid, Hit { t, u, p: joint(ar, p, t) }) => self_hit(
                    ar,
                    g,
                    cid,
                ) == Ok::<Option<Hit>, Fault>(Some(Hit { t, u, p: joint(ar, p, t) })),
                _ => match self_hit(ar, g, cid) {
                    Err(_) => hits is Err,
                    Ok(None) => hits is Ok && forall|j: int|
                        0 <= j < hits->Ok_0.len() ==> trifling(ar, g, cid, #[trigger] hits->Ok_0[j]),
                    Ok(Some(h)) => hits is Ok && exists|k: int|
                        0 <= k < hits->Ok_0.len() && #[trigger] hits->Ok_0[k] == h && !trifling(
                            ar,
                            g,
                            cid,
                            h,
                        ) && forall|j: int|
                            0 <= j < k ==> trifling(ar, g, cid, #[trigger] hits->Ok_0[j]),
                },
            }
        }),
{
    let p = cubic_of(g, g.curves[cid.0 as int]->0);
    assert(points_of(g, cid) == p);
    if let Some((t, u)) = spec_self_intersection(ar, p) {
        law_split_by_construction(ar, p, t);
    }
    if let Ok(hits) = spec_poly_self_hits(
        ar,
        polyline_of(ar, g, cid),
        ar(Op::Mul, g.snap, num(QUARTER)),
    ) {
        lemma_first_tangle(ar, g, cid, hits, 0);
    }
}

proof fn lemma_first_tangle(ar: Arith, g: Graph, cid: CurveId, hits: Seq<Hit>, i: int)
    requires
        0 <= i <= hits.len(),
        forall|j: int| 0 <= j < i ==> trifling(ar, g, cid, #[trigger] hits[j]),
    ensures
        match first_tangle(ar, g, cid, hits, i) {
            None => forall|j: int| 0 <= j < hits.len() ==> trifling(ar, g, cid, #[trigger] hits[j]),
            Some(h) => exists|k: int|
                0 <= k < hits.len() && #[trigger] hits[k] == h && !trifling(ar, g, cid, h)
                    && forall|j: int| 0 <= j < k ==> trifling(ar, g, cid, #[trigger] hits[j]),
        },
    decreases hits.len() - i,
{
    if i < hits.len() {
        assert(harmless(ar, g, cid, hits[i]) == trifling(ar, g, cid, hits[i]));
        if harmless(ar, g, cid, hits[i]) {
            lemma_first_tangle(ar, g, cid, hits, i + 1);
        } else {
            assert(hits[i] == hits[i]);
        }
    }
}

// ---- vertices ----

/// A look at a curve makes two vertices one where one of its ends is near another
/// vertex, and then keeps the one with the lower id; and it makes none one only
/// where no vertex is near either end.
pub proof fn law_snapped_pair(ar: Arith, g: Graph, cid: CurveId)
    requires
        graph_wf(g),
        curve_live(g, cid),
    ensures
        ({
            let d = g.curves[cid.0 as int]->0;
            match snap_pair(ar, g, cid) {
                Some((keep, lose)) => {
                    &&& keep.0 < lose.0
                    &&& keep == d.v0 || keep == d.v1 || lose == d.v0 || lose == d.v1
                    &&& lose.0 < g.verts.len()
                    &&& g.verts[keep.0 as int] is Some
                    &&& g.verts[lose.0 as int] is Some
                    &&& within(ar, g, keep, lose)
                },
                None => forall|v: VertexId|
                    #![trigger g.verts[v.0 as int]]
                    v.0 < g.verts.len() && g.verts[v.0 as int] is Some ==> (v == d.v0 || !within(
                        ar,
                        g,
                        d.v0,
                        v,
                    )) && (v == d.v1 || !within(ar, g, d.v1, v)),
            }
        }),
{
    let d = g.curves[cid.0 as int]->0;
    let ids = vertex_ids_of(g);
    lemma_snap_pair(ar, g, cid);
    lemma_vertices(g.verts, g.verts.len() as int);
    lemma_nearby_first(ar, g, d.v0, ids, 0);
    lemma_nearby_first(ar, g, d.v1, ids, 0);
    if snap_pair(ar, g, cid) is None {
        assert forall|v: VertexId|
            #![trigger g.verts[v.0 as int]]
            v.0 < g.verts.len() && g.verts[v.0 as int] is Some implies (v == d.v0 || !within(
            ar,
            g,
            d.v0,
            v,
        )) && (v == d.v1 || !within(ar, g, d.v1, v)) by {
            assert(ids.contains(v));
            let i = choose|i: int| 0 <= i < ids.len() && ids[i] == v;
            assert(ids[i] == v);
        }
    }
}

/// The two vertices are nearer to each other than the snap distance, measured from
/// the one or from the other.
pub open spec fn within(ar: Arith, g: Graph, u: VertexId, v: VertexId) -> bool {
    let (p, q) = (g.verts[u.0 as int]->0, g.verts[v.0 as int]->0);
    spec_dist(ar, p, q).spec_lt(g.snap) || spec_dist(ar, q, p).spec_lt(g.snap)
}

proof fn lemma_nearby_first(ar: Arith, g: Graph, v: VertexId, ids: Seq<VertexId>, i: int)
    requires
        0 <= i <= ids.len(),
    ensures
        match nearby(ar, g, v, ids, i) {
            Some(x) => x != v && within(ar, g, v, x) && within(ar, g, x, v) && ids.contains(x),
            None => forall|j: int|
                i <= j < ids.len() ==> #[trigger] ids[j] == v || !within(ar, g, v, ids[j]),
        },
    decreases ids.len() - i,
{
    if i < ids.len() {
        lemma_nearby_first(ar, g, v, ids, i + 1);
        assert(ids.contains(ids[i]));
    }
}

// ---- one look ----

/// One look at a curve cuts nothing, or it cuts the curve and another one where
/// these meet, or it cuts the curve where it meets itself.
pub open spec fn cut_where_met(ar: Arith, g1: Graph, g2: Graph, c: CurveId) -> bool {
    ||| g2.curves.len() == g1.curves.len()
    ||| exists|o: CurveId, h: Hit|
        o != c && o.0 < g1.curves.len() && g1.curves[o.0 as int] is Some && #[trigger] hit_of_two(
            ar,
            g1,
            c,
            o,
            h,
        ) && cut_apart(ar, g1, g2, c, o, h)
    ||| exists|h: Hit| #[trigger] meets_itself(ar, g1, c, h) && cut_loose(ar, g1, g2, c, h)
}

proof fn lemma_neighbours_cut(ar: Arith, w: Work, cid: CurveId)
    requires
        work_wf(w),
        step_room(w.g),
        curve_live(w.g, cid),
    ensures
        cut_where_met(ar, w.g, examine_neighbours(ar, w, cid).w.g, cid),
{
    lemma_crossing(ar, w.g, cid);
    lemma_crossing_is_hit(ar, w.g, cid, others_of(w.g, cid), 0);
    if let Ok(Some((oid, h))) = first_crossing(ar, w.g, cid, others_of(w.g, cid), 0) {
        assert(w.g.curves[oid.0 as int] is Some);
        assert(comes_after(cid, oid) == (oid.0 < cid.0));
        assert(hit_of_two(ar, w.g, cid, oid, h));
        law_meeting_resolved(ar, w, cid, oid, h);
        lemma_end_met(ar, w.g, cid, oid, h);
    }
}

proof fn lemma_shape_cut(ar: Arith, w: Work, cid: CurveId)
    requires
        work_wf(w),
        step_room(w.g),
        curve_live(w.g, cid),
    ensures
        cut_where_met(ar, w.g, examine_shape(ar, w, cid).w.g, cid),
{
    lemma_neighbours_cut(ar, w, cid);
    if let Ok(Some(h)) = self_hit(ar, w.g, cid) {
        law_tangle_resolved(ar, w, cid, h);
        let p = cubic_of(w.g, curve_of(w.g, cid));
        assert(points_of(w.g, cid) == p);
        if double_point(ar, w.g, cid) == Some(h) {
            law_split_by_construction(ar, p, h.t);
        } else {
            let hits = spec_poly_self_hits(
                ar,
                polyline_of(ar, w.g, cid),
                ar(Op::Mul, w.g.snap, num(QUARTER)),
            )->Ok_0;
            lemma_tangle_is_hit(ar, w.g, cid, hits, 0);
        }
        assert(meets_itself(ar, w.g, cid, h));
    }
}

proof fn lemma_cut_before_dedup(ar: Arith, g1: Graph, g: Graph, g2: Graph, cid: CurveId)
    requires
        thinner(g1, g),
        curve_live(g, cid),
        cut_where_met(ar, g, g2, cid),
    ensures
        cut_where_met(ar, g1, g2, cid),
{
    reveal(polyline_of);
    assert(g.curves[cid.0 as int] == g1.curves[cid.0 as int]);
    assert(polyline_of(ar, g, cid) == polyline_of(ar, g1, cid));
    let d = g.curves[cid.0 as int]->0;
    assert(cubic_of(g, d) == cubic_of(g1, d));
    if g2.curves.len() != g1.curves.len() {
        if exists|o: CurveId, h: Hit|
            o != cid && o.0 < g.curves.len() && g.curves[o.0 as int] is Some && #[trigger] hit_of_two(
                ar,
                g,
                cid,
                o,
                h,
            ) && cut_apart(ar, g, g2, cid, o, h) {
            let (o, h) = choose|o: CurveId, h: Hit|
                o != cid && o.0 < g.curves.len() && g.curves[o.0 as int] is Some
                    && #[trigger] hit_of_two(ar, g, cid, o, h) && cut_apart(ar, g, g2, cid, o, h);
            assert(g.curves[o.0 as int] == g1.curves[o.0 as int]);
            assert(polyline_of(ar, g, o) == polyline_of(ar, g1, o));
            let e = g.curves[o.0 as int]->0;
            assert(cubic_of(g, e) == cubic_of(g1, e));
            assert(end_met(ar, g, cid, h.t, h.p) == end_met(ar, g1, cid, h.t, h.p));
            assert(end_met(ar, g, o, h.u, h.p) == end_met(ar, g1, o, h.u, h.p));
            assert(hit_of_two(ar, g1, cid, o, h));
            assert(cut_apart(ar, g1, g2, cid, o, h));
        } else {
            let h = choose|h: Hit| #[trigger]
                meets_itself(ar, g, cid, h) && cut_loose(ar, g, g2, cid, h);
            assert(meets_itself(ar, g1, cid, h));
            assert(cut_loose(ar, g1, g2, cid, h));
        }
    }
}

/// One look at a curve cuts only where it meets another curve or itself.
pub proof fn law_cut_where_met(ar: Arith, w: Work, cid: CurveId)
    requires
        work_wf(w),
        step_room(w.g),
    ensures
        cut_where_met(ar, w.g, examine(ar, w, cid).w.g, cid),
{
    if curve_live(w.g, cid) && !degenerate(ar, w.g, cid) {
        let rivals = rivals_of(w.g, cid);
        lemma_rivals(w.g, cid);
        lemma_rivals_beside(w.g, cid);
        lemma_dedup_wf(ar, w, cid, rivals, 0);
        lemma_dedup_only(ar, w.g, w, cid, rivals, 0);
        let (gone, w1) = dedup(ar, w, cid, rivals, 0);
        if !gone {
            lemma_shape_cut(ar, w1, cid);
            lemma_cut_before_dedup(ar, w.g, w1.g, examine(ar, w, cid).w.g, cid);
        }
    }
}

/// Another live curve runs between the same two vertices, beside this one all
/// along, and this one beside it.
pub open spec fn twinned(ar: Arith, g: Graph, c: CurveId, o: CurveId) -> bool {
    let (d, e) = (g.curves[c.0 as int]->0, g.curves[o.0 as int]->0);
    &&& o != c
    &&& o.0 < g.curves.len()
    &&& g.curves[o.0 as int] is Some
    &&& (e.v0 == d.v0 && e.v1 == d.v1) || (e.v0 == d.v1 && e.v1 == d.v0)
    &&& runs_beside(ar, g, c, o)
    &&& runs_beside(ar, g, o, c)
}

/// The order of the rules in one look: a tiny loop goes. A curve that is not
/// twinned is cut where it meets itself; if that calls for nothing, the first
/// meeting with another curve is seen to; if that calls for nothing, two near
/// vertices become one; and else all stays.
pub proof fn law_look_in_order(ar: Arith, w: Work, cid: CurveId)
    requires
        work_wf(w),
        curve_live(w.g, cid),
    ensures
        ({
            let s = examine(ar, w, cid);
            let crossing = first_crossing(ar, w.g, cid, others_of(w.g, cid), 0);
            &&& tiny(ar, w.g, cid) ==> s.fault is None && s.w.g.verts == w.g.verts
                && s.w.g.curves == w.g.curves.update(cid.0 as int, None) && s.w.queue == w.queue
            &&& !tiny(ar, w.g, cid) && (forall|o: CurveId| !#[trigger] twinned(ar, w.g, cid, o))
                ==> match self_hit(ar, w.g, cid) {
                Err(e) => s.w == w && s.fault == Some(e),
                Ok(Some(h)) if untangled(ar, w, cid, h) is Some => s.fault is None && s.w
                    == untangled(ar, w, cid, h)->0,
                _ => match crossing {
                    Err(e) => s.w == w && s.fault == Some(e),
                    Ok(Some((o, h))) => s.fault is None && s.w == resolved(ar, w, cid, o, h),
                    Ok(None) => s.fault is None && match snap_pair(ar, w.g, cid) {
                        Some((keep, lose)) => s.w == merged(w, keep, lose),
                        None => s.w == w,
                    },
                },
            }
        }),
{
    assert(points_of(w.g, cid) == cubic_of(w.g, w.g.curves[cid.0 as int]->0));
    assert(tiny(ar, w.g, cid) == degenerate(ar, w.g, cid));
    if !tiny(ar, w.g, cid) && (forall|o: CurveId| !#[trigger] twinned(ar, w.g, cid, o)) {
        let rivals = rivals_of(w.g, cid);
        lemma_rivals(w.g, cid);
        lemma_rivals_beside(w.g, cid);
        assert forall|j: int| 0 <= j < rivals.len() implies !coincide(
            ar,
            w.g,
            cid,
            #[trigger] rivals[j],
        ) by {
            if coincide(ar, w.g, cid, rivals[j]) {
                lemma_runs_if(ar, w.g, cid, rivals[j]);
                assert(curve_live(w.g, rivals[j]));
                assert(twinned(ar, w.g, cid, rivals[j]));
            }
        }
        lemma_no_duplicates(ar, w, cid, rivals, 0);
    }
}

proof fn lemma_beside_is_along(ar: Arith, g: Graph, a: CurveId, b: CurveId)
    requires
        runs_beside(ar, g, a, b),
    ensures
        runs_along(
            ar,
            untagged(polyline_of(ar, g, a)),
            untagged(polyline_of(ar, g, b)),
            eps_of(ar, g),
        ),
{
    let (pa, pb) = (polyline_of(ar, g, a), polyline_of(ar, g, b));
    let (ua, ub) = (untagged(pa), untagged(pb));
    assert forall|x: int| 0 <= x < ua.len() implies touches(
        ar,
        #[trigger] ua[x],
        ub,
        eps_of(ar, g),
    ) by {
        assert(passes(ar, polyline_of(ar, g, a)[x].1, pb, ar(Op::Mul, g.snap, num(QUARTER))));
        let y = choose|y: int|
            0 <= y < pb.len() - 1 && spec_seg_dist(
                ar,
                pa[x].1,
                (#[trigger] pb[y]).1,
                pb[y + 1].1,
            ).spec_lt(ar(Op::Mul, g.snap, num(QUARTER)));
        assert(ub[y] == pb[y].1 && ub[y + 1] == pb[y + 1].1);
    }
}

proof fn lemma_dedup_lower(ar: Arith, w: Work, cid: CurveId, rivals: Seq<CurveId>, i: int, j: int)
    requires
        0 <= i <= j < rivals.len(),
        coincide(ar, w.g, cid, rivals[j]),
        forall|k: int| i <= k <= j ==> (#[trigger] rivals[k]).0 < cid.0,
    ensures
        dedup(ar, w, cid, rivals, i) == (true, without_curve(w, cid)),
    decreases j - i,
{
    assert(rivals[i].0 < cid.0);
    if !coincide(ar, w.g, cid, rivals[i]) {
        lemma_dedup_lower(ar, w, cid, rivals, i + 1, j);
    }
}

/// Of twinned curves the one with the higher id goes, and nothing else changes.
pub proof fn law_twin_goes(ar: Arith, w: Work, cid: CurveId, oid: CurveId)
    requires
        work_wf(w),
        curve_live(w.g, cid),
        !tiny(ar, w.g, cid),
        twinned(ar, w.g, cid, oid),
        oid.0 < cid.0,
    ensures
        ({
            let s = examine(ar, w, cid);
            &&& s.fault is None
            &&& s.w.g.verts == w.g.verts
            &&& s.w.g.curves == w.g.curves.update(cid.0 as int, None)
            &&& s.w.queue == w.queue
        }),
{
    assert(points_of(w.g, cid) == cubic_of(w.g, w.g.curves[cid.0 as int]->0));
    let c = curve_of(w.g, cid);
    let rivals = rivals_of(w.g, cid);
    lemma_pick(w.g.curves, rival_of(cid, c.v0, c.v1), w.g.curves.len() as int);
    lemma_beside_is_along(ar, w.g, cid, oid);
    lemma_beside_is_along(ar, w.g, oid, cid);
    assert(coincide(ar, w.g, cid, oid)) by {
        reveal(coincide);
    }
    assert(rivals.contains(oid));
    let j = choose|j: int| 0 <= j < rivals.len() && rivals[j] == oid;
    assert forall|k: int| 0 <= k <= j implies (#[trigger] rivals[k]).0 < cid.0 by {
        if k < j {
            assert(rivals[k].0 < rivals[j].0);
        }
    }
    lemma_dedup_lower(ar, w, cid, rivals, 0, j);
}

} // verus!
