//! What the questions about a scene are answered with, said of the scene: ids,
//! nearest things, and which points are inside.

use vstd::prelude::*;

use crate::calc::{Arith, Op};
use crate::fill::{Fill, fill_hit, fill_ids_of, fills_below, in_fill, lemma_fill_hit, loop_polys};
use crate::geom::{spec_dist, spec_seg_isect, Tagged};
use crate::graph::{
    any_curve, curve_ids_of, curve_live, eps_of, graph_wf, incident_to,
    law_polyline_keeps_endpoints, lemma_pick, lemma_vertices, points_of, polyline_of, touching,
    vertex_ids_of, vertex_live, CurveId, FillId, Graph, VertexId,
};
use crate::locate::{
    area_of, corner_after, crossings_below, crossings_of_all, in_polyline, in_polylines,
    shoelace_below, spec_ray_hit,
};
use crate::point::Point;
use crate::query::{
    law_nearest_curve, nearest_curve_below, nearest_curve_of, nearest_on_curve,
    nearest_vertex_below, nearest_vertex_of, spec_project, CurveHit,
};
use crate::scalar::{num, Scalar, HALF, ONE, QUARTER, ZERO};
use crate::scene::Model;
use crate::walk::{loop_poly, HalfEdge};

verus! {

// ---- ids ----

/// The curve ids are those of the live curves, each once, in ascending order.
pub proof fn law_curve_ids(g: Graph)
    requires
        graph_wf(g),
    ensures
        forall|c: CurveId| #[trigger]
            curve_ids_of(g).contains(c) <==> c.0 < g.curves.len() && g.curves[c.0 as int] is Some,
        forall|i: int, j: int|
            0 <= i < j < curve_ids_of(g).len() ==> (#[trigger] curve_ids_of(g)[i]).0 < (
            #[trigger] curve_ids_of(g)[j]).0,
{
    lemma_pick(g.curves, any_curve(), g.curves.len() as int);
}

/// The curves at a vertex are the live ones that end there, each once, in ascending
/// order.
pub proof fn law_incident(g: Graph, v: VertexId)
    requires
        graph_wf(g),
    ensures
        forall|c: CurveId| #[trigger]
            incident_to(g, v).contains(c) <==> c.0 < g.curves.len() && g.curves[c.0 as int] is Some
                && ((g.curves[c.0 as int]->0).v0 == v || (g.curves[c.0 as int]->0).v1 == v),
        forall|i: int, j: int|
            0 <= i < j < incident_to(g, v).len() ==> (#[trigger] incident_to(g, v)[i]).0 < (
            #[trigger] incident_to(g, v)[j]).0,
{
    lemma_pick(g.curves, touching(v), g.curves.len() as int);
}

/// The vertex ids are those of the live vertices, each once, in ascending order.
pub proof fn law_vertex_ids(g: Graph)
    requires
        graph_wf(g),
    ensures
        forall|v: VertexId| #[trigger]
            vertex_ids_of(g).contains(v) <==> v.0 < g.verts.len() && g.verts[v.0 as int] is Some,
        forall|i: int, j: int|
            0 <= i < j < vertex_ids_of(g).len() ==> (#[trigger] vertex_ids_of(g)[i]).0 < (
            #[trigger] vertex_ids_of(g)[j]).0,
{
    lemma_vertices(g.verts, g.verts.len() as int);
}

proof fn lemma_fills_below(fills: Seq<Option<Fill>>, n: int)
    requires
        0 <= n <= fills.len() <= u32::MAX,
    ensures
        forall|f: FillId| #[trigger]
            fills_below(fills, n).contains(f) <==> f.0 < n && fills[f.0 as int] is Some,
        forall|i: int, j: int|
            0 <= i < j < fills_below(fills, n).len() ==> (#[trigger] fills_below(fills, n)[i]).0 < (
            #[trigger] fills_below(fills, n)[j]).0,
    decreases n,
{
    if n > 0 {
        lemma_fills_below(fills, n - 1);
        let rest = fills_below(fills, n - 1);
        let all = fills_below(fills, n);
        assert forall|f: FillId| #[trigger] all.contains(f) <==> f.0 < n && fills[f.0 as int]
            is Some by {
            if all.contains(f) {
                let i = choose|i: int| 0 <= i < all.len() && all[i] == f;
                if i < rest.len() {
                    assert(rest[i] == f);
                    assert(rest.contains(f));
                }
            }
            if f.0 < n && fills[f.0 as int] is Some {
                if f.0 == n - 1 {
                    assert(all[all.len() - 1] == f);
                } else {
                    assert(rest.contains(f));
                    let i = choose|i: int| 0 <= i < rest.len() && rest[i] == f;
                    assert(all[i] == f);
                }
            }
        }
        assert forall|i: int, j: int| 0 <= i < j < all.len() implies (#[trigger] all[i]).0 < (
        #[trigger] all[j]).0 by {
            assert(all[i] == rest[i]);
            if j < rest.len() {
                assert(all[j] == rest[j]);
            } else {
                assert(rest.contains(rest[i]));
            }
        }
    }
}

/// The fill ids are those of the live fills, each once, in ascending order.
pub proof fn law_fill_ids(m: Model)
    requires
        m.fills.len() <= u32::MAX,
    ensures
        forall|f: FillId| #[trigger]
            fill_ids_of(m).contains(f) <==> f.0 < m.fills.len() && m.fills[f.0 as int] is Some,
        forall|i: int, j: int|
            0 <= i < j < fill_ids_of(m).len() ==> (#[trigger] fill_ids_of(m)[i]).0 < (
            #[trigger] fill_ids_of(m)[j]).0,
{
    lemma_fills_below(m.fills, m.fills.len() as int);
}

/// The control points of a curve are those that it stores, between the places of
/// its vertices.
pub proof fn law_points(g: Graph, id: CurveId)
    requires
        curve_live(g, id),
    ensures
        ({
            let c = g.curves[id.0 as int]->0;
            let p = points_of(g, id);
            &&& p.p0 == g.verts[c.v0.0 as int]->0
            &&& p.p1 == c.c0
            &&& p.p2 == c.c1
            &&& p.p3 == g.verts[c.v1.0 as int]->0
        }),
{
}

/// Polylines count as touching within a quarter of the snap distance.
pub proof fn law_eps(ar: Arith, g: Graph)
    ensures
        eps_of(ar, g) == ar(Op::Mul, g.snap, num(QUARTER)),
{
}

// ---- nearest things ----

proof fn lemma_first_nearest(ar: Arith, g: Graph, p: Point, ids: Seq<VertexId>, n: int)
    requires
        0 < n <= ids.len(),
        n >= 2 ==> forall|i: int|
            #![trigger ids[i]]
            0 <= i < n ==> !spec_dist(ar, p, g.verts[ids[i].0 as int]->0).spec_is_nan(),
    ensures
        nearest_vertex_below(ar, g, p, ids, n) matches Some((v, d)) && exists|i: int|
            0 <= i < n && #[trigger] ids[i] == v && d == spec_dist(ar, p, g.verts[v.0 as int]->0)
                && forall|j: int|
                #![trigger ids[j]]
                0 <= j < n && j != i ==> {
                    let e = spec_dist(ar, p, g.verts[ids[j].0 as int]->0);
                    if j < i {
                        d.spec_lt(e)
                    } else {
                        d.spec_le(e)
                    }
                },
    decreases n,
{
    if n == 1 {
        assert(nearest_vertex_below(ar, g, p, ids, 0) is None);
        assert(ids[0] == ids[0]);
    } else {
        lemma_first_nearest(ar, g, p, ids, n - 1);
        let (v, d) = nearest_vertex_below(ar, g, p, ids, n - 1)->0;
        let i = choose|i: int|
            0 <= i < n - 1 && #[trigger] ids[i] == v && d == spec_dist(
                ar,
                p,
                g.verts[v.0 as int]->0,
            ) && forall|j: int|
                #![trigger ids[j]]
                0 <= j < n - 1 && j != i ==> {
                    let e = spec_dist(ar, p, g.verts[ids[j].0 as int]->0);
                    if j < i {
                        d.spec_lt(e)
                    } else {
                        d.spec_le(e)
                    }
                };
        let e = spec_dist(ar, p, g.verts[ids[n - 1].0 as int]->0);
        assert(!e.spec_is_nan() && !d.spec_is_nan()) by {
            assert(ids[n - 1] == ids[n - 1] && ids[i] == v);
        }
        if e.spec_rank() < d.spec_rank() {
            assert(ids[n - 1] == ids[n - 1]);
        } else {
            assert(ids[i] == v);
        }
    }
}

/// The nearest vertex is live, and is told with its distance; no live vertex is
/// nearer, and none with a lower id is as near. There is none only where there are
/// no vertices.
pub proof fn law_nearest_vertex_first(ar: Arith, g: Graph, p: Point)
    requires
        graph_wf(g),
    ensures
        nearest_vertex_of(ar, g, p) matches Ok(r) ==> match r {
            None => forall|v: VertexId| !#[trigger] vertex_live(g, v),
            Some((v, d)) => {
                &&& v.0 < g.verts.len()
                &&& g.verts[v.0 as int] is Some
                &&& d == spec_dist(ar, p, g.verts[v.0 as int]->0)
                &&& forall|u: VertexId|
                    #![trigger g.verts[u.0 as int]]
                    u.0 < g.verts.len() && g.verts[u.0 as int] is Some && u != v ==> {
                        let e = spec_dist(ar, p, g.verts[u.0 as int]->0);
                        if u.0 < v.0 {
                            d.spec_lt(e)
                        } else {
                            d.spec_le(e)
                        }
                    }
            },
        },
{
    let ids = vertex_ids_of(g);
    law_vertex_ids(g);
    if nearest_vertex_of(ar, g, p) is Ok {
        if ids.len() == 0 {
            assert forall|v: VertexId| !#[trigger] vertex_live(g, v) by {
                if vertex_live(g, v) {
                    assert(ids.contains(v));
                }
            }
        } else {
            let n = ids.len() as int;
            lemma_first_nearest(ar, g, p, ids, n);
            let (v, d) = nearest_vertex_below(ar, g, p, ids, n)->0;
            let i = choose|i: int|
                0 <= i < n && #[trigger] ids[i] == v && d == spec_dist(ar, p, g.verts[v.0 as int]->0)
                    && forall|j: int|
                    #![trigger ids[j]]
                    0 <= j < n && j != i ==> {
                        let e = spec_dist(ar, p, g.verts[ids[j].0 as int]->0);
                        if j < i {
                            d.spec_lt(e)
                        } else {
                            d.spec_le(e)
                        }
                    };
            assert(ids.contains(v));
            assert forall|u: VertexId|
                #![trigger g.verts[u.0 as int]]
                u.0 < g.verts.len() && g.verts[u.0 as int] is Some && u != v implies {
                let e = spec_dist(ar, p, g.verts[u.0 as int]->0);
                if u.0 < v.0 {
                    d.spec_lt(e)
                } else {
                    d.spec_le(e)
                }
            } by {
                assert(ids.contains(u));
                let j = choose|j: int| 0 <= j < ids.len() && ids[j] == u;
                assert(ids[j] == u && ids[i] == v);
                assert(i < j ==> ids[i].0 < ids[j].0);
                assert(j < i ==> ids[j].0 < ids[i].0);
            }
        }
    }
}

/// Where the segment from `a` to `b` is nearest to `p`: the fraction of it.
pub open spec fn nearest_fraction(ar: Arith, p: Point, a: Point, b: Point) -> Scalar {
    let (dx, dy) = (ar(Op::Sub, b.x, a.x), ar(Op::Sub, b.y, a.y));
    let (wx, wy) = (ar(Op::Sub, p.x, a.x), ar(Op::Sub, p.y, a.y));
    let len2 = ar(Op::Add, ar(Op::Mul, dx, dx), ar(Op::Mul, dy, dy));
    let t = ar(Op::Div, ar(Op::Add, ar(Op::Mul, wx, dx), ar(Op::Mul, wy, dy)), len2);
    if len2.spec_le(num(ZERO)) || t.spec_lt(num(ZERO)) {
        num(ZERO)
    } else if num(ONE).spec_lt(t) {
        num(ONE)
    } else {
        t
    }
}

/// The point at fraction `u` of the segment from `a` to `b`.
pub open spec fn point_at(ar: Arith, a: Point, b: Point, u: Scalar) -> Point {
    Point {
        x: ar(Op::Add, a.x, ar(Op::Mul, ar(Op::Sub, b.x, a.x), u)),
        y: ar(Op::Add, a.y, ar(Op::Mul, ar(Op::Sub, b.y, a.y), u)),
    }
}

/// The hit lies on the segment from `a` to `b` of a tagged polyline, at its point
/// nearest to `p`, with the parameter in proportion.
pub open spec fn hit_on(ar: Arith, p: Point, a: Tagged, b: Tagged, h: CurveHit) -> bool {
    let u = nearest_fraction(ar, p, a.1, b.1);
    &&& h.point == point_at(ar, a.1, b.1, u)
    &&& h.dist == spec_dist(ar, p, h.point)
    &&& h.t == ar(Op::Add, a.0, ar(Op::Mul, ar(Op::Sub, b.0, a.0), u))
}

proof fn lemma_project(ar: Arith, p: Point, a: Point, b: Point)
    ensures
        ({
            let u = nearest_fraction(ar, p, a, b);
            spec_project(ar, p, a, b) == (
                u,
                point_at(ar, a, b, u),
                spec_dist(ar, p, point_at(ar, a, b, u)),
            )
        }),
{
}

proof fn lemma_hit_on_curve(
    ar: Arith,
    p: Point,
    c: CurveId,
    poly: Seq<Tagged>,
    n: int,
    best: Option<CurveHit>,
)
    requires
        0 <= n < poly.len(),
    ensures
        nearest_on_curve(ar, p, c, poly, n, best) matches Some(h) ==> best == Some(h) || (h.curve
            == c && exists|i: int|
            0 <= i < n && hit_on(ar, p, #[trigger] poly[i], poly[i + 1], h)),
    decreases n,
{
    if n > 0 {
        lemma_hit_on_curve(ar, p, c, poly, n - 1, best);
        lemma_project(ar, p, poly[n - 1].1, poly[n].1);
        let before = nearest_on_curve(ar, p, c, poly, n - 1, best);
        let h = nearest_on_curve(ar, p, c, poly, n, best)->0;
        if before == Some(h) {
            if best != Some(h) {
                let i = choose|i: int|
                    0 <= i < n - 1 && hit_on(ar, p, #[trigger] poly[i], poly[i + 1], h);
                assert(hit_on(ar, p, poly[i], poly[i + 1], h));
            }
        } else {
            let i = n - 1;
            assert(hit_on(ar, p, poly[i], poly[i + 1], h));
        }
    }
}

proof fn lemma_hit_on_some(ar: Arith, g: Graph, p: Point, ids: Seq<CurveId>, n: int)
    requires
        0 <= n <= ids.len(),
    ensures
        nearest_curve_below(ar, g, p, ids, n) matches Some(h) ==> exists|i: int|
            0 <= i < polyline_of(ar, g, h.curve).len() - 1 && hit_on(
                ar,
                p,
                #[trigger] polyline_of(ar, g, h.curve)[i],
                polyline_of(ar, g, h.curve)[i + 1],
                h,
            ),
    decreases n,
{
    if n > 0 {
        lemma_hit_on_some(ar, g, p, ids, n - 1);
        let poly = polyline_of(ar, g, ids[n - 1]);
        law_polyline_keeps_endpoints(ar, g, ids[n - 1]);
        lemma_hit_on_curve(
            ar,
            p,
            ids[n - 1],
            poly,
            poly.len() - 1,
            nearest_curve_below(ar, g, p, ids, n - 1),
        );
    }
}

/// The nearest curve is told with the place on its polyline that is nearest, its
/// distance, and the parameter there; no segment of a live curve comes nearer.
pub proof fn law_nearest_curve_place(ar: Arith, g: Graph, p: Point)
    requires
        graph_wf(g),
    ensures
        match nearest_curve_of(ar, g, p) {
            None => forall|c: CurveId| !#[trigger] curve_live(g, c),
            Some(h) => {
                &&& curve_live(g, h.curve)
                &&& exists|i: int|
                    0 <= i < polyline_of(ar, g, h.curve).len() - 1 && hit_on(
                        ar,
                        p,
                        #[trigger] polyline_of(ar, g, h.curve)[i],
                        polyline_of(ar, g, h.curve)[i + 1],
                        h,
                    )
                &&& forall|c: CurveId, i: int|
                    #![trigger curve_live(g, c), polyline_of(ar, g, c)[i]]
                    curve_live(g, c) && 0 <= i < polyline_of(ar, g, c).len() - 1 ==> {
                        let (a, b) = (polyline_of(ar, g, c)[i].1, polyline_of(ar, g, c)[i + 1].1);
                        let u = nearest_fraction(ar, p, a, b);
                        !spec_dist(ar, p, point_at(ar, a, b, u)).spec_lt(h.dist)
                    }
            },
        },
{
    let ids = curve_ids_of(g);
    law_nearest_curve(ar, g, p);
    lemma_hit_on_some(ar, g, p, ids, ids.len() as int);
    if let Some(h) = nearest_curve_of(ar, g, p) {
        assert forall|c: CurveId, i: int|
            #![trigger curve_live(g, c), polyline_of(ar, g, c)[i]]
            curve_live(g, c) && 0 <= i < polyline_of(ar, g, c).len() - 1 implies {
            let (a, b) = (polyline_of(ar, g, c)[i].1, polyline_of(ar, g, c)[i + 1].1);
            let u = nearest_fraction(ar, p, a, b);
            !spec_dist(ar, p, point_at(ar, a, b, u)).spec_lt(h.dist)
        } by {
            lemma_project(ar, p, polyline_of(ar, g, c)[i].1, polyline_of(ar, g, c)[i + 1].1);
        }
    }
}

/// The distance from `p` of the `i`-th segment of a tagged polyline.
pub open spec fn segment_off(ar: Arith, p: Point, poly: Seq<Tagged>, i: int) -> Scalar {
    let u = nearest_fraction(ar, p, poly[i].1, poly[i + 1].1);
    spec_dist(ar, p, point_at(ar, poly[i].1, poly[i + 1].1, u))
}

/// The hit is on the `i`-th segment of the polyline, and none before that is as
/// near.
pub open spec fn first_on(ar: Arith, p: Point, poly: Seq<Tagged>, i: int, h: CurveHit) -> bool {
    &&& 0 <= i < poly.len() - 1
    &&& hit_on(ar, p, poly[i], poly[i + 1], h)
    &&& forall|j: int| 0 <= j < i ==> !(#[trigger] segment_off(ar, p, poly, j)).spec_le(h.dist)
}

proof fn lemma_first_on_curve(
    ar: Arith,
    p: Point,
    c: CurveId,
    poly: Seq<Tagged>,
    n: int,
    best: Option<CurveHit>,
)
    requires
        0 <= n < poly.len(),
    ensures
        nearest_on_curve(ar, p, c, poly, n, best) matches Some(h) ==> {
            &&& forall|j: int|
                0 <= j < n ==> !(#[trigger] segment_off(ar, p, poly, j)).spec_lt(h.dist)
            &&& best == Some(h) || {
                &&& h.curve == c
                &&& best matches Some(b) ==> h.dist.spec_lt(b.dist)
                &&& exists|i: int| i < n && #[trigger] first_on(ar, p, poly, i, h)
            }
        },
    decreases n,
{
    if n > 0 {
        lemma_first_on_curve(ar, p, c, poly, n - 1, best);
        lemma_project(ar, p, poly[n - 1].1, poly[n].1);
        let before = nearest_on_curve(ar, p, c, poly, n - 1, best);
        let h = nearest_on_curve(ar, p, c, poly, n, best)->0;
        let d = segment_off(ar, p, poly, n - 1);
        assert(before is None ==> n == 1);
        if before != Some(h) {
            assert(h.dist == d);
            assert(hit_on(ar, p, poly[n - 1], poly[n - 1 + 1], h));
            assert(first_on(ar, p, poly, n - 1, h));
        }
        assert forall|j: int| 0 <= j < n implies !(#[trigger] segment_off(
            ar,
            p,
            poly,
            j,
        )).spec_lt(h.dist) by {}
    }
}

proof fn lemma_first_curve(ar: Arith, g: Graph, p: Point, ids: Seq<CurveId>, n: int)
    requires
        0 <= n <= ids.len(),
        forall|i: int, j: int|
            #![trigger ids[i], ids[j]]
            0 <= i < j < ids.len() ==> ids[i].0 < ids[j].0,
        forall|i: int| #![trigger ids[i]] 0 <= i < n ==> polyline_of(ar, g, ids[i]).len() > 1,
    ensures
        n > 0 ==> nearest_curve_below(ar, g, p, ids, n) is Some,
        nearest_curve_below(ar, g, p, ids, n) matches Some(h) ==> {
            &&& exists|i: int| #[trigger] first_on(ar, p, polyline_of(ar, g, h.curve), i, h)
            &&& forall|j: int, i: int|
                #![trigger ids[j], segment_off(ar, p, polyline_of(ar, g, ids[j]), i)]
                0 <= j < n && 0 <= i < polyline_of(ar, g, ids[j]).len() - 1 ==> {
                    let d = segment_off(ar, p, polyline_of(ar, g, ids[j]), i);
                    !d.spec_lt(h.dist) && (ids[j].0 < h.curve.0 ==> !d.spec_le(h.dist))
                }
            &&& exists|j: int| 0 <= j < n && #[trigger] ids[j] == h.curve
        },
    decreases n,
{
    if n > 0 {
        lemma_first_curve(ar, g, p, ids, n - 1);
        let c = ids[n - 1];
        let poly = polyline_of(ar, g, c);
        let before = nearest_curve_below(ar, g, p, ids, n - 1);
        assert(poly.len() > 1);
        lemma_first_on_curve(ar, p, c, poly, poly.len() - 1, before);
        lemma_some_on_curve(ar, p, c, poly, poly.len() - 1, before);
        let h = nearest_curve_below(ar, g, p, ids, n)->0;
        if before == Some(h) {
            let k = choose|k: int| 0 <= k < n - 1 && #[trigger] ids[k] == h.curve;
            assert(ids[k].0 < ids[n - 1].0);
        } else {
            assert(ids[n - 1] == h.curve);
        }
        assert forall|j: int, i: int|
            #![trigger ids[j], segment_off(ar, p, polyline_of(ar, g, ids[j]), i)]
            0 <= j < n && 0 <= i < polyline_of(ar, g, ids[j]).len() - 1 implies {
            let d = segment_off(ar, p, polyline_of(ar, g, ids[j]), i);
            !d.spec_lt(h.dist) && (ids[j].0 < h.curve.0 ==> !d.spec_le(h.dist))
        } by {
            if j < n - 1 {
                assert(ids[j].0 < ids[n - 1].0);
            }
        }
    }
}

proof fn lemma_some_on_curve(
    ar: Arith,
    p: Point,
    c: CurveId,
    poly: Seq<Tagged>,
    n: int,
    best: Option<CurveHit>,
)
    ensures
        best is Some || n > 0 ==> nearest_on_curve(ar, p, c, poly, n, best) is Some,
    decreases n,
{
    if n > 0 {
        lemma_some_on_curve(ar, p, c, poly, n - 1, best);
    }
}

/// Of places at one distance the nearest curve is told with the first: no segment
/// before it on its curve, and none of a curve with a lower id, is as near.
pub proof fn law_nearest_curve_first(ar: Arith, g: Graph, p: Point)
    requires
        graph_wf(g),
    ensures
        nearest_curve_of(ar, g, p) matches Some(h) ==> {
            &&& exists|i: int| #[trigger] first_on(ar, p, polyline_of(ar, g, h.curve), i, h)
            &&& forall|c: CurveId, i: int|
                #![trigger curve_live(g, c), segment_off(ar, p, polyline_of(ar, g, c), i)]
                curve_live(g, c) && c.0 < h.curve.0 && 0 <= i < polyline_of(ar, g, c).len() - 1
                    ==> !segment_off(ar, p, polyline_of(ar, g, c), i).spec_le(h.dist)
        },
{
    let ids = curve_ids_of(g);
    let n = ids.len() as int;
    lemma_pick(g.curves, any_curve(), g.curves.len() as int);
    assert forall|i: int| #![trigger ids[i]] 0 <= i < n implies polyline_of(ar, g, ids[i]).len()
        > 1 by {
        law_polyline_keeps_endpoints(ar, g, ids[i]);
    }
    lemma_first_curve(ar, g, p, ids, n);
    if let Some(h) = nearest_curve_of(ar, g, p) {
        assert forall|c: CurveId, i: int|
            #![trigger curve_live(g, c), segment_off(ar, p, polyline_of(ar, g, c), i)]
            curve_live(g, c) && c.0 < h.curve.0 && 0 <= i < polyline_of(ar, g, c).len() - 1 implies
            !segment_off(ar, p, polyline_of(ar, g, c), i).spec_le(h.dist) by {
            assert(ids.contains(c));
            let j = choose|j: int| 0 <= j < ids.len() && ids[j] == c;
            assert(ids[j] == c);
        }
    }
}

// ---- rays and insides ----

/// The ray to the right of `p` crosses a segment where the segment goes from
/// above to below its height or back, an end at that height counting as past it,
/// if that is strictly right of `p`; told with the place and whether the segment's
/// height grows.
pub proof fn law_ray_hit(ar: Arith, p: Point, a: Point, b: Point)
    ensures
        ({
            let grows = a.y.spec_le(p.y) && p.y.spec_lt(b.y);
            let falls = b.y.spec_le(p.y) && p.y.spec_lt(a.y);
            let share = ar(Op::Div, ar(Op::Sub, p.y, a.y), ar(Op::Sub, b.y, a.y));
            let x = ar(Op::Add, a.x, ar(Op::Mul, share, ar(Op::Sub, b.x, a.x)));
            spec_ray_hit(ar, p, a, b) == if (grows || falls) && p.x.spec_lt(x) {
                Some((x, grows))
            } else {
                None
            }
        }),
{
}

/// The ray to the right of `p` crosses the `i`-th side of the closed polyline.
pub open spec fn side_crossed(ar: Arith, p: Point, poly: Seq<Point>, i: int) -> bool {
    &&& 0 <= i < poly.len()
    &&& spec_ray_hit(
        ar,
        p,
        poly[i],
        poly[if i + 1 == poly.len() {
            0
        } else {
            i + 1
        }],
    ) is Some
}

proof fn lemma_crossings(ar: Arith, p: Point, poly: Seq<Point>, n: int)
    requires
        0 <= n <= poly.len(),
    ensures
        Set::new(|i: int| i < n && side_crossed(ar, p, poly, i)).finite(),
        Set::new(|i: int| i < n && side_crossed(ar, p, poly, i)).len() == crossings_below(
            ar,
            p,
            poly,
            n,
        ),
    decreases n,
{
    let all = Set::new(|i: int| i < n && side_crossed(ar, p, poly, i));
    if n > 0 {
        lemma_crossings(ar, p, poly, n - 1);
        let rest = Set::new(|i: int| i < n - 1 && side_crossed(ar, p, poly, i));
        assert(corner_after(poly, n - 1) == poly[if n == poly.len() {
            0
        } else {
            n
        }]);
        if side_crossed(ar, p, poly, n - 1) {
            assert(all =~= rest.insert(n - 1));
        } else {
            assert(all =~= rest);
        }
    } else {
        assert(all =~= Set::empty());
    }
}

/// A point is inside a closed polyline when the ray to its right crosses an odd
/// number of the sides, the one from the last corner to the first among them.
pub proof fn law_inside_is_odd(ar: Arith, p: Point, poly: Seq<Point>)
    ensures
        Set::new(|i: int| side_crossed(ar, p, poly, i)).finite(),
        in_polyline(ar, p, poly) <==> Set::new(|i: int| side_crossed(ar, p, poly, i)).len() % 2
            == 1,
{
    let n = poly.len() as int;
    lemma_crossings(ar, p, poly, n);
    assert(Set::new(|i: int| i < n && side_crossed(ar, p, poly, i)) =~= Set::new(
        |i: int| side_crossed(ar, p, poly, i),
    ));
}

proof fn lemma_crossings_prefix(
    ar: Arith,
    p: Point,
    a: Seq<Seq<Point>>,
    b: Seq<Seq<Point>>,
    n: int,
)
    requires
        0 <= n <= a.len(),
        n <= b.len(),
        forall|i: int| 0 <= i < n ==> a[i] == b[i],
    ensures
        crossings_of_all(ar, p, a, n) == crossings_of_all(ar, p, b, n),
    decreases n,
{
    if n > 0 {
        lemma_crossings_prefix(ar, p, a, b, n - 1);
    }
}

/// A point is inside several closed polylines together by the even-odd rule: in
/// none of none, and one more polyline turns the answer around just where the point
/// is inside it.
pub proof fn law_inside_together(ar: Arith, p: Point, polys: Seq<Seq<Point>>, more: Seq<Point>)
    ensures
        !in_polylines(ar, p, Seq::empty()),
        in_polylines(ar, p, polys.push(more)) <==> in_polylines(ar, p, polys) != in_polyline(
            ar,
            p,
            more,
        ),
{
    let n = polys.len() as int;
    lemma_crossings_prefix(ar, p, polys, polys.push(more), n);
    assert(polys.push(more)[n] == more);
    assert(crossings_of_all(ar, p, Seq::empty(), 0) == 0);
}

/// A fill's loops are drawn loop by loop, and none is left out.
pub proof fn law_fill_polylines(ar: Arith, g: Graph, loops: Seq<Seq<HalfEdge>>)
    ensures
        loop_polys(ar, g, loops).len() == loops.len(),
        forall|i: int|
            0 <= i < loops.len() ==> #[trigger] loop_polys(ar, g, loops)[i] == loop_poly(
                ar,
                g,
                loops[i],
            ),
{
}

/// A fill without loops covers nothing, and one more loop turns around what it
/// covers just inside that loop, whatever its payload and anchor.
pub proof fn law_fill_covers(ar: Arith, g: Graph, f: Fill, h: Fill, lp: Seq<HalfEdge>, p: Point)
    requires
        h.loops == f.loops.push(lp),
    ensures
        f.loops.len() == 0 ==> !in_fill(ar, g, f, p),
        in_fill(ar, g, h, p) <==> in_fill(ar, g, f, p) != in_polyline(ar, p, loop_poly(ar, g, lp)),
{
    let polys = loop_polys(ar, g, f.loops);
    law_inside_together(ar, p, polys, loop_poly(ar, g, lp));
    assert(loop_polys(ar, g, h.loops) =~= polys.push(loop_poly(ar, g, lp)));
    if f.loops.len() == 0 {
        assert(polys =~= Seq::empty());
    }
}

/// The fill at a point is live and covers it, no live fill with a lower id does,
/// and there is none only where no live fill covers it.
pub proof fn law_fill_at(ar: Arith, m: Model, p: Point)
    requires
        m.fills.len() <= u32::MAX,
    ensures
        match fill_hit(ar, m, p, 0) {
            Some(f) => {
                &&& f.0 < m.fills.len()
                &&& m.fills[f.0 as int] is Some
                &&& in_fill(ar, m.g, m.fills[f.0 as int]->0, p)
                &&& forall|i: int|
                    0 <= i < f.0 && (#[trigger] m.fills[i]) is Some ==> !in_fill(
                        ar,
                        m.g,
                        m.fills[i]->0,
                        p,
                    )
            },
            None => forall|i: int|
                0 <= i < m.fills.len() && (#[trigger] m.fills[i]) is Some ==> !in_fill(
                    ar,
                    m.g,
                    m.fills[i]->0,
                    p,
                ),
        },
{
    lemma_fill_hit(ar, m, p, 0);
}

/// The area is half the sum, taken up side by side, of what the sides span with
/// the origin.
pub proof fn law_area(ar: Arith, poly: Seq<Point>) -> (sums: Seq<Scalar>)
    ensures
        sums.len() == poly.len() + 1,
        sums[0] == num(ZERO),
        forall|i: int|
            #![trigger sums[i]]
            0 <= i < poly.len() ==> {
                let (a, b) = (poly[i], poly[if i + 1 == poly.len() {
                    0
                } else {
                    i + 1
                }]);
                sums[i + 1] == ar(
                    Op::Add,
                    sums[i],
                    ar(Op::Sub, ar(Op::Mul, a.x, b.y), ar(Op::Mul, b.x, a.y)),
                )
            },
        area_of(ar, poly) == ar(Op::Mul, sums.last(), num(HALF)),
{
    let sums = Seq::new((poly.len() + 1) as nat, |i: int| shoelace_below(ar, poly, i));
    assert forall|i: int| #![trigger sums[i]] 0 <= i < poly.len() implies {
        let (a, b) = (poly[i], poly[if i + 1 == poly.len() {
            0
        } else {
            i + 1
        }]);
        sums[i + 1] == ar(
            Op::Add,
            sums[i],
            ar(Op::Sub, ar(Op::Mul, a.x, b.y), ar(Op::Mul, b.x, a.y)),
        )
    } by {
        assert(sums[i + 1] == shoelace_below(ar, poly, i + 1));
        assert(corner_after(poly, i) == poly[if i + 1 == poly.len() {
            0
        } else {
            i + 1
        }]);
    }
    sums
}

/// Two segments intersect where their lines are not parallel and cross at a
/// fraction of each from zero to one; they are told those fractions.
pub proof fn law_seg_isect(ar: Arith, a0: Point, a1: Point, b0: Point, b1: Point)
    ensures
        ({
            let (px, py) = (ar(Op::Sub, a1.x, a0.x), ar(Op::Sub, a1.y, a0.y));
            let (qx, qy) = (ar(Op::Sub, b1.x, b0.x), ar(Op::Sub, b1.y, b0.y));
            let (wx, wy) = (ar(Op::Sub, b0.x, a0.x), ar(Op::Sub, b0.y, a0.y));
            let cross = ar(Op::Sub, ar(Op::Mul, px, qy), ar(Op::Mul, py, qx));
            let s = ar(Op::Div, ar(Op::Sub, ar(Op::Mul, wx, qy), ar(Op::Mul, wy, qx)), cross);
            let t = ar(Op::Div, ar(Op::Sub, ar(Op::Mul, wx, py), ar(Op::Mul, wy, px)), cross);
            spec_seg_isect(ar, a0, a1, b0, b1) == if (cross.spec_lt(num(ZERO)) || num(
                ZERO,
            ).spec_lt(cross)) && num(ZERO).spec_le(s) && s.spec_le(num(ONE)) && num(ZERO).spec_le(t)
                && t.spec_le(num(ONE)) {
                Some((s, t))
            } else {
                None
            }
        }),
{
}

} // verus!
