//! Read-only spatial queries for interactive editing: nearest vertex, nearest
//! point on a curve, and the face a point sits in.
//!
//! Everything works off the same rendered polylines the topology pipeline uses,
//! so a hit is consistent with where a fill or split would actually land.

use vstd::prelude::*;

use crate::calc::{minus, over, plus, times, Arith, Calc, Op};
use crate::error::Fault;
use crate::face::face_of;
use crate::fill::loop_polys;
use crate::geom::{dist, spec_dist, Tagged};
use crate::graph::{
    any_curve, curve_ids_of, curve_live, graph_wf, law_polyline_keeps_endpoints, lemma_pick,
    lemma_vertices, polyline_of, vertex_ids_of, vertex_live, vpos_of, CurveId, Graph, VertexId,
};
use crate::locate::deep;
use crate::point::Point;
use crate::scalar::{num, Scalar, ONE, ZERO};
use crate::scene::Scene;

verus! {

/// A nearest-point-on-a-curve result.
#[derive(Clone, Copy, Debug, PartialEq, Eq, Structural)]
pub struct CurveHit {
    pub curve: CurveId,
    /// Approximate curve parameter at the hit (interpolated from the rendered
    /// polyline's tags). Good enough to snap to; not an exact projection.
    pub t: Scalar,
    /// The nearest point on the rendered polyline.
    pub point: Point,
    pub dist: Scalar,
}

/// `p` projected onto the segment from `a` to `b`: the parameter from 0 to 1,
/// the projected point, and its distance.
pub open spec fn spec_project(ar: Arith, p: Point, a: Point, b: Point) -> (Scalar, Point, Scalar) {
    let vx = minus(ar, b.x, a.x);
    let vy = minus(ar, b.y, a.y);
    let len2 = plus(ar, times(ar, vx, vx), times(ar, vy, vy));
    let u = if len2.spec_le(num(ZERO)) {
        num(ZERO)
    } else {
        over(
            ar,
            plus(ar, times(ar, minus(ar, p.x, a.x), vx), times(ar, minus(ar, p.y, a.y), vy)),
            len2,
        ).spec_clamp(num(ZERO), num(ONE))
    };
    let proj = Point { x: plus(ar, a.x, times(ar, vx, u)), y: plus(ar, a.y, times(ar, vy, u)) };
    (u, proj, spec_dist(ar, p, proj))
}

fn project<F: Fn(Op, Scalar, Scalar) -> Scalar>(k: &Calc<F>, p: Point, a: Point, b: Point) -> (r: (
    Scalar,
    Point,
    Scalar,
))
    requires
        k.wf(),
    ensures
        r == spec_project(k@, p, a, b),
{
    let vx = k.minus(b.x, a.x);
    let vy = k.minus(b.y, a.y);
    let len2 = k.plus(k.times(vx, vx), k.times(vy, vy));
    let u = if len2.le(Scalar { bits: ZERO }) {
        Scalar { bits: ZERO }
    } else {
        k.over(
            k.plus(k.times(k.minus(p.x, a.x), vx), k.times(k.minus(p.y, a.y), vy)),
            len2,
        ).clamp(Scalar { bits: ZERO }, Scalar { bits: ONE })
    };
    let proj = Point { x: k.plus(a.x, k.times(vx, u)), y: k.plus(a.y, k.times(vy, u)) };
    (u, proj, dist(k, p, proj))
}

// ---- vertices ----

/// The nearest to `p` of the first `n` vertices; of two at one distance the
/// earlier.
pub open spec fn nearest_vertex_below(ar: Arith, g: Graph, p: Point, ids: Seq<VertexId>, n: int) -> Option<
    (VertexId, Scalar),
>
    decreases n,
{
    if n <= 0 {
        None
    } else {
        let d = spec_dist(ar, p, vpos_of(g, ids[n - 1]));
        match nearest_vertex_below(ar, g, p, ids, n - 1) {
            None => Some((ids[n - 1], d)),
            Some(best) => if d.spec_rank() < best.1.spec_rank() {
                Some((ids[n - 1], d))
            } else {
                Some(best)
            },
        }
    }
}

/// The nearest live vertex and its distance. Two or more cannot be held against
/// each other when a distance is not a number.
pub open spec fn nearest_vertex_of(ar: Arith, g: Graph, p: Point) -> Result<
    Option<(VertexId, Scalar)>,
    Fault,
> {
    let ids = vertex_ids_of(g);
    if ids.len() >= 2 && exists|i: int|
        0 <= i < ids.len() && spec_dist(ar, p, vpos_of(g, #[trigger] ids[i])).spec_is_nan() {
        Err(Fault::NotANumber)
    } else {
        Ok(nearest_vertex_below(ar, g, p, ids, ids.len() as int))
    }
}

proof fn lemma_nearest_vertex(ar: Arith, g: Graph, p: Point, ids: Seq<VertexId>, n: int)
    requires
        0 <= n <= ids.len(),
        n >= 2 ==> forall|i: int|
            0 <= i < n ==> !spec_dist(ar, p, vpos_of(g, #[trigger] ids[i])).spec_is_nan(),
    ensures
        match nearest_vertex_below(ar, g, p, ids, n) {
            None => n == 0,
            Some((v, d)) => {
                &&& exists|i: int| 0 <= i < n && #[trigger] ids[i] == v
                &&& d == spec_dist(ar, p, vpos_of(g, v))
                &&& n >= 2 ==> forall|i: int|
                    0 <= i < n ==> d.spec_le(spec_dist(ar, p, vpos_of(g, #[trigger] ids[i])))
            },
        },
    decreases n,
{
    if n > 0 {
        lemma_nearest_vertex(ar, g, p, ids, n - 1);
        let last = ids[n - 1];
        if n - 1 == 1 {
            assert(ids[0] == ids[0]);
        }
        if let Some((v, d)) = nearest_vertex_below(ar, g, p, ids, n - 1) {
            let i = choose|i: int| 0 <= i < n - 1 && #[trigger] ids[i] == v;
            assert(ids[i] == v);
        }
    }
}

/// The nearest vertex is a live one, with its distance, and of two or more none
/// is nearer.
pub proof fn law_nearest_vertex(ar: Arith, g: Graph, p: Point)
    requires
        graph_wf(g),
    ensures
        nearest_vertex_of(ar, g, p) matches Ok(r) ==> match r {
            None => forall|v: VertexId| !#[trigger] vertex_live(g, v),
            Some((v, d)) => {
                &&& vertex_live(g, v)
                &&& d == spec_dist(ar, p, vpos_of(g, v))
                &&& forall|u: VertexId| #[trigger]
                    vertex_live(g, u) && u != v ==> d.spec_le(spec_dist(ar, p, vpos_of(g, u)))
            },
        },
{
    let ids = vertex_ids_of(g);
    lemma_vertices(g.verts, g.verts.len() as int);
    if nearest_vertex_of(ar, g, p) is Ok {
        lemma_nearest_vertex(ar, g, p, ids, ids.len() as int);
        if let Some((v, d)) = nearest_vertex_below(ar, g, p, ids, ids.len() as int) {
            let i = choose|i: int| 0 <= i < ids.len() && #[trigger] ids[i] == v;
            assert(ids.contains(v));
            assert forall|u: VertexId| #[trigger] vertex_live(g, u) && u != v implies d.spec_le(
                spec_dist(ar, p, vpos_of(g, u)),
            ) by {
                assert(ids.contains(u));
                let j = choose|j: int| 0 <= j < ids.len() && ids[j] == u;
                assert(ids[j] == u);
            }
        } else {
            assert forall|v: VertexId| !#[trigger] vertex_live(g, v) by {
                if vertex_live(g, v) {
                    assert(ids.contains(v));
                }
            }
        }
    }
}

// ---- curves ----

/// The better of the hit so far and the nearest point on one segment.
pub open spec fn nearer_hit(
    ar: Arith,
    p: Point,
    c: CurveId,
    a: Tagged,
    b: Tagged,
    best: Option<CurveHit>,
) -> Option<CurveHit> {
    let (u, proj, d) = spec_project(ar, p, a.1, b.1);
    let hit = CurveHit {
        curve: c,
        t: plus(ar, a.0, times(ar, minus(ar, b.0, a.0), u)),
        point: proj,
        dist: d,
    };
    match best {
        None => Some(hit),
        Some(h) => if d.spec_lt(h.dist) {
            Some(hit)
        } else {
            best
        },
    }
}

/// The best hit after the first `n` segments of the polyline of `c`.
pub open spec fn nearest_on_curve(
    ar: Arith,
    p: Point,
    c: CurveId,
    poly: Seq<Tagged>,
    n: int,
    best: Option<CurveHit>,
) -> Option<CurveHit>
    decreases n,
{
    if n <= 0 {
        best
    } else {
        nearer_hit(
            ar,
            p,
            c,
            poly[n - 1],
            poly[n],
            nearest_on_curve(ar, p, c, poly, n - 1, best),
        )
    }
}

/// The best hit on the first `n` curves.
pub open spec fn nearest_curve_below(ar: Arith, g: Graph, p: Point, ids: Seq<CurveId>, n: int) -> Option<
    CurveHit,
>
    decreases n,
{
    if n <= 0 {
        None
    } else {
        let poly = polyline_of(ar, g, ids[n - 1]);
        nearest_on_curve(
            ar,
            p,
            ids[n - 1],
            poly,
            poly.len() - 1,
            nearest_curve_below(ar, g, p, ids, n - 1),
        )
    }
}

/// The nearest point on any live curve's rendered polyline; of two at one
/// distance the earlier.
pub open spec fn nearest_curve_of(ar: Arith, g: Graph, p: Point) -> Option<CurveHit> {
    let ids = curve_ids_of(g);
    nearest_curve_below(ar, g, p, ids, ids.len() as int)
}

proof fn lemma_nearest_on_curve(
    ar: Arith,
    p: Point,
    c: CurveId,
    poly: Seq<Tagged>,
    n: int,
    best: Option<CurveHit>,
)
    requires
        0 <= n < poly.len(),
    ensures
        best is Some || n > 0 ==> nearest_on_curve(ar, p, c, poly, n, best) is Some,
        nearest_on_curve(ar, p, c, poly, n, best) matches Some(h) ==> {
            &&& best matches Some(b) ==> !b.dist.spec_lt(h.dist)
            &&& forall|i: int|
                #![trigger poly[i]]
                0 <= i < n ==> !spec_project(ar, p, poly[i].1, poly[i + 1].1).2.spec_lt(h.dist)
            &&& h.curve == c || best == Some(h)
        },
    decreases n,
{
    if n > 0 {
        lemma_nearest_on_curve(ar, p, c, poly, n - 1, best);
        let before = nearest_on_curve(ar, p, c, poly, n - 1, best);
        let now = nearest_on_curve(ar, p, c, poly, n, best);
        if let Some(h) = now {
            assert forall|i: int| #![trigger poly[i]] 0 <= i < n implies !spec_project(
                ar,
                p,
                poly[i].1,
                poly[i + 1].1,
            ).2.spec_lt(h.dist) by {}
        }
    }
}

proof fn lemma_nearest_curve(ar: Arith, g: Graph, p: Point, ids: Seq<CurveId>, n: int)
    requires
        0 <= n <= ids.len(),
    ensures
        n > 0 ==> nearest_curve_below(ar, g, p, ids, n) is Some,
        nearest_curve_below(ar, g, p, ids, n) matches Some(h) ==> {
            &&& exists|j: int| 0 <= j < n && #[trigger] ids[j] == h.curve
            &&& forall|j: int, i: int|
                #![trigger ids[j], polyline_of(ar, g, ids[j])[i]]
                0 <= j < n && 0 <= i < polyline_of(ar, g, ids[j]).len() - 1 ==> !spec_project(
                    ar,
                    p,
                    polyline_of(ar, g, ids[j])[i].1,
                    polyline_of(ar, g, ids[j])[i + 1].1,
                ).2.spec_lt(h.dist)
        },
    decreases n,
{
    if n > 0 {
        lemma_nearest_curve(ar, g, p, ids, n - 1);
        let poly = polyline_of(ar, g, ids[n - 1]);
        law_polyline_keeps_endpoints(ar, g, ids[n - 1]);
        let before = nearest_curve_below(ar, g, p, ids, n - 1);
        lemma_nearest_on_curve(ar, p, ids[n - 1], poly, poly.len() - 1, before);
        let now = nearest_curve_below(ar, g, p, ids, n);
        let h = now->0;
        if h.curve == ids[n - 1] {
            assert(ids[n - 1] == h.curve);
        } else {
            let j = choose|j: int| 0 <= j < n - 1 && #[trigger] ids[j] == h.curve;
            assert(ids[j] == h.curve);
        }
        assert forall|j: int, i: int|
            #![trigger ids[j], polyline_of(ar, g, ids[j])[i]]
            0 <= j < n && 0 <= i < polyline_of(ar, g, ids[j]).len() - 1 implies !spec_project(
            ar,
            p,
            polyline_of(ar, g, ids[j])[i].1,
            polyline_of(ar, g, ids[j])[i + 1].1,
        ).2.spec_lt(h.dist) by {
            if j < n - 1 {
                let b = before->0;
                assert(!spec_project(
                    ar,
                    p,
                    polyline_of(ar, g, ids[j])[i].1,
                    polyline_of(ar, g, ids[j])[i + 1].1,
                ).2.spec_lt(b.dist));
                if b.dist.spec_is_nan() {
                    lemma_nan_stays(ar, p, ids[n - 1], poly, poly.len() - 1, before);
                }
            } else {
                assert(poly[i] == poly[i]);
            }
        }
    }
}

/// A first hit at no number for a distance is never beaten.
proof fn lemma_nan_stays(
    ar: Arith,
    p: Point,
    c: CurveId,
    poly: Seq<Tagged>,
    n: int,
    best: Option<CurveHit>,
)
    requires
        best matches Some(b) && b.dist.spec_is_nan(),
    ensures
        nearest_on_curve(ar, p, c, poly, n, best) == best,
    decreases n,
{
    if n > 0 {
        lemma_nan_stays(ar, p, c, poly, n - 1, best);
    }
}

/// The nearest point on a curve is on a live one; no segment of any live
/// curve's polyline has a nearer point; and there is one whenever there is a
/// curve.
pub proof fn law_nearest_curve(ar: Arith, g: Graph, p: Point)
    requires
        graph_wf(g),
    ensures
        match nearest_curve_of(ar, g, p) {
            None => forall|c: CurveId| !#[trigger] curve_live(g, c),
            Some(h) => {
                &&& curve_live(g, h.curve)
                &&& forall|c: CurveId, i: int|
                    #![trigger curve_live(g, c), polyline_of(ar, g, c)[i]]
                    curve_live(g, c) && 0 <= i < polyline_of(ar, g, c).len() - 1 ==> !spec_project(
                        ar,
                        p,
                        polyline_of(ar, g, c)[i].1,
                        polyline_of(ar, g, c)[i + 1].1,
                    ).2.spec_lt(h.dist)
            },
        },
{
    let ids = curve_ids_of(g);
    lemma_pick(g.curves, any_curve(), g.curves.len() as int);
    lemma_nearest_curve(ar, g, p, ids, ids.len() as int);
    match nearest_curve_of(ar, g, p) {
        None => {
            assert forall|c: CurveId| !#[trigger] curve_live(g, c) by {
                if curve_live(g, c) {
                    assert(ids.contains(c));
                }
            }
        },
        Some(h) => {
            let j = choose|j: int| 0 <= j < ids.len() && #[trigger] ids[j] == h.curve;
            assert(ids.contains(h.curve));
            assert forall|c: CurveId, i: int|
                #![trigger curve_live(g, c), polyline_of(ar, g, c)[i]]
                curve_live(g, c) && 0 <= i < polyline_of(ar, g, c).len() - 1 implies !spec_project(
                ar,
                p,
                polyline_of(ar, g, c)[i].1,
                polyline_of(ar, g, c)[i + 1].1,
            ).2.spec_lt(h.dist) by {
                assert(ids.contains(c));
                let j = choose|j: int| 0 <= j < ids.len() && ids[j] == c;
                assert(polyline_of(ar, g, ids[j])[i] == polyline_of(ar, g, c)[i]);
            }
        },
    }
}

impl Scene {
    /// Nearest live vertex to `p` and its distance, or `None` if the scene has
    /// no vertices.
    pub fn nearest_vertex<F: Fn(Op, Scalar, Scalar) -> Scalar>(&self, k: &Calc<F>, p: Point) -> (r: Result<
        Option<(VertexId, Scalar)>,
        Fault,
    >)
        requires
            k.wf(),
            self.wf(),
        ensures
            r == nearest_vertex_of(k@, self@.g, p),
    {
        let ids = self.vertex_ids();
        proof {
            lemma_vertices(self@.g.verts, self@.g.verts.len() as int);
        }
        let n: usize = ids.len();
        let mut best: Option<(VertexId, Scalar)> = None;
        let mut i: usize = 0;
        while i < n
            invariant
                k.wf(),
                self.wf(),
                i <= n == ids@.len(),
                ids@ == vertex_ids_of(self@.g),
                forall|j: int| 0 <= j < ids@.len() ==> vertex_live(self@.g, #[trigger] ids@[j]),
                n >= 2 ==> forall|j: int|
                    0 <= j < i ==> !spec_dist(k@, p, vpos_of(self@.g, #[trigger] ids@[j])).spec_is_nan(),
                best == nearest_vertex_below(k@, self@.g, p, ids@, i as int),
            decreases n - i,
        {
            let v = ids[i];
            assert(vertex_live(self@.g, ids@[i as int]));
            let d = dist(k, p, self.vertex_pos(v));
            if n >= 2 && d.is_nan() {
                assert(spec_dist(k@, p, vpos_of(self@.g, ids@[i as int])).spec_is_nan());
                return Err(Fault::NotANumber);
            }
            let better = match best {
                None => true,
                Some(b) => d.rank() < b.1.rank(),
            };
            if better {
                best = Some((v, d));
            }
            i = i + 1;
        }
        Ok(best)
    }

    /// Nearest live vertex within `radius`.
    pub fn nearest_vertex_within<F: Fn(Op, Scalar, Scalar) -> Scalar>(
        &self,
        k: &Calc<F>,
        p: Point,
        radius: Scalar,
    ) -> (r: Result<Option<(VertexId, Scalar)>, Fault>)
        requires
            k.wf(),
            self.wf(),
        ensures
            r == match nearest_vertex_of(k@, self@.g, p) {
                Err(e) => Err::<Option<(VertexId, Scalar)>, Fault>(e),
                Ok(None) => Ok(None),
                Ok(Some((v, d))) => Ok(
                    if d.spec_le(radius) {
                        Some((v, d))
                    } else {
                        None
                    },
                ),
            },
    {
        match self.nearest_vertex(k, p) {
            Err(e) => Err(e),
            Ok(None) => Ok(None),
            Ok(Some((v, d))) => {
                if d.le(radius) {
                    Ok(Some((v, d)))
                } else {
                    Ok(None)
                }
            },
        }
    }

    /// Nearest point on any curve's rendered polyline, or `None` if the scene
    /// has no curves.
    pub fn nearest_curve<F: Fn(Op, Scalar, Scalar) -> Scalar>(&self, k: &Calc<F>, p: Point) -> (r: Option<
        CurveHit,
    >)
        requires
            k.wf(),
            self.wf(),
        ensures
            r == nearest_curve_of(k@, self@.g, p),
    {
        let ids = self.curve_ids();
        proof {
            lemma_pick(self@.g.curves, any_curve(), self@.g.curves.len() as int);
        }
        let n: usize = ids.len();
        let mut best: Option<CurveHit> = None;
        let mut i: usize = 0;
        while i < n
            invariant
                k.wf(),
                self.wf(),
                i <= n == ids@.len(),
                forall|j: int| 0 <= j < ids@.len() ==> curve_live(self@.g, #[trigger] ids@[j]),
                best == nearest_curve_below(k@, self@.g, p, ids@, i as int),
            decreases n - i,
        {
            let c = ids[i];
            assert(curve_live(self@.g, ids@[i as int]));
            let poly = self.arr.polyline_tagged(k, c);
            proof {
                law_polyline_keeps_endpoints(k@, self@.g, c);
            }
            let ghost start = best;
            let m: usize = poly.len();
            let mut j: usize = 1;
            while j < m
                invariant
                    k.wf(),
                    1 <= j <= m == poly@.len(),
                    best == nearest_on_curve(k@, p, c, poly@, j - 1, start),
                decreases m - j,
            {
                let (t0, a) = poly[j - 1];
                let (t1, b) = poly[j];
                let (u, proj, d) = project(k, p, a, b);
                let better = match best {
                    None => true,
                    Some(h) => d.lt(h.dist),
                };
                if better {
                    best = Some(
                        CurveHit {
                            curve: c,
                            t: k.plus(t0, k.times(k.minus(t1, t0), u)),
                            point: proj,
                            dist: d,
                        },
                    );
                }
                j = j + 1;
            }
            i = i + 1;
        }
        best
    }

    /// Nearest point on any curve within `radius`.
    pub fn nearest_curve_within<F: Fn(Op, Scalar, Scalar) -> Scalar>(
        &self,
        k: &Calc<F>,
        p: Point,
        radius: Scalar,
    ) -> (r: Option<CurveHit>)
        requires
            k.wf(),
            self.wf(),
        ensures
            r == match nearest_curve_of(k@, self@.g, p) {
                None => None::<CurveHit>,
                Some(h) => if h.dist.spec_le(radius) {
                    Some(h)
                } else {
                    None
                },
            },
    {
        match self.nearest_curve(k, p) {
            None => None,
            Some(h) => {
                if h.dist.le(radius) {
                    Some(h)
                } else {
                    None
                }
            },
        }
    }

    /// The face loops a fill at `p` *would* occupy, flattened to polylines,
    /// without creating a fill. `None` if `p` is not enclosed.
    pub fn face_at<F: Fn(Op, Scalar, Scalar) -> Scalar>(&self, k: &Calc<F>, p: Point) -> (r: Result<
        Option<Vec<Vec<Point>>>,
        Fault,
    >)
        requires
            k.wf(),
            self.wf(),
        ensures
            match face_of(k@, self@.g, p) {
                Err(e) => r == Err::<Option<Vec<Vec<Point>>>, Fault>(e),
                Ok(Err(_)) => r == Ok::<Option<Vec<Vec<Point>>>, Fault>(None),
                Ok(Ok(loops)) => r matches Ok(Some(polys)) && deep(polys@) == loop_polys(
                    k@,
                    self@.g,
                    loops,
                ),
            },
    {
        match self.arr.trace_face(k, p) {
            Err(e) => Err(e),
            Ok(Err(_)) => Ok(None),
            Ok(Ok(loops)) => Ok(Some(self.arr.fill_polys(k, &loops))),
        }
    }
}

} // verus!
