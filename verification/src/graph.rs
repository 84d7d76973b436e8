//! Vertices and curves: storage, ids, and the rendered polyline of a curve.

use vstd::prelude::*;

use crate::calc::{times, Arith, Calc, Op};
use crate::geom::{
    dist, flatten_cubic_tagged, law_flatten_keeps_endpoints, law_flatten_tags_rise, spec_dist,
    spec_flatten_tagged, tags_rise, untag, untagged, Cubic, Tagged, MAX_POINTS,
};
use crate::point::Point;
use crate::scalar::{num, Scalar, MILLI, ONE, QUARTER, TENTH, ZERO};

verus! {

/// A vertex, by its slot.
#[derive(Clone, Copy, Debug, PartialEq, Eq, Hash, PartialOrd, Ord, Structural)]
pub struct VertexId(pub u32);

/// A curve, by its slot.
#[derive(Clone, Copy, Debug, PartialEq, Eq, Hash, PartialOrd, Ord, Structural)]
pub struct CurveId(pub u32);

/// A fill, by its slot.
#[derive(Clone, Copy, Debug, PartialEq, Eq, Hash, PartialOrd, Ord, Structural)]
pub struct FillId(pub u32);

/// A cubic bezier between two vertices.
#[derive(Clone, Copy, Debug, PartialEq, Eq, Structural)]
pub struct Curve {
    pub v0: VertexId,
    pub c0: Point,
    pub c1: Point,
    pub v1: VertexId,
    /// Opaque caller payload. Rides through every split: when a curve is cut
    /// (self-intersection, crossing, or explicit split) all pieces inherit it.
    /// The library never interprets it. 0 means "untagged".
    pub tag: u64,
}

/// An arrangement's vertices and curves. A slot is never used again once it
/// has been emptied.
pub struct Arrangement {
    pub(crate) verts: Vec<Option<Point>>,
    pub(crate) curves: Vec<Option<Curve>>,
    pub(crate) snap: Scalar,
    pub(crate) tol: Scalar,
}

/// What an arrangement holds.
#[verifier::ext_equal]
pub struct Graph {
    pub verts: Seq<Option<Point>>,
    pub curves: Seq<Option<Curve>>,
    pub snap: Scalar,
    pub tol: Scalar,
}

// ---- the model ----

pub open spec fn vertex_live(g: Graph, id: VertexId) -> bool {
    id.0 < g.verts.len() && g.verts[id.0 as int] is Some
}

pub open spec fn curve_live(g: Graph, id: CurveId) -> bool {
    id.0 < g.curves.len() && g.curves[id.0 as int] is Some
}

pub open spec fn curve_of(g: Graph, id: CurveId) -> Curve {
    g.curves[id.0 as int]->0
}

pub open spec fn vpos_of(g: Graph, id: VertexId) -> Point {
    g.verts[id.0 as int]->0
}

/// `v` is an endpoint of the curve.
pub open spec fn ends_at(g: Graph, c: CurveId, v: VertexId) -> bool {
    curve_of(g, c).v0 == v || curve_of(g, c).v1 == v
}

/// Every live curve runs between live vertices, and every slot has an id.
pub open spec fn graph_wf(g: Graph) -> bool {
    &&& g.verts.len() <= u32::MAX
    &&& g.curves.len() <= u32::MAX
    &&& forall|i: int|
        0 <= i < g.curves.len() && (#[trigger] g.curves[i]) is Some ==> vertex_live(
            g,
            (g.curves[i]->0).v0,
        ) && vertex_live(g, (g.curves[i]->0).v1)
}

/// The control points of a curve, endpoints resolved through its vertices.
pub open spec fn points_of(g: Graph, id: CurveId) -> Cubic {
    let c = curve_of(g, id);
    Cubic { p0: vpos_of(g, c.v0), p1: c.c0, p2: c.c1, p3: vpos_of(g, c.v1) }
}

/// The ids below `n` of the live curves that `pred` picks, in ascending order.
pub open spec fn pick(
    curves: Seq<Option<Curve>>,
    pred: spec_fn(CurveId, Curve) -> bool,
    n: int,
) -> Seq<CurveId>
    decreases n,
{
    if n <= 0 {
        Seq::empty()
    } else {
        let rest = pick(curves, pred, n - 1);
        let id = CurveId((n - 1) as u32);
        if curves[n - 1] is Some && pred(id, curves[n - 1]->0) {
            rest.push(id)
        } else {
            rest
        }
    }
}

pub open spec fn any_curve() -> spec_fn(CurveId, Curve) -> bool {
    |id: CurveId, c: Curve| true
}

pub open spec fn touching(v: VertexId) -> spec_fn(CurveId, Curve) -> bool {
    |id: CurveId, c: Curve| c.v0 == v || c.v1 == v
}

/// The live curves, in ascending order.
pub open spec fn curve_ids_of(g: Graph) -> Seq<CurveId> {
    pick(g.curves, any_curve(), g.curves.len() as int)
}

/// The live curves at a vertex, in ascending order.
pub open spec fn incident_to(g: Graph, v: VertexId) -> Seq<CurveId> {
    pick(g.curves, touching(v), g.curves.len() as int)
}

/// The ids below `n` of the live vertices, in ascending order.
pub open spec fn vertices_below(verts: Seq<Option<Point>>, n: int) -> Seq<VertexId>
    decreases n,
{
    if n <= 0 {
        Seq::empty()
    } else {
        let rest = vertices_below(verts, n - 1);
        if verts[n - 1] is Some {
            rest.push(VertexId((n - 1) as u32))
        } else {
            rest
        }
    }
}

/// The live vertices, in ascending order.
pub open spec fn vertex_ids_of(g: Graph) -> Seq<VertexId> {
    vertices_below(g.verts, g.verts.len() as int)
}

/// The members of a pick are exactly the live curves that the predicate
/// picks, each once, in ascending order.
pub proof fn lemma_pick(
    curves: Seq<Option<Curve>>,
    pred: spec_fn(CurveId, Curve) -> bool,
    n: int,
)
    requires
        0 <= n <= curves.len() <= u32::MAX,
    ensures
        pick(curves, pred, n).len() <= n,
        forall|id: CurveId|
            #![trigger pick(curves, pred, n).contains(id)]
            pick(curves, pred, n).contains(id) <==> id.0 < n && curves[id.0 as int] is Some && pred(
                id,
                curves[id.0 as int]->0,
            ),
        forall|i: int, j: int|
            #![trigger pick(curves, pred, n)[i], pick(curves, pred, n)[j]]
            0 <= i < j < pick(curves, pred, n).len() ==> pick(curves, pred, n)[i].0 < pick(
                curves,
                pred,
                n,
            )[j].0,
        forall|i: int|
            #![trigger pick(curves, pred, n)[i]]
            0 <= i < pick(curves, pred, n).len() ==> pick(curves, pred, n)[i].0 < n
                && curves[pick(curves, pred, n)[i].0 as int] is Some && pred(
                pick(curves, pred, n)[i],
                curves[pick(curves, pred, n)[i].0 as int]->0,
            ),
    decreases n,
{
    if n > 0 {
        lemma_pick(curves, pred, n - 1);
        let rest = pick(curves, pred, n - 1);
        let all = pick(curves, pred, n);
        let last = CurveId((n - 1) as u32);
        assert forall|id: CurveId| #[trigger] all.contains(id) <==> id.0 < n && curves[id.0 as int]
            is Some && pred(id, curves[id.0 as int]->0) by {
            if all.contains(id) {
                let i = choose|i: int| 0 <= i < all.len() && all[i] == id;
                if i < rest.len() {
                    assert(rest[i] == id);
                }
            }
            if id.0 < n && curves[id.0 as int] is Some && pred(id, curves[id.0 as int]->0) {
                if id.0 == n - 1 {
                    assert(id == last);
                    assert(all[all.len() - 1] == id);
                } else {
                    assert(rest.contains(id));
                    let i = choose|i: int| 0 <= i < rest.len() && rest[i] == id;
                    assert(all[i] == id);
                }
            }
        }
    }
}

/// The members of `vertices_below` are exactly the live vertices, each once,
/// in ascending order.
pub proof fn lemma_vertices(verts: Seq<Option<Point>>, n: int)
    requires
        0 <= n <= verts.len() <= u32::MAX,
    ensures
        vertices_below(verts, n).len() <= n,
        forall|id: VertexId|
            #![trigger vertices_below(verts, n).contains(id)]
            vertices_below(verts, n).contains(id) <==> id.0 < n && verts[id.0 as int] is Some,
        forall|i: int, j: int|
            #![trigger vertices_below(verts, n)[i], vertices_below(verts, n)[j]]
            0 <= i < j < vertices_below(verts, n).len() ==> vertices_below(verts, n)[i].0
                < vertices_below(verts, n)[j].0,
        forall|i: int|
            #![trigger vertices_below(verts, n)[i]]
            0 <= i < vertices_below(verts, n).len() ==> vertices_below(verts, n)[i].0 < n
                && verts[vertices_below(verts, n)[i].0 as int] is Some,
    decreases n,
{
    if n > 0 {
        lemma_vertices(verts, n - 1);
        let rest = vertices_below(verts, n - 1);
        let all = vertices_below(verts, n);
        assert forall|id: VertexId| #[trigger] all.contains(id) <==> id.0 < n && verts[id.0 as int]
            is Some by {
            if all.contains(id) {
                let i = choose|i: int| 0 <= i < all.len() && all[i] == id;
                if i < rest.len() {
                    assert(rest[i] == id);
                }
            }
            if id.0 < n && verts[id.0 as int] is Some {
                if id.0 == n - 1 {
                    assert(all[all.len() - 1] == id);
                } else {
                    assert(rest.contains(id));
                    let i = choose|i: int| 0 <= i < rest.len() && rest[i] == id;
                    assert(all[i] == id);
                }
            }
        }
    }
}

// ---- the rendered polyline ----

/// `p` lies at least `r` away from `c`.
pub open spec fn spec_far(ar: Arith, p: Point, c: Point, r: Scalar) -> bool {
    r.spec_le(spec_dist(ar, p, c))
}

/// The first point from index `i` on that is far from `c`, or the length.
pub open spec fn first_far(ar: Arith, poly: Seq<Tagged>, c: Point, r: Scalar, i: int) -> int
    decreases poly.len() - i,
{
    if i >= poly.len() {
        poly.len() as int
    } else if spec_far(ar, poly[i].1, c, r) {
        i
    } else {
        first_far(ar, poly, c, r, i + 1)
    }
}

/// The last of the first `n` points that is far from `c`, or -1.
pub open spec fn last_far(ar: Arith, poly: Seq<Tagged>, c: Point, r: Scalar, n: int) -> int
    decreases n,
{
    if n <= 0 {
        -1
    } else if spec_far(ar, poly[n - 1].1, c, r) {
        n - 1
    } else {
        last_far(ar, poly, c, r, n - 1)
    }
}

/// The polyline with a straight stub up to where, past its start, it leaves the
/// disk of radius `r` around its start; only its endpoints when it never leaves.
pub open spec fn spec_straight_start(ar: Arith, poly: Seq<Tagged>, r: Scalar) -> Seq<Tagged> {
    let exit = first_far(ar, poly, poly[0].1, r, 1);
    if exit == poly.len() {
        seq![(num(ZERO), poly[0].1), poly.last()]
    } else if exit > 1 {
        poly.take(1) + poly.skip(exit)
    } else {
        poly
    }
}

/// The polyline with a straight stub from where it enters the disk of radius
/// `r` around its end for good.
pub open spec fn spec_straight_end(ar: Arith, poly: Seq<Tagged>, r: Scalar) -> Seq<Tagged> {
    let back = last_far(ar, poly, poly.last().1, r, poly.len() - 1);
    if back >= 0 && back + 2 < poly.len() {
        poly.take(back + 1).push(poly.last())
    } else {
        poly
    }
}

/// Both ends straightened.
pub open spec fn spec_straighten(ar: Arith, poly: Seq<Tagged>, r: Scalar) -> Seq<Tagged> {
    if first_far(ar, poly, poly[0].1, r, 1) == poly.len() {
        spec_straight_start(ar, poly, r)
    } else {
        spec_straight_end(ar, spec_straight_start(ar, poly, r), r)
    }
}

/// The curve's rendered polyline: flattened at the arrangement's tolerance,
/// with the portion inside a snap-radius disk around each endpoint replaced by
/// a straight stub.
#[verifier::opaque]
pub open spec fn polyline_of(ar: Arith, g: Graph, id: CurveId) -> Seq<Tagged> {
    spec_straighten(ar, spec_flatten_tagged(ar, points_of(g, id), g.tol), g.snap)
}

/// The distance within which polylines count as touching.
pub open spec fn eps_of(ar: Arith, g: Graph) -> Scalar {
    times(ar, g.snap, num(QUARTER))
}

proof fn lemma_first_far(ar: Arith, poly: Seq<Tagged>, c: Point, r: Scalar, i: int)
    requires
        0 <= i <= poly.len(),
    ensures
        i <= first_far(ar, poly, c, r, i) <= poly.len(),
        first_far(ar, poly, c, r, i) < poly.len() ==> spec_far(
            ar,
            poly[first_far(ar, poly, c, r, i)].1,
            c,
            r,
        ),
    decreases poly.len() - i,
{
    if i < poly.len() && !spec_far(ar, poly[i].1, c, r) {
        lemma_first_far(ar, poly, c, r, i + 1);
    }
}

proof fn lemma_last_far(ar: Arith, poly: Seq<Tagged>, c: Point, r: Scalar, n: int)
    requires
        0 <= n <= poly.len(),
    ensures
        -1 <= last_far(ar, poly, c, r, n) < n || (n == 0 && last_far(ar, poly, c, r, n) == -1),
        last_far(ar, poly, c, r, n) >= 0 ==> spec_far(
            ar,
            poly[last_far(ar, poly, c, r, n)].1,
            c,
            r,
        ),
        last_far(ar, poly, c, r, n) == -1 ==> forall|i: int|
            0 <= i < n ==> !spec_far(ar, (#[trigger] poly[i]).1, c, r),
    decreases n,
{
    if n > 0 && !spec_far(ar, poly[n - 1].1, c, r) {
        lemma_last_far(ar, poly, c, r, n - 1);
    }
}

/// A rendered polyline runs from its curve's first vertex to its last.
pub proof fn law_polyline_keeps_endpoints(ar: Arith, g: Graph, id: CurveId)
    ensures
        2 <= polyline_of(ar, g, id).len() <= MAX_POINTS,
        polyline_of(ar, g, id).first() == (num(ZERO), points_of(g, id).p0),
        polyline_of(ar, g, id).last() == (num(ONE), points_of(g, id).p3),
{
    reveal(polyline_of);
    let r = g.snap;
    let poly = spec_flatten_tagged(ar, points_of(g, id), g.tol);
    law_flatten_keeps_endpoints(ar, points_of(g, id), g.tol);
    lemma_first_far(ar, poly, poly[0].1, r, 1);
    let p1 = spec_straight_start(ar, poly, r);
    lemma_last_far(ar, p1, p1.last().1, r, p1.len() - 1);
}

/// A rendered polyline of more than one segment leaves its first vertex by a
/// stub as long as the disk's radius or longer, and so it enters its last one,
/// unless no other point of it lies that far away.
pub proof fn law_polyline_stubs(ar: Arith, g: Graph, id: CurveId)
    ensures
        ({
            let r = g.snap;
            let p = points_of(g, id);
            let poly = polyline_of(ar, g, id);
            poly.len() > 2 ==> {
                &&& spec_far(ar, poly[1].1, p.p0, r)
                &&& spec_far(ar, poly[poly.len() - 2].1, p.p3, r) || forall|i: int|
                    0 <= i < poly.len() - 1 ==> !spec_far(ar, (#[trigger] poly[i]).1, p.p3, r)
            }
        }),
{
    reveal(polyline_of);
    let r = g.snap;
    let poly = spec_flatten_tagged(ar, points_of(g, id), g.tol);
    law_flatten_keeps_endpoints(ar, points_of(g, id), g.tol);
    lemma_first_far(ar, poly, poly[0].1, r, 1);
    let p1 = spec_straight_start(ar, poly, r);
    lemma_last_far(ar, p1, p1.last().1, r, p1.len() - 1);
}

/// `to` holds what `from` has at the places `at`, which go up.
pub open spec fn picked(at: Seq<int>, from: Seq<Tagged>, to: Seq<Tagged>) -> bool {
    &&& at.len() == to.len()
    &&& forall|i: int|
        #![trigger at[i]]
        #![trigger to[i]]
        0 <= i < at.len() ==> 0 <= at[i] < from.len() && to[i] == from[at[i]]
    &&& forall|i: int, j: int| 0 <= i < j < at.len() ==> #[trigger] at[i] < #[trigger] at[j]
}

/// `to` is `from` with some points left out.
pub open spec fn is_subsequence(to: Seq<Tagged>, from: Seq<Tagged>) -> bool {
    exists|at: Seq<int>| picked(at, from, to)
}

/// A rendered polyline is the flattened curve with the points between the ends
/// of its stubs left out.
pub proof fn law_polyline_is_subsequence(ar: Arith, g: Graph, id: CurveId)
    ensures
        is_subsequence(polyline_of(ar, g, id), spec_flatten_tagged(ar, points_of(g, id), g.tol)),
{
    reveal(polyline_of);
    let r = g.snap;
    let poly = spec_flatten_tagged(ar, points_of(g, id), g.tol);
    law_flatten_keeps_endpoints(ar, points_of(g, id), g.tol);
    lemma_first_far(ar, poly, poly[0].1, r, 1);
    let exit = first_far(ar, poly, poly[0].1, r, 1);
    let p1 = spec_straight_start(ar, poly, r);
    let skip = if exit > 1 {
        exit - 1
    } else {
        0
    };
    let at1 = if exit == poly.len() {
        seq![0, poly.len() - 1]
    } else {
        Seq::new(
            p1.len(),
            |i: int|
                if i == 0 {
                    0
                } else {
                    i + skip
                },
        )
    };
    assert(picked(at1, poly, p1));
    lemma_last_far(ar, p1, p1.last().1, r, p1.len() - 1);
    let back = last_far(ar, p1, p1.last().1, r, p1.len() - 1);
    let p2 = spec_straight_end(ar, p1, r);
    if exit < poly.len() {
        if back >= 0 && back + 2 < p1.len() {
            let at2 = at1.take(back + 1).push(at1.last());
            assert(picked(at2, poly, p2));
        } else {
            assert(picked(at1, poly, p2));
        }
    }
}

/// The parameters of a rendered polyline strictly increase.
pub proof fn law_polyline_tags_rise(ar: Arith, g: Graph, id: CurveId)
    ensures
        tags_rise(polyline_of(ar, g, id)),
{
    let flat = spec_flatten_tagged(ar, points_of(g, id), g.tol);
    let poly = polyline_of(ar, g, id);
    law_flatten_tags_rise(ar, points_of(g, id), g.tol);
    law_polyline_is_subsequence(ar, g, id);
    let at = choose|at: Seq<int>| picked(at, flat, poly);
    assert forall|i: int, j: int| 0 <= i < j < poly.len() implies (#[trigger] poly[i]).0.spec_lt(
        (#[trigger] poly[j]).0,
    ) by {
        assert(at[i] < at[j]);
        assert(flat[at[i]].0.spec_lt(flat[at[j]].0));
    }
}

/// Some live curve ends at slot `v`.
pub open spec fn vertex_used(g: Graph, v: int) -> bool {
    exists|i: int|
        0 <= i < g.curves.len() && (#[trigger] g.curves[i]) is Some && ((g.curves[i]->0).v0.0 == v
            || (g.curves[i]->0).v1.0 == v)
}

/// The arrangement without the vertices at which no live curve ends.
pub open spec fn swept(g: Graph) -> Graph {
    Graph {
        verts: Seq::new(
            g.verts.len(),
            |v: int|
                if vertex_used(g, v) {
                    g.verts[v]
                } else {
                    None
                },
        ),
        ..g
    }
}

/// Sweeping keeps every curve and its place, and leaves no vertex without a
/// curve.
pub proof fn law_swept(g: Graph)
    requires
        graph_wf(g),
    ensures
        graph_wf(swept(g)),
        swept(g).curves == g.curves,
        forall|id: CurveId| #[trigger]
            curve_live(g, id) ==> points_of(swept(g), id) == points_of(g, id),
        forall|v: VertexId| #[trigger]
            vertex_live(swept(g), v) <==> vertex_live(g, v) && vertex_used(g, v.0 as int),
{
    let s = swept(g);
    assert forall|i: int| 0 <= i < s.curves.len() && (#[trigger] s.curves[i]) is Some implies
        vertex_live(s, (s.curves[i]->0).v0) && vertex_live(s, (s.curves[i]->0).v1) by {
        assert(g.curves[i] is Some);
        assert(vertex_used(g, (s.curves[i]->0).v0.0 as int));
        assert(vertex_used(g, (s.curves[i]->0).v1.0 as int));
    }
    assert forall|id: CurveId| #[trigger] curve_live(g, id) implies points_of(s, id) == points_of(
        g,
        id,
    ) by {
        assert(g.curves[id.0 as int] is Some);
        assert(vertex_used(g, curve_of(g, id).v0.0 as int));
        assert(vertex_used(g, curve_of(g, id).v1.0 as int));
    }
}

// ---- the arrangement ----

impl Arrangement {
    pub open(crate) spec fn view(&self) -> Graph {
        Graph { verts: self.verts@, curves: self.curves@, snap: self.snap, tol: self.tol }
    }

    pub fn new() -> (r: Arrangement)
        ensures
            r@ == (Graph {
                verts: Seq::empty(),
                curves: Seq::empty(),
                snap: num(MILLI),
                tol: num(TENTH),
            }),
            graph_wf(r@),
    {
        Arrangement {
            verts: Vec::new(),
            curves: Vec::new(),
            snap: Scalar { bits: MILLI },
            tol: Scalar { bits: TENTH },
        }
    }

    pub fn alloc_vertex(&mut self, pos: Point) -> (r: VertexId)
        requires
            old(self)@.verts.len() < u32::MAX,
        ensures
            r.0 == old(self)@.verts.len(),
            final(self)@ == (Graph { verts: old(self)@.verts.push(Some(pos)), ..old(self)@ }),
    {
        self.verts.push(Some(pos));
        VertexId((self.verts.len() - 1) as u32)
    }

    pub fn alloc_curve(&mut self, c: Curve) -> (r: CurveId)
        requires
            old(self)@.curves.len() < u32::MAX,
        ensures
            r.0 == old(self)@.curves.len(),
            final(self)@ == (Graph { curves: old(self)@.curves.push(Some(c)), ..old(self)@ }),
    {
        self.curves.push(Some(c));
        CurveId((self.curves.len() - 1) as u32)
    }

    /// Empties a curve's slot.
    pub fn drop_curve(&mut self, id: CurveId)
        requires
            id.0 < old(self)@.curves.len(),
        ensures
            final(self)@ == (Graph {
                curves: old(self)@.curves.update(id.0 as int, None),
                ..old(self)@
            }),
    {
        self.curves.set(id.0 as usize, None);
    }

    pub fn curve(&self, id: CurveId) -> (r: Curve)
        requires
            curve_live(self@, id),
        ensures
            r == curve_of(self@, id),
    {
        self.curves[id.0 as usize].unwrap()
    }

    pub fn curve_live(&self, id: CurveId) -> (r: bool)
        ensures
            r == curve_live(self@, id),
    {
        (id.0 as usize) < self.curves.len() && self.curves[id.0 as usize].is_some()
    }

    pub fn vertex_live(&self, id: VertexId) -> (r: bool)
        ensures
            r == vertex_live(self@, id),
    {
        (id.0 as usize) < self.verts.len() && self.verts[id.0 as usize].is_some()
    }

    pub fn vpos(&self, id: VertexId) -> (r: Point)
        requires
            vertex_live(self@, id),
        ensures
            r == vpos_of(self@, id),
    {
        self.verts[id.0 as usize].unwrap()
    }

    pub fn points(&self, id: CurveId) -> (r: Cubic)
        requires
            graph_wf(self@),
            curve_live(self@, id),
        ensures
            r == points_of(self@, id),
    {
        let c = self.curve(id);
        Cubic { p0: self.vpos(c.v0), p1: c.c0, p2: c.c1, p3: self.vpos(c.v1) }
    }

    pub fn eps<F: Fn(Op, Scalar, Scalar) -> Scalar>(&self, k: &Calc<F>) -> (r: Scalar)
        requires
            k.wf(),
        ensures
            r == eps_of(k@, self@),
    {
        k.times(self.snap, Scalar { bits: QUARTER })
    }

    /// The live curves, in ascending order.
    pub fn curve_ids(&self) -> (r: Vec<CurveId>)
        requires
            graph_wf(self@),
        ensures
            r@ == curve_ids_of(self@),
    {
        let mut out: Vec<CurveId> = Vec::new();
        let n: usize = self.curves.len();
        let mut i: usize = 0;
        while i < n
            invariant
                i <= n == self@.curves.len() <= u32::MAX,
                out@ == pick(self@.curves, any_curve(), i as int),
            decreases n - i,
        {
            if self.curves[i].is_some() {
                out.push(CurveId(i as u32));
            }
            i = i + 1;
        }
        out
    }

    /// The live vertices, in ascending order.
    pub fn vertex_ids(&self) -> (r: Vec<VertexId>)
        requires
            graph_wf(self@),
        ensures
            r@ == vertex_ids_of(self@),
    {
        let mut out: Vec<VertexId> = Vec::new();
        let n: usize = self.verts.len();
        let mut i: usize = 0;
        while i < n
            invariant
                i <= n == self@.verts.len() <= u32::MAX,
                out@ == vertices_below(self@.verts, i as int),
            decreases n - i,
        {
            if self.verts[i].is_some() {
                out.push(VertexId(i as u32));
            }
            i = i + 1;
        }
        out
    }

    /// The live curves at `v`, in ascending order.
    pub fn incident_curves(&self, v: VertexId) -> (r: Vec<CurveId>)
        requires
            graph_wf(self@),
        ensures
            r@ == incident_to(self@, v),
    {
        let mut out: Vec<CurveId> = Vec::new();
        let n: usize = self.curves.len();
        let mut i: usize = 0;
        while i < n
            invariant
                i <= n == self@.curves.len() <= u32::MAX,
                out@ == pick(self@.curves, touching(v), i as int),
            decreases n - i,
        {
            if let Some(c) = self.curves[i] {
                if c.v0 == v || c.v1 == v {
                    out.push(CurveId(i as u32));
                }
            }
            i = i + 1;
        }
        out
    }

    /// The curve's rendered polyline with parameter tags.
    pub fn polyline_tagged<F: Fn(Op, Scalar, Scalar) -> Scalar>(
        &self,
        k: &Calc<F>,
        id: CurveId,
    ) -> (r: Vec<Tagged>)
        requires
            k.wf(),
            graph_wf(self@),
            curve_live(self@, id),
        ensures
            r@ == polyline_of(k@, self@, id),
            r@.len() >= 2,
    {
        let pts = self.points(id);
        let poly = flatten_cubic_tagged(k, pts, self.tol);
        let r = self.snap;
        proof {
            reveal(polyline_of);
            law_flatten_keeps_endpoints(k@, pts, self.tol);
            law_polyline_keeps_endpoints(k@, self@, id);
        }
        straighten(k, poly, r)
    }

    /// The curve's rendered polyline.
    pub fn polyline<F: Fn(Op, Scalar, Scalar) -> Scalar>(&self, k: &Calc<F>, id: CurveId) -> (r: Vec<
        Point,
    >)
        requires
            k.wf(),
            graph_wf(self@),
            curve_live(self@, id),
        ensures
            r@ == untagged(polyline_of(k@, self@, id)),
            r@.len() >= 2,
    {
        let poly = self.polyline_tagged(k, id);
        untag(&poly)
    }
}

fn far<F: Fn(Op, Scalar, Scalar) -> Scalar>(k: &Calc<F>, p: Point, c: Point, r: Scalar) -> (b: bool)
    requires
        k.wf(),
    ensures
        b == spec_far(k@, p, c, r),
{
    r.le(dist(k, p, c))
}

/// Replaces the portions of a polyline near its endpoints by straight stubs.
fn straighten<F: Fn(Op, Scalar, Scalar) -> Scalar>(k: &Calc<F>, poly: Vec<Tagged>, r: Scalar) -> (out:
    Vec<Tagged>)
    requires
        k.wf(),
        poly@.len() >= 2,
    ensures
        out@ == spec_straighten(k@, poly@, r),
{
    let n: usize = poly.len();
    let start = poly[0].1;
    let mut exit: usize = 1;
    while exit < n && !far(k, poly[exit].1, start, r)
        invariant
            k.wf(),
            1 <= exit <= n == poly@.len(),
            first_far(k@, poly@, start, r, 1) == first_far(k@, poly@, start, r, exit as int),
        decreases n - exit,
    {
        exit = exit + 1;
    }
    let mut out: Vec<Tagged> = Vec::new();
    if exit == n {
        out.push((Scalar { bits: ZERO }, start));
        out.push(poly[n - 1]);
        assert(out@ =~= spec_straighten(k@, poly@, r));
        return out;
    }
    assert(first_far(k@, poly@, start, r, 1) == exit);
    let ghost p1 = spec_straight_start(k@, poly@, r);
    let mut i: usize = 0;
    if exit > 1 {
        out.push(poly[0]);
        i = exit;
        assert(out@ =~= p1.take(1));
    } else {
        assert(out@ =~= p1.take(0));
    }
    let ghost skip: int = if exit > 1 {
        exit - 1
    } else {
        0
    };
    while i < n
        invariant
            i <= n == poly@.len(),
            0 <= skip <= i,
            p1.len() == n - skip,
            forall|j: int| i <= j < n ==> poly@[j] == #[trigger] p1[j - skip],
            out@ == p1.take(i - skip),
        decreases n - i,
    {
        out.push(poly[i]);
        assert(poly@[i as int] == p1[i - skip]);
        i = i + 1;
        assert(p1.take(i - skip) =~= p1.take(i - 1 - skip).push(p1[i - 1 - skip]));
    }
    assert(p1.take(n - skip) =~= p1);
    let m: usize = out.len();
    let last = out[m - 1];
    let mut back: usize = m - 1;
    while back > 0 && !far(k, out[back - 1].1, last.1, r)
        invariant
            k.wf(),
            back < m == out@.len(),
            out@ == p1,
            last_far(k@, p1, last.1, r, m - 1) == last_far(k@, p1, last.1, r, back as int),
        decreases back,
    {
        back = back - 1;
    }
    if back >= 1 && m - back > 1 {
        out.truncate(back);
        out.push(last);
    }
    out
}

impl Arrangement {
    /// Deletes the vertices at which no live curve ends.
    pub(crate) fn sweep_orphan_vertices(&mut self)
        requires
            graph_wf(old(self)@),
        ensures
            final(self)@ == swept(old(self)@),
            graph_wf(final(self)@),
    {
        let ghost g = self@;
        let n: usize = self.verts.len();
        let mut used: Vec<bool> = Vec::new();
        let mut i: usize = 0;
        while i < n
            invariant
                i <= n,
                used@.len() == i,
                forall|v: int| 0 <= v < i ==> !#[trigger] used@[v],
            decreases n - i,
        {
            used.push(false);
            i = i + 1;
        }
        let m: usize = self.curves.len();
        let mut j: usize = 0;
        while j < m
            invariant
                j <= m == g.curves.len(),
                self@ == g,
                graph_wf(g),
                n == g.verts.len(),
                used@.len() == n,
                forall|v: int|
                    #![trigger used@[v]]
                    0 <= v < n ==> (used@[v] <==> exists|c: int|
                        0 <= c < j && (#[trigger] g.curves[c]) is Some && ((g.curves[c]->0).v0.0
                            == v || (g.curves[c]->0).v1.0 == v)),
            decreases m - j,
        {
            let ghost before = used@;
            assert(self@.curves[j as int] == g.curves[j as int]);
            if let Some(c) = self.curves[j] {
                used.set(c.v0.0 as usize, true);
                used.set(c.v1.0 as usize, true);
            }
            j = j + 1;
            assert forall|v: int| #![trigger used@[v]] 0 <= v < n implies (used@[v] <==> exists|
                c: int,
            |
                0 <= c < j && (#[trigger] g.curves[c]) is Some && ((g.curves[c]->0).v0.0 == v || (
                g.curves[c]->0).v1.0 == v)) by {
                let last = j - 1;
                if used@[v] && !before[v] {
                    assert(g.curves[last] is Some);
                } else if used@[v] {
                    let c = choose|c: int|
                        0 <= c < j - 1 && (#[trigger] g.curves[c]) is Some && ((
                        g.curves[c]->0).v0.0 == v || (g.curves[c]->0).v1.0 == v);
                    assert(g.curves[c] is Some);
                }
                if exists|c: int|
                    0 <= c < j && (#[trigger] g.curves[c]) is Some && ((g.curves[c]->0).v0.0 == v
                        || (g.curves[c]->0).v1.0 == v) {
                    let c = choose|c: int|
                        0 <= c < j && (#[trigger] g.curves[c]) is Some && ((g.curves[c]->0).v0.0
                            == v || (g.curves[c]->0).v1.0 == v);
                    if c < last {
                        assert(before[v]);
                    }
                }
            }
        }
        assert forall|v: int| #![trigger used@[v]] 0 <= v < n implies used@[v] == vertex_used(
            g,
            v,
        ) by {}
        let mut v: usize = 0;
        while v < n
            invariant
                v <= n == g.verts.len(),
                used@.len() == n,
                forall|x: int| #![trigger used@[x]] 0 <= x < n ==> used@[x] == vertex_used(g, x),
                self@.curves == g.curves,
                self@.snap == g.snap,
                self@.tol == g.tol,
                self@.verts.len() == n,
                forall|x: int| 0 <= x < v ==> #[trigger] self@.verts[x] == swept(g).verts[x],
                forall|x: int| v <= x < n ==> #[trigger] self@.verts[x] == g.verts[x],
            decreases n - v,
        {
            let keep = used[v];
            if !keep {
                self.verts.set(v, None);
            }
            v = v + 1;
        }
        assert(self@.verts =~= swept(g).verts);
        proof {
            law_swept(g);
        }
    }

    /// An arrangement with the same slots.
    pub(crate) fn copy(&self) -> (r: Arrangement)
        ensures
            r@ == self@,
    {
        let mut verts: Vec<Option<Point>> = Vec::new();
        let n: usize = self.verts.len();
        let mut i: usize = 0;
        while i < n
            invariant
                i <= n == self@.verts.len(),
                verts@ == self@.verts.take(i as int),
            decreases n - i,
        {
            verts.push(self.verts[i]);
            i = i + 1;
            assert(self@.verts.take(i as int) =~= self@.verts.take(i - 1).push(self@.verts[i - 1]));
        }
        assert(self@.verts.take(n as int) =~= self@.verts);
        let mut curves: Vec<Option<Curve>> = Vec::new();
        let m: usize = self.curves.len();
        let mut j: usize = 0;
        while j < m
            invariant
                j <= m == self@.curves.len(),
                curves@ == self@.curves.take(j as int),
            decreases m - j,
        {
            curves.push(self.curves[j]);
            j = j + 1;
            assert(self@.curves.take(j as int) =~= self@.curves.take(j - 1).push(
                self@.curves[j - 1],
            ));
        }
        assert(self@.curves.take(m as int) =~= self@.curves);
        Arrangement { verts, curves, snap: self.snap, tol: self.tol }
    }
}

} // verus!
