//! Where polylines meet, and what a planar arrangement is, said of segments,
//! distances and vertices.

use vstd::prelude::*;
use vstd::relations::sorted_by;

use crate::calc::{Arith, Op};
use crate::error::Fault;
use crate::finds::{nearest_fraction, point_at};
use crate::geom::{
    law_hits_are_meetings, law_self_meetings_are_hits, lemma_raw_few, spec_lerp, spec_with,
    spec_by_parameter, spec_crossing, spec_cut, spec_dist, spec_frac, spec_hit_keys, spec_lerp_tag,
    spec_meetings, spec_near_end, spec_pair_hits, spec_poly_hits, spec_poly_self_hits,
    spec_raw_hits, spec_seg_dist, spec_seg_isect, spec_segs, spec_self_intersection,
    spec_self_pair_hit, spec_swap, spec_swapped, Cubic, Hit, Tagged, MAX_POINTS,
};
use crate::graph::{
    ends_at, vertex_live, curve_live, eps_of, graph_wf, polyline_of, vertex_used, CurveId, Graph,
    VertexId,
};
use crate::order::{key_leq, lemma_sorted, spec_sorted};
use crate::pipeline::within_snap;
use crate::planar::{
    on_stub_of, at_shared_vertex, law_planar_curves_do_not_cross, law_planar_ends_are_welded,
    law_planar_vertices_snapped, planar,
};
use crate::point::Point;
use crate::scalar::{num, Scalar, E12, E4, E6, FOUR, HALF, ONE_LESS_E6, QUARTER, SIX, THREE, ZERO};
use crate::shape::blend;

verus! {

// ---- meetings ----

/// The segments `a0`-`a1` and `b0`-`b1` of two tagged polylines cross at `h`: the
/// place is on the first, at the fraction where they intersect, and the parameter
/// on the second is that of its nearest point. The place has to be on the second,
/// within `eps` of it, or as close as rounding lets it come.
pub open spec fn crosses_at(
    ar: Arith,
    a0: Tagged,
    a1: Tagged,
    b0: Tagged,
    b1: Tagged,
    eps: Scalar,
    h: Hit,
) -> bool {
    spec_seg_isect(ar, a0.1, a1.1, b0.1, b1.1) matches Some((s, _)) && {
        let place = point_at(ar, a0.1, a1.1, s);
        let d = spec_seg_dist(ar, place, b0.1, b1.1);
        let noise = ar(Op::Mul, num(E12), ar(Op::Add, place.x.spec_abs(), place.y.spec_abs()));
        &&& !num(ZERO).spec_lt(eps) || !eps.spec_le(d) || !noise.spec_le(d)
        &&& h.p == place
        &&& h.t == blend(ar, a0.0, a1.0, s)
        &&& h.u == blend(ar, b0.0, b1.0, nearest_fraction(ar, place, b0.1, b1.1))
    }
}

/// The point `q` of one tagged polyline passes within `eps` of the segment
/// `b0`-`b1` of another, and they meet at `h`, half way between the two.
pub open spec fn touches_at(
    ar: Arith,
    q: Tagged,
    b0: Tagged,
    b1: Tagged,
    eps: Scalar,
    h: Hit,
) -> bool {
    let f = nearest_fraction(ar, q.1, b0.1, b1.1);
    &&& spec_seg_dist(ar, q.1, b0.1, b1.1).spec_lt(eps)
    &&& h.t == q.0
    &&& h.u == blend(ar, b0.0, b1.0, f)
    &&& h.p == point_at(ar, q.1, point_at(ar, b0.1, b1.1, f), num(HALF))
}

/// The meeting as seen from the other side.
pub open spec fn other_way(h: Hit) -> Hit {
    Hit { t: h.u, u: h.t, p: h.p }
}

/// Two segments of tagged polylines meet at `h`: they cross there, as seen from
/// the first or, with `turned`, from the second, or an end of one passes the other.
pub open spec fn meets_at(
    ar: Arith,
    a0: Tagged,
    a1: Tagged,
    b0: Tagged,
    b1: Tagged,
    eps: Scalar,
    turned: bool,
    h: Hit,
) -> bool {
    ||| !turned && crosses_at(ar, a0, a1, b0, b1, eps, h)
    ||| turned && crosses_at(ar, b0, b1, a0, a1, eps, other_way(h))
    ||| touches_at(ar, a0, b0, b1, eps, h)
    ||| touches_at(ar, a1, b0, b1, eps, h)
    ||| touches_at(ar, b0, a0, a1, eps, other_way(h))
    ||| touches_at(ar, b1, a0, a1, eps, other_way(h))
}

proof fn lemma_frac(ar: Arith, p: Point, a: Point, b: Point)
    ensures
        spec_frac(ar, p, a, b).1 == nearest_fraction(ar, p, a, b),
        spec_frac(ar, p, a, b).0 == spec_seg_dist(ar, p, a, b),
{
}

proof fn lemma_cut(
    ar: Arith,
    a0: Tagged,
    a1: Tagged,
    b0: Tagged,
    b1: Tagged,
    eps: Scalar,
    h: Hit,
)
    ensures
        spec_cut(ar, a0, a1, b0, b1, eps) == Some(h) <==> crosses_at(ar, a0, a1, b0, b1, eps, h),
{
    if let Some((s, t)) = spec_seg_isect(ar, a0.1, a1.1, b0.1, b1.1) {
        lemma_frac(ar, point_at(ar, a0.1, a1.1, s), b0.1, b1.1);
        assert(spec_lerp_tag(ar, a0, a1, s) == (
            blend(ar, a0.0, a1.0, s),
            point_at(ar, a0.1, a1.1, s),
        ));
    }
}

proof fn lemma_near_end(ar: Arith, q: Tagged, b0: Tagged, b1: Tagged, eps: Scalar, h: Hit)
    ensures
        spec_near_end(ar, q, b0, b1, eps) == Some(h) <==> touches_at(ar, q, b0, b1, eps, h),
{
    lemma_frac(ar, q.1, b0.1, b1.1);
}

proof fn lemma_swapped(x: Option<Hit>, h: Hit)
    ensures
        spec_swapped(x) == Some(h) <==> x == Some(other_way(h)),
{
    if let Some(y) = x {
        assert(spec_swap(y) == h <==> y == other_way(h));
    }
}

proof fn lemma_five(a: Option<Hit>, b: Option<Hit>, c: Option<Hit>, d: Option<Hit>, e: Option<Hit>, h: Hit)
    ensures
        spec_with(
            spec_with(
                spec_with(
                    spec_with(spec_with(Seq::empty(), a), b),
                    c,
                ),
                d,
            ),
            e,
        ).contains(h) <==> a == Some(h) || b == Some(h) || c == Some(h) || d == Some(h) || e == Some(
            h,
        ),
{
    let s0 = Seq::<Hit>::empty();
    let s1 = spec_with(s0, a);
    let s2 = spec_with(s1, b);
    let s3 = spec_with(s2, c);
    let s4 = spec_with(s3, d);
    lemma_with(s0, a, h);
    lemma_with(s1, b, h);
    lemma_with(s2, c, h);
    lemma_with(s3, d, h);
    lemma_with(s4, e, h);
}

proof fn lemma_with(s: Seq<Hit>, x: Option<Hit>, h: Hit)
    ensures
        spec_with(s, x).contains(h) <==> s.contains(h) || x == Some(h),
{
    let t = spec_with(s, x);
    if t.contains(h) {
        let i = choose|i: int| 0 <= i < t.len() && t[i] == h;
        if i < s.len() {
            assert(s[i] == h);
        }
    }
    if s.contains(h) {
        let i = choose|i: int| 0 <= i < s.len() && s[i] == h;
        assert(t[i] == h);
    }
    if x == Some(h) {
        assert(t[t.len() - 1] == h);
    }
}

proof fn lemma_meets_at(
    ar: Arith,
    a0: Tagged,
    a1: Tagged,
    b0: Tagged,
    b1: Tagged,
    eps: Scalar,
    turned: bool,
    h: Hit,
)
    ensures
        spec_meetings(ar, a0, a1, b0, b1, eps, turned) matches Ok(more) ==> (more.contains(h)
            <==> meets_at(ar, a0, a1, b0, b1, eps, turned, h)),
{
    lemma_cut(ar, a0, a1, b0, b1, eps, h);
    lemma_cut(ar, b0, b1, a0, a1, eps, other_way(h));
    lemma_near_end(ar, a0, b0, b1, eps, h);
    lemma_near_end(ar, a1, b0, b1, eps, h);
    lemma_near_end(ar, b0, a0, a1, eps, other_way(h));
    lemma_near_end(ar, b1, a0, a1, eps, other_way(h));
    lemma_swapped(spec_near_end(ar, b0, a0, a1, eps), h);
    lemma_swapped(spec_near_end(ar, b1, a0, a1, eps), h);
    lemma_swapped(spec_cut(ar, b0, b1, a0, a1, eps), h);
    lemma_five(
        spec_crossing(ar, a0, a1, b0, b1, eps, turned),
        spec_near_end(ar, a0, b0, b1, eps),
        spec_near_end(ar, a1, b0, b1, eps),
        spec_swapped(spec_near_end(ar, b0, a0, a1, eps)),
        spec_swapped(spec_near_end(ar, b1, a0, a1, eps)),
        h,
    );
}

/// The hits of two polylines are the meetings of their segments, all of them and
/// nothing else: where two segments cross, and where an end of one passes within
/// `eps` of the other. They come in the order of their parameters on the first.
pub proof fn law_hits_exactly(
    ar: Arith,
    a: Seq<Tagged>,
    b: Seq<Tagged>,
    eps: Scalar,
    turned: bool,
)
    requires
        a.len() <= MAX_POINTS,
        b.len() <= MAX_POINTS,
    ensures
        spec_poly_hits(ar, a, b, eps, turned) matches Ok(hits) ==> {
            &&& forall|h: Hit, i: int, j: int|
                #![trigger meets_at(ar, a[i], a[i + 1], b[j], b[j + 1], eps, turned, h)]
                0 <= i < a.len() - 1 && 0 <= j < b.len() - 1 && meets_at(
                    ar,
                    a[i],
                    a[i + 1],
                    b[j],
                    b[j + 1],
                    eps,
                    turned,
                    h,
                ) ==> hits.contains(h)
            &&& forall|h: Hit| #[trigger]
                hits.contains(h) ==> exists|i: int, j: int|
                    0 <= i < a.len() - 1 && 0 <= j < b.len() - 1 && #[trigger] meets_at(
                        ar,
                        a[i],
                        a[i + 1],
                        b[j],
                        b[j + 1],
                        eps,
                        turned,
                        h,
                    )
            &&& forall|x: int, y: int|
                0 <= x < y < hits.len() ==> (#[trigger] hits[x]).t.spec_le((#[trigger] hits[y]).t)
        },
{
    law_hits_are_meetings(ar, a, b, eps, turned);
    if let Ok(hits) = spec_poly_hits(ar, a, b, eps, turned) {
        assert forall|h: Hit, i: int, j: int|
            #![trigger meets_at(ar, a[i], a[i + 1], b[j], b[j + 1], eps, turned, h)]
            0 <= i < a.len() - 1 && 0 <= j < b.len() - 1 && meets_at(
                ar,
                a[i],
                a[i + 1],
                b[j],
                b[j + 1],
                eps,
                turned,
                h,
            ) implies hits.contains(h) by {
            lemma_meets_at(ar, a[i], a[i + 1], b[j], b[j + 1], eps, turned, h);
            let found = spec_pair_hits(ar, a, b, eps, turned, i, j);
            assert(found->Ok_0.contains(h));
        }
        assert forall|h: Hit| #[trigger] hits.contains(h) implies exists|i: int, j: int|
            0 <= i < a.len() - 1 && 0 <= j < b.len() - 1 && #[trigger] meets_at(
                ar,
                a[i],
                a[i + 1],
                b[j],
                b[j + 1],
                eps,
                turned,
                h,
            ) by {
            let (i, j) = choose|i: int, j: int|
                0 <= i < spec_segs(a) && 0 <= j < spec_segs(b) && (#[trigger] spec_pair_hits(
                    ar,
                    a,
                    b,
                    eps,
                    turned,
                    i,
                    j,
                ) matches Ok(more) && more.contains(h));
            lemma_meets_at(ar, a[i], a[i + 1], b[j], b[j + 1], eps, turned, h);
            assert(meets_at(ar, a[i], a[i + 1], b[j], b[j + 1], eps, turned, h));
        }
        reveal(spec_poly_hits);
        let raw = spec_raw_hits(ar, a, b, eps, turned, spec_segs(a), 0)->Ok_0;
        lemma_raw_few(ar, a, b, eps, turned);
        lemma_in_order(raw);
    }
}

/// Hits in the order of their first parameter.
proof fn lemma_in_order(raw: Seq<Hit>)
    requires
        raw.len() >= 2 ==> forall|i: int|
            0 <= i < raw.len() ==> !(#[trigger] raw[i]).t.spec_is_nan(),
        raw.len() <= u64::MAX,
    ensures
        ({
            let hits = spec_by_parameter(raw);
            forall|x: int, y: int|
                0 <= x < y < hits.len() ==> (#[trigger] hits[x]).t.spec_le((#[trigger] hits[y]).t)
        }),
{
    let keys = spec_hit_keys(raw);
    let s = spec_sorted(keys);
    lemma_sorted(keys);
    let hits = spec_by_parameter(raw);
    assert forall|x: int, y: int| 0 <= x < y < hits.len() implies (#[trigger] hits[x]).t.spec_le(
        (#[trigger] hits[y]).t,
    ) by {
        assert(key_leq()(s[x], s[y]));
        assert(s.contains(s[x]) && s.contains(s[y]));
        assert(keys.contains(s[x]) && keys.contains(s[y]));
        let i = choose|i: int| 0 <= i < keys.len() && keys[i] == s[x];
        let j = choose|j: int| 0 <= j < keys.len() && keys[j] == s[y];
        assert(hits[x] == raw[i] && hits[y] == raw[j]);
        assert(!raw[i].t.spec_is_nan() && !raw[j].t.spec_is_nan());
    }
}

/// Where two segments of one polyline that do not adjoin cross, at parameters more
/// than a ten-thousandth apart, is among its hits.
pub proof fn law_self_crossings_are_hits(
    ar: Arith,
    a: Seq<Tagged>,
    eps: Scalar,
    i: int,
    j: int,
    h: Hit,
)
    requires
        a.len() <= MAX_POINTS,
        0 <= i,
        i + 2 <= j < a.len() - 1,
        crosses_at(ar, a[i], a[i + 1], a[j], a[j + 1], eps, h),
        num(E4).spec_lt(ar(Op::Sub, h.u, h.t)),
    ensures
        spec_poly_self_hits(ar, a, eps) matches Ok(hits) ==> hits.contains(h),
{
    law_self_meetings_are_hits(ar, a, eps);
    lemma_cut(ar, a[i], a[i + 1], a[j], a[j + 1], eps, h);
    assert(spec_self_pair_hit(ar, a, eps, i, j) == Ok::<Option<Hit>, Fault>(Some(h)));
}

/// The double point of a curve: with the curve written as a cubic polynomial in
/// each coordinate, the sum of the two parameters and what their squares and
/// product add up to solve two linear equations, and the parameters are the two
/// roots with that sum; both have to lie inside the curve, apart from each other.
pub proof fn law_self_intersection(ar: Arith, p: Cubic)
    ensures
        ({
            let cube = |a: Scalar, b: Scalar, c: Scalar, d: Scalar|
                ar(
                    Op::Add,
                    ar(
                        Op::Sub,
                        ar(Op::Add, a.spec_neg(), ar(Op::Mul, num(THREE), b)),
                        ar(Op::Mul, num(THREE), c),
                    ),
                    d,
                );
            let square = |a: Scalar, b: Scalar, c: Scalar|
                ar(
                    Op::Add,
                    ar(Op::Sub, ar(Op::Mul, num(THREE), a), ar(Op::Mul, num(SIX), b)),
                    ar(Op::Mul, num(THREE), c),
                );
            let line = |a: Scalar, b: Scalar|
                ar(Op::Add, ar(Op::Mul, num(THREE).spec_neg(), a), ar(Op::Mul, num(THREE), b));
            let (ax, ay) = (
                cube(p.p0.x, p.p1.x, p.p2.x, p.p3.x),
                cube(p.p0.y, p.p1.y, p.p2.y, p.p3.y),
            );
            let (bx, by) = (
                square(p.p0.x, p.p1.x, p.p2.x),
                square(p.p0.y, p.p1.y, p.p2.y),
            );
            let (cx, cy) = (line(p.p0.x, p.p1.x), line(p.p0.y, p.p1.y));
            let det = ar(Op::Sub, ar(Op::Mul, ax, by), ar(Op::Mul, ay, bx));
            let both = ar(Op::Div, ar(Op::Sub, ar(Op::Mul, bx, cy), ar(Op::Mul, by, cx)), det);
            let sum = ar(Op::Div, ar(Op::Sub, ar(Op::Mul, ay, cx), ar(Op::Mul, ax, cy)), det);
            let product = ar(Op::Sub, ar(Op::Mul, sum, sum), both);
            let disc = ar(Op::Sub, ar(Op::Mul, sum, sum), ar(Op::Mul, num(FOUR), product));
            let root = ar(Op::Sqrt, disc, disc);
            let t1 = ar(Op::Mul, ar(Op::Sub, sum, root), num(HALF));
            let t2 = ar(Op::Mul, ar(Op::Add, sum, root), num(HALF));
            spec_self_intersection(ar, p) == if (det.spec_lt(num(ZERO)) || num(ZERO).spec_lt(det))
                && !disc.spec_le(num(ZERO)) && num(E6).spec_lt(t1) && t2.spec_lt(num(ONE_LESS_E6))
                && num(E6).spec_lt(ar(Op::Sub, t2, t1)) {
                Some((t1, t2))
            } else {
                None
            }
        }),
{
    reveal(spec_self_intersection);
}

// ---- a planar arrangement ----

/// `p` is nearer than the snap distance to a vertex that both curves end at.
pub open spec fn by_common_vertex(ar: Arith, g: Graph, a: CurveId, b: CurveId, p: Point) -> bool {
    let (c, d) = (g.curves[a.0 as int]->0, g.curves[b.0 as int]->0);
    exists|v: VertexId|
        (c.v0 == v || c.v1 == v) && (d.v0 == v || d.v1 == v) && spec_dist(
            ar,
            p,
            (#[trigger] g.verts[v.0 as int])->0,
        ).spec_lt(g.snap)
}

/// What it is for an arrangement to be planar, of two live curves, the one with
/// the lower id first: where segments of their polylines cross, at a place on both,
/// that is by a vertex that both end at; where a point of the one polyline passes
/// within a quarter of the snap distance of a segment of the other, so is the place
/// half way between.
pub proof fn law_planar_means_uncrossed(
    ar: Arith,
    g: Graph,
    a: CurveId,
    b: CurveId,
    i: int,
    j: int,
)
    requires
        graph_wf(g),
        planar(ar, g),
        curve_live(g, a),
        curve_live(g, b),
        a.0 < b.0,
        0 <= i < polyline_of(ar, g, a).len() - 1,
        0 <= j < polyline_of(ar, g, b).len() - 1,
    ensures
        ({
            let (a0, a1) = (polyline_of(ar, g, a)[i], polyline_of(ar, g, a)[i + 1]);
            let (b0, b1) = (polyline_of(ar, g, b)[j], polyline_of(ar, g, b)[j + 1]);
            let eps = ar(Op::Mul, g.snap, num(QUARTER));
            &&& forall|h: Hit| #[trigger]
                crosses_at(ar, a0, a1, b0, b1, eps, h) ==> by_common_vertex(ar, g, a, b, h.p)
            &&& forall|h: Hit| #[trigger]
                touches_at(ar, a0, b0, b1, eps, h) ==> by_common_vertex(ar, g, a, b, h.p)
            &&& forall|h: Hit| #[trigger]
                touches_at(ar, a1, b0, b1, eps, h) ==> by_common_vertex(ar, g, a, b, h.p)
            &&& forall|h: Hit| #[trigger]
                touches_at(ar, b0, a0, a1, eps, h) ==> by_common_vertex(ar, g, a, b, h.p)
            &&& forall|h: Hit| #[trigger]
                touches_at(ar, b1, a0, a1, eps, h) ==> by_common_vertex(ar, g, a, b, h.p)
        }),
{
    let (pa, pb) = (polyline_of(ar, g, a), polyline_of(ar, g, b));
    let (a0, a1) = (pa[i], pa[i + 1]);
    let (b0, b1) = (pb[j], pb[j + 1]);
    let eps = eps_of(ar, g);
    law_planar_curves_do_not_cross(ar, g, a, b);
    assert forall|h: Hit| #[trigger] crosses_at(
        ar,
        a0,
        a1,
        b0,
        b1,
        eps,
        h,
    ) implies by_common_vertex(ar, g, a, b, h.p) by {
        let (s, t) = spec_seg_isect(ar, a0.1, a1.1, b0.1, b1.1)->0;
        assert(spec_lerp(ar, a0.1, a1.1, s) == point_at(ar, a0.1, a1.1, s));
        assert(pa[i] == a0 && pb[j] == b0);
        lemma_common(ar, g, a, b, h.p);
    }
    lemma_touches(ar, g, a, b, i, j, eps);
    lemma_touches(ar, g, a, b, i + 1, j, eps);
    lemma_touches(ar, g, b, a, j, i, eps);
    lemma_touches(ar, g, b, a, j + 1, i, eps);
    assert forall|h: Hit| by_common_vertex(ar, g, b, a, h.p) implies #[trigger] by_common_vertex(
        ar,
        g,
        a,
        b,
        h.p,
    ) by {
        let (c, d) = (g.curves[a.0 as int]->0, g.curves[b.0 as int]->0);
        let v = choose|v: VertexId|
            (d.v0 == v || d.v1 == v) && (c.v0 == v || c.v1 == v) && spec_dist(
                ar,
                h.p,
                (#[trigger] g.verts[v.0 as int])->0,
            ).spec_lt(g.snap);
        assert(spec_dist(ar, h.p, g.verts[v.0 as int]->0).spec_lt(g.snap));
    }
}

proof fn lemma_common(ar: Arith, g: Graph, a: CurveId, b: CurveId, p: Point)
    requires
        at_shared_vertex(ar, g, a, b, p),
    ensures
        by_common_vertex(ar, g, a, b, p),
{
    let v = choose|v: VertexId|
        ends_at(g, a, v) && ends_at(g, b, v)
            && within_snap(ar, g, p, v) && #[trigger] vertex_live(
            g,
            v,
        );
    assert(spec_dist(ar, p, g.verts[v.0 as int]->0).spec_lt(g.snap));
}

proof fn lemma_touches(
    ar: Arith,
    g: Graph,
    a: CurveId,
    b: CurveId,
    i: int,
    j: int,
    eps: Scalar,
)
    requires
        graph_wf(g),
        planar(ar, g),
        curve_live(g, a),
        curve_live(g, b),
        a != b,
        0 <= i < polyline_of(ar, g, a).len(),
        0 <= j < polyline_of(ar, g, b).len() - 1,
        eps == eps_of(ar, g),
    ensures
        forall|h: Hit| #[trigger]
            touches_at(
                ar,
                polyline_of(ar, g, a)[i],
                polyline_of(ar, g, b)[j],
                polyline_of(ar, g, b)[j + 1],
                eps,
                h,
            ) ==> by_common_vertex(ar, g, a, b, h.p),
{
    let q = polyline_of(ar, g, a)[i];
    let (b0, b1) = (polyline_of(ar, g, b)[j], polyline_of(ar, g, b)[j + 1]);
    assert forall|h: Hit| #[trigger] touches_at(ar, q, b0, b1, eps, h) implies by_common_vertex(
        ar,
        g,
        a,
        b,
        h.p,
    ) by {
        law_planar_ends_are_welded(ar, g, a, b, i, j);
        lemma_near_end(ar, q, b0, b1, eps, h);
        let v = choose|v: VertexId|
            on_stub_of(ar, g, a, h.t, v) && on_stub_of(
                ar,
                g,
                b,
                h.u,
                v,
            ) && within_snap(ar, g, h.p, v)
                && #[trigger] vertex_live(g, v);
        assert(spec_dist(ar, h.p, g.verts[v.0 as int]->0).spec_lt(g.snap));
    }
}

/// In a planar arrangement no two vertices at which curves end are nearer to each
/// other than the snap distance.
pub proof fn law_planar_means_snapped(ar: Arith, g: Graph, u: VertexId, v: VertexId)
    requires
        graph_wf(g),
        planar(ar, g),
        vertex_used(g, u.0 as int),
        vertex_used(g, v.0 as int),
        u != v,
    ensures
        !spec_dist(ar, g.verts[u.0 as int]->0, g.verts[v.0 as int]->0).spec_lt(g.snap),
        !spec_dist(ar, g.verts[v.0 as int]->0, g.verts[u.0 as int]->0).spec_lt(g.snap),
{
    law_planar_vertices_snapped(ar, g, u, v);
}

} // verus!
