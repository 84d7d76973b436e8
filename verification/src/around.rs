//! What a face depends on: where a walk around it starts makes no difference.

use vstd::prelude::*;

use crate::calc::Arith;
use crate::error::{Fault, FillError};
use crate::face::{
    bounded, face_loops, march, clear_of, curves_in, face_of, holes, lemma_holes, lemma_march,
    lemma_outlines, outer_of, outlines, sheltered, taken, verts_in, Outline,
};
use crate::graph::{
    any_curve, curve_ids_of, lemma_pick, curve_live, ends_at, graph_wf,
    law_polyline_keeps_endpoints, vpos_of, CurveId, Graph, VertexId,
};
use crate::islands::{islands_of, Island};
use crate::locate::{
    corner_after, crossings_below, crossings_of, in_polyline, lemma_raycast, ray_hits,
    ray_hits_curve, raycast, spec_ray_hit,
};
use crate::point::Point;
use crate::walk::{
    face_walk, law_walk_closes, end_of, he_poly_of, is_face_loop, law_face_loops_same_or_disjoint,
    law_next_exists, lemma_he_poly, loop_poly, loop_poly_below, next_of, start_of, HalfEdge,
};

verus! {

// ---- crossings along a path ----

/// How many of the first `n` segments of the path the +x ray from `p` crosses.
pub open spec fn path_crossings(ar: Arith, p: Point, poly: Seq<Point>, n: int) -> nat
    decreases n,
{
    if n <= 0 {
        0
    } else {
        path_crossings(ar, p, poly, n - 1) + if spec_ray_hit(ar, p, poly[n - 1], poly[n]) is Some {
            1nat
        } else {
            0nat
        }
    }
}

/// How often the +x ray from `p` crosses a half-edge.
pub open spec fn he_crossings(ar: Arith, g: Graph, p: Point, he: HalfEdge) -> nat {
    let poly = he_poly_of(ar, g, he);
    path_crossings(ar, p, poly, poly.len() - 1)
}

/// How often the +x ray from `p` crosses the first `n` half-edges.
pub open spec fn walk_crossings(ar: Arith, g: Graph, p: Point, lp: Seq<HalfEdge>, n: int) -> nat
    decreases n,
{
    if n <= 0 {
        0
    } else {
        walk_crossings(ar, g, p, lp, n - 1) + he_crossings(ar, g, p, lp[n - 1])
    }
}

proof fn lemma_path_prefix(ar: Arith, p: Point, a: Seq<Point>, b: Seq<Point>, n: int)
    requires
        0 <= n < a.len(),
        n < b.len(),
        forall|i: int| 0 <= i <= n ==> a[i] == b[i],
    ensures
        path_crossings(ar, p, a, n) == path_crossings(ar, p, b, n),
    decreases n,
{
    if n > 0 {
        lemma_path_prefix(ar, p, a, b, n - 1);
    }
}

/// A path that goes on where another ends.
proof fn lemma_path_joined(ar: Arith, p: Point, a: Seq<Point>, b: Seq<Point>, n: int)
    requires
        a.len() > 0,
        b.len() > 0,
        a.last() == b[0],
        0 <= n < b.len(),
    ensures
        path_crossings(ar, p, a + b.skip(1), a.len() - 1 + n) == path_crossings(
            ar,
            p,
            a,
            a.len() - 1,
        ) + path_crossings(ar, p, b, n),
    decreases n,
{
    let all = a + b.skip(1);
    if n == 0 {
        lemma_path_prefix(ar, p, all, a, a.len() - 1);
    } else {
        lemma_path_joined(ar, p, a, b, n - 1);
        assert(all[a.len() - 1 + n] == b[n]);
        assert(all[a.len() - 1 + n - 1] == b[n - 1]) by {
            if n == 1 {
                assert(all[a.len() - 1] == a.last());
            }
        }
    }
}

proof fn lemma_closed_crossings(ar: Arith, p: Point, poly: Seq<Point>, n: int)
    requires
        0 <= n < poly.len(),
    ensures
        crossings_below(ar, p, poly, n) == path_crossings(ar, p, poly, n),
    decreases n,
{
    if n > 0 {
        lemma_closed_crossings(ar, p, poly, n - 1);
        assert(corner_after(poly, n - 1) == poly[n]);
    }
}

/// Where a half-edge starts and ends.
proof fn lemma_he_ends(ar: Arith, g: Graph, he: HalfEdge)
    ensures
        he_poly_of(ar, g, he).len() >= 2,
        he_poly_of(ar, g, he)[0] == vpos_of(g, start_of(g, he)),
        he_poly_of(ar, g, he).last() == vpos_of(g, end_of(g, he)),
{
    lemma_he_poly(ar, g, he);
    law_polyline_keeps_endpoints(ar, g, he.0);
}

/// The polyline of a walk goes along its half-edges one after the other.
proof fn lemma_walk_poly(ar: Arith, g: Graph, p: Point, lp: Seq<HalfEdge>, n: int)
    requires
        graph_wf(g),
        is_face_loop(ar, g, lp),
        1 <= n <= lp.len(),
    ensures
        ({
            let poly = loop_poly_below(ar, g, lp, n);
            &&& poly.len() >= 2
            &&& poly[0] == vpos_of(g, start_of(g, lp[0]))
            &&& poly.last() == vpos_of(g, end_of(g, lp[n - 1]))
            &&& path_crossings(ar, p, poly, poly.len() - 1) == walk_crossings(ar, g, p, lp, n)
        }),
    decreases n,
{
    lemma_he_ends(ar, g, lp[n - 1]);
    let poly = he_poly_of(ar, g, lp[n - 1]);
    if n == 1 {
        assert(loop_poly_below(ar, g, lp, 0).len() == 0);
        assert(walk_crossings(ar, g, p, lp, 0) == 0);
    } else {
        lemma_walk_poly(ar, g, p, lp, n - 1);
        let before = loop_poly_below(ar, g, lp, n - 1);
        assert(curve_live(g, lp[n - 2].0));
        assert(next_of(ar, g, lp[n - 2]) == Ok::<Option<HalfEdge>, Fault>(Some(lp[n - 2 + 1])));
        law_next_exists(ar, g, lp[n - 2]);
        lemma_path_joined(ar, p, before, poly, poly.len() - 1);
        let all = before + poly.skip(1);
        assert(all.last() == poly.last());
        assert(all.len() - 1 == before.len() - 1 + (poly.len() - 1));
    }
}

/// A closed walk is crossed as often as its half-edges together.
proof fn lemma_loop_crossings(ar: Arith, g: Graph, p: Point, lp: Seq<HalfEdge>)
    requires
        graph_wf(g),
        is_face_loop(ar, g, lp),
    ensures
        crossings_of(ar, p, loop_poly(ar, g, lp)) == walk_crossings(ar, g, p, lp, lp.len() as int),
{
    let n = lp.len() as int;
    lemma_walk_poly(ar, g, p, lp, n);
    let poly = loop_poly(ar, g, lp);
    let m = poly.len() as int;
    lemma_closed_crossings(ar, p, poly, m - 1);
    assert(curve_live(g, lp[n - 1].0));
    law_next_exists(ar, g, lp.last());
    assert(corner_after(poly, m - 1) == poly[0]);
    assert(poly[m - 1] == poly[0]);
    assert(spec_ray_hit(ar, p, poly[0], poly[0]) is None);
}

// ---- the order of a walk does not matter ----

proof fn lemma_walk_prefix(
    ar: Arith,
    g: Graph,
    p: Point,
    a: Seq<HalfEdge>,
    b: Seq<HalfEdge>,
    n: int,
)
    requires
        0 <= n <= a.len(),
        n <= b.len(),
        forall|i: int| 0 <= i < n ==> a[i] == b[i],
    ensures
        walk_crossings(ar, g, p, a, n) == walk_crossings(ar, g, p, b, n),
    decreases n,
{
    if n > 0 {
        lemma_walk_prefix(ar, g, p, a, b, n - 1);
    }
}

proof fn lemma_walk_without(ar: Arith, g: Graph, p: Point, lp: Seq<HalfEdge>, k: int, n: int)
    requires
        0 <= k < n <= lp.len(),
    ensures
        walk_crossings(ar, g, p, lp, n) == walk_crossings(ar, g, p, lp.remove(k), n - 1)
            + he_crossings(ar, g, p, lp[k]),
    decreases n,
{
    let rest = lp.remove(k);
    if n == k + 1 {
        lemma_walk_prefix(ar, g, p, lp, rest, k);
    } else {
        lemma_walk_without(ar, g, p, lp, k, n - 1);
        assert(rest[n - 2] == lp[n - 1]);
    }
}

proof fn lemma_walk_shuffled(
    ar: Arith,
    g: Graph,
    p: Point,
    a: Seq<HalfEdge>,
    b: Seq<HalfEdge>,
)
    requires
        a.no_duplicates(),
        b.no_duplicates(),
        forall|he: HalfEdge| #[trigger] a.contains(he) <==> b.contains(he),
    ensures
        walk_crossings(ar, g, p, a, a.len() as int) == walk_crossings(
            ar,
            g,
            p,
            b,
            b.len() as int,
        ),
    decreases a.len(),
{
    if a.len() == 0 {
        if b.len() > 0 {
            assert(b.contains(b[0]));
            assert(a.contains(b[0]));
        }
    } else {
        let x = a.last();
        assert(a.contains(x));
        let k = choose|k: int| 0 <= k < b.len() && b[k] == x;
        let a1 = a.drop_last();
        let b1 = b.remove(k);
        assert forall|he: HalfEdge| #[trigger] a1.contains(he) <==> b1.contains(he) by {
            if a1.contains(he) {
                let i = choose|i: int| 0 <= i < a1.len() && a1[i] == he;
                assert(a[i] == he);
                assert(a.contains(he));
                let j = choose|j: int| 0 <= j < b.len() && b[j] == he;
                assert(j != k);
                assert(b1[if j < k { j } else { j - 1 }] == he);
            }
            if b1.contains(he) {
                let j = choose|j: int| 0 <= j < b1.len() && b1[j] == he;
                assert(b[if j < k { j } else { j + 1 }] == he);
                assert(b.contains(he));
                assert(a.contains(he));
                let i = choose|i: int| 0 <= i < a.len() && a[i] == he;
                assert(i < a.len() - 1);
                assert(a1[i] == he);
            }
        }
        assert(b1.no_duplicates()) by {
            assert forall|i: int, j: int|
                0 <= i < b1.len() && 0 <= j < b1.len() && i != j implies b1[i] != b1[j] by {
                assert(b1[i] == b[if i < k { i } else { i + 1 }]);
                assert(b1[j] == b[if j < k { j } else { j + 1 }]);
            }
        }
        lemma_walk_shuffled(ar, g, p, a1, b1);
        lemma_walk_without(ar, g, p, b, k, b.len() as int);
        lemma_walk_prefix(ar, g, p, a, a1, a.len() - 1);
    }
}

/// What lies inside a walk around a face does not depend on where the walk
/// starts.
pub proof fn law_inside_whatever_the_start(
    ar: Arith,
    g: Graph,
    p: Point,
    a: Seq<HalfEdge>,
    b: Seq<HalfEdge>,
    shared: HalfEdge,
)
    requires
        graph_wf(g),
        is_face_loop(ar, g, a),
        is_face_loop(ar, g, b),
        a.contains(shared),
        b.contains(shared),
    ensures
        in_polyline(ar, p, loop_poly(ar, g, a)) == in_polyline(ar, p, loop_poly(ar, g, b)),
{
    law_face_loops_same_or_disjoint(ar, g, a, b, shared);
    lemma_loop_crossings(ar, g, p, a);
    lemma_loop_crossings(ar, g, p, b);
    assert forall|he: HalfEdge| #[trigger] a.contains(he) <==> b.contains(he) by {}
    lemma_walk_shuffled(ar, g, p, a, b);
}

// ---- the face around an outer boundary ----

proof fn lemma_same_marks(g: Graph, a: Seq<HalfEdge>, b: Seq<HalfEdge>)
    requires
        forall|he: HalfEdge| #[trigger] a.contains(he) <==> b.contains(he),
    ensures
        curves_in(a) == curves_in(b),
        verts_in(g, a) == verts_in(g, b),
{
    assert forall|c: CurveId| curves_in(a).contains(c) <==> curves_in(b).contains(c) by {
        if curves_in(a).contains(c) {
            let i = choose|i: int| 0 <= i < a.len() && (#[trigger] a[i]).0 == c;
            assert(a.contains(a[i]));
            let j = choose|j: int| 0 <= j < b.len() && b[j] == a[i];
            assert(b[j].0 == c);
        }
        if curves_in(b).contains(c) {
            let i = choose|i: int| 0 <= i < b.len() && (#[trigger] b[i]).0 == c;
            assert(b.contains(b[i]));
            assert(a.contains(b[i]));
            let j = choose|j: int| 0 <= j < a.len() && a[j] == b[i];
            assert(a[j].0 == c);
        }
    }
    assert(curves_in(a) =~= curves_in(b));
    assert forall|v: VertexId| verts_in(g, a).contains(v) <==> verts_in(g, b).contains(v) by {
        if verts_in(g, a).contains(v) {
            let i = choose|i: int| 0 <= i < a.len() && ends_at(g, (#[trigger] a[i]).0, v);
            assert(a.contains(a[i]));
            let j = choose|j: int| 0 <= j < b.len() && b[j] == a[i];
            assert(ends_at(g, b[j].0, v));
        }
        if verts_in(g, b).contains(v) {
            let i = choose|i: int| 0 <= i < b.len() && ends_at(g, (#[trigger] b[i]).0, v);
            assert(b.contains(b[i]));
            assert(a.contains(b[i]));
            let j = choose|j: int| 0 <= j < a.len() && a[j] == b[i];
            assert(ends_at(g, a[j].0, v));
        }
    }
    assert(verts_in(g, a) =~= verts_in(g, b));
}

proof fn lemma_same_outlines(
    ar: Arith,
    g: Graph,
    a: Seq<HalfEdge>,
    b: Seq<HalfEdge>,
    islands: Seq<Island>,
    n: int,
)
    requires
        curves_in(a) == curves_in(b),
        forall|p: Point| #[trigger]
            in_polyline(ar, p, loop_poly(ar, g, a)) == in_polyline(ar, p, loop_poly(ar, g, b)),
    ensures
        outlines(ar, g, a, islands, n) == outlines(ar, g, b, islands, n),
    decreases n,
{
    if n > 0 {
        lemma_same_outlines(ar, g, a, b, islands, n - 1);
        let test = vpos_of(g, islands[n - 1].test);
        assert(in_polyline(ar, test, loop_poly(ar, g, a)) == in_polyline(
            ar,
            test,
            loop_poly(ar, g, b),
        ));
    }
}

proof fn lemma_same_holes(
    ar: Arith,
    g: Graph,
    outs: Seq<Outline>,
    i: int,
    x: Seq<Seq<HalfEdge>>,
    y: Seq<Seq<HalfEdge>>,
)
    requires
        0 <= i <= outs.len(),
        x.len() > 0,
        y.len() > 0,
        x.skip(1) == y.skip(1),
        forall|he: HalfEdge| #[trigger] taken(x, he) <==> taken(y, he),
    ensures
        ({
            let u = holes(ar, g, outs, i, x);
            let v = holes(ar, g, outs, i, y);
            u.len() > 0 && v.len() > 0 && u[0] == x[0] && v[0] == y[0] && u.skip(1) == v.skip(1)
        }),
    decreases outs.len() - i,
{
    if i < outs.len() {
        let lp = outs[i].1;
        assert(taken(x, lp[0]) == taken(y, lp[0]));
        if sheltered(ar, g, outs, i) || bounded(ar, g, lp) || taken(x, lp[0]) {
            lemma_same_holes(ar, g, outs, i + 1, x, y);
        } else {
            let (x1, y1) = (x.push(lp), y.push(lp));
            assert(x1.skip(1) =~= x.skip(1).push(lp));
            assert(y1.skip(1) =~= y.skip(1).push(lp));
            assert forall|he: HalfEdge| #[trigger] taken(x1, he) <==> taken(y1, he) by {
                lemma_taken_more(x, lp, he);
                lemma_taken_more(y, lp, he);
                assert(taken(x, he) == taken(y, he));
            }
            lemma_same_holes(ar, g, outs, i + 1, x1, y1);
        }
    }
}

proof fn lemma_taken_more(x: Seq<Seq<HalfEdge>>, lp: Seq<HalfEdge>, he: HalfEdge)
    ensures
        taken(x.push(lp), he) <==> taken(x, he) || lp.contains(he),
{
    let more = x.push(lp);
    if taken(x, he) {
        let i = choose|i: int| 0 <= i < x.len() && (#[trigger] x[i]).contains(he);
        assert(more[i].contains(he));
    }
    if lp.contains(he) {
        assert(more[x.len() as int].contains(he));
    }
    if taken(more, he) {
        let i = choose|i: int| 0 <= i < more.len() && (#[trigger] more[i]).contains(he);
        if i < x.len() {
            assert(x[i].contains(he));
        }
    }
}

proof fn lemma_same_clear(
    ar: Arith,
    g: Graph,
    p: Point,
    q: Point,
    x: Seq<Seq<HalfEdge>>,
    y: Seq<Seq<HalfEdge>>,
    n: int,
)
    requires
        1 <= n <= x.len(),
        x.len() == y.len(),
        forall|i: int| 1 <= i < x.len() ==> x[i] == y[i],
        forall|i: int|
            1 <= i < x.len() ==> in_polyline(ar, p, loop_poly(ar, g, #[trigger] x[i]))
                == in_polyline(ar, q, loop_poly(ar, g, x[i])),
    ensures
        ({
            let u = clear_of(ar, g, p, x, n);
            let v = clear_of(ar, g, q, y, n);
            u.len() > 0 && v.len() > 0 && u[0] == x[0] && v[0] == y[0] && u.skip(1) == v.skip(1)
        }),
    decreases n,
{
    if n == 1 {
        assert(clear_of(ar, g, p, x, 0).len() == 0);
        assert(clear_of(ar, g, q, y, 0).len() == 0);
        assert(clear_of(ar, g, p, x, 1).skip(1) =~= clear_of(ar, g, q, y, 1).skip(1));
    } else {
        lemma_same_clear(ar, g, p, q, x, y, n - 1);
        let u = clear_of(ar, g, p, x, n - 1);
        let v = clear_of(ar, g, q, y, n - 1);
        assert(x[n - 1] == y[n - 1]);
        assert(u.push(x[n - 1]).skip(1) =~= u.skip(1).push(x[n - 1]));
        assert(v.push(y[n - 1]).skip(1) =~= v.skip(1).push(y[n - 1]));
    }
}

/// No walk around a face has one of the points inside and the other outside, as
/// holds of any two points that a path joins which meets no curve.
pub open spec fn same_side(ar: Arith, g: Graph, p: Point, q: Point) -> bool {
    forall|lp: Seq<HalfEdge>| #[trigger]
        is_face_loop(ar, g, lp) ==> in_polyline(ar, p, loop_poly(ar, g, lp)) == in_polyline(
            ar,
            q,
            loop_poly(ar, g, lp),
        )
}

/// A face depends on the face alone and not on the point in it: two points on
/// the same side of every walk, whose outer boundaries share a half-edge, have
/// the same outer boundary, up to where it starts, and the very same holes.
pub proof fn law_face_whatever_the_point(
    ar: Arith,
    g: Graph,
    p: Point,
    q: Point,
    a: Seq<HalfEdge>,
    b: Seq<HalfEdge>,
    shared: HalfEdge,
)
    requires
        graph_wf(g),
        outer_of(ar, g, p) == Ok::<Option<Seq<HalfEdge>>, Fault>(Some(a)),
        outer_of(ar, g, q) == Ok::<Option<Seq<HalfEdge>>, Fault>(Some(b)),
        a.contains(shared),
        b.contains(shared),
        same_side(ar, g, p, q),
    ensures
        forall|he: HalfEdge| #[trigger] a.contains(he) <==> b.contains(he),
        match face_of(ar, g, p) {
            Err(e) => face_of(ar, g, q) == Err::<Result<Seq<Seq<HalfEdge>>, FillError>, Fault>(e),
            Ok(Err(_)) => false,
            Ok(Ok(x)) => face_of(ar, g, q) matches Ok(Ok(y)) && x.len() > 0 && y.len() > 0 && x[0]
                == a && y[0] == b && x.skip(1) == y.skip(1),
        },
{
    lemma_raycast(ar, g, p);
    lemma_raycast(ar, g, q);
    lemma_march(ar, g, p, raycast(ar, g, p), 0, Set::empty());
    lemma_march(ar, g, q, raycast(ar, g, q), 0, Set::empty());
    law_face_loops_same_or_disjoint(ar, g, a, b, shared);
    assert forall|he: HalfEdge| #[trigger] a.contains(he) <==> b.contains(he) by {}
    lemma_same_marks(g, a, b);
    assert forall|t: Point| #[trigger]
        in_polyline(ar, t, loop_poly(ar, g, a)) == in_polyline(ar, t, loop_poly(ar, g, b)) by {
        law_inside_whatever_the_start(ar, g, t, a, b, shared);
    }
    reveal(face_of);
    if let Ok(islands) = islands_of(g, curves_in(a), verts_in(g, a)) {
        let n = islands.len() as int;
        lemma_same_outlines(ar, g, a, b, islands, n);
        lemma_outlines(ar, g, a, islands, n);
        if let Ok(outs) = outlines(ar, g, a, islands, n) {
            let (x0, y0) = (seq![a], seq![b]);
            assert(x0.skip(1) =~= y0.skip(1));
            assert forall|he: HalfEdge| #[trigger] taken(x0, he) <==> taken(y0, he) by {
                assert(x0[0] == a && y0[0] == b);
                assert(a.contains(he) <==> b.contains(he));
            }
            lemma_same_holes(ar, g, outs, 0, x0, y0);
            let x = holes(ar, g, outs, 0, x0);
            let y = holes(ar, g, outs, 0, y0);
            lemma_holes(ar, g, outs, 0, x0);
            assert(x.len() == y.len()) by {
                assert(x.skip(1).len() == y.skip(1).len());
            }
            assert forall|i: int| 1 <= i < x.len() implies x[i] == y[i] by {
                assert(x.skip(1)[i - 1] == y.skip(1)[i - 1]);
            }
            assert forall|i: int| 1 <= i < x.len() implies in_polyline(
                ar,
                p,
                loop_poly(ar, g, #[trigger] x[i]),
            ) == in_polyline(ar, q, loop_poly(ar, g, x[i])) by {
                assert(is_face_loop(ar, g, x[i]));
            }
            lemma_same_clear(ar, g, p, q, x, y, x.len() as int);
        }
    }
}

// ---- points that no curve parts ----

/// The +x rays from the two points cross the same sides of the same half-edges.
pub open spec fn crossed_alike(ar: Arith, g: Graph, p: Point, q: Point) -> bool {
    forall|he: HalfEdge, i: int|
        #![trigger he_poly_of(ar, g, he)[i]]
        curve_live(g, he.0) && 0 <= i < he_poly_of(ar, g, he).len() - 1 ==> (spec_ray_hit(
            ar,
            p,
            he_poly_of(ar, g, he)[i],
            he_poly_of(ar, g, he)[i + 1],
        ) is Some <==> spec_ray_hit(
            ar,
            q,
            he_poly_of(ar, g, he)[i],
            he_poly_of(ar, g, he)[i + 1],
        ) is Some)
}

proof fn lemma_path_alike(ar: Arith, g: Graph, p: Point, q: Point, he: HalfEdge, n: int)
    requires
        crossed_alike(ar, g, p, q),
        curve_live(g, he.0),
        0 <= n < he_poly_of(ar, g, he).len(),
    ensures
        path_crossings(ar, p, he_poly_of(ar, g, he), n) == path_crossings(
            ar,
            q,
            he_poly_of(ar, g, he),
            n,
        ),
    decreases n,
{
    if n > 0 {
        lemma_path_alike(ar, g, p, q, he, n - 1);
        let a = he_poly_of(ar, g, he)[n - 1];
    }
}

proof fn lemma_walk_alike(
    ar: Arith,
    g: Graph,
    p: Point,
    q: Point,
    lp: Seq<HalfEdge>,
    n: int,
)
    requires
        crossed_alike(ar, g, p, q),
        forall|i: int| 0 <= i < lp.len() ==> curve_live(g, (#[trigger] lp[i]).0),
        0 <= n <= lp.len(),
    ensures
        walk_crossings(ar, g, p, lp, n) == walk_crossings(ar, g, q, lp, n),
    decreases n,
{
    if n > 0 {
        lemma_walk_alike(ar, g, p, q, lp, n - 1);
        lemma_he_ends(ar, g, lp[n - 1]);
        lemma_path_alike(ar, g, p, q, lp[n - 1], he_poly_of(ar, g, lp[n - 1]).len() - 1);
    }
}

/// Two points whose rays cross the same sides are on the same side of every walk
/// around a face.
pub proof fn law_crossed_alike_same_side(ar: Arith, g: Graph, p: Point, q: Point)
    requires
        graph_wf(g),
        crossed_alike(ar, g, p, q),
    ensures
        same_side(ar, g, p, q),
{
    assert forall|lp: Seq<HalfEdge>| #[trigger] is_face_loop(ar, g, lp) implies in_polyline(
        ar,
        p,
        loop_poly(ar, g, lp),
    ) == in_polyline(ar, q, loop_poly(ar, g, lp)) by {
        lemma_loop_crossings(ar, g, p, lp);
        lemma_loop_crossings(ar, g, q, lp);
        lemma_walk_alike(ar, g, p, q, lp, lp.len() as int);
    }
}

proof fn lemma_march_alike(
    ar: Arith,
    g: Graph,
    p: Point,
    q: Point,
    hits: Seq<HalfEdge>,
    i: int,
    skip: Set<CurveId>,
)
    requires
        graph_wf(g),
        same_side(ar, g, p, q),
        0 <= i <= hits.len(),
        forall|j: int| 0 <= j < hits.len() ==> curve_live(g, (#[trigger] hits[j]).0),
    ensures
        march(ar, g, p, hits, i, skip) == march(ar, g, q, hits, i, skip),
    decreases hits.len() - i,
{
    if i < hits.len() {
        if skip.contains(hits[i].0) {
            lemma_march_alike(ar, g, p, q, hits, i + 1, skip);
        } else {
            law_walk_closes(ar, g, hits[i]);
            match face_walk(ar, g, hits[i]) {
                Err(e) => {},
                Ok(None) => {
                    lemma_march_alike(ar, g, p, q, hits, i + 1, skip.insert(hits[i].0));
                },
                Ok(Some(lp)) => {
                    assert(is_face_loop(ar, g, lp));
                    lemma_march_alike(ar, g, p, q, hits, i + 1, skip.union(curves_in(lp)));
                },
            }
        }
    }
}

proof fn lemma_clear_alike(
    ar: Arith,
    g: Graph,
    p: Point,
    q: Point,
    loops: Seq<Seq<HalfEdge>>,
    n: int,
)
    requires
        same_side(ar, g, p, q),
        face_loops(ar, g, loops),
        0 <= n <= loops.len(),
    ensures
        clear_of(ar, g, p, loops, n) == clear_of(ar, g, q, loops, n),
    decreases n,
{
    if n > 0 {
        lemma_clear_alike(ar, g, p, q, loops, n - 1);
        assert(is_face_loop(ar, g, loops[n - 1]));
    }
}

/// Two points have the same face, or both none, when their rays cross the same
/// sides, in the same order.
pub proof fn law_face_of_like_rays(ar: Arith, g: Graph, p: Point, q: Point)
    requires
        graph_wf(g),
        crossed_alike(ar, g, p, q),
        raycast(ar, g, p) == raycast(ar, g, q),
    ensures
        face_of(ar, g, p) == face_of(ar, g, q),
{
    law_crossed_alike_same_side(ar, g, p, q);
    lemma_raycast(ar, g, p);
    lemma_march_alike(ar, g, p, q, raycast(ar, g, p), 0, Set::empty());
    lemma_march(ar, g, p, raycast(ar, g, p), 0, Set::empty());
    reveal(face_of);
    if let Ok(Some(outer)) = outer_of(ar, g, p) {
        if let Ok(islands) = islands_of(g, curves_in(outer), verts_in(g, outer)) {
            lemma_outlines(ar, g, outer, islands, islands.len() as int);
            if let Ok(outs) = outlines(ar, g, outer, islands, islands.len() as int) {
                lemma_holes(ar, g, outs, 0, seq![outer]);
                let all = holes(ar, g, outs, 0, seq![outer]);
                lemma_clear_alike(ar, g, p, q, all, all.len() as int);
            }
        }
    }
}

proof fn lemma_level_hits_curve(ar: Arith, g: Graph, p: Point, q: Point, c: CurveId, n: int)
    requires
        crossed_alike(ar, g, p, q),
        p.y == q.y,
        curve_live(g, c),
        0 <= n < he_poly_of(ar, g, (c, false)).len(),
    ensures
        ray_hits_curve(ar, p, c, he_poly_of(ar, g, (c, false)), n) == ray_hits_curve(
            ar,
            q,
            c,
            he_poly_of(ar, g, (c, false)),
            n,
        ),
    decreases n,
{
    if n > 0 {
        lemma_level_hits_curve(ar, g, p, q, c, n - 1);
        let a = he_poly_of(ar, g, (c, false))[n - 1];
    }
}

proof fn lemma_level_hits(ar: Arith, g: Graph, p: Point, q: Point, ids: Seq<CurveId>, n: int)
    requires
        crossed_alike(ar, g, p, q),
        p.y == q.y,
        forall|i: int| 0 <= i < ids.len() ==> curve_live(g, #[trigger] ids[i]),
        0 <= n <= ids.len(),
    ensures
        ray_hits(ar, g, p, ids, n) == ray_hits(ar, g, q, ids, n),
    decreases n,
{
    if n > 0 {
        lemma_level_hits(ar, g, p, q, ids, n - 1);
        let c = ids[n - 1];
        lemma_he_ends(ar, g, (c, false));
        lemma_level_hits_curve(ar, g, p, q, c, he_poly_of(ar, g, (c, false)).len() - 1);
    }
}

/// A level path that meets no curve stays in one face: two points at the same
/// height, such that every side which crosses that height does so right of both
/// points or of neither, have the same face, or both none.
pub proof fn law_face_along_a_level(ar: Arith, g: Graph, p: Point, q: Point)
    requires
        graph_wf(g),
        p.y == q.y,
        crossed_alike(ar, g, p, q),
    ensures
        face_of(ar, g, p) == face_of(ar, g, q),
{
    let ids = curve_ids_of(g);
    lemma_pick(g.curves, any_curve(), g.curves.len() as int);
    lemma_level_hits(ar, g, p, q, ids, ids.len() as int);
    assert(raycast(ar, g, p) == raycast(ar, g, q)) by {
        reveal(raycast);
    }
    law_face_of_like_rays(ar, g, p, q);
}

} // verus!
