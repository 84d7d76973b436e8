//! How a face is found, said of rays, angles and islands.

use vstd::prelude::*;

use crate::calc::{Arith, Op};
use crate::error::Fault;
use crate::face::{
    bounded, clear_of, curves_in, encloses, face_of, holes, law_face_encloses_point,
    law_outer_first, lemma_march, lemma_outlines, march, outer_of, outline_of, outlines, sheltered,
    taken, verts_in, Outline,
};
use crate::geom::MAX_POINTS;
use crate::graph::{
    any_curve, curve_ids_of, curve_live, ends_at, graph_wf, law_polyline_keeps_endpoints,
    lemma_pick, polyline_of, vertex_live, CurveId, Graph, VertexId,
};
use crate::islands::{
    connected, is_path, island_keys, islands_below, islands_of, law_components_partition,
    leaders_of, leads, lemma_connected_remains, lemma_connected_trans, linked, lemma_verts_live,
    remains, rightmost_below, rightmost_of, verts_of, Island,
};
use crate::locate::{
    area_of, crossing_keys, in_polyline, lemma_raycast, ray_hits, ray_hits_curve, raycast,
    spec_ray_hit, Crossing,
};
use crate::order::{key_leq, lemma_sorted, spec_sorted};
use crate::point::Point;
use crate::scalar::{num, ZERO};
use crate::walk::{
    angle_of, end_of, face_walk, first_from_plus_x, first_other, first_upward, flip, he_poly_of,
    key_before, key_of, keys_of, law_next_exists, law_walk_closes, lemma_ordered,
    lemma_ordered_keys, lemma_outgoing, lemma_place, loop_live, loop_poly, loop_poly_below, next_of,
    ordered_at, outgoing_of, retraced, place_before, place_of, spec_code, start_of, HalfEdge,
};

verus! {

// ---- around a vertex ----

/// The half-edge leaves the vertex, along a live curve.
pub open spec fn leaves(g: Graph, he: HalfEdge, v: VertexId) -> bool {
    &&& he.0.0 < g.curves.len()
    &&& g.curves[he.0.0 as int] is Some
    &&& v == if he.1 {
        (g.curves[he.0.0 as int]->0).v1
    } else {
        (g.curves[he.0.0 as int]->0).v0
    }
}

/// Of two half-edges that leave a vertex, the one with the smaller exit angle
/// comes first, and of those at one angle the one of the lower curve, and of one
/// curve the reversed one.
pub open spec fn turns_before(ar: Arith, g: Graph, a: HalfEdge, b: HalfEdge) -> bool {
    let (x, y) = (angle_of(ar, g, a).spec_rank(), angle_of(ar, g, b).spec_rank());
    ||| x < y
    ||| x == y && a.0.0 < b.0.0
    ||| x == y && a.0 == b.0 && a.1 && !b.1
}

/// The exit angle of a half-edge is that of the direction from its first point to
/// the first other point of its polyline.
pub proof fn law_exit_angle(ar: Arith, g: Graph, he: HalfEdge, i: int)
    requires
        0 < i < he_poly_of(ar, g, he).len(),
        forall|j: int|
            0 <= j < i ==> (#[trigger] he_poly_of(ar, g, he)[j]).spec_same(he_poly_of(ar, g, he)[0]),
        !he_poly_of(ar, g, he)[i].spec_same(he_poly_of(ar, g, he)[0]),
    ensures
        ({
            let poly = he_poly_of(ar, g, he);
            angle_of(ar, g, he) == ar(
                Op::Atan2,
                ar(Op::Sub, poly[i].y, poly[0].y),
                ar(Op::Sub, poly[i].x, poly[0].x),
            )
        }),
{
    lemma_first_other(he_poly_of(ar, g, he), he_poly_of(ar, g, he)[0], 0, i);
}

proof fn lemma_first_other(poly: Seq<Point>, a: Point, k: int, i: int)
    requires
        0 <= k <= i < poly.len(),
        forall|j: int| k <= j < i ==> (#[trigger] poly[j]).spec_same(a),
        !poly[i].spec_same(a),
    ensures
        first_other(poly, a, k) == poly[i],
    decreases i - k,
{
    if k < i {
        assert(poly[k].spec_same(a));
        lemma_first_other(poly, a, k + 1, i);
    }
}

proof fn lemma_turns_before(ar: Arith, g: Graph, a: HalfEdge, b: HalfEdge)
    ensures
        key_before(key_of(ar, g, a), key_of(ar, g, b)) <==> turns_before(ar, g, a, b),
{
    assert(spec_code(a) == a.0.0 * 2 + if a.1 {
        0int
    } else {
        1int
    });
    assert(spec_code(b) == b.0.0 * 2 + if b.1 {
        0int
    } else {
        1int
    });
}

/// The next half-edge around a face turns as sharply as can be: of all that leave
/// the vertex where the half-edge ends it is the last before the way back, in the
/// order of their angles, or the last of all when none comes before the way back.
pub proof fn law_next_turns(ar: Arith, g: Graph, he: HalfEdge)
    requires
        graph_wf(g),
        curve_live(g, he.0),
    ensures
        next_of(ar, g, he) matches Ok(n) ==> {
            let v = if he.1 {
                (g.curves[he.0.0 as int]->0).v0
            } else {
                (g.curves[he.0.0 as int]->0).v1
            };
            let back = (he.0, !he.1);
            &&& n is Some
            &&& leaves(g, n->0, v)
            &&& forall|o: HalfEdge| #[trigger]
                leaves(g, o, v) && turns_before(ar, g, o, back) ==> turns_before(ar, g, n->0, back)
                    && !turns_before(ar, g, n->0, o)
            &&& !turns_before(ar, g, n->0, back) ==> forall|o: HalfEdge| #[trigger]
                leaves(g, o, v) ==> !turns_before(ar, g, n->0, o)
        },
{
    let v = end_of(g, he);
    let back = flip(he);
    law_next_exists(ar, g, he);
    lemma_ordered(ar, g, v);
    lemma_ordered_keys(ar, g, v);
    if let Ok(hes) = ordered_at(ar, g, v) {
        lemma_place(hes, back, 0);
        assert(hes.contains(back));
        let i = place_of(hes, back, 0);
        let k = choose|k: int| 0 <= k < hes.len() && hes[k] == back;
        assert(hes[k] == back);
        let n = hes[place_before(i, hes.len() as int)];
        assert forall|o: HalfEdge| #[trigger] leaves(g, o, v) implies exists|j: int|
            0 <= j < hes.len() && hes[j] == o by {
            assert(curve_live(g, o.0) && start_of(g, o) == v);
            assert(hes.contains(o));
        }
        assert forall|x: int, y: int| 0 <= x < y < hes.len() implies turns_before(
            ar,
            g,
            #[trigger] hes[x],
            #[trigger] hes[y],
        ) && !turns_before(ar, g, hes[y], hes[x]) by {
            lemma_turns_before(ar, g, hes[x], hes[y]);
            lemma_turns_before(ar, g, hes[y], hes[x]);
        }
        assert forall|o: HalfEdge| !turns_before(ar, g, o, o) by {}
        assert(leaves(g, n, v)) by {
            assert(hes.contains(n));
        }
        if i > 0 {
            assert(turns_before(ar, g, hes[i - 1], hes[i]));
            assert forall|o: HalfEdge| #[trigger]
                leaves(g, o, v) && turns_before(ar, g, o, back) implies !turns_before(ar, g, n, o) by {
                let j = choose|j: int| 0 <= j < hes.len() && hes[j] == o;
                if j > i {
                    assert(!turns_before(ar, g, hes[j], hes[i]));
                }
                assert(j <= i - 1);
                if j < i - 1 {
                    assert(!turns_before(ar, g, hes[i - 1], hes[j]));
                }
            }
        } else {
            assert forall|o: HalfEdge| #[trigger] leaves(g, o, v) implies !turns_before(
                ar,
                g,
                o,
                back,
            ) && !turns_before(ar, g, n, o) by {
                let j = choose|j: int| 0 <= j < hes.len() && hes[j] == o;
                if j > 0 {
                    assert(!turns_before(ar, g, hes[j], hes[0]));
                }
                if j < hes.len() - 1 {
                    assert(!turns_before(ar, g, hes[hes.len() - 1], hes[j]));
                }
            }
        }
    }
}

/// Coming from the right as if along the +x direction, the walk goes on with the
/// last half-edge that leaves downwards, in the order of their angles, or with the
/// last of all when none leaves downwards.
pub proof fn law_first_from_plus_x(ar: Arith, g: Graph, v: VertexId)
    requires
        graph_wf(g),
    ensures
        match first_from_plus_x(ar, g, v) {
            Err(_) => true,
            Ok(None) => forall|o: HalfEdge| !#[trigger] leaves(g, o, v),
            Ok(Some(n)) => {
                &&& leaves(g, n, v)
                &&& forall|o: HalfEdge| #[trigger]
                    leaves(g, o, v) && !num(ZERO).spec_le(angle_of(ar, g, o)) ==> !num(
                        ZERO,
                    ).spec_le(angle_of(ar, g, n)) && !turns_before(ar, g, n, o)
                &&& num(ZERO).spec_le(angle_of(ar, g, n)) ==> forall|o: HalfEdge| #[trigger]
                    leaves(g, o, v) ==> !turns_before(ar, g, n, o)
            },
        },
{
    lemma_ordered(ar, g, v);
    lemma_ordered_keys(ar, g, v);
    lemma_ordered_numbers(ar, g, v);
    if let Ok(hes) = ordered_at(ar, g, v) {
        lemma_first_upward(ar, g, hes, 0);
        assert forall|o: HalfEdge| #[trigger] leaves(g, o, v) implies exists|j: int|
            0 <= j < hes.len() && hes[j] == o by {
            assert(curve_live(g, o.0) && start_of(g, o) == v);
            assert(hes.contains(o));
        }
        if hes.len() > 0 {
            let up = first_upward(ar, g, hes, 0);
            let n = hes[place_before(up, hes.len() as int)];
            assert(leaves(g, n, v)) by {
                assert(hes.contains(n));
            }
            assert forall|x: int, y: int| 0 <= x < y < hes.len() implies turns_before(
                ar,
                g,
                #[trigger] hes[x],
                #[trigger] hes[y],
            ) && !turns_before(ar, g, hes[y], hes[x]) by {
                lemma_turns_before(ar, g, hes[x], hes[y]);
                lemma_turns_before(ar, g, hes[y], hes[x]);
            }
            assert forall|o: HalfEdge| #[trigger]
                leaves(g, o, v) && !num(ZERO).spec_le(angle_of(ar, g, o)) implies !num(
                ZERO,
            ).spec_le(angle_of(ar, g, n)) && !turns_before(ar, g, n, o) by {
                let j = choose|j: int| 0 <= j < hes.len() && hes[j] == o;
                assert(hes[j] == o);
                if 0 < up {
                    assert(!num(ZERO).spec_le(angle_of(ar, g, hes[up - 1])));
                    if up < j {
                        assert(turns_before(ar, g, hes[up], hes[j]));
                    }
                    if j < up - 1 {
                        assert(turns_before(ar, g, hes[j], hes[up - 1]));
                    }
                } else {
                    let last = hes.len() - 1;
                    if num(ZERO).spec_le(angle_of(ar, g, hes[0])) && 0 < j {
                        assert(turns_before(ar, g, hes[0], hes[j]));
                    }
                    if j < last {
                        assert(turns_before(ar, g, hes[j], hes[last]));
                    }
                    assert(!num(ZERO).spec_le(angle_of(ar, g, hes[last])));
                }
            }
            if num(ZERO).spec_le(angle_of(ar, g, n)) {
                assert(up == 0);
                assert forall|o: HalfEdge| #[trigger] leaves(g, o, v) implies !turns_before(
                    ar,
                    g,
                    n,
                    o,
                ) by {
                    let j = choose|j: int| 0 <= j < hes.len() && hes[j] == o;
                    if j < hes.len() - 1 {
                        assert(!turns_before(ar, g, hes[hes.len() - 1], hes[j]));
                    }
                }
            }
        }
    }
}

proof fn lemma_ordered_numbers(ar: Arith, g: Graph, v: VertexId)
    requires
        graph_wf(g),
    ensures
        ordered_at(ar, g, v) matches Ok(hes) ==> hes.len() < 2 || forall|i: int|
            0 <= i < hes.len() ==> !angle_of(ar, g, #[trigger] hes[i]).spec_is_nan(),
{
    let out = outgoing_of(g, v);
    lemma_ordered(ar, g, v);
    lemma_outgoing(g, v);
    if let Ok(hes) = ordered_at(ar, g, v) {
        assert(hes.len() == out.len() && (out.len() < 2 || forall|i: int|
            0 <= i < out.len() ==> !angle_of(ar, g, #[trigger] out[i]).spec_is_nan())) by {
            reveal(ordered_at);
            lemma_sorted(keys_of(ar, g, out));
        }
        assert forall|i: int| 0 <= i < hes.len() && hes.len() >= 2 implies !angle_of(
            ar,
            g,
            #[trigger] hes[i],
        ).spec_is_nan() by {
            assert(hes.contains(hes[i]));
            assert(out.contains(hes[i]));
            let j = choose|j: int| 0 <= j < out.len() && out[j] == hes[i];
            assert(out[j] == hes[i]);
        }
    }
}

proof fn lemma_first_upward(ar: Arith, g: Graph, hes: Seq<HalfEdge>, i: int)
    requires
        0 <= i <= hes.len(),
    ensures
        ({
            let up = first_upward(ar, g, hes, i);
            ||| i <= up < hes.len() && num(ZERO).spec_le(angle_of(ar, g, hes[up])) && forall|j: int|
                i <= j < up ==> !num(ZERO).spec_le(angle_of(ar, g, #[trigger] hes[j]))
            ||| up == 0 && forall|j: int|
                i <= j < hes.len() ==> !num(ZERO).spec_le(angle_of(ar, g, #[trigger] hes[j]))
        }),
    decreases hes.len() - i,
{
    if i < hes.len() && !num(ZERO).spec_le(angle_of(ar, g, hes[i])) {
        lemma_first_upward(ar, g, hes, i + 1);
    }
}

// ---- polylines of walks ----

/// A half-edge has the points of its curve's polyline, in order or, where it is
/// reversed, in the opposite order.
pub proof fn law_half_edge_polyline(ar: Arith, g: Graph, he: HalfEdge, i: int)
    requires
        0 <= i < polyline_of(ar, g, he.0).len(),
    ensures
        ({
            let poly = polyline_of(ar, g, he.0);
            &&& he_poly_of(ar, g, he).len() == poly.len()
            &&& !he.1 ==> he_poly_of(ar, g, he)[i] == poly[i].1
            &&& he.1 ==> he_poly_of(ar, g, he)[i] == poly[poly.len() - 1 - i].1
        }),
{
}

/// The polyline of a loop runs through all points of its half-edges' polylines,
/// one after another, where each starts at the last point of the one before: `at`
/// are the places of the starts, and of the end.
pub proof fn law_loop_polyline(ar: Arith, g: Graph, lp: Seq<HalfEdge>) -> (at: Seq<int>)
    requires
        graph_wf(g),
        loop_live(g, lp),
        lp.len() > 0,
    ensures
        at.len() == lp.len() + 1,
        at[0] == 0,
        loop_poly(ar, g, lp).len() == at[lp.len() as int] + 1,
        forall|k: int|
            #![trigger lp[k]]
            0 <= k < lp.len() ==> at[k + 1] == at[k] + he_poly_of(ar, g, lp[k]).len() - 1,
        forall|k: int, i: int|
            #![trigger he_poly_of(ar, g, lp[k])[i]]
            0 <= k < lp.len() && (1 <= i || k == 0) && 0 <= i < he_poly_of(ar, g, lp[k]).len()
                ==> loop_poly(ar, g, lp)[at[k] + i] == he_poly_of(ar, g, lp[k])[i],
{
    lemma_loop_polyline(ar, g, lp, lp.len() as int)
}

proof fn lemma_loop_polyline(ar: Arith, g: Graph, lp: Seq<HalfEdge>, n: int) -> (at: Seq<int>)
    requires
        graph_wf(g),
        loop_live(g, lp),
        0 < n <= lp.len(),
    ensures
        at.len() == n + 1,
        at[0] == 0,
        loop_poly_below(ar, g, lp, n).len() == at[n] + 1,
        forall|k: int| 0 <= k <= n ==> 0 <= #[trigger] at[k] <= at[n],
        forall|k: int|
            #![trigger lp[k]]
            0 <= k < n ==> at[k + 1] == at[k] + he_poly_of(ar, g, lp[k]).len() - 1,
        forall|k: int, i: int|
            #![trigger he_poly_of(ar, g, lp[k])[i]]
            0 <= k < n && (1 <= i || k == 0) && 0 <= i < he_poly_of(ar, g, lp[k]).len()
                ==> loop_poly_below(ar, g, lp, n)[at[k] + i] == he_poly_of(ar, g, lp[k])[i],
    decreases n,
{
    let poly = he_poly_of(ar, g, lp[n - 1]);
    assert(curve_live(g, lp[n - 1].0));
    law_polyline_keeps_endpoints(ar, g, lp[n - 1].0);
    if n == 1 {
        assert(loop_poly_below(ar, g, lp, 0).len() == 0);
        assert(loop_poly_below(ar, g, lp, 1) == poly);
        seq![0int, poly.len() - 1]
    } else {
        let before = loop_poly_below(ar, g, lp, n - 1);
        let all = loop_poly_below(ar, g, lp, n);
        let old = lemma_loop_polyline(ar, g, lp, n - 1);
        assert(0 <= old[n - 1]);
        let at = old.push(old[n - 1] + poly.len() - 1);
        assert(all == before + poly.skip(1));
        assert forall|k: int| 0 <= k <= n implies 0 <= #[trigger] at[k] <= at[n] by {
            if k < n {
                assert(at[k] == old[k]);
            }
        }
        assert forall|k: int| #![trigger lp[k]] 0 <= k < n implies at[k + 1] == at[k] + he_poly_of(
            ar,
            g,
            lp[k],
        ).len() - 1 by {
            if k < n - 1 {
                assert(at[k + 1] == old[k + 1] && at[k] == old[k]);
            }
        }
        assert forall|k: int, i: int|
            #![trigger he_poly_of(ar, g, lp[k])[i]]
            0 <= k < n && (1 <= i || k == 0) && 0 <= i < he_poly_of(ar, g, lp[k]).len() implies all[
            at[k] + i] == he_poly_of(ar, g, lp[k])[i] by {
            if k < n - 1 {
                assert(at[k] == old[k]);
                assert(old[k + 1] <= old[n - 1]);
                assert(lp[k] == lp[k]);
                assert(before[old[k] + i] == he_poly_of(ar, g, lp[k])[i]);
            } else {
                assert(at[k] == old[n - 1]);
                assert(all[at[k] + i] == poly.skip(1)[i - 1]);
            }
        }
        at
    }
}

// ---- the ray ----

/// The ray to the right of `p` crosses the `i`-th segment of the polyline of `c` at
/// `hit`, which names the half-edge of `c` that has `p` on its left there.
pub open spec fn ray_meets(
    ar: Arith,
    p: Point,
    c: CurveId,
    poly: Seq<Point>,
    i: int,
    hit: Crossing,
) -> bool {
    &&& 0 <= i < poly.len() - 1
    &&& hit.1.0 == c
    &&& spec_ray_hit(ar, p, poly[i], poly[i + 1]) == Some((hit.0, !hit.1.1))
}

/// The ray to the right of `p` crosses the `i`-th segment of the live curve `c` at
/// `hit`.
pub open spec fn ray_crosses(
    ar: Arith,
    g: Graph,
    p: Point,
    c: CurveId,
    i: int,
    hit: Crossing,
) -> bool {
    &&& c.0 < g.curves.len()
    &&& g.curves[c.0 as int] is Some
    &&& ray_meets(ar, p, c, he_poly_of(ar, g, (c, false)), i, hit)
}

proof fn lemma_hits_on_curve(ar: Arith, p: Point, c: CurveId, poly: Seq<Point>, n: int, hit: Crossing)
    requires
        0 <= n < poly.len(),
    ensures
        ray_hits_curve(ar, p, c, poly, n).contains(hit) <==> exists|i: int|
            i < n && #[trigger] ray_meets(ar, p, c, poly, i, hit),
    decreases n,
{
    if n > 0 {
        lemma_hits_on_curve(ar, p, c, poly, n - 1, hit);
        let before = ray_hits_curve(ar, p, c, poly, n - 1);
        let all = ray_hits_curve(ar, p, c, poly, n);
        if all.contains(hit) {
            let k = choose|k: int| 0 <= k < all.len() && all[k] == hit;
            if k < before.len() {
                assert(before[k] == hit);
                assert(before.contains(hit));
            } else {
                assert(ray_meets(ar, p, c, poly, n - 1, hit));
            }
        }
        if before.contains(hit) {
            let k = choose|k: int| 0 <= k < before.len() && before[k] == hit;
            assert(all[k] == hit);
        }
        if ray_meets(ar, p, c, poly, n - 1, hit) {
            assert(all[all.len() - 1] == hit);
        }
    }
}

proof fn lemma_joined<A>(a: Seq<A>, b: Seq<A>, x: A)
    ensures
        (a + b).contains(x) <==> a.contains(x) || b.contains(x),
{
    if a.contains(x) {
        let k = choose|k: int| 0 <= k < a.len() && a[k] == x;
        assert((a + b)[k] == x);
    }
    if b.contains(x) {
        let k = choose|k: int| 0 <= k < b.len() && b[k] == x;
        assert((a + b)[a.len() + k] == x);
    }
    if (a + b).contains(x) {
        let k = choose|k: int| 0 <= k < a.len() + b.len() && (a + b)[k] == x;
        if k < a.len() {
            assert(a[k] == x);
        } else {
            assert(b[k - a.len()] == x);
        }
    }
}

proof fn lemma_hits_on_all(
    ar: Arith,
    g: Graph,
    p: Point,
    ids: Seq<CurveId>,
    n: int,
    hit: Crossing,
)
    requires
        graph_wf(g),
        0 <= n <= ids.len(),
        forall|i: int| 0 <= i < ids.len() ==> curve_live(g, #[trigger] ids[i]),
    ensures
        ray_hits(ar, g, p, ids, n).contains(hit) <==> exists|k: int, i: int|
            0 <= k < n && #[trigger] ray_crosses(ar, g, p, ids[k], i, hit),
    decreases n,
{
    if n > 0 {
        lemma_hits_on_all(ar, g, p, ids, n - 1, hit);
        let c = ids[n - 1];
        let poly = he_poly_of(ar, g, (c, false));
        assert(curve_live(g, ids[n - 1]));
        law_polyline_keeps_endpoints(ar, g, c);
        lemma_hits_on_curve(ar, p, c, poly, poly.len() - 1, hit);
        let before = ray_hits(ar, g, p, ids, n - 1);
        let more = ray_hits_curve(ar, p, c, poly, poly.len() - 1);
        lemma_joined(before, more, hit);
        if more.contains(hit) {
            let i = choose|i: int|
                i < poly.len() - 1 && #[trigger] ray_meets(ar, p, c, poly, i, hit);
            assert(ray_crosses(ar, g, p, ids[n - 1], i, hit));
        }
        if exists|k: int, i: int|
            0 <= k < n && #[trigger] ray_crosses(ar, g, p, ids[k], i, hit) {
            let (k, i) = choose|k: int, i: int|
                0 <= k < n && #[trigger] ray_crosses(ar, g, p, ids[k], i, hit);
            if k == n - 1 {
                assert(ray_meets(ar, p, c, poly, i, hit));
            }
        }
    }
}

proof fn lemma_hits_few_on_curve(ar: Arith, p: Point, c: CurveId, poly: Seq<Point>, n: int)
    requires
        0 <= n,
    ensures
        ray_hits_curve(ar, p, c, poly, n).len() <= n,
    decreases n,
{
    if n > 0 {
        lemma_hits_few_on_curve(ar, p, c, poly, n - 1);
    }
}

proof fn lemma_hits_few(ar: Arith, g: Graph, p: Point, ids: Seq<CurveId>, n: int)
    requires
        graph_wf(g),
        0 <= n <= ids.len(),
        forall|i: int| 0 <= i < ids.len() ==> curve_live(g, #[trigger] ids[i]),
    ensures
        ray_hits(ar, g, p, ids, n).len() <= n * (MAX_POINTS - 1),
    decreases n,
{
    if n > 0 {
        lemma_hits_few(ar, g, p, ids, n - 1);
        let c = ids[n - 1];
        let poly = he_poly_of(ar, g, (c, false));
        assert(curve_live(g, ids[n - 1]));
        law_polyline_keeps_endpoints(ar, g, c);
        lemma_hits_few_on_curve(ar, p, c, poly, poly.len() - 1);
    }
}

/// The ray's half-edges come from left to right, one for each of its crossings
/// with a live curve's polyline, and none besides: there is a list of places, with
/// them, in ascending order, that holds exactly those crossings.
pub proof fn law_raycast(ar: Arith, g: Graph, p: Point) -> (hits: Seq<Crossing>)
    requires
        graph_wf(g),
    ensures
        raycast(ar, g, p).len() == hits.len(),
        forall|i: int| 0 <= i < hits.len() ==> raycast(ar, g, p)[i] == (#[trigger] hits[i]).1,
        forall|i: int, j: int|
            0 <= i < j < hits.len() ==> (#[trigger] hits[i]).0.spec_rank() <= (
            #[trigger] hits[j]).0.spec_rank(),
        forall|hit: Crossing| #[trigger]
            hits.contains(hit) <==> exists|c: CurveId, i: int| #[trigger]
                ray_crosses(ar, g, p, c, i, hit),
{
    reveal(raycast);
    let ids = curve_ids_of(g);
    let raw = ray_hits(ar, g, p, ids, ids.len() as int);
    let keys = crossing_keys(raw);
    let s = spec_sorted(keys);
    lemma_pick(g.curves, any_curve(), g.curves.len() as int);
    lemma_hits_few(ar, g, p, ids, ids.len() as int);
    lemma_sorted(keys);
    let hits = Seq::new(s.len(), |i: int| raw[s[i].1 as int]);
    assert forall|i: int| 0 <= i < s.len() implies 0 <= (#[trigger] s[i]).1 < raw.len() && s[i].0
        == raw[s[i].1 as int].0.spec_rank() by {
        assert(s.contains(s[i]));
        assert(keys.contains(s[i]));
        let k = choose|k: int| 0 <= k < keys.len() && keys[k] == s[i];
        assert(keys[k].1 == k);
    }
    assert forall|i: int, j: int| 0 <= i < j < hits.len() implies (
    #[trigger] hits[i]).0.spec_rank() <= (#[trigger] hits[j]).0.spec_rank() by {
        assert(key_leq()(s[i], s[j]));
    }
    assert forall|hit: Crossing| #[trigger] hits.contains(hit) <==> exists|c: CurveId, i: int|
        #[trigger] ray_crosses(ar, g, p, c, i, hit) by {
        lemma_hits_on_all(ar, g, p, ids, ids.len() as int, hit);
        if hits.contains(hit) {
            let k = choose|k: int| 0 <= k < hits.len() && hits[k] == hit;
            assert(raw[s[k].1 as int] == hit);
            assert(raw.contains(hit));
            let (j, i) = choose|j: int, i: int|
                0 <= j < ids.len() && #[trigger] ray_crosses(ar, g, p, ids[j], i, hit);
            assert(ray_crosses(ar, g, p, ids[j], i, hit));
        }
        if exists|c: CurveId, i: int| #[trigger] ray_crosses(ar, g, p, c, i, hit) {
            let (c, i) = choose|c: CurveId, i: int| #[trigger] ray_crosses(ar, g, p, c, i, hit);
            assert(curve_live(g, c));
            assert(ids.contains(c));
            let j = choose|j: int| 0 <= j < ids.len() && ids[j] == c;
            assert(ray_crosses(ar, g, p, ids[j], i, hit));
            assert(raw.contains(hit));
            let k = choose|k: int| 0 <= k < raw.len() && raw[k] == hit;
            assert(keys[k].1 == k);
            assert(keys.contains(keys[k]));
            assert(s.contains(keys[k]));
            let m = choose|m: int| 0 <= m < s.len() && s[m] == keys[k];
            assert(hits[m] == hit);
        }
    }
    hits
}

/// The walk from `he` goes along the curve and does not enclose `p`.
pub open spec fn misses_along(ar: Arith, g: Graph, p: Point, he: HalfEdge, c: CurveId) -> bool {
    face_walk(ar, g, he) matches Ok(Some(lp)) && !encloses(ar, g, lp, p) && curves_in(lp).contains(c)
}

/// The curve was walked along from one of the first `i` crossings, and the walk did
/// not enclose `p`.
pub open spec fn passed_over(
    ar: Arith,
    g: Graph,
    p: Point,
    hits: Seq<HalfEdge>,
    i: int,
    c: CurveId,
) -> bool {
    exists|j: int| 0 <= j < i && #[trigger] misses_along(ar, g, p, hits[j], c)
}

/// All of the first `i` crossings are on curves passed over.
pub open spec fn all_passed(ar: Arith, g: Graph, p: Point, hits: Seq<HalfEdge>, i: int) -> bool {
    forall|j: int|
        #![trigger hits[j]]
        0 <= j < i ==> passed_over(ar, g, p, hits, i, hits[j].0)
}

proof fn lemma_passed_on(ar: Arith, g: Graph, p: Point, hits: Seq<HalfEdge>, i: int, c: CurveId)
    requires
        passed_over(ar, g, p, hits, i, c),
    ensures
        passed_over(ar, g, p, hits, i + 1, c),
{
    let j = choose|j: int| 0 <= j < i && #[trigger] misses_along(ar, g, p, hits[j], c);
    assert(misses_along(ar, g, p, hits[j], c));
}

proof fn lemma_all_passed_on(ar: Arith, g: Graph, p: Point, hits: Seq<HalfEdge>, i: int)
    requires
        0 <= i < hits.len(),
        all_passed(ar, g, p, hits, i),
        passed_over(ar, g, p, hits, i + 1, hits[i].0),
    ensures
        all_passed(ar, g, p, hits, i + 1),
{
    assert forall|j: int|
        #![trigger hits[j]]
        0 <= j < i + 1 implies passed_over(ar, g, p, hits, i + 1, hits[j].0) by {
        if j < i {
            lemma_passed_on(ar, g, p, hits, i, hits[j].0);
        }
    }
}

/// The walk from the `k`-th crossing is the first to enclose `p`.
pub open spec fn first_around(
    ar: Arith,
    g: Graph,
    p: Point,
    hits: Seq<HalfEdge>,
    k: int,
    lp: Seq<HalfEdge>,
) -> bool {
    &&& 0 <= k < hits.len()
    &&& face_walk(ar, g, hits[k]) == Ok::<Option<Seq<HalfEdge>>, Fault>(Some(lp))
    &&& encloses(ar, g, lp, p)
    &&& all_passed(ar, g, p, hits, k)
}

/// A walk from the half-edge, where there is one, goes along its curve.
spec fn walk_begins(ar: Arith, g: Graph, he: HalfEdge) -> bool {
    face_walk(ar, g, he) matches Ok(r) ==> r matches Some(lp) && curves_in(lp).contains(he.0)
}

proof fn lemma_walk_begins(ar: Arith, g: Graph, he: HalfEdge)
    requires
        graph_wf(g),
        curve_live(g, he.0),
    ensures
        walk_begins(ar, g, he),
{
    law_walk_closes(ar, g, he);
    if let Ok(Some(lp)) = face_walk(ar, g, he) {
        assert(lp[0] == he);
    }
}

/// The crossings before the `i`-th, and the curves to skip, have been passed over.
#[verifier::opaque]
spec fn marched(
    ar: Arith,
    g: Graph,
    p: Point,
    hits: Seq<HalfEdge>,
    i: int,
    skip: Set<CurveId>,
) -> bool {
    &&& all_passed(ar, g, p, hits, i)
    &&& forall|c: CurveId| #[trigger] skip.contains(c) ==> passed_over(ar, g, p, hits, i, c)
}

proof fn lemma_march_on(
    ar: Arith,
    g: Graph,
    p: Point,
    hits: Seq<HalfEdge>,
    i: int,
    skip: Set<CurveId>,
)
    requires
        0 <= i < hits.len(),
        marched(ar, g, p, hits, i, skip),
        skip.contains(hits[i].0),
    ensures
        marched(ar, g, p, hits, i + 1, skip),
{
    reveal(marched);
    lemma_passed_on(ar, g, p, hits, i, hits[i].0);
    lemma_all_passed_on(ar, g, p, hits, i);
    assert forall|c: CurveId| #[trigger] skip.contains(c) implies passed_over(
        ar,
        g,
        p,
        hits,
        i + 1,
        c,
    ) by {
        lemma_passed_on(ar, g, p, hits, i, c);
    }
}

proof fn lemma_march_past(
    ar: Arith,
    g: Graph,
    p: Point,
    hits: Seq<HalfEdge>,
    i: int,
    skip: Set<CurveId>,
    lp: Seq<HalfEdge>,
)
    requires
        0 <= i < hits.len(),
        marched(ar, g, p, hits, i, skip),
        walk_begins(ar, g, hits[i]),
        face_walk(ar, g, hits[i]) == Ok::<Option<Seq<HalfEdge>>, Fault>(Some(lp)),
        !encloses(ar, g, lp, p),
    ensures
        marched(ar, g, p, hits, i + 1, skip.union(curves_in(lp))),
{
    reveal(marched);
    assert(misses_along(ar, g, p, hits[i], hits[i].0));
    lemma_all_passed_on(ar, g, p, hits, i);
    assert forall|c: CurveId| #[trigger]
        skip.union(curves_in(lp)).contains(c) implies passed_over(ar, g, p, hits, i + 1, c) by {
        if skip.contains(c) {
            lemma_passed_on(ar, g, p, hits, i, c);
        } else {
            assert(curves_in(lp).contains(c));
            assert(misses_along(ar, g, p, hits[i], c));
        }
    }
}

proof fn lemma_march_first(
    ar: Arith,
    g: Graph,
    p: Point,
    hits: Seq<HalfEdge>,
    i: int,
    skip: Set<CurveId>,
)
    requires
        0 <= i <= hits.len(),
        forall|j: int| 0 <= j < hits.len() ==> #[trigger] walk_begins(ar, g, hits[j]),
        marched(ar, g, p, hits, i, skip),
    ensures
        match march(ar, g, p, hits, i, skip) {
            Err(_) => true,
            Ok(None) => all_passed(ar, g, p, hits, hits.len() as int),
            Ok(Some(lp)) => exists|k: int| #[trigger] first_around(ar, g, p, hits, k, lp),
        },
    decreases hits.len() - i,
{
    assert(all_passed(ar, g, p, hits, i)) by {
        reveal(marched);
    }
    if i < hits.len() {
        assert(walk_begins(ar, g, hits[i]));
        if skip.contains(hits[i].0) {
            lemma_march_on(ar, g, p, hits, i, skip);
            lemma_march_first(ar, g, p, hits, i + 1, skip);
        } else if let Ok(Some(lp)) = face_walk(ar, g, hits[i]) {
            if encloses(ar, g, lp, p) {
                assert(first_around(ar, g, p, hits, i, lp));
            } else {
                lemma_march_past(ar, g, p, hits, i, skip, lp);
                lemma_march_first(ar, g, p, hits, i + 1, skip.union(curves_in(lp)));
            }
        }
    }
}

/// The outer boundary of a point's face is the walk from the first crossing of
/// its ray that has the point inside, where every crossing before is on a curve
/// along which a walk that does not have it inside went; and it has none only where
/// that is so of all crossings.
pub proof fn law_outer_is_first(ar: Arith, g: Graph, p: Point)
    requires
        graph_wf(g),
    ensures
        match outer_of(ar, g, p) {
            Err(_) => true,
            Ok(None) => all_passed(
                ar,
                g,
                p,
                raycast(ar, g, p),
                raycast(ar, g, p).len() as int,
            ),
            Ok(Some(lp)) => exists|k: int| #[trigger]
                first_around(ar, g, p, raycast(ar, g, p), k, lp),
        },
{
    lemma_raycast(ar, g, p);
    assert forall|j: int| 0 <= j < raycast(ar, g, p).len() implies #[trigger] walk_begins(
        ar,
        g,
        raycast(ar, g, p)[j],
    ) by {
        lemma_walk_begins(ar, g, raycast(ar, g, p)[j]);
    }
    assert(marched(ar, g, p, raycast(ar, g, p), 0, Set::empty())) by {
        reveal(marched);
    }
    lemma_march_first(ar, g, p, raycast(ar, g, p), 0, Set::empty());
}

/// The curves and vertices along a loop are those of its half-edges, and no others.
pub proof fn law_along_a_loop(g: Graph, lp: Seq<HalfEdge>, c: CurveId, v: VertexId)
    ensures
        curves_in(lp).contains(c) <==> lp.contains((c, false)) || lp.contains((c, true)),
        verts_in(g, lp).contains(v) <==> exists|i: int|
            0 <= i < lp.len() && {
                let d = g.curves[(#[trigger] lp[i]).0.0 as int]->0;
                d.v0 == v || d.v1 == v
            },
{
    if curves_in(lp).contains(c) {
        let i = choose|i: int| 0 <= i < lp.len() && (#[trigger] lp[i]).0 == c;
        assert(lp[i] == (c, lp[i].1));
    }
    if lp.contains((c, false)) {
        let i = choose|i: int| 0 <= i < lp.len() && lp[i] == (c, false);
        assert(lp[i].0 == c);
    }
    if lp.contains((c, true)) {
        let i = choose|i: int| 0 <= i < lp.len() && lp[i] == (c, true);
        assert(lp[i].0 == c);
    }
}

/// Two live curves have a vertex in common.
pub open spec fn shares(g: Graph, a: CurveId, b: CurveId) -> bool {
    let (d, e) = (g.curves[a.0 as int]->0, g.curves[b.0 as int]->0);
    &&& a.0 < g.curves.len() && g.curves[a.0 as int] is Some
    &&& b.0 < g.curves.len() && g.curves[b.0 as int] is Some
    &&& d.v0 == e.v0 || d.v0 == e.v1 || d.v1 == e.v0 || d.v1 == e.v1
}

/// Curves that share a vertex are connected, where neither is left out.
pub proof fn law_sharing_connects(g: Graph, excl: Set<CurveId>, a: CurveId, b: CurveId)
    requires
        shares(g, a, b),
        !excl.contains(a),
        !excl.contains(b),
    ensures
        connected(g, excl, a, b),
{
    let path = seq![a, b];
    assert(linked(g, excl, path[0], path[1]));
    assert(is_path(g, excl, path) && path[0] == a && path.last() == b);
}

/// Nothing else is connected: what is connected to a curve is in every set that
/// holds the curve and, with each of its curves, all that share a vertex with it
/// and are not left out.
pub proof fn law_connected_is_least(
    g: Graph,
    excl: Set<CurveId>,
    set: Set<CurveId>,
    a: CurveId,
    b: CurveId,
)
    requires
        connected(g, excl, a, b),
        set.contains(a),
        forall|x: CurveId, y: CurveId| #[trigger]
            shares(g, x, y) && set.contains(x) && !excl.contains(x) && !excl.contains(y)
                ==> set.contains(y),
    ensures
        set.contains(b),
        !excl.contains(b),
        b.0 < g.curves.len() && g.curves[b.0 as int] is Some,
{
    let path = choose|path: Seq<CurveId>| #[trigger]
        is_path(g, excl, path) && path[0] == a && path.last() == b;
    lemma_path_stays(g, excl, set, path, path.len() - 1);
    lemma_connected_remains(g, excl, a, b);
}

proof fn lemma_path_stays(
    g: Graph,
    excl: Set<CurveId>,
    set: Set<CurveId>,
    path: Seq<CurveId>,
    n: int,
)
    requires
        is_path(g, excl, path),
        set.contains(path[0]),
        0 <= n < path.len(),
        forall|x: CurveId, y: CurveId| #[trigger]
            shares(g, x, y) && set.contains(x) && !excl.contains(x) && !excl.contains(y)
                ==> set.contains(y),
    ensures
        set.contains(path[n]),
    decreases n,
{
    if n > 0 {
        lemma_path_stays(g, excl, set, path, n - 1);
        assert(linked(g, excl, path[n - 1], path[n - 1 + 1]));
        assert(shares(g, path[n - 1], path[n]));
    }
}

// ---- islands ----

/// The vertex is an end of a curve connected to `c`.
pub open spec fn on_component(g: Graph, excl: Set<CurveId>, c: CurveId, v: VertexId) -> bool {
    exists|d: CurveId| #[trigger] connected(g, excl, c, d) && ends_at(g, d, v)
}

/// `b` is further right than `a`, or as far right and further up.
pub open spec fn further(a: Point, b: Point) -> bool {
    ||| a.x.spec_rank() < b.x.spec_rank()
    ||| a.x.spec_rank() == b.x.spec_rank() && a.y.spec_rank() < b.y.spec_rank()
}

/// The vertex is in the set, and none in it is further right.
pub open spec fn furthest(g: Graph, set: Set<VertexId>, v: VertexId) -> bool {
    &&& set.contains(v)
    &&& forall|u: VertexId| #[trigger]
        set.contains(u) && u.0 < g.verts.len() ==> !further(
            g.verts[v.0 as int]->0,
            g.verts[u.0 as int]->0,
        )
}

proof fn lemma_rightmost_is_furthest(g: Graph, set: Set<VertexId>, n: int)
    requires
        0 <= n <= g.verts.len(),
        g.verts.len() <= u32::MAX,
    ensures
        match rightmost_below(g, set, n) {
            None => forall|u: VertexId| u.0 < n ==> !#[trigger] set.contains(u),
            Some(v) => v.0 < n && set.contains(v) && forall|u: VertexId| #[trigger]
                set.contains(u) && u.0 < n ==> !further(
                    g.verts[v.0 as int]->0,
                    g.verts[u.0 as int]->0,
                ),
        },
    decreases n,
{
    if n > 0 {
        lemma_rightmost_is_furthest(g, set, n - 1);
        let last = VertexId((n - 1) as u32);
        assert forall|u: VertexId| u.0 < n && !(u.0 < n - 1) implies u == last by {}
    }
}

/// The island is that of the component that `lead` leads: it is tested at the
/// rightmost vertex off the shore, and its rightmost vertex of all is named.
pub open spec fn is_island(
    g: Graph,
    excl: Set<CurveId>,
    shore: Set<VertexId>,
    lead: CurveId,
    island: Island,
) -> bool {
    &&& island.lead == lead
    &&& furthest(g, verts_of(g, excl, lead).difference(shore), island.test)
    &&& furthest(g, verts_of(g, excl, lead), island.right)
}

proof fn lemma_one_island(g: Graph, excl: Set<CurveId>, shore: Set<VertexId>, lead: CurveId)
    requires
        graph_wf(g),
    ensures
        ({
            let verts = verts_of(g, excl, lead);
            match (rightmost_of(g, verts.difference(shore)), rightmost_of(g, verts)) {
                (Ok(Some(test)), Ok(Some(right))) => is_island(
                    g,
                    excl,
                    shore,
                    lead,
                    Island { test, right, lead },
                ),
                (Ok(None), _) => forall|v: VertexId| #[trigger] verts.contains(v) ==> shore.contains(v),
                (Ok(Some(_)), Ok(None)) => false,
                _ => true,
            }
        }),
{
    let verts = verts_of(g, excl, lead);
    let off = verts.difference(shore);
    let n = g.verts.len() as int;
    lemma_verts_live(g, excl, lead);
    lemma_rightmost_is_furthest(g, verts, n);
    lemma_rightmost_is_furthest(g, off, n);
    assert forall|v: VertexId| verts.contains(v) && !shore.contains(v) implies #[trigger]
        off.contains(v) && v.0 < n by {
        assert(vertex_live(g, v));
    }
    if rightmost_of(g, off) == Ok::<Option<VertexId>, Fault>(None) {
        assert forall|v: VertexId| #[trigger] verts.contains(v) implies shore.contains(v) by {
            if !shore.contains(v) {
                assert(off.contains(v));
            }
        }
    }
    if let Ok(Some(test)) = rightmost_of(g, off) {
        assert(verts.contains(test));
    }
}

/// One of the islands is that of the component that `lead` leads.
spec fn has_island(
    g: Graph,
    excl: Set<CurveId>,
    shore: Set<VertexId>,
    islands: Seq<Island>,
    lead: CurveId,
) -> bool {
    exists|k: int| 0 <= k < islands.len() && is_island(g, excl, shore, lead, #[trigger] islands[k])
}

proof fn lemma_islands_complete(
    g: Graph,
    excl: Set<CurveId>,
    shore: Set<VertexId>,
    leaders: Seq<CurveId>,
    n: int,
)
    requires
        graph_wf(g),
        0 <= n <= leaders.len(),
    ensures
        islands_below(g, excl, shore, leaders, n) matches Ok(islands) ==> {
            &&& forall|i: int|
                #![trigger leaders[i]]
                0 <= i < n ==> has_island(g, excl, shore, islands, leaders[i]) || verts_of(
                    g,
                    excl,
                    leaders[i],
                ).subset_of(shore)
            &&& islands.len() <= n
        },
    decreases n,
{
    if n > 0 {
        lemma_islands_complete(g, excl, shore, leaders, n - 1);
        let lead = leaders[n - 1];
        lemma_one_island(g, excl, shore, lead);
        if let Ok(islands) = islands_below(g, excl, shore, leaders, n) {
            let before = islands_below(g, excl, shore, leaders, n - 1)->Ok_0;
            assert forall|i: int| #![trigger leaders[i]] 0 <= i < n implies has_island(
                g,
                excl,
                shore,
                islands,
                leaders[i],
            ) || verts_of(g, excl, leaders[i]).subset_of(shore) by {
                if i < n - 1 {
                    if has_island(g, excl, shore, before, leaders[i]) {
                        let k = choose|k: int|
                            0 <= k < before.len() && is_island(
                                g,
                                excl,
                                shore,
                                leaders[i],
                                #[trigger] before[k],
                            );
                        assert(islands[k] == before[k]);
                    }
                } else if islands.len() > before.len() {
                    assert(is_island(g, excl, shore, lead, islands[before.len() as int]));
                }
            }
        }
    }
}

/// Every component has its island: where a curve beside the boundary is connected
/// to a vertex off the shore, one of the islands is led by a curve connected to it,
/// is tested at the rightmost of its vertices off the shore, and names the
/// rightmost of all its vertices.
pub proof fn law_component_has_island(
    g: Graph,
    excl: Set<CurveId>,
    shore: Set<VertexId>,
    c: CurveId,
    v: VertexId,
)
    requires
        graph_wf(g),
        remains(g, excl, c),
        on_component(g, excl, c, v),
        !shore.contains(v),
    ensures
        islands_of(g, excl, shore) matches Ok(islands) ==> exists|k: int|
            0 <= k < islands.len() && connected(g, excl, (#[trigger] islands[k]).lead, c)
                && is_island(g, excl, shore, islands[k].lead, islands[k]),
{
    reveal(islands_of);
    let leaders = leaders_of(g, excl);
    law_components_partition(g, excl, c);
    let lead = choose|l: CurveId| #[trigger] leaders.contains(l) && connected(g, excl, l, c);
    let i = choose|i: int| 0 <= i < leaders.len() && leaders[i] == lead;
    let d = choose|d: CurveId| #[trigger] connected(g, excl, c, d) && ends_at(g, d, v);
    lemma_connected_trans(g, excl, lead, c, d);
    assert(verts_of(g, excl, lead).contains(v));
    lemma_pick(g.curves, leads(g, excl), g.curves.len() as int);
    lemma_islands_complete(g, excl, shore, leaders, leaders.len() as int);
    if let Ok(islands) = islands_of(g, excl, shore) {
        let found = islands_below(g, excl, shore, leaders, leaders.len() as int)->Ok_0;
        assert(leaders[i] == lead);
        let k = choose|k: int|
            0 <= k < found.len() && is_island(g, excl, shore, lead, #[trigger] found[k]);
        let keys = island_keys(g, found);
        let s = spec_sorted(keys);
        lemma_sorted(keys);
        assert(keys[k].1 == k);
        assert(keys.contains(keys[k]));
        assert(s.contains(keys[k]));
        let m = choose|m: int| 0 <= m < s.len() && s[m] == keys[k];
        assert(islands[m] == found[k]);
    }
}

/// The islands come from right to left.
pub proof fn law_islands_from_the_right(g: Graph, excl: Set<CurveId>, shore: Set<VertexId>)
    requires
        graph_wf(g),
    ensures
        islands_of(g, excl, shore) matches Ok(islands) ==> forall|i: int, j: int|
            #![trigger islands[i], islands[j]]
            0 <= i < j < islands.len() ==> (g.verts[islands[i].right.0 as int]->0).x.spec_rank() >= (
            g.verts[islands[j].right.0 as int]->0).x.spec_rank(),
{
    reveal(islands_of);
    let leaders = leaders_of(g, excl);
    lemma_pick(g.curves, leads(g, excl), g.curves.len() as int);
    lemma_islands_complete(g, excl, shore, leaders, leaders.len() as int);
    if let Ok(islands) = islands_of(g, excl, shore) {
        let found = islands_below(g, excl, shore, leaders, leaders.len() as int)->Ok_0;
        let keys = island_keys(g, found);
        let s = spec_sorted(keys);
        lemma_sorted(keys);
        assert forall|i: int| 0 <= i < s.len() implies s[i].0 == -(g.verts[(
        #[trigger] islands[i]).right.0 as int]->0).x.spec_rank() by {
            assert(s.contains(s[i]));
            assert(keys.contains(s[i]));
            let k = choose|k: int| 0 <= k < keys.len() && keys[k] == s[i];
            assert(keys[k].1 == k);
            assert(islands[i] == found[k]);
        }
        assert forall|i: int, j: int|
            #![trigger islands[i], islands[j]]
            0 <= i < j < islands.len() implies (
        g.verts[islands[i].right.0 as int]->0).x.spec_rank() >= (
        g.verts[islands[j].right.0 as int]->0).x.spec_rank() by {
            assert(key_leq()(s[i], s[j]));
        }
    }
}

/// The loop goes along a curve in one direction only.
pub open spec fn one_way_somewhere(lp: Seq<HalfEdge>) -> bool {
    exists|i: int| 0 <= i < lp.len() && !lp.contains(((#[trigger] lp[i]).0, !lp[i].1))
}

/// A face is what its first loop runs around, counterclockwise and not only back
/// and forth, with the point inside, less what its other loops run around, which
/// have no area to their left, or go only back and forth, and do not have the point
/// inside.
pub proof fn law_face_boundary(ar: Arith, g: Graph, p: Point)
    requires
        graph_wf(g),
    ensures
        match face_of(ar, g, p) {
            Err(_) => true,
            Ok(Err(_)) => all_passed(ar, g, p, raycast(ar, g, p), raycast(ar, g, p).len() as int),
            Ok(Ok(loops)) => {
                &&& loops.len() > 0
                &&& exists|k: int| #[trigger]
                    first_around(ar, g, p, raycast(ar, g, p), k, loops[0])
                &&& num(ZERO).spec_lt(area_of(ar, loop_poly(ar, g, loops[0])))
                &&& one_way_somewhere(loops[0])
                &&& in_polyline(ar, p, loop_poly(ar, g, loops[0]))
                &&& forall|i: int|
                    #![trigger loops[i]]
                    1 <= i < loops.len() ==> !in_polyline(ar, p, loop_poly(ar, g, loops[i])) && (
                    !one_way_somewhere(loops[i]) || !num(ZERO).spec_lt(
                        area_of(ar, loop_poly(ar, g, loops[i])),
                    ))
            },
        },
{
    law_face_encloses_point(ar, g, p);
    law_outer_first(ar, g, p);
    law_outer_is_first(ar, g, p);
    if let Ok(Ok(loops)) = face_of(ar, g, p) {
        lemma_one_way(loops[0]);
        assert forall|i: int| #![trigger loops[i]] 1 <= i < loops.len() implies !in_polyline(
            ar,
            p,
            loop_poly(ar, g, loops[i]),
        ) && (!one_way_somewhere(loops[i]) || !num(ZERO).spec_lt(
            area_of(ar, loop_poly(ar, g, loops[i])),
        )) by {
            lemma_one_way(loops[i]);
            assert(!bounded(ar, g, loops[i]));
        }
    }
}

proof fn lemma_one_way(lp: Seq<HalfEdge>)
    ensures
        retraced(lp) <==> !one_way_somewhere(lp),
{
    if !retraced(lp) {
        let i = choose|i: int| 0 <= i < lp.len() && !lp.contains(flip(#[trigger] lp[i]));
        assert(!lp.contains((lp[i].0, !lp[i].1)));
    }
    if one_way_somewhere(lp) {
        let i = choose|i: int| 0 <= i < lp.len() && !lp.contains(((#[trigger] lp[i]).0, !lp[i].1));
        assert(!lp.contains(flip(lp[i])));
    }
}

// ---- holes ----

proof fn lemma_holes_from(
    ar: Arith,
    g: Graph,
    outs: Seq<Outline>,
    i: int,
    loops: Seq<Seq<HalfEdge>>,
    lp: Seq<HalfEdge>,
)
    requires
        0 <= i <= outs.len(),
        holes(ar, g, outs, i, loops).contains(lp),
    ensures
        loops.contains(lp) || exists|j: int|
            0 <= j < outs.len() && (#[trigger] outs[j]).1 == lp && !sheltered(ar, g, outs, j),
    decreases outs.len() - i,
{
    if i < outs.len() {
        let out = outs[i].1;
        if sheltered(ar, g, outs, i) || bounded(ar, g, out) || taken(loops, out[0]) {
            lemma_holes_from(ar, g, outs, i + 1, loops, lp);
        } else {
            lemma_holes_from(ar, g, outs, i + 1, loops.push(out), lp);
            if loops.push(out).contains(lp) && !loops.contains(lp) {
                let k = choose|k: int| 0 <= k <= loops.len() && loops.push(out)[k] == lp;
                if k < loops.len() {
                    assert(loops[k] == lp);
                }
                assert(outs[i].1 == lp);
            }
        }
    }
}

proof fn lemma_clear_from(
    ar: Arith,
    g: Graph,
    p: Point,
    loops: Seq<Seq<HalfEdge>>,
    n: int,
    lp: Seq<HalfEdge>,
)
    requires
        0 <= n <= loops.len(),
        clear_of(ar, g, p, loops, n).contains(lp),
    ensures
        loops.contains(lp),
    decreases n,
{
    if n > 0 {
        let before = clear_of(ar, g, p, loops, n - 1);
        let all = clear_of(ar, g, p, loops, n);
        let k = choose|k: int| 0 <= k < all.len() && all[k] == lp;
        if k < before.len() {
            assert(before[k] == lp);
            lemma_clear_from(ar, g, p, loops, n - 1, lp);
        } else {
            assert(loops[n - 1] == lp);
        }
    }
}

/// The `k`-th island has its place inside the outer boundary, and `lp` is its
/// outline.
pub open spec fn outlined(
    ar: Arith,
    g: Graph,
    outer: Seq<HalfEdge>,
    islands: Seq<Island>,
    k: int,
    lp: Seq<HalfEdge>,
) -> bool {
    &&& 0 <= k < islands.len()
    &&& in_polyline(ar, g.verts[islands[k].test.0 as int]->0, loop_poly(ar, g, outer))
    &&& outline_of(ar, g, curves_in(outer), islands[k]) == Ok::<Option<Seq<HalfEdge>>, Fault>(
        Some(lp),
    )
}

/// The place of the `k`-th island is inside none of the other outlines.
pub open spec fn uppermost(
    ar: Arith,
    g: Graph,
    outer: Seq<HalfEdge>,
    islands: Seq<Island>,
    k: int,
    lp: Seq<HalfEdge>,
) -> bool {
    forall|m: int, o: Seq<HalfEdge>| #[trigger]
        outlined(ar, g, outer, islands, m, o) && o != lp ==> !in_polyline(
            ar,
            g.verts[islands[k].test.0 as int]->0,
            loop_poly(ar, g, o),
        )
}

/// Every loop of a face but its outer boundary is the outline of an island beside
/// that, whose place is inside it and inside no other island.
pub proof fn law_holes_are_islands(ar: Arith, g: Graph, p: Point, i: int)
    requires
        graph_wf(g),
    ensures
        face_of(ar, g, p) matches Ok(Ok(loops)) ==> (0 <= i < loops.len() ==> loops[i] == loops[0]
            || (islands_of(g, curves_in(loops[0]), verts_in(g, loops[0])) matches Ok(islands)
            && exists|k: int| #[trigger]
            outlined(ar, g, loops[0], islands, k, loops[i]) && uppermost(
                ar,
                g,
                loops[0],
                islands,
                k,
                loops[i],
            ))),
{
    reveal(face_of);
    law_outer_first(ar, g, p);
    if let Ok(Ok(loops)) = face_of(ar, g, p) {
        if 0 <= i < loops.len() {
            let outer = loops[0];
            let islands = islands_of(g, curves_in(outer), verts_in(g, outer))->Ok_0;
            let n = islands.len() as int;
            let outs = outlines(ar, g, outer, islands, n)->Ok_0;
            let all = holes(ar, g, outs, 0, seq![outer]);
            lemma_outlines_complete(ar, g, outer, islands, n);
            assert(loops.contains(loops[i]));
            lemma_clear_from(ar, g, p, all, all.len() as int, loops[i]);
            lemma_holes_from(ar, g, outs, 0, seq![outer], loops[i]);
            if seq![outer].contains(loops[i]) {
                assert(loops[i] == outer);
            } else {
                let j = choose|j: int|
                    0 <= j < outs.len() && (#[trigger] outs[j]).1 == loops[i] && !sheltered(
                        ar,
                        g,
                        outs,
                        j,
                    );
                assert(outs.contains(outs[j]));
                let k = choose|k: int|
                    0 <= k < n && in_polyline(
                        ar,
                        g.verts[(#[trigger] islands[k]).test.0 as int]->0,
                        loop_poly(ar, g, outer),
                    ) && outs[j].0 == g.verts[islands[k].test.0 as int]->0 && outline_of(
                        ar,
                        g,
                        curves_in(outer),
                        islands[k],
                    ) == Ok::<Option<Seq<HalfEdge>>, Fault>(Some(outs[j].1));
                assert(outlined(ar, g, outer, islands, k, loops[i]));
                assert forall|m: int, o: Seq<HalfEdge>| #[trigger]
                    outlined(ar, g, outer, islands, m, o) && o != loops[i] implies !in_polyline(
                    ar,
                    outs[j].0,
                    loop_poly(ar, g, o),
                ) by {
                    assert(islands[m] == islands[m]);
                    assert(outs.contains((g.verts[islands[m].test.0 as int]->0, o)));
                    let x = choose|x: int|
                        0 <= x < outs.len() && outs[x] == (
                            g.verts[islands[m].test.0 as int]->0,
                            o,
                        );
                    assert(outs[x].1 == o);
                }
            }
        }
    }
}


/// The `j`-th outline is inside another, or runs around a bounded region, or its
/// first half-edge is in one of the loops.
pub open spec fn accounted(
    ar: Arith,
    g: Graph,
    outs: Seq<Outline>,
    j: int,
    loops: Seq<Seq<HalfEdge>>,
) -> bool {
    sheltered(ar, g, outs, j) || bounded(ar, g, outs[j].1) || taken(loops, outs[j].1[0])
}

proof fn lemma_taken_on(loops: Seq<Seq<HalfEdge>>, more: Seq<Seq<HalfEdge>>, he: HalfEdge)
    requires
        loops.len() <= more.len(),
        forall|k: int| 0 <= k < loops.len() ==> #[trigger] more[k] == loops[k],
        taken(loops, he),
    ensures
        taken(more, he),
{
    let k = choose|k: int| 0 <= k < loops.len() && (#[trigger] loops[k]).contains(he);
    assert(more[k] == loops[k]);
}

proof fn lemma_holes_complete(
    ar: Arith,
    g: Graph,
    outs: Seq<Outline>,
    i: int,
    loops: Seq<Seq<HalfEdge>>,
)
    requires
        0 <= i <= outs.len(),
        forall|j: int| 0 <= j < outs.len() ==> (#[trigger] outs[j]).1.len() > 0,
    ensures
        loops.len() <= holes(ar, g, outs, i, loops).len(),
        forall|k: int|
            0 <= k < loops.len() ==> #[trigger] holes(ar, g, outs, i, loops)[k] == loops[k],
        forall|j: int|
            i <= j < outs.len() ==> #[trigger] accounted(
                ar,
                g,
                outs,
                j,
                holes(ar, g, outs, i, loops),
            ),
    decreases outs.len() - i,
{
    if i < outs.len() {
        let lp = outs[i].1;
        let all = holes(ar, g, outs, i, loops);
        if sheltered(ar, g, outs, i) || bounded(ar, g, lp) || taken(loops, lp[0]) {
            lemma_holes_complete(ar, g, outs, i + 1, loops);
            if taken(loops, lp[0]) {
                lemma_taken_on(loops, all, lp[0]);
            }
        } else {
            let more = loops.push(lp);
            lemma_holes_complete(ar, g, outs, i + 1, more);
            assert forall|k: int| 0 <= k < loops.len() implies #[trigger] all[k] == loops[k] by {
                assert(more[k] == loops[k]);
            }
            assert(taken(more, lp[0])) by {
                assert(lp.contains(lp[0]));
                assert(more[loops.len() as int].contains(lp[0]));
            }
            lemma_taken_on(more, all, lp[0]);
        }
        assert(accounted(ar, g, outs, i, all));
    }
}

proof fn lemma_outlines_complete(
    ar: Arith,
    g: Graph,
    outer: Seq<HalfEdge>,
    islands: Seq<Island>,
    n: int,
)
    requires
        0 <= n <= islands.len(),
    ensures
        outlines(ar, g, outer, islands, n) matches Ok(outs) ==> {
            &&& forall|k: int|
                #![trigger islands[k]]
                0 <= k < n && in_polyline(
                    ar,
                    g.verts[islands[k].test.0 as int]->0,
                    loop_poly(ar, g, outer),
                ) ==> match outline_of(ar, g, curves_in(outer), islands[k]) {
                    Err(_) => false,
                    Ok(None) => true,
                    Ok(Some(lp)) => outs.contains((g.verts[islands[k].test.0 as int]->0, lp)),
                }
            &&& forall|o: Outline| #[trigger]
                outs.contains(o) ==> exists|k: int|
                    0 <= k < n && in_polyline(
                        ar,
                        g.verts[(#[trigger] islands[k]).test.0 as int]->0,
                        loop_poly(ar, g, outer),
                    ) && o.0 == g.verts[islands[k].test.0 as int]->0 && outline_of(
                        ar,
                        g,
                        curves_in(outer),
                        islands[k],
                    ) == Ok::<Option<Seq<HalfEdge>>, Fault>(Some(o.1))
        },
    decreases n,
{
    if n > 0 {
        lemma_outlines_complete(ar, g, outer, islands, n - 1);
        if let Ok(outs) = outlines(ar, g, outer, islands, n) {
            let before = outlines(ar, g, outer, islands, n - 1)->Ok_0;
            assert forall|o: Outline| before.contains(o) implies #[trigger] outs.contains(o) by {
                let i = choose|i: int| 0 <= i < before.len() && before[i] == o;
                assert(outs[i] == o);
            }
            if outs.len() > before.len() {
                assert(outs.contains(outs[outs.len() - 1]));
            }
            assert forall|o: Outline| #[trigger] outs.contains(o) implies exists|k: int|
                0 <= k < n && in_polyline(
                    ar,
                    g.verts[(#[trigger] islands[k]).test.0 as int]->0,
                    loop_poly(ar, g, outer),
                ) && o.0 == g.verts[islands[k].test.0 as int]->0 && outline_of(
                    ar,
                    g,
                    curves_in(outer),
                    islands[k],
                ) == Ok::<Option<Seq<HalfEdge>>, Fault>(Some(o.1)) by {
                let i = choose|i: int| 0 <= i < outs.len() && outs[i] == o;
                if i < before.len() {
                    assert(before[i] == o);
                    assert(before.contains(o));
                } else {
                    assert(islands[n - 1] == islands[n - 1]);
                }
            }
        }
    }
}

proof fn lemma_clear_complete(
    ar: Arith,
    g: Graph,
    p: Point,
    loops: Seq<Seq<HalfEdge>>,
    n: int,
)
    requires
        0 <= n <= loops.len(),
    ensures
        forall|k: int|
            #![trigger loops[k]]
            0 <= k < n ==> clear_of(ar, g, p, loops, n).contains(loops[k]) || (k > 0 && in_polyline(
                ar,
                p,
                loop_poly(ar, g, loops[k]),
            )),
    decreases n,
{
    if n > 0 {
        lemma_clear_complete(ar, g, p, loops, n - 1);
        let before = clear_of(ar, g, p, loops, n - 1);
        let all = clear_of(ar, g, p, loops, n);
        assert forall|lp: Seq<HalfEdge>| before.contains(lp) implies #[trigger] all.contains(lp) by {
            let i = choose|i: int| 0 <= i < before.len() && before[i] == lp;
            assert(all[i] == lp);
        }
        if all.len() > before.len() {
            assert(all[all.len() - 1] == loops[n - 1]);
        }
    }
}

/// No hole of a face is missed: for every island beside the outer boundary whose
/// place is inside that, unless it is inside another such island, or its outline
/// runs around a bounded region, the outline's first half-edge is on a loop of the
/// face, or on one that has the point inside.
pub proof fn law_no_hole_is_missed(ar: Arith, g: Graph, p: Point, k: int)
    requires
        graph_wf(g),
    ensures
        face_of(ar, g, p) matches Ok(Ok(loops)) ==> loops.len() > 0 && (islands_of(
            g,
            curves_in(loops[0]),
            verts_in(g, loops[0]),
        ) matches Ok(islands) && (0 <= k < islands.len() && in_polyline(
            ar,
            g.verts[islands[k].test.0 as int]->0,
            loop_poly(ar, g, loops[0]),
        ) ==> match outline_of(ar, g, curves_in(loops[0]), islands[k]) {
            Err(_) => false,
            Ok(None) => true,
            Ok(Some(lp)) => {
                ||| bounded(ar, g, lp)
                ||| exists|j: int, o: Seq<HalfEdge>|
                    #![trigger islands[j], loop_poly(ar, g, o)]
                    0 <= j < islands.len() && in_polyline(
                        ar,
                        g.verts[islands[j].test.0 as int]->0,
                        loop_poly(ar, g, loops[0]),
                    ) && outline_of(ar, g, curves_in(loops[0]), islands[j]) == Ok::<
                        Option<Seq<HalfEdge>>,
                        Fault,
                    >(Some(o)) && in_polyline(
                        ar,
                        g.verts[islands[k].test.0 as int]->0,
                        loop_poly(ar, g, o),
                    )
                ||| exists|lo: Seq<HalfEdge>| #[trigger]
                    lo.contains(lp[0]) && (loops.contains(lo) || in_polyline(
                        ar,
                        p,
                        loop_poly(ar, g, lo),
                    ))
            },
        })),
{
    reveal(face_of);
    lemma_raycast(ar, g, p);
    lemma_march(ar, g, p, raycast(ar, g, p), 0, Set::empty());
    law_outer_first(ar, g, p);
    if let Ok(Ok(loops)) = face_of(ar, g, p) {
        let outer = loops[0];
        assert(outer_of(ar, g, p) == Ok::<Option<Seq<HalfEdge>>, Fault>(Some(outer)));
        let islands = islands_of(g, curves_in(outer), verts_in(g, outer))->Ok_0;
        let n = islands.len() as int;
        let outs = outlines(ar, g, outer, islands, n)->Ok_0;
        let all = holes(ar, g, outs, 0, seq![outer]);
        lemma_outlines(ar, g, outer, islands, n);
        lemma_outlines_complete(ar, g, outer, islands, n);
        lemma_holes_complete(ar, g, outs, 0, seq![outer]);
        lemma_clear_complete(ar, g, p, all, all.len() as int);
        let test = g.verts[islands[k].test.0 as int]->0;
        if 0 <= k < n && in_polyline(ar, test, loop_poly(ar, g, outer)) {
            assert(islands[k] == islands[k]);
            if let Ok(Some(lp)) = outline_of(ar, g, curves_in(outer), islands[k]) {
                assert(outs.contains((test, lp)));
                let j = choose|j: int| 0 <= j < outs.len() && outs[j] == (test, lp);
                assert(outs[j].1 == lp);
                assert(accounted(ar, g, outs, j, all));
                if sheltered(ar, g, outs, j) {
                    let i = choose|i: int|
                        0 <= i < outs.len() && i != j && in_polyline(
                            ar,
                            outs[j].0,
                            loop_poly(ar, g, (#[trigger] outs[i]).1),
                        );
                    assert(outs.contains(outs[i]));
                    let m = choose|m: int|
                        0 <= m < n && in_polyline(
                            ar,
                            g.verts[(#[trigger] islands[m]).test.0 as int]->0,
                            loop_poly(ar, g, outer),
                        ) && outs[i].0 == g.verts[islands[m].test.0 as int]->0 && outline_of(
                            ar,
                            g,
                            curves_in(outer),
                            islands[m],
                        ) == Ok::<Option<Seq<HalfEdge>>, Fault>(Some(outs[i].1));
                    assert(islands[m] == islands[m]);
                    assert(in_polyline(ar, test, loop_poly(ar, g, outs[i].1)));
                } else if !bounded(ar, g, lp) {
                    assert(taken(all, lp[0]));
                    let m = choose|m: int| 0 <= m < all.len() && (#[trigger] all[m]).contains(lp[0]);
                    assert(all[m].contains(lp[0]));
                }
            }
        }
    }
}

} // verus!
