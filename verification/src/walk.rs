//! Half-edges, their cyclic order around a vertex, and walks around a face.
//!
//! Orientation is algebraic: `cross((x1, y1), (x2, y2)) = x1 * y2 - y1 * x2`. A
//! walk keeps its face on the algebraic left.

use vstd::prelude::*;
use vstd::set_lib::lemma_len_subset;

use crate::calc::{angle, Arith, Calc, Op};
use crate::error::{viewed, Fault};
use crate::geom::untagged;
use crate::graph::{
    any_curve, curve_ids_of, curve_live, curve_of, graph_wf, law_polyline_keeps_endpoints,
    lemma_pick, points_of, polyline_of, Arrangement, Curve, CurveId, Graph, VertexId,
};
use crate::order::{key_leq, lemma_sorted, sort_keys, spec_sorted, Key};
use crate::point::{spec_minus, Point};
use crate::scalar::{num, Scalar, ZERO};

verus! {

/// A curve and a direction; `true` runs from its last vertex to its first.
pub type HalfEdge = (CurveId, bool);

pub open spec fn flip(he: HalfEdge) -> HalfEdge {
    (he.0, !he.1)
}

pub open spec fn start_of(g: Graph, he: HalfEdge) -> VertexId {
    if he.1 {
        curve_of(g, he.0).v1
    } else {
        curve_of(g, he.0).v0
    }
}

pub open spec fn end_of(g: Graph, he: HalfEdge) -> VertexId {
    start_of(g, flip(he))
}

/// The rendered polyline of a half-edge, in the direction of travel.
pub open spec fn he_poly_of(ar: Arith, g: Graph, he: HalfEdge) -> Seq<Point> {
    let poly = untagged(polyline_of(ar, g, he.0));
    if he.1 {
        poly.reverse()
    } else {
        poly
    }
}

/// The first point from the `i`-th on that is not `a`, or else `a`.
pub open spec fn first_other(poly: Seq<Point>, a: Point, i: int) -> Point
    decreases poly.len() - i,
{
    if i >= poly.len() {
        a
    } else if !poly[i].spec_same(a) {
        poly[i]
    } else {
        first_other(poly, a, i + 1)
    }
}

/// The direction in which a half-edge leaves its first vertex.
pub open spec fn out_dir_of(ar: Arith, g: Graph, he: HalfEdge) -> Point {
    let poly = he_poly_of(ar, g, he);
    spec_minus(ar, first_other(poly, poly[0], 0), poly[0])
}

pub open spec fn angle_of(ar: Arith, g: Graph, he: HalfEdge) -> Scalar {
    let d = out_dir_of(ar, g, he);
    angle(ar, d.y, d.x)
}

// ---- around a vertex ----

/// The half-edges of the first `n` curves that leave `v`.
pub open spec fn outgoing_below(curves: Seq<Option<Curve>>, v: VertexId, n: int) -> Seq<HalfEdge>
    decreases n,
{
    if n <= 0 {
        Seq::empty()
    } else {
        let rest = outgoing_below(curves, v, n - 1);
        let id = CurveId((n - 1) as u32);
        match curves[n - 1] {
            None => rest,
            Some(c) => {
                let fore = if c.v0 == v {
                    rest.push((id, false))
                } else {
                    rest
                };
                if c.v1 == v {
                    fore.push((id, true))
                } else {
                    fore
                }
            },
        }
    }
}

pub open spec fn outgoing_of(g: Graph, v: VertexId) -> Seq<HalfEdge> {
    outgoing_below(g.curves, v, g.curves.len() as int)
}

/// Half-edges by curve, the reversed one first.
pub open spec fn spec_code(he: HalfEdge) -> u64 {
    (he.0.0 * 2 + if he.1 {
        0int
    } else {
        1int
    }) as u64
}

pub open spec fn spec_decode(code: u64) -> HalfEdge {
    (CurveId((code / 2) as u32), code % 2 == 0)
}

/// A half-edge's place in the order around its vertex: by exit angle, at equal
/// angles by curve, and of one curve the reversed half-edge first.
pub open spec fn key_of(ar: Arith, g: Graph, he: HalfEdge) -> Key {
    (angle_of(ar, g, he).spec_rank() as i64, spec_code(he))
}

pub open spec fn keys_of(ar: Arith, g: Graph, hes: Seq<HalfEdge>) -> Seq<Key> {
    hes.map_values(|he: HalfEdge| key_of(ar, g, he))
}

/// The half-edges that leave `v`, counterclockwise by exit angle. Two or more
/// cannot be put in order when an angle is not a number.
#[verifier::opaque]
pub open spec fn ordered_at(ar: Arith, g: Graph, v: VertexId) -> Result<Seq<HalfEdge>, Fault> {
    let out = outgoing_of(g, v);
    if out.len() >= 2 && exists|i: int|
        0 <= i < out.len() && angle_of(ar, g, #[trigger] out[i]).spec_is_nan() {
        Err(Fault::NotANumber)
    } else {
        Ok(spec_sorted(keys_of(ar, g, out)).map_values(|key: Key| spec_decode(key.1)))
    }
}

/// The first place of `he` from the `i`-th on.
pub open spec fn place_of(hes: Seq<HalfEdge>, he: HalfEdge, i: int) -> int
    decreases hes.len() - i,
{
    if i >= hes.len() {
        hes.len() as int
    } else if hes[i] == he {
        i
    } else {
        place_of(hes, he, i + 1)
    }
}

/// The place before the `i`-th of `n`, cyclically.
pub open spec fn place_before(i: int, n: int) -> int {
    if i == 0 {
        n - 1
    } else {
        i - 1
    }
}

/// The half-edge after arriving at `v` by the flip of `twin`, with the face on
/// the algebraic left: the one before `twin` in the cyclic order.
pub open spec fn next_at(ar: Arith, g: Graph, v: VertexId, twin: HalfEdge) -> Result<
    Option<HalfEdge>,
    Fault,
> {
    match ordered_at(ar, g, v) {
        Err(e) => Err(e),
        Ok(hes) => {
            let i = place_of(hes, twin, 0);
            if i < hes.len() {
                Ok(Some(hes[place_before(i, hes.len() as int)]))
            } else {
                Ok(None)
            }
        },
    }
}

/// The half-edge that follows `he` around the face on its left.
pub open spec fn next_of(ar: Arith, g: Graph, he: HalfEdge) -> Result<Option<HalfEdge>, Fault> {
    next_at(ar, g, end_of(g, he), flip(he))
}

/// The first place from the `i`-th on with an exit angle of zero or more, or
/// else the first place of all.
pub open spec fn first_upward(ar: Arith, g: Graph, hes: Seq<HalfEdge>, i: int) -> int
    decreases hes.len() - i,
{
    if i >= hes.len() {
        0
    } else if num(ZERO).spec_le(angle_of(ar, g, hes[i])) {
        i
    } else {
        first_upward(ar, g, hes, i + 1)
    }
}

/// The half-edge after a virtual arrival at `v` from the direction of +x.
pub open spec fn first_from_plus_x(ar: Arith, g: Graph, v: VertexId) -> Result<
    Option<HalfEdge>,
    Fault,
> {
    match ordered_at(ar, g, v) {
        Err(e) => Err(e),
        Ok(hes) => if hes.len() == 0 {
            Ok(None)
        } else {
            Ok(Some(hes[place_before(first_upward(ar, g, hes, 0), hes.len() as int)]))
        },
    }
}

// ---- around a face ----

/// The walk that has come along `hes`, on to its end: when it is back at its
/// first half-edge it is closed.
pub open spec fn walked(ar: Arith, g: Graph, hes: Seq<HalfEdge>, cap: int) -> Result<
    Option<Seq<HalfEdge>>,
    Fault,
>
    decreases cap - hes.len(),
{
    match next_of(ar, g, hes.last()) {
        Err(e) => Err(e),
        Ok(None) => Ok(None),
        Ok(Some(next)) => if next == hes[0] {
            Ok(Some(hes))
        } else if hes.contains(next) {
            Ok(None)
        } else if hes.len() + 1 > cap {
            Ok(None)
        } else {
            walked(ar, g, hes.push(next), cap)
        },
    }
}

pub open spec fn walk_cap(g: Graph) -> int {
    4 * (curve_ids_of(g).len() as int) + 8
}

/// The boundary of the face on the algebraic left of `start`.
#[verifier::opaque]
pub open spec fn face_walk(ar: Arith, g: Graph, start: HalfEdge) -> Result<
    Option<Seq<HalfEdge>>,
    Fault,
> {
    walked(ar, g, seq![start], walk_cap(g))
}

/// The polyline of the first `n` half-edges of a loop, the joints once each.
pub open spec fn loop_poly_below(ar: Arith, g: Graph, lp: Seq<HalfEdge>, n: int) -> Seq<Point>
    decreases n,
{
    if n <= 0 {
        Seq::empty()
    } else {
        let before = loop_poly_below(ar, g, lp, n - 1);
        let poly = he_poly_of(ar, g, lp[n - 1]);
        if before.len() == 0 {
            poly
        } else {
            before + poly.skip(1)
        }
    }
}

pub open spec fn loop_poly(ar: Arith, g: Graph, lp: Seq<HalfEdge>) -> Seq<Point> {
    loop_poly_below(ar, g, lp, lp.len() as int)
}

/// Every half-edge of the loop is of a live curve.
pub open spec fn loop_live(g: Graph, lp: Seq<HalfEdge>) -> bool {
    forall|i: int| 0 <= i < lp.len() ==> curve_live(g, (#[trigger] lp[i]).0)
}

/// The loop goes along each of its curves in both directions.
pub open spec fn retraced(lp: Seq<HalfEdge>) -> bool {
    forall|i: int| 0 <= i < lp.len() ==> lp.contains(flip(#[trigger] lp[i]))
}

// ---- laws ----

proof fn lemma_outgoing_below(curves: Seq<Option<Curve>>, v: VertexId, n: int)
    requires
        0 <= n <= curves.len() <= u32::MAX,
    ensures
        forall|i: int|
            #![trigger outgoing_below(curves, v, n)[i]]
            0 <= i < outgoing_below(curves, v, n).len() ==> {
                let he = outgoing_below(curves, v, n)[i];
                &&& he.0.0 < n
                &&& curves[he.0.0 as int] is Some
                &&& (if he.1 {
                    (curves[he.0.0 as int]->0).v1
                } else {
                    (curves[he.0.0 as int]->0).v0
                }) == v
            },
        forall|he: HalfEdge|
            #![trigger outgoing_below(curves, v, n).contains(he)]
            he.0.0 < n && curves[he.0.0 as int] is Some && (if he.1 {
                (curves[he.0.0 as int]->0).v1
            } else {
                (curves[he.0.0 as int]->0).v0
            }) == v ==> outgoing_below(curves, v, n).contains(he),
        outgoing_below(curves, v, n).no_duplicates(),
    decreases n,
{
    if n > 0 {
        lemma_outgoing_below(curves, v, n - 1);
        let rest = outgoing_below(curves, v, n - 1);
        let all = outgoing_below(curves, v, n);
        let id = CurveId((n - 1) as u32);
        assert forall|he: HalfEdge|
            he.0.0 < n && curves[he.0.0 as int] is Some && (if he.1 {
                (curves[he.0.0 as int]->0).v1
            } else {
                (curves[he.0.0 as int]->0).v0
            }) == v implies #[trigger] all.contains(he) by {
            if he.0.0 < n - 1 {
                assert(rest.contains(he));
                let i = choose|i: int| 0 <= i < rest.len() && rest[i] == he;
                assert(all[i] == he);
            } else {
                assert(he.0 == id);
                if he.1 {
                    assert(all[all.len() - 1] == he);
                } else {
                    assert(all[rest.len() as int] == he);
                }
            }
        }
    }
}

/// What leaves a vertex: exactly the half-edges of live curves that start
/// there, each once.
pub proof fn lemma_outgoing(g: Graph, v: VertexId)
    requires
        graph_wf(g),
    ensures
        forall|he: HalfEdge| #[trigger]
            outgoing_of(g, v).contains(he) <==> curve_live(g, he.0) && start_of(g, he) == v,
        outgoing_of(g, v).no_duplicates(),
{
    lemma_outgoing_below(g.curves, v, g.curves.len() as int);
}

proof fn lemma_decode(he: HalfEdge)
    ensures
        spec_decode(spec_code(he)) == he,
{
}

/// The cyclic order holds exactly what leaves the vertex, each once.
pub proof fn lemma_ordered(ar: Arith, g: Graph, v: VertexId)
    requires
        graph_wf(g),
    ensures
        ordered_at(ar, g, v) matches Ok(hes) ==> {
            &&& hes.no_duplicates()
            &&& forall|he: HalfEdge| #[trigger]
                hes.contains(he) <==> curve_live(g, he.0) && start_of(g, he) == v
        },
{
    reveal(ordered_at);
    let out = outgoing_of(g, v);
    let keys = keys_of(ar, g, out);
    let sorted = spec_sorted(keys);
    let hes = sorted.map_values(|key: Key| spec_decode(key.1));
    lemma_outgoing(g, v);
    lemma_sorted(keys);
    assert(keys.no_duplicates()) by {
        assert forall|i: int, j: int|
            0 <= i < keys.len() && 0 <= j < keys.len() && i != j implies keys[i] != keys[j] by {
            lemma_decode(out[i]);
            lemma_decode(out[j]);
        }
    }
    keys.lemma_multiset_has_no_duplicates();
    sorted.lemma_multiset_has_no_duplicates_conv();
    assert forall|i: int| 0 <= i < sorted.len() implies exists|j: int|
        0 <= j < out.len() && #[trigger] keys[j] == #[trigger] sorted[i] && hes[i] == out[j] by {
        assert(sorted.contains(sorted[i]));
        assert(keys.contains(sorted[i]));
        let j = choose|j: int| 0 <= j < keys.len() && keys[j] == sorted[i];
        lemma_decode(out[j]);
        assert(keys[j] == sorted[i] && hes[i] == out[j]);
    }
    assert forall|i: int, j: int|
        0 <= i < hes.len() && 0 <= j < hes.len() && i != j implies hes[i] != hes[j] by {
        let a = choose|a: int|
            0 <= a < out.len() && #[trigger] keys[a] == sorted[i] && hes[i] == out[a];
        let b = choose|b: int|
            0 <= b < out.len() && #[trigger] keys[b] == sorted[j] && hes[j] == out[b];
        assert(keys[a] == sorted[i]);
        assert(keys[b] == sorted[j]);
    }
    assert forall|he: HalfEdge| #[trigger]
        hes.contains(he) <==> curve_live(g, he.0) && start_of(g, he) == v by {
        if hes.contains(he) {
            let i = choose|i: int| 0 <= i < hes.len() && hes[i] == he;
            let a = choose|a: int|
                0 <= a < out.len() && #[trigger] keys[a] == sorted[i] && hes[i] == out[a];
            assert(out[a] == he);
            assert(out.contains(he));
        }
        if curve_live(g, he.0) && start_of(g, he) == v {
            assert(out.contains(he));
            let a = choose|a: int| 0 <= a < out.len() && out[a] == he;
            assert(keys[a] == key_of(ar, g, he));
            assert(keys.contains(keys[a]));
            assert(sorted.contains(keys[a]));
            let i = choose|i: int| 0 <= i < sorted.len() && sorted[i] == keys[a];
            lemma_decode(he);
            assert(hes[i] == he);
        }
    }
}

/// `a` comes before `b`.
pub open spec fn key_before(a: Key, b: Key) -> bool {
    a.0 < b.0 || (a.0 == b.0 && a.1 < b.1)
}

/// The cyclic order goes strictly up in the keys.
pub proof fn lemma_ordered_keys(ar: Arith, g: Graph, v: VertexId)
    requires
        graph_wf(g),
    ensures
        ordered_at(ar, g, v) matches Ok(hes) ==> forall|i: int, j: int|
            0 <= i < j < hes.len() ==> key_before(
                key_of(ar, g, #[trigger] hes[i]),
                key_of(ar, g, #[trigger] hes[j]),
            ),
{
    lemma_ordered(ar, g, v);
    if let Ok(hes) = ordered_at(ar, g, v) {
        reveal(ordered_at);
        let out = outgoing_of(g, v);
        let keys = keys_of(ar, g, out);
        let sorted = spec_sorted(keys);
        lemma_sorted(keys);
        assert forall|i: int| 0 <= i < sorted.len() implies #[trigger] key_of(ar, g, hes[i])
            == sorted[i] by {
            assert(sorted.contains(sorted[i]));
            assert(keys.contains(sorted[i]));
            let j = choose|j: int| 0 <= j < keys.len() && keys[j] == sorted[i];
            lemma_decode(out[j]);
        }
        assert forall|i: int, j: int| 0 <= i < j < hes.len() implies key_before(
            key_of(ar, g, #[trigger] hes[i]),
            key_of(ar, g, #[trigger] hes[j]),
        ) by {
            assert(key_leq()(sorted[i], sorted[j]));
            assert(hes[i] != hes[j]);
            lemma_decode(hes[i]);
            lemma_decode(hes[j]);
        }
    }
}

pub(crate) proof fn lemma_place(hes: Seq<HalfEdge>, he: HalfEdge, i: int)
    requires
        0 <= i <= hes.len(),
    ensures
        i <= place_of(hes, he, i) <= hes.len(),
        place_of(hes, he, i) < hes.len() ==> hes[place_of(hes, he, i)] == he,
        place_of(hes, he, i) == hes.len() ==> forall|j: int|
            i <= j < hes.len() ==> #[trigger] hes[j] != he,
    decreases hes.len() - i,
{
    if i < hes.len() && hes[i] != he {
        lemma_place(hes, he, i + 1);
    }
}

/// Every live half-edge has a next one, live and starting where it ends.
pub proof fn law_next_exists(ar: Arith, g: Graph, he: HalfEdge)
    requires
        graph_wf(g),
        curve_live(g, he.0),
    ensures
        next_of(ar, g, he) matches Ok(n) ==> n matches Some(next) && curve_live(g, next.0)
            && start_of(g, next) == end_of(g, he),
{
    let v = end_of(g, he);
    lemma_ordered(ar, g, v);
    if let Ok(hes) = ordered_at(ar, g, v) {
        assert(hes.contains(flip(he)));
        let j = choose|j: int| 0 <= j < hes.len() && hes[j] == flip(he);
        lemma_place(hes, flip(he), 0);
        let i = place_of(hes, flip(he), 0);
        assert(hes[j] == flip(he));
        let next = hes[place_before(i, hes.len() as int)];
        assert(hes.contains(next));
    }
}

/// No two half-edges have the same next one.
pub proof fn law_next_injective(ar: Arith, g: Graph, a: HalfEdge, b: HalfEdge)
    requires
        graph_wf(g),
        curve_live(g, a.0),
        curve_live(g, b.0),
        next_of(ar, g, a) is Ok,
        next_of(ar, g, a) == next_of(ar, g, b),
    ensures
        a == b,
{
    law_next_exists(ar, g, a);
    law_next_exists(ar, g, b);
    let v = end_of(g, a);
    lemma_ordered(ar, g, v);
    let hes = ordered_at(ar, g, v)->Ok_0;
    lemma_place(hes, flip(a), 0);
    lemma_place(hes, flip(b), 0);
    let i = place_of(hes, flip(a), 0);
    let j = place_of(hes, flip(b), 0);
    let n = hes.len() as int;
    assert(hes.contains(flip(a)));
    assert(hes.contains(flip(b)));
    assert(place_before(i, n) == place_before(j, n));
}

/// `hes` goes from next to next.
pub open spec fn is_trail(ar: Arith, g: Graph, hes: Seq<HalfEdge>) -> bool {
    &&& hes.len() > 0
    &&& hes.no_duplicates()
    &&& loop_live(g, hes)
    &&& forall|i: int|
        #![trigger hes[i]]
        0 <= i < hes.len() - 1 ==> next_of(ar, g, hes[i]) == Ok::<Option<HalfEdge>, Fault>(
            Some(hes[i + 1]),
        )
}

/// `hes` is a closed walk around a face: each half-edge is the next of the one
/// before it, cyclically, and none occurs twice.
pub open spec fn is_face_loop(ar: Arith, g: Graph, hes: Seq<HalfEdge>) -> bool {
    &&& is_trail(ar, g, hes)
    &&& next_of(ar, g, hes.last()) == Ok::<Option<HalfEdge>, Fault>(Some(hes[0]))
}

/// A trail is no longer than there are half-edges.
proof fn lemma_trail_len(ar: Arith, g: Graph, hes: Seq<HalfEdge>)
    requires
        graph_wf(g),
        is_trail(ar, g, hes),
    ensures
        hes.len() <= 2 * curve_ids_of(g).len(),
{
    let ids = curve_ids_of(g);
    lemma_pick(g.curves, any_curve(), g.curves.len() as int);
    let fore = ids.map_values(|c: CurveId| (c, false));
    let back = ids.map_values(|c: CurveId| (c, true));
    let all = fore + back;
    assert(hes.to_set().subset_of(all.to_set())) by {
        assert forall|he: HalfEdge| hes.to_set().contains(he) implies all.to_set().contains(
            he,
        ) by {
            let i = choose|i: int| 0 <= i < hes.len() && hes[i] == he;
            assert(curve_live(g, hes[i].0));
            assert(ids.contains(he.0));
            let j = choose|j: int| 0 <= j < ids.len() && ids[j] == he.0;
            if he.1 {
                assert(all[ids.len() + j] == he);
            } else {
                assert(all[j] == he);
            }
        }
    }
    hes.unique_seq_to_set();
    all.lemma_cardinality_of_set();
    vstd::seq_lib::seq_to_set_is_finite(all);
    lemma_len_subset(hes.to_set(), all.to_set());
}

proof fn lemma_walked(ar: Arith, g: Graph, hes: Seq<HalfEdge>, cap: int)
    requires
        graph_wf(g),
        is_trail(ar, g, hes),
        cap >= 2 * curve_ids_of(g).len(),
    ensures
        walked(ar, g, hes, cap) matches Ok(r) ==> r matches Some(lp) && is_face_loop(ar, g, lp)
            && lp[0] == hes[0],
    decreases cap - hes.len(),
{
    lemma_trail_len(ar, g, hes);
    law_next_exists(ar, g, hes.last());
    assert(curve_live(g, hes[hes.len() - 1].0));
    if let Ok(Some(next)) = next_of(ar, g, hes.last()) {
        if next == hes[0] {
        } else {
            if hes.contains(next) {
                let j = choose|j: int| 0 <= j < hes.len() && hes[j] == next;
                let before = hes[j - 1];
                assert(curve_live(g, before.0));
                assert(next_of(ar, g, before) == Ok::<Option<HalfEdge>, Fault>(Some(hes[j - 1 + 1])));
                law_next_injective(ar, g, before, hes.last());
                assert(false);
            }
            let more = hes.push(next);
            assert forall|i: int| #![trigger more[i]] 0 <= i < more.len() - 1 implies next_of(
                ar,
                g,
                more[i],
            ) == Ok::<Option<HalfEdge>, Fault>(Some(more[i + 1])) by {
                if i < hes.len() - 1 {
                    assert(next_of(ar, g, hes[i]) == Ok::<Option<HalfEdge>, Fault>(
                        Some(hes[i + 1]),
                    ));
                }
            }
            assert(is_trail(ar, g, more));
            lemma_trail_len(ar, g, more);
            lemma_walked(ar, g, more, cap);
        }
    }
}

/// A walk around a face always closes: from a live half-edge it comes back to
/// where it started, without repeating itself.
pub proof fn law_walk_closes(ar: Arith, g: Graph, start: HalfEdge)
    requires
        graph_wf(g),
        curve_live(g, start.0),
    ensures
        face_walk(ar, g, start) matches Ok(r) ==> r matches Some(lp) && is_face_loop(ar, g, lp)
            && lp[0] == start,
{
    reveal(face_walk);
    assert(is_trail(ar, g, seq![start]));
    lemma_walked(ar, g, seq![start], walk_cap(g));
}

proof fn lemma_walk_along(ar: Arith, g: Graph, lp: Seq<HalfEdge>, n: int)
    requires
        is_face_loop(ar, g, lp),
        1 <= n <= lp.len() <= walk_cap(g),
    ensures
        walked(ar, g, lp.take(n), walk_cap(g)) == Ok::<Option<Seq<HalfEdge>>, Fault>(Some(lp)),
    decreases lp.len() - n,
{
    let hes = lp.take(n);
    assert(hes.last() == lp[n - 1]);
    if n == lp.len() {
        assert(hes =~= lp);
    } else {
        lemma_walk_along(ar, g, lp, n + 1);
        assert(next_of(ar, g, lp[n - 1]) == Ok::<Option<HalfEdge>, Fault>(Some(lp[n - 1 + 1])));
        assert(lp[n] != lp[0]);
        assert(!hes.contains(lp[n])) by {
            if hes.contains(lp[n]) {
                let j = choose|j: int| 0 <= j < hes.len() && hes[j] == lp[n];
                assert(lp[j] == lp[n]);
            }
        }
        assert(lp.take(n + 1) =~= hes.push(lp[n]));
    }
}

/// The walk from a half-edge around its face is the closed walk that starts
/// with it.
pub proof fn law_walk_is_the_loop(ar: Arith, g: Graph, lp: Seq<HalfEdge>)
    requires
        graph_wf(g),
        is_face_loop(ar, g, lp),
    ensures
        face_walk(ar, g, lp[0]) == Ok::<Option<Seq<HalfEdge>>, Fault>(Some(lp)),
{
    reveal(face_walk);
    lemma_trail_len(ar, g, lp);
    lemma_walk_along(ar, g, lp, 1);
    assert(lp.take(1) =~= seq![lp[0]]);
}

proof fn lemma_loop_next(ar: Arith, g: Graph, lp: Seq<HalfEdge>, i: int)
    requires
        is_face_loop(ar, g, lp),
        0 <= i < lp.len(),
    ensures
        next_of(ar, g, lp[i]) == Ok::<Option<HalfEdge>, Fault>(
            Some(lp[if i + 1 == lp.len() { 0 } else { i + 1 }]),
        ),
{
    if i + 1 < lp.len() {
        assert(next_of(ar, g, lp[i]) == Ok::<Option<HalfEdge>, Fault>(Some(lp[i + 1])));
    }
}

/// From a shared half-edge on, one loop stays within the other.
proof fn lemma_loop_within(ar: Arith, g: Graph, a: Seq<HalfEdge>, b: Seq<HalfEdge>, i: int, steps: int)
    requires
        is_face_loop(ar, g, a),
        is_face_loop(ar, g, b),
        0 <= i < a.len(),
        0 <= steps < a.len(),
        b.contains(a[i]),
    ensures
        b.contains(a[if i + steps < a.len() { i + steps } else { i + steps - a.len() }]),
    decreases steps,
{
    if steps > 0 {
        lemma_loop_within(ar, g, a, b, i, steps - 1);
        let k = if i + steps - 1 < a.len() { i + steps - 1 } else { i + steps - 1 - a.len() };
        let j = choose|j: int| 0 <= j < b.len() && b[j] == a[k];
        lemma_loop_next(ar, g, a, k);
        lemma_loop_next(ar, g, b, j);
        let n = if j + 1 == b.len() { 0 } else { j + 1 };
        assert(b[n] == a[if k + 1 == a.len() { 0 } else { k + 1 }]);
    }
}

/// Faces do not overlap: two closed walks that share a half-edge go along the
/// same half-edges.
pub proof fn law_face_loops_same_or_disjoint(
    ar: Arith,
    g: Graph,
    a: Seq<HalfEdge>,
    b: Seq<HalfEdge>,
    shared: HalfEdge,
)
    requires
        is_face_loop(ar, g, a),
        is_face_loop(ar, g, b),
        a.contains(shared),
        b.contains(shared),
    ensures
        forall|he: HalfEdge| a.contains(he) <==> b.contains(he),
{
    let i = choose|i: int| 0 <= i < a.len() && a[i] == shared;
    let j = choose|j: int| 0 <= j < b.len() && b[j] == shared;
    assert forall|he: HalfEdge| a.contains(he) <==> b.contains(he) by {
        if a.contains(he) {
            let k = choose|k: int| 0 <= k < a.len() && a[k] == he;
            let steps = if k >= i { k - i } else { k - i + a.len() };
            lemma_loop_within(ar, g, a, b, i, steps);
        }
        if b.contains(he) {
            let k = choose|k: int| 0 <= k < b.len() && b[k] == he;
            let steps = if k >= j { k - j } else { k - j + b.len() };
            lemma_loop_within(ar, g, b, a, j, steps);
        }
    }
}

/// The first half-edge after a virtual arrival starts at the vertex.
pub proof fn lemma_plus_x(ar: Arith, g: Graph, v: VertexId)
    requires
        graph_wf(g),
    ensures
        first_from_plus_x(ar, g, v) matches Ok(Some(he)) ==> curve_live(g, he.0) && start_of(g, he)
            == v,
{
    lemma_ordered(ar, g, v);
    if let Ok(hes) = ordered_at(ar, g, v) {
        if hes.len() > 0 {
            lemma_first_upward(ar, g, hes, 0);
            let he = hes[place_before(first_upward(ar, g, hes, 0), hes.len() as int)];
            assert(hes.contains(he));
        }
    }
}

proof fn lemma_first_upward(ar: Arith, g: Graph, hes: Seq<HalfEdge>, i: int)
    requires
        0 <= i <= hes.len(),
    ensures
        0 <= first_upward(ar, g, hes, i),
        hes.len() > 0 ==> first_upward(ar, g, hes, i) < hes.len(),
    decreases hes.len() - i,
{
    if i < hes.len() {
        lemma_first_upward(ar, g, hes, i + 1);
    }
}

/// A half-edge's polyline has two points or more.
pub proof fn lemma_he_poly(ar: Arith, g: Graph, he: HalfEdge)
    ensures
        he_poly_of(ar, g, he).len() >= 2,
{
    law_polyline_keeps_endpoints(ar, g, he.0);
}

/// What is left of an arrangement when curves are taken away: the others are as
/// they were.
pub open spec fn thinned_out(g1: Graph, g2: Graph) -> bool {
    &&& g1.snap == g2.snap
    &&& g1.tol == g2.tol
    &&& forall|c: CurveId|
        #![trigger curve_live(g2, c)]
        curve_live(g2, c) ==> curve_live(g1, c) && curve_of(g2, c) == curve_of(g1, c) && points_of(
            g2,
            c,
        ) == points_of(g1, c)
}

pub(crate) proof fn lemma_thinned_key(ar: Arith, g1: Graph, g2: Graph, he: HalfEdge)
    requires
        thinned_out(g1, g2),
        curve_live(g2, he.0),
    ensures
        he_poly_of(ar, g1, he) == he_poly_of(ar, g2, he),
        key_of(ar, g1, he) == key_of(ar, g2, he),
        angle_of(ar, g1, he) == angle_of(ar, g2, he),
{
    reveal(polyline_of);
}

/// The order around a vertex is in order still when curves are taken away.
proof fn lemma_thinned_order(ar: Arith, g1: Graph, g2: Graph, v: VertexId)
    requires
        graph_wf(g1),
        graph_wf(g2),
        thinned_out(g1, g2),
        ordered_at(ar, g1, v) is Ok,
    ensures
        ordered_at(ar, g2, v) is Ok,
{
    reveal(ordered_at);
    let out1 = outgoing_of(g1, v);
    let out2 = outgoing_of(g2, v);
    lemma_outgoing(g1, v);
    lemma_outgoing(g2, v);
    if out2.len() >= 2 && exists|i: int|
        0 <= i < out2.len() && angle_of(ar, g2, #[trigger] out2[i]).spec_is_nan() {
        let i = choose|i: int|
            0 <= i < out2.len() && angle_of(ar, g2, #[trigger] out2[i]).spec_is_nan();
        let a = out2[i];
        let b = out2[if i == 0 { 1int } else { 0 }];
        assert(out2.contains(a) && out2.contains(b) && a != b);
        assert(out1.contains(a) && out1.contains(b));
        let x = choose|x: int| 0 <= x < out1.len() && out1[x] == a;
        let y = choose|y: int| 0 <= y < out1.len() && out1[y] == b;
        lemma_thinned_key(ar, g1, g2, a);
        assert(angle_of(ar, g1, out1[x]).spec_is_nan());
        assert(out1.len() >= 2);
        assert(false);
    }
}

/// A half-edge that is followed by another still is when other curves are taken
/// away.
pub proof fn law_next_survives(ar: Arith, g1: Graph, g2: Graph, he: HalfEdge, next: HalfEdge)
    requires
        graph_wf(g1),
        graph_wf(g2),
        thinned_out(g1, g2),
        curve_live(g2, he.0),
        curve_live(g2, next.0),
        next_of(ar, g1, he) == Ok::<Option<HalfEdge>, Fault>(Some(next)),
    ensures
        next_of(ar, g2, he) == Ok::<Option<HalfEdge>, Fault>(Some(next)),
{
    let v = end_of(g1, he);
    let twin = flip(he);
    law_next_exists(ar, g1, he);
    lemma_thinned_order(ar, g1, g2, v);
    lemma_ordered(ar, g1, v);
    lemma_ordered(ar, g2, v);
    lemma_ordered_keys(ar, g1, v);
    lemma_ordered_keys(ar, g2, v);
    let h1 = ordered_at(ar, g1, v)->Ok_0;
    let h2 = ordered_at(ar, g2, v)->Ok_0;
    let (n1, n2) = (h1.len() as int, h2.len() as int);
    lemma_place(h1, twin, 0);
    lemma_place(h2, twin, 0);
    let i1 = place_of(h1, twin, 0);
    let i2 = place_of(h2, twin, 0);
    assert(h1.contains(twin) && h2.contains(twin) && h2.contains(next));
    let j1 = place_before(i1, n1);
    let j2 = choose|j: int| 0 <= j < n2 && h2[j] == next;
    // What leaves the vertex is where it was in the order.
    assert forall|x: int| 0 <= x < n2 implies exists|y: int|
        0 <= y < n1 && h1[y] == #[trigger] h2[x] && key_of(ar, g1, h1[y]) == key_of(
            ar,
            g2,
            h2[x],
        ) by {
        assert(h2.contains(h2[x]));
        assert(h1.contains(h2[x]));
        let y = choose|y: int| 0 <= y < n1 && h1[y] == h2[x];
        lemma_thinned_key(ar, g1, g2, h2[x]);
        assert(h1[y] == h2[x]);
    }
    lemma_thinned_key(ar, g1, g2, twin);
    lemma_thinned_key(ar, g1, g2, next);
    let want = place_before(i2, n2);
    if want != j2 {
        let x = if i1 == 0 {
            if i2 > 0 {
                0
            } else {
                n2 - 1
            }
        } else if j2 < i2 {
            j2 + 1
        } else {
            i2
        };
        let y = choose|y: int|
            0 <= y < n1 && h1[y] == h2[x] && key_of(ar, g1, h1[y]) == key_of(ar, g2, h2[x]);
        assert(key_of(ar, g1, h1[i1]) == key_of(ar, g2, h2[i2]));
        assert(key_of(ar, g1, h1[j1]) == key_of(ar, g2, h2[j2]));
        assert(false);
    }
}

/// A walk around a face still is one when other curves are taken away, and runs
/// along the same polyline.
pub proof fn law_face_loop_survives(ar: Arith, g1: Graph, g2: Graph, lp: Seq<HalfEdge>)
    requires
        graph_wf(g1),
        graph_wf(g2),
        thinned_out(g1, g2),
        is_face_loop(ar, g1, lp),
        loop_live(g2, lp),
    ensures
        is_face_loop(ar, g2, lp),
        loop_poly(ar, g2, lp) == loop_poly(ar, g1, lp),
{
    assert forall|i: int| #![trigger lp[i]] 0 <= i < lp.len() - 1 implies next_of(ar, g2, lp[i])
        == Ok::<Option<HalfEdge>, Fault>(Some(lp[i + 1])) by {
        assert(next_of(ar, g1, lp[i]) == Ok::<Option<HalfEdge>, Fault>(Some(lp[i + 1])));
        assert(curve_live(g2, lp[i].0) && curve_live(g2, lp[i + 1].0));
        law_next_survives(ar, g1, g2, lp[i], lp[i + 1]);
    }
    assert(curve_live(g2, lp[lp.len() - 1].0) && curve_live(g2, lp[0].0));
    law_next_survives(ar, g1, g2, lp.last(), lp[0]);
    lemma_thinned_poly(ar, g1, g2, lp, lp.len() as int);
}

proof fn lemma_thinned_poly(ar: Arith, g1: Graph, g2: Graph, lp: Seq<HalfEdge>, n: int)
    requires
        thinned_out(g1, g2),
        loop_live(g2, lp),
        0 <= n <= lp.len(),
    ensures
        loop_poly_below(ar, g2, lp, n) == loop_poly_below(ar, g1, lp, n),
    decreases n,
{
    if n > 0 {
        lemma_thinned_poly(ar, g1, g2, lp, n - 1);
        assert(curve_live(g2, lp[n - 1].0));
        lemma_thinned_key(ar, g1, g2, lp[n - 1]);
    }
}

// ---- running it ----

fn code(he: HalfEdge) -> (r: u64)
    ensures
        r == spec_code(he),
{
    (he.0.0 as u64) * 2 + (if he.1 {
        0u64
    } else {
        1u64
    })
}

fn place(hes: &Vec<HalfEdge>, he: HalfEdge) -> (r: usize)
    ensures
        r == place_of(hes@, he, 0),
{
    let n: usize = hes.len();
    let mut i: usize = 0;
    while i < n
        invariant
            i <= n == hes@.len(),
            place_of(hes@, he, 0) == place_of(hes@, he, i as int),
        decreases n - i,
    {
        if hes[i].0.0 == he.0.0 && hes[i].1 == he.1 {
            return i;
        }
        i = i + 1;
    }
    n
}

/// Whether the loop goes along each of its curves in both directions.
pub(crate) fn goes_out_and_back(lp: &Vec<HalfEdge>) -> (r: bool)
    ensures
        r == retraced(lp@),
{
    let n: usize = lp.len();
    let mut i: usize = 0;
    while i < n
        invariant
            i <= n == lp@.len(),
            forall|j: int| 0 <= j < i ==> lp@.contains(flip(#[trigger] lp@[j])),
        decreases n - i,
    {
        let twin = (lp[i].0, !lp[i].1);
        let at = place(lp, twin);
        proof {
            lemma_place(lp@, twin, 0);
            assert(twin == flip(lp@[i as int]));
        }
        if at == n {
            return false;
        }
        assert(lp@[at as int] == twin);
        i = i + 1;
    }
    true
}

fn before(i: usize, n: usize) -> (r: usize)
    requires
        i < n,
    ensures
        r == place_before(i as int, n as int),
{
    if i == 0 {
        n - 1
    } else {
        i - 1
    }
}

impl Arrangement {
    fn he_end(&self, he: HalfEdge) -> (r: VertexId)
        requires
            curve_live(self@, he.0),
        ensures
            r == end_of(self@, he),
    {
        let c = self.curve(he.0);
        if he.1 {
            c.v0
        } else {
            c.v1
        }
    }

    /// The rendered polyline of a half-edge, in the direction of travel.
    pub(crate) fn he_poly<F: Fn(Op, Scalar, Scalar) -> Scalar>(&self, k: &Calc<F>, he: HalfEdge) -> (r:
        Vec<Point>)
        requires
            k.wf(),
            graph_wf(self@),
            curve_live(self@, he.0),
        ensures
            r@ == he_poly_of(k@, self@, he),
    {
        let poly = self.polyline(k, he.0);
        if !he.1 {
            return poly;
        }
        let mut out: Vec<Point> = Vec::new();
        let n: usize = poly.len();
        let mut i: usize = 0;
        while i < n
            invariant
                i <= n == poly@.len(),
                out@ == poly@.reverse().take(i as int),
            decreases n - i,
        {
            out.push(poly[n - 1 - i]);
            i = i + 1;
            assert(poly@.reverse().take(i as int) =~= poly@.reverse().take(i - 1).push(
                poly@[n - i],
            ));
        }
        assert(poly@.reverse().take(n as int) =~= poly@.reverse());
        out
    }

    /// The direction in which a half-edge leaves its first vertex.
    fn he_out_dir<F: Fn(Op, Scalar, Scalar) -> Scalar>(&self, k: &Calc<F>, he: HalfEdge) -> (r: Point)
        requires
            k.wf(),
            graph_wf(self@),
            curve_live(self@, he.0),
        ensures
            r == out_dir_of(k@, self@, he),
    {
        let poly = self.he_poly(k, he);
        proof {
            lemma_he_poly(k@, self@, he);
        }
        let a = poly[0];
        let n: usize = poly.len();
        let mut b = a;
        let mut i: usize = 0;
        while i < n
            invariant_except_break
                i <= n == poly@.len(),
                b == a,
                first_other(poly@, a, 0) == first_other(poly@, a, i as int),
            ensures
                b == first_other(poly@, a, 0),
            decreases n - i,
        {
            if !poly[i].same(a) {
                b = poly[i];
                break;
            }
            i = i + 1;
        }
        b.minus(k, a)
    }

    fn outgoing(&self, v: VertexId) -> (r: Vec<HalfEdge>)
        requires
            graph_wf(self@),
        ensures
            r@ == outgoing_of(self@, v),
    {
        let mut out: Vec<HalfEdge> = Vec::new();
        let n: usize = self.curves.len();
        let mut i: usize = 0;
        while i < n
            invariant
                i <= n == self@.curves.len() <= u32::MAX,
                out@ == outgoing_below(self@.curves, v, i as int),
            decreases n - i,
        {
            if let Some(c) = self.curves[i] {
                if c.v0 == v {
                    out.push((CurveId(i as u32), false));
                }
                if c.v1 == v {
                    out.push((CurveId(i as u32), true));
                }
            }
            i = i + 1;
        }
        out
    }

    fn exit_angle<F: Fn(Op, Scalar, Scalar) -> Scalar>(&self, k: &Calc<F>, he: HalfEdge) -> (r: Scalar)
        requires
            k.wf(),
            graph_wf(self@),
            curve_live(self@, he.0),
        ensures
            r == angle_of(k@, self@, he),
    {
        let d = self.he_out_dir(k, he);
        k.angle(d.y, d.x)
    }

    /// The half-edges that leave `v`, counterclockwise by exit angle.
    fn ordered_outgoing<F: Fn(Op, Scalar, Scalar) -> Scalar>(&self, k: &Calc<F>, v: VertexId) -> (r:
        Result<Vec<HalfEdge>, Fault>)
        requires
            k.wf(),
            graph_wf(self@),
        ensures
            viewed(r) == ordered_at(k@, self@, v),
    {
        proof {
            reveal(ordered_at);
            lemma_outgoing(self@, v);
        }
        let out = self.outgoing(v);
        let ghost all = keys_of(k@, self@, out@);
        let n: usize = out.len();
        let mut keys: Vec<Key> = Vec::new();
        let mut i: usize = 0;
        while i < n
            invariant
                k.wf(),
                graph_wf(self@),
                i <= n == out@.len(),
                out@ == outgoing_of(self@, v),
                forall|he: HalfEdge| #[trigger]
                    out@.contains(he) <==> curve_live(self@, he.0) && start_of(self@, he) == v,
                all == keys_of(k@, self@, out@),
                keys@ == all.take(i as int),
                n >= 2 ==> forall|j: int|
                    0 <= j < i ==> !angle_of(k@, self@, #[trigger] out@[j]).spec_is_nan(),
            decreases n - i,
        {
            let he = out[i];
            assert(out@.contains(he));
            let a = self.exit_angle(k, he);
            if n >= 2 && a.is_nan() {
                proof {
                    reveal(ordered_at);
                    assert(angle_of(k@, self@, out@[i as int]).spec_is_nan());
                }
                return Err(Fault::NotANumber);
            }
            keys.push((a.rank(), code(he)));
            i = i + 1;
            assert(all.take(i as int) =~= all.take(i - 1).push(all[i - 1]));
        }
        assert(all.take(n as int) =~= all);
        let sorted = sort_keys(&keys);
        let ghost hes = sorted@.map_values(|key: Key| spec_decode(key.1));
        proof {
            lemma_sorted(keys@);
        }
        let mut r: Vec<HalfEdge> = Vec::new();
        let mut m: usize = 0;
        while m < n
            invariant
                m <= n == sorted@.len(),
                sorted@ == spec_sorted(keys@),
                keys@ == keys_of(k@, self@, out@),
                forall|x: Key| sorted@.contains(x) <==> keys@.contains(x),
                hes == sorted@.map_values(|key: Key| spec_decode(key.1)),
                r@ == hes.take(m as int),
            decreases n - m,
        {
            let key = sorted[m];
            proof {
                assert(sorted@.contains(key));
                assert(keys@.contains(key));
            }
            r.push((CurveId((key.1 / 2) as u32), key.1 % 2 == 0));
            m = m + 1;
            assert(hes.take(m as int) =~= hes.take(m - 1).push(hes[m - 1]));
        }
        assert(hes.take(n as int) =~= hes);
        Ok(r)
    }

    /// The half-edge after arriving at `v` by the flip of `twin`.
    fn next_half_edge<F: Fn(Op, Scalar, Scalar) -> Scalar>(
        &self,
        k: &Calc<F>,
        v: VertexId,
        twin: HalfEdge,
    ) -> (r: Result<Option<HalfEdge>, Fault>)
        requires
            k.wf(),
            graph_wf(self@),
        ensures
            r == next_at(k@, self@, v, twin),
    {
        match self.ordered_outgoing(k, v) {
            Err(e) => Err(e),
            Ok(hes) => {
                let i = place(&hes, twin);
                if i < hes.len() {
                    Ok(Some(hes[before(i, hes.len())]))
                } else {
                    Ok(None)
                }
            },
        }
    }

    /// The half-edge after a virtual arrival at `v` from the direction of +x.
    pub(crate) fn first_half_edge_from_plus_x<F: Fn(Op, Scalar, Scalar) -> Scalar>(
        &self,
        k: &Calc<F>,
        v: VertexId,
    ) -> (r: Result<Option<HalfEdge>, Fault>)
        requires
            k.wf(),
            graph_wf(self@),
        ensures
            r == first_from_plus_x(k@, self@, v),
    {
        let hes = match self.ordered_outgoing(k, v) {
            Err(e) => {
                return Err(e);
            },
            Ok(hes) => hes,
        };
        let n: usize = hes.len();
        if n == 0 {
            return Ok(None);
        }
        proof {
            lemma_ordered(k@, self@, v);
        }
        let mut i: usize = 0;
        while i < n
            invariant
                k.wf(),
                graph_wf(self@),
                i <= n == hes@.len(),
                n > 0,
                ordered_at(k@, self@, v) == Ok::<Seq<HalfEdge>, Fault>(hes@),
                forall|he: HalfEdge| #[trigger]
                    hes@.contains(he) <==> curve_live(self@, he.0) && start_of(self@, he) == v,
                first_upward(k@, self@, hes@, 0) == first_upward(k@, self@, hes@, i as int),
            decreases n - i,
        {
            assert(hes@.contains(hes@[i as int]));
            if (Scalar { bits: ZERO }).le(self.exit_angle(k, hes[i])) {
                return Ok(Some(hes[before(i, n)]));
            }
            i = i + 1;
        }
        Ok(Some(hes[before(0, n)]))
    }

    /// Walks the face boundary from `start`, with the face on the algebraic
    /// left.
    pub(crate) fn walk_face<F: Fn(Op, Scalar, Scalar) -> Scalar>(&self, k: &Calc<F>, start: HalfEdge) -> (r:
        Result<Option<Vec<HalfEdge>>, Fault>)
        requires
            k.wf(),
            graph_wf(self@),
            curve_live(self@, start.0),
        ensures
            match r {
                Err(e) => face_walk(k@, self@, start) == Err::<Option<Seq<HalfEdge>>, Fault>(e),
                Ok(None) => face_walk(k@, self@, start) == Ok::<Option<Seq<HalfEdge>>, Fault>(None),
                Ok(Some(lp)) => {
                    &&& face_walk(k@, self@, start) == Ok::<Option<Seq<HalfEdge>>, Fault>(
                        Some(lp@),
                    )
                    &&& is_face_loop(k@, self@, lp@)
                },
            },
    {
        proof {
            law_walk_closes(k@, self@, start);
            reveal(face_walk);
            lemma_pick(self@.curves, any_curve(), self@.curves.len() as int);
        }
        let cap: u64 = 4 * (self.curve_ids().len() as u64) + 8;
        let mut fore: Vec<bool> = Vec::new();
        let mut back: Vec<bool> = Vec::new();
        let slots: usize = self.curves.len();
        let mut i: usize = 0;
        while i < slots
            invariant
                i <= slots,
                fore@.len() == i,
                back@.len() == i,
                forall|x: int| 0 <= x < i ==> !#[trigger] fore@[x],
                forall|x: int| 0 <= x < i ==> !#[trigger] back@[x],
            decreases slots - i,
        {
            fore.push(false);
            back.push(false);
            i = i + 1;
        }
        let mut hes: Vec<HalfEdge> = Vec::new();
        hes.push(start);
        let mut cur = start;
        if start.1 {
            back.set(start.0.0 as usize, true);
        } else {
            fore.set(start.0.0 as usize, true);
        }
        assert(hes@ =~= seq![start]);
        assert(hes@[0] == start);
        loop
            invariant
                k.wf(),
                graph_wf(self@),
                cap == walk_cap(self@),
                hes@.len() > 0,
                hes@[0] == start,
                cur == hes@.last(),
                curve_live(self@, cur.0),
                fore@.len() == self@.curves.len(),
                back@.len() == self@.curves.len(),
                forall|he: HalfEdge|
                    #![trigger hes@.contains(he)]
                    curve_live(self@, he.0) ==> (hes@.contains(he) <==> if he.1 {
                        back@[he.0.0 as int]
                    } else {
                        fore@[he.0.0 as int]
                    }),
                walked(k@, self@, hes@, cap as int) == face_walk(k@, self@, start),
                face_walk(k@, self@, start) matches Ok(r) ==> r matches Some(lp) && is_face_loop(
                    k@,
                    self@,
                    lp,
                ),
            decreases cap - hes@.len(),
        {
            let v = self.he_end(cur);
            proof {
                law_next_exists(k@, self@, cur);
            }
            let next = match self.next_half_edge(k, v, (cur.0, !cur.1)) {
                Err(e) => {
                    return Err(e);
                },
                Ok(None) => {
                    return Ok(None);
                },
                Ok(Some(next)) => next,
            };
            if next.0 == start.0 && next.1 == start.1 {
                return Ok(Some(hes));
            }
            let seen = if next.1 {
                back[next.0.0 as usize]
            } else {
                fore[next.0.0 as usize]
            };
            assert(seen == hes@.contains(next));
            if seen {
                return Ok(None);
            }
            if hes.len() as u64 >= cap {
                return Ok(None);
            }
            let ghost old_hes = hes@;
            hes.push(next);
            if next.1 {
                back.set(next.0.0 as usize, true);
            } else {
                fore.set(next.0.0 as usize, true);
            }
            assert forall|he: HalfEdge|
                #![trigger hes@.contains(he)]
                curve_live(self@, he.0) implies (hes@.contains(he) <==> if he.1 {
                back@[he.0.0 as int]
            } else {
                fore@[he.0.0 as int]
            }) by {
                assert(old_hes.contains(he) || !old_hes.contains(he));
                if old_hes.contains(he) {
                    let x = choose|x: int| 0 <= x < old_hes.len() && old_hes[x] == he;
                    assert(hes@[x] == he);
                }
                if he == next {
                    assert(hes@[old_hes.len() as int] == he);
                }
            }
            cur = next;
        }
    }

    /// The polyline of a loop of half-edges, the joints once each.
    pub(crate) fn loop_polyline<F: Fn(Op, Scalar, Scalar) -> Scalar>(
        &self,
        k: &Calc<F>,
        lp: &Vec<HalfEdge>,
    ) -> (r: Vec<Point>)
        requires
            k.wf(),
            graph_wf(self@),
            loop_live(self@, lp@),
        ensures
            r@ == loop_poly(k@, self@, lp@),
    {
        let mut out: Vec<Point> = Vec::new();
        let n: usize = lp.len();
        let mut i: usize = 0;
        while i < n
            invariant
                k.wf(),
                graph_wf(self@),
                loop_live(self@, lp@),
                i <= n == lp@.len(),
                out@ == loop_poly_below(k@, self@, lp@, i as int),
            decreases n - i,
        {
            let poly = self.he_poly(k, lp[i]);
            let skip: usize = if out.len() == 0 {
                0
            } else {
                1
            };
            let ghost so_far = out@;
            proof {
                lemma_he_poly(k@, self@, lp@[i as int]);
                assert(poly@.skip(skip as int).take(0) =~= Seq::empty());
            }
            let m: usize = poly.len();
            let mut j: usize = skip;
            while j < m
                invariant
                    skip <= j <= m == poly@.len(),
                    out@ == so_far + poly@.skip(skip as int).take(j - skip),
                decreases m - j,
            {
                out.push(poly[j]);
                j = j + 1;
                assert(out@ =~= so_far + poly@.skip(skip as int).take(j - skip));
            }
            assert(poly@.skip(skip as int).take(m - skip) =~= poly@.skip(skip as int));
            assert(poly@.skip(0) =~= poly@);
            i = i + 1;
            assert(so_far.len() == 0 ==> so_far + poly@ =~= poly@);
            assert(out@ == loop_poly_below(k@, self@, lp@, i as int));
        }
        out
    }
}

} // verus!
