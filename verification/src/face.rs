//! Tracing the face that contains a point.

use vstd::prelude::*;

use crate::calc::{Arith, Calc, Op};
use crate::error::{Fault, FillError};
use crate::graph::{
    curve_live, ends_at, graph_wf, vertex_live, vpos_of, Arrangement, CurveId, Graph, VertexId,
};
use crate::islands::{
    blank, component_half_edges, connected, islands_of, lemma_component_half_edges,
    lemma_islands_live, marks, marks_verts, remains, Island,
};
use crate::locate::{
    area_of, deep, in_polyline, lemma_raycast, point_in_polyline, raycast, signed_area,
};
use crate::point::Point;
use crate::scalar::{num, Scalar, ZERO};
use crate::scene::Scene;
use crate::walk::{
    face_walk, first_from_plus_x, goes_out_and_back, is_face_loop, law_face_loops_same_or_disjoint,
    law_walk_closes, lemma_plus_x, loop_live, loop_poly, retraced, HalfEdge,
};

verus! {

/// The curves of a loop.
pub open spec fn curves_in(lp: Seq<HalfEdge>) -> Set<CurveId> {
    Set::new(|c: CurveId| exists|i: int| 0 <= i < lp.len() && (#[trigger] lp[i]).0 == c)
}

/// The vertices of a loop's curves.
pub open spec fn verts_in(g: Graph, lp: Seq<HalfEdge>) -> Set<VertexId> {
    Set::new(
        |v: VertexId| exists|i: int| 0 <= i < lp.len() && ends_at(g, (#[trigger] lp[i]).0, v),
    )
}

/// The loop runs around a bounded region: its area is positive, and it does
/// not merely go out and back over dangling curves, which leaves an area of zero
/// up to noise.
pub open spec fn bounded(ar: Arith, g: Graph, lp: Seq<HalfEdge>) -> bool {
    !retraced(lp) && num(ZERO).spec_lt(area_of(ar, loop_poly(ar, g, lp)))
}

/// The loop runs around a bounded region with `p` inside.
pub open spec fn encloses(ar: Arith, g: Graph, lp: Seq<HalfEdge>, p: Point) -> bool {
    bounded(ar, g, lp) && in_polyline(ar, p, loop_poly(ar, g, lp))
}

/// Marches along the crossings of a ray from the `i`-th on: the first walk that
/// encloses `p` is the outer boundary of its face. The curves of any other walk
/// are passed over from then on.
pub open spec fn march(
    ar: Arith,
    g: Graph,
    p: Point,
    hits: Seq<HalfEdge>,
    i: int,
    skip: Set<CurveId>,
) -> Result<Option<Seq<HalfEdge>>, Fault>
    decreases hits.len() - i,
{
    if i >= hits.len() {
        Ok(None)
    } else if skip.contains(hits[i].0) {
        march(ar, g, p, hits, i + 1, skip)
    } else {
        match face_walk(ar, g, hits[i]) {
            Err(e) => Err(e),
            Ok(None) => march(ar, g, p, hits, i + 1, skip.insert(hits[i].0)),
            Ok(Some(lp)) => if encloses(ar, g, lp, p) {
                Ok(Some(lp))
            } else {
                march(ar, g, p, hits, i + 1, skip.union(curves_in(lp)))
            },
        }
    }
}

/// The outer boundary of the face that contains `p`, if that is bounded.
pub open spec fn outer_of(ar: Arith, g: Graph, p: Point) -> Result<Option<Seq<HalfEdge>>, Fault> {
    march(ar, g, p, raycast(ar, g, p), 0, Set::empty())
}

/// Of the walks from `starts`, from the `i`-th on, and `best`, the one with the
/// least area, the first of equals. Half-edges in `seen` have been walked.
pub open spec fn outermost(
    ar: Arith,
    g: Graph,
    starts: Seq<HalfEdge>,
    i: int,
    seen: Set<HalfEdge>,
    best: Option<Seq<HalfEdge>>,
) -> Result<Option<Seq<HalfEdge>>, Fault>
    decreases starts.len() - i,
{
    if i >= starts.len() {
        Ok(best)
    } else if seen.contains(starts[i]) {
        outermost(ar, g, starts, i + 1, seen, best)
    } else {
        match face_walk(ar, g, starts[i]) {
            Err(e) => Err(e),
            Ok(None) => outermost(ar, g, starts, i + 1, seen, best),
            Ok(Some(lp)) => {
                let wider = match best {
                    None => true,
                    Some(b) => area_of(ar, loop_poly(ar, g, lp)).spec_lt(
                        area_of(ar, loop_poly(ar, g, b)),
                    ),
                };
                outermost(
                    ar,
                    g,
                    starts,
                    i + 1,
                    seen.union(lp.to_set()),
                    if wider {
                        Some(lp)
                    } else {
                        best
                    },
                )
            },
        }
    }
}

/// Where walks along an island start: at its rightmost vertex as if coming from
/// further right, then at each of its half-edges.
pub open spec fn starts_of(ar: Arith, g: Graph, excl: Set<CurveId>, island: Island) -> Result<
    Seq<HalfEdge>,
    Fault,
> {
    let all = component_half_edges(g, excl, island.lead);
    match first_from_plus_x(ar, g, island.right) {
        Err(e) => Err(e),
        Ok(None) => Ok(all),
        Ok(Some(first)) => Ok(seq![first] + all),
    }
}

/// The walk around an island: of the walks along its curves the one that has
/// the others inside, which is the one with the least area. (The rightmost
/// vertex alone does not tell: a curve may reach further right.)
pub open spec fn outline_of(ar: Arith, g: Graph, excl: Set<CurveId>, island: Island) -> Result<
    Option<Seq<HalfEdge>>,
    Fault,
> {
    match starts_of(ar, g, excl, island) {
        Err(e) => Err(e),
        Ok(starts) => outermost(ar, g, starts, 0, Set::empty(), None),
    }
}

/// A place on an island, and the walk around the island.
pub type Outline = (Point, Seq<HalfEdge>);

/// The outlines of those of the first `n` islands that lie inside `outer`.
pub open spec fn outlines(
    ar: Arith,
    g: Graph,
    outer: Seq<HalfEdge>,
    islands: Seq<Island>,
    n: int,
) -> Result<Seq<Outline>, Fault>
    decreases n,
{
    if n <= 0 {
        Ok(Seq::empty())
    } else {
        let test = vpos_of(g, islands[n - 1].test);
        match outlines(ar, g, outer, islands, n - 1) {
            Err(e) => Err(e),
            Ok(before) => if !in_polyline(ar, test, loop_poly(ar, g, outer)) {
                Ok(before)
            } else {
                match outline_of(ar, g, curves_in(outer), islands[n - 1]) {
                    Err(e) => Err(e),
                    Ok(None) => Ok(before),
                    Ok(Some(lp)) => Ok(before.push((test, lp))),
                }
            },
        }
    }
}

/// The `i`-th island lies inside another one.
pub open spec fn sheltered(ar: Arith, g: Graph, outs: Seq<Outline>, i: int) -> bool {
    exists|j: int|
        0 <= j < outs.len() && j != i && in_polyline(
            ar,
            outs[i].0,
            loop_poly(ar, g, (#[trigger] outs[j]).1),
        )
}

/// The half-edge is in one of the loops.
pub open spec fn taken(loops: Seq<Seq<HalfEdge>>, he: HalfEdge) -> bool {
    exists|i: int| 0 <= i < loops.len() && (#[trigger] loops[i]).contains(he)
}

/// The loops with the outlines from the `i`-th on added, but for those of
/// islands inside others. A walk around a bounded region is no outline, and a
/// walk that is there already is not added again.
pub open spec fn holes(
    ar: Arith,
    g: Graph,
    outs: Seq<Outline>,
    i: int,
    loops: Seq<Seq<HalfEdge>>,
) -> Seq<Seq<HalfEdge>>
    decreases outs.len() - i,
{
    if i >= outs.len() {
        loops
    } else if sheltered(ar, g, outs, i) || bounded(ar, g, outs[i].1) || taken(
        loops,
        outs[i].1[0],
    ) {
        holes(ar, g, outs, i + 1, loops)
    } else {
        holes(ar, g, outs, i + 1, loops.push(outs[i].1))
    }
}

/// The face with the given outer boundary: that loop, and the holes in it.
pub open spec fn face_within(ar: Arith, g: Graph, outer: Seq<HalfEdge>) -> Result<
    Seq<Seq<HalfEdge>>,
    Fault,
> {
    match islands_of(g, curves_in(outer), verts_in(g, outer)) {
        Err(e) => Err(e),
        Ok(islands) => match outlines(ar, g, outer, islands, islands.len() as int) {
            Err(e) => Err(e),
            Ok(outs) => Ok(holes(ar, g, outs, 0, seq![outer])),
        },
    }
}

/// The first `n` loops without the holes that have `p` inside.
pub open spec fn clear_of(
    ar: Arith,
    g: Graph,
    p: Point,
    loops: Seq<Seq<HalfEdge>>,
    n: int,
) -> Seq<Seq<HalfEdge>>
    decreases n,
{
    if n <= 0 {
        Seq::empty()
    } else {
        let before = clear_of(ar, g, p, loops, n - 1);
        if n > 1 && in_polyline(ar, p, loop_poly(ar, g, loops[n - 1])) {
            before
        } else {
            before.push(loops[n - 1])
        }
    }
}

/// The face that contains `p`: its outer loop first, then its holes. There is
/// none when `p` is not enclosed.
#[verifier::opaque]
pub open spec fn face_of(ar: Arith, g: Graph, p: Point) -> Result<
    Result<Seq<Seq<HalfEdge>>, FillError>,
    Fault,
> {
    match outer_of(ar, g, p) {
        Err(e) => Err(e),
        Ok(None) => Ok(Err(FillError::NotEnclosed)),
        Ok(Some(outer)) => match face_within(ar, g, outer) {
            Err(e) => Err(e),
            Ok(loops) => Ok(Ok(clear_of(ar, g, p, loops, loops.len() as int))),
        },
    }
}

/// Every loop is a closed walk around a face.
pub open spec fn face_loops(ar: Arith, g: Graph, loops: Seq<Seq<HalfEdge>>) -> bool {
    forall|i: int| 0 <= i < loops.len() ==> is_face_loop(ar, g, #[trigger] loops[i])
}

/// Every half-edge of every loop is of a live curve.
pub open spec fn loops_live(g: Graph, loops: Seq<Seq<HalfEdge>>) -> bool {
    forall|i: int| 0 <= i < loops.len() ==> loop_live(g, #[trigger] loops[i])
}

/// No half-edge is in two of the loops.
pub open spec fn loops_apart(loops: Seq<Seq<HalfEdge>>) -> bool {
    forall|i: int, j: int, he: HalfEdge|
        #![trigger loops[i].contains(he), loops[j].contains(he)]
        0 <= i < j < loops.len() && loops[i].contains(he) ==> !loops[j].contains(he)
}

/// None of the loops from the second on runs around a bounded region.
pub open spec fn holes_unbounded(ar: Arith, g: Graph, loops: Seq<Seq<HalfEdge>>) -> bool {
    forall|i: int| 1 <= i < loops.len() ==> !bounded(ar, g, #[trigger] loops[i])
}

/// `p` is inside none of the loops from the second on.
pub open spec fn out_of_holes(ar: Arith, g: Graph, loops: Seq<Seq<HalfEdge>>, p: Point) -> bool {
    forall|i: int|
        1 <= i < loops.len() ==> !in_polyline(ar, p, loop_poly(ar, g, #[trigger] loops[i]))
}

pub(crate) proof fn lemma_march(
    ar: Arith,
    g: Graph,
    p: Point,
    hits: Seq<HalfEdge>,
    i: int,
    skip: Set<CurveId>,
)
    requires
        graph_wf(g),
        0 <= i <= hits.len(),
        forall|j: int| 0 <= j < hits.len() ==> curve_live(g, (#[trigger] hits[j]).0),
    ensures
        march(ar, g, p, hits, i, skip) matches Ok(Some(lp)) ==> is_face_loop(ar, g, lp)
            && encloses(ar, g, lp, p),
    decreases hits.len() - i,
{
    if i < hits.len() {
        if skip.contains(hits[i].0) {
            lemma_march(ar, g, p, hits, i + 1, skip);
        } else {
            law_walk_closes(ar, g, hits[i]);
            match face_walk(ar, g, hits[i]) {
                Err(e) => {},
                Ok(None) => {
                    lemma_march(ar, g, p, hits, i + 1, skip.insert(hits[i].0));
                },
                Ok(Some(lp)) => {
                    lemma_march(ar, g, p, hits, i + 1, skip.union(curves_in(lp)));
                },
            }
        }
    }
}

/// Walks along live curves are closed.
proof fn lemma_outermost(
    ar: Arith,
    g: Graph,
    starts: Seq<HalfEdge>,
    i: int,
    seen: Set<HalfEdge>,
    best: Option<Seq<HalfEdge>>,
)
    requires
        graph_wf(g),
        0 <= i <= starts.len(),
        loop_live(g, starts),
        best matches Some(b) ==> is_face_loop(ar, g, b),
    ensures
        outermost(ar, g, starts, i, seen, best) matches Ok(Some(lp)) ==> is_face_loop(ar, g, lp),
    decreases starts.len() - i,
{
    if i < starts.len() {
        assert(curve_live(g, starts[i].0));
        law_walk_closes(ar, g, starts[i]);
        lemma_outermost(ar, g, starts, i + 1, seen, best);
        if let Ok(Some(lp)) = face_walk(ar, g, starts[i]) {
            lemma_outermost(ar, g, starts, i + 1, seen.union(lp.to_set()), best);
            lemma_outermost(ar, g, starts, i + 1, seen.union(lp.to_set()), Some(lp));
        }
    }
}

/// The half-edge is on a walk with no less area than `lp`.
pub open spec fn no_less(ar: Arith, g: Graph, he: HalfEdge, lp: Seq<HalfEdge>) -> bool {
    exists|w: Seq<HalfEdge>| #[trigger]
        is_face_loop(ar, g, w) && w.contains(he) && !area_of(ar, loop_poly(ar, g, w)).spec_lt(
            area_of(ar, loop_poly(ar, g, lp)),
        )
}

proof fn lemma_no_less(
    ar: Arith,
    g: Graph,
    he: HalfEdge,
    a: Seq<HalfEdge>,
    b: Seq<HalfEdge>,
)
    requires
        no_less(ar, g, he, a),
        area_of(ar, loop_poly(ar, g, b)).spec_lt(area_of(ar, loop_poly(ar, g, a))),
    ensures
        no_less(ar, g, he, b),
{
    let (x, y) = (area_of(ar, loop_poly(ar, g, a)), area_of(ar, loop_poly(ar, g, b)));
    let w = choose|w: Seq<HalfEdge>| #[trigger]
        is_face_loop(ar, g, w) && w.contains(he) && !area_of(ar, loop_poly(ar, g, w)).spec_lt(x);
    assert(is_face_loop(ar, g, w) && !area_of(ar, loop_poly(ar, g, w)).spec_lt(y));
}

/// The walk just made and the best so far, held against each other.
proof fn lemma_least_so_far(
    ar: Arith,
    g: Graph,
    seen: Set<HalfEdge>,
    best: Option<Seq<HalfEdge>>,
    lp: Seq<HalfEdge>,
    next: Seq<HalfEdge>,
)
    requires
        is_face_loop(ar, g, lp),
        forall|he: HalfEdge| #[trigger]
            seen.contains(he) ==> best is Some && no_less(ar, g, he, best->0),
        match best {
            None => next == lp,
            Some(b) => if area_of(ar, loop_poly(ar, g, lp)).spec_lt(
                area_of(ar, loop_poly(ar, g, b)),
            ) {
                next == lp
            } else {
                next == b
            },
        },
    ensures
        forall|he: HalfEdge| #[trigger]
            seen.union(lp.to_set()).contains(he) ==> no_less(ar, g, he, next),
{
    assert forall|he: HalfEdge| #[trigger]
        seen.union(lp.to_set()).contains(he) implies no_less(ar, g, he, next) by {
        if seen.contains(he) {
            if next != best->0 {
                lemma_no_less(ar, g, he, best->0, next);
            }
        } else {
            assert(is_face_loop(ar, g, lp) && lp.contains(he));
        }
    }
}

proof fn lemma_outermost_least(
    ar: Arith,
    g: Graph,
    starts: Seq<HalfEdge>,
    i: int,
    seen: Set<HalfEdge>,
    best: Option<Seq<HalfEdge>>,
)
    requires
        graph_wf(g),
        0 <= i <= starts.len(),
        loop_live(g, starts),
        forall|he: HalfEdge| #[trigger]
            seen.contains(he) ==> best is Some && no_less(ar, g, he, best->0),
    ensures
        outermost(ar, g, starts, i, seen, best) matches Ok(Some(lp)) ==> {
            &&& forall|he: HalfEdge| #[trigger] seen.contains(he) ==> no_less(ar, g, he, lp)
            &&& forall|k: int|
                i <= k < starts.len() ==> no_less(ar, g, #[trigger] starts[k], lp)
        },
    decreases starts.len() - i,
{
    if i < starts.len() {
        assert(curve_live(g, starts[i].0));
        law_walk_closes(ar, g, starts[i]);
        if seen.contains(starts[i]) {
            lemma_outermost_least(ar, g, starts, i + 1, seen, best);
        } else if let Ok(Some(lp)) = face_walk(ar, g, starts[i]) {
            let wider = match best {
                None => true,
                Some(b) => area_of(ar, loop_poly(ar, g, lp)).spec_lt(
                    area_of(ar, loop_poly(ar, g, b)),
                ),
            };
            let next = if wider {
                Some(lp)
            } else {
                best
            };
            let more = seen.union(lp.to_set());
            lemma_least_so_far(ar, g, seen, best, lp, next->0);
            assert(lp.contains(lp[0]));
            assert(more.contains(starts[i]));
            lemma_outermost_least(ar, g, starts, i + 1, more, next);
            if let Ok(Some(least)) = outermost(ar, g, starts, i, seen, best) {
                assert(outermost(ar, g, starts, i + 1, more, next) == Ok::<
                    Option<Seq<HalfEdge>>,
                    Fault,
                >(Some(least)));
                assert forall|he: HalfEdge| #[trigger] seen.contains(he) implies no_less(
                    ar,
                    g,
                    he,
                    least,
                ) by {
                    assert(more.contains(he));
                }
                assert(no_less(ar, g, starts[i], least));
            }
        }
    }
}

/// An island's outline has the least area of the walks along the island: each
/// of its half-edges is on a walk that has no less.
pub proof fn law_outline_is_least(
    ar: Arith,
    g: Graph,
    excl: Set<CurveId>,
    island: Island,
    he: HalfEdge,
)
    requires
        graph_wf(g),
        connected(g, excl, island.lead, he.0),
    ensures
        outline_of(ar, g, excl, island) matches Ok(Some(lp)) ==> no_less(ar, g, he, lp),
{
    lemma_outline(ar, g, excl, island);
    lemma_component_half_edges(g, excl, island.lead);
    if let Ok(starts) = starts_of(ar, g, excl, island) {
        let all = component_half_edges(g, excl, island.lead);
        assert(all.contains(he));
        let j = choose|j: int| 0 <= j < all.len() && all[j] == he;
        let k = j + (starts.len() - all.len());
        assert(starts[k] == he);
        lemma_outermost_least(ar, g, starts, 0, Set::empty(), None);
    }
}

/// Walks along an island start on live curves, and its outline is closed.
pub proof fn lemma_outline(ar: Arith, g: Graph, excl: Set<CurveId>, island: Island)
    requires
        graph_wf(g),
    ensures
        starts_of(ar, g, excl, island) matches Ok(starts) ==> loop_live(g, starts),
        outline_of(ar, g, excl, island) matches Ok(Some(lp)) ==> is_face_loop(ar, g, lp),
{
    lemma_plus_x(ar, g, island.right);
    lemma_component_half_edges(g, excl, island.lead);
    if let Ok(starts) = starts_of(ar, g, excl, island) {
        let all = component_half_edges(g, excl, island.lead);
        assert forall|i: int| 0 <= i < starts.len() implies curve_live(
            g,
            (#[trigger] starts[i]).0,
        ) by {
            if starts.len() == all.len() {
                assert(starts[i] == all[i]);
            } else if i > 0 {
                assert(starts[i] == all[i - 1]);
            }
        }
        lemma_outermost(ar, g, starts, 0, Set::empty(), None);
    }
}

pub(crate) proof fn lemma_outlines(ar: Arith, g: Graph, outer: Seq<HalfEdge>, islands: Seq<Island>, n: int)
    requires
        graph_wf(g),
        0 <= n <= islands.len(),
    ensures
        outlines(ar, g, outer, islands, n) matches Ok(outs) ==> forall|i: int|
            0 <= i < outs.len() ==> is_face_loop(ar, g, (#[trigger] outs[i]).1),
    decreases n,
{
    if n > 0 {
        lemma_outlines(ar, g, outer, islands, n - 1);
        lemma_outline(ar, g, curves_in(outer), islands[n - 1]);
    }
}

pub(crate) proof fn lemma_holes(ar: Arith, g: Graph, outs: Seq<Outline>, i: int, loops: Seq<Seq<HalfEdge>>)
    requires
        graph_wf(g),
        0 <= i <= outs.len(),
        forall|j: int| 0 <= j < outs.len() ==> is_face_loop(ar, g, (#[trigger] outs[j]).1),
        loops.len() > 0,
        face_loops(ar, g, loops),
        loops_apart(loops),
        holes_unbounded(ar, g, loops),
    ensures
        ({
            let all = holes(ar, g, outs, i, loops);
            &&& face_loops(ar, g, all)
            &&& loops_apart(all)
            &&& holes_unbounded(ar, g, all)
            &&& all.len() > 0
            &&& all[0] == loops[0]
        }),
    decreases outs.len() - i,
{
    if i < outs.len() {
        lemma_holes(ar, g, outs, i + 1, loops);
        let lp = outs[i].1;
        assert(is_face_loop(ar, g, outs[i].1));
        if !bounded(ar, g, lp) && !taken(loops, lp[0]) {
            let more = loops.push(lp);
            assert forall|a: int, b: int, he: HalfEdge|
                #![trigger more[a].contains(he), more[b].contains(he)]
                0 <= a < b < more.len() && more[a].contains(he) implies !more[b].contains(he) by {
                if b < loops.len() {
                    assert(loops[a].contains(he));
                    assert(!loops[b].contains(he));
                } else if lp.contains(he) {
                    assert(is_face_loop(ar, g, loops[a]));
                    law_face_loops_same_or_disjoint(ar, g, loops[a], lp, he);
                    assert(lp.contains(lp[0]));
                    assert(loops[a].contains(lp[0]));
                }
            }
            lemma_holes(ar, g, outs, i + 1, more);
        }
    }
}

proof fn lemma_clear(ar: Arith, g: Graph, p: Point, loops: Seq<Seq<HalfEdge>>, n: int)
    requires
        0 <= n <= loops.len(),
        face_loops(ar, g, loops),
        loops_apart(loops),
        holes_unbounded(ar, g, loops),
    ensures
        ({
            let all = clear_of(ar, g, p, loops, n);
            &&& forall|k: int|
                #![trigger all[k]]
                0 <= k < all.len() ==> exists|m: int|
                    0 <= m < n && #[trigger] loops[m] == all[k] && (k > 0 ==> m > 0)
            &&& n > 0 ==> all.len() > 0 && all[0] == loops[0]
            &&& n == 0 ==> all.len() == 0
            &&& loops_apart(all)
            &&& out_of_holes(ar, g, all, p)
        }),
    decreases n,
{
    if n > 0 {
        lemma_clear(ar, g, p, loops, n - 1);
        let before = clear_of(ar, g, p, loops, n - 1);
        let all = clear_of(ar, g, p, loops, n);
        assert forall|k: int| #![trigger all[k]] 0 <= k < all.len() implies exists|m: int|
            0 <= m < n && #[trigger] loops[m] == all[k] && (k > 0 ==> m > 0) by {
            if k < before.len() {
                assert(all[k] == before[k]);
                let m = choose|m: int|
                    0 <= m < n - 1 && #[trigger] loops[m] == before[k] && (k > 0 ==> m > 0);
                assert(loops[m] == all[k]);
            } else {
                assert(loops[n - 1] == all[k]);
            }
        }
        assert forall|a: int, b: int, he: HalfEdge|
            #![trigger all[a].contains(he), all[b].contains(he)]
            0 <= a < b < all.len() && all[a].contains(he) implies !all[b].contains(he) by {
            assert(all[a] == before[a]);
            if b < before.len() {
                assert(all[b] == before[b]);
                assert(before[a].contains(he));
                assert(!before[b].contains(he));
            } else {
                let m = choose|m: int|
                    0 <= m < n - 1 && #[trigger] loops[m] == before[a] && (a > 0 ==> m > 0);
                assert(loops[m].contains(he));
                assert(!loops[n - 1].contains(he));
            }
        }
        assert forall|k: int| 1 <= k < all.len() implies !in_polyline(
            ar,
            p,
            loop_poly(ar, g, #[trigger] all[k]),
        ) by {
            if k < before.len() {
                assert(all[k] == before[k]);
            }
        }
    }
}

/// A face's first loop runs around a bounded region with the point inside; none
/// of the others does, nor has the point inside. Each loop is a closed walk along
/// live curves, and no half-edge occurs twice, in one loop or in two.
pub proof fn law_face_encloses_point(ar: Arith, g: Graph, p: Point)
    requires
        graph_wf(g),
    ensures
        face_of(ar, g, p) matches Ok(Ok(loops)) ==> {
            &&& loops.len() > 0
            &&& encloses(ar, g, loops[0], p)
            &&& holes_unbounded(ar, g, loops)
            &&& out_of_holes(ar, g, loops, p)
            &&& face_loops(ar, g, loops)
            &&& loops_live(g, loops)
            &&& loops_apart(loops)
        },
{
    reveal(face_of);
    lemma_raycast(ar, g, p);
    lemma_march(ar, g, p, raycast(ar, g, p), 0, Set::empty());
    if let Ok(Some(outer)) = outer_of(ar, g, p) {
        if let Ok(islands) = islands_of(g, curves_in(outer), verts_in(g, outer)) {
            lemma_outlines(ar, g, outer, islands, islands.len() as int);
            if let Ok(outs) = outlines(ar, g, outer, islands, islands.len() as int) {
                lemma_holes(ar, g, outs, 0, seq![outer]);
                let all = holes(ar, g, outs, 0, seq![outer]);
                lemma_clear(ar, g, p, all, all.len() as int);
                let loops = clear_of(ar, g, p, all, all.len() as int);
                assert forall|i: int| 0 <= i < loops.len() implies is_face_loop(
                    ar,
                    g,
                    #[trigger] loops[i],
                ) && (i > 0 ==> !bounded(ar, g, loops[i])) by {
                    let m = choose|m: int|
                        0 <= m < all.len() && #[trigger] all[m] == loops[i] && (i > 0 ==> m > 0);
                    assert(is_face_loop(ar, g, all[m]));
                }
            }
        }
    }
}

/// Once there is a fault, more islands do not mend it.
/// A face's first loop is the outer boundary, and where there is an outer
/// boundary the face is not refused.
pub proof fn law_outer_first(ar: Arith, g: Graph, p: Point)
    requires
        graph_wf(g),
    ensures
        match face_of(ar, g, p) {
            Err(_) => true,
            Ok(Err(_)) => outer_of(ar, g, p) == Ok::<Option<Seq<HalfEdge>>, Fault>(None),
            Ok(Ok(loops)) => loops.len() > 0 && outer_of(ar, g, p) == Ok::<
                Option<Seq<HalfEdge>>,
                Fault,
            >(Some(loops[0])),
        },
{
    reveal(face_of);
    lemma_raycast(ar, g, p);
    lemma_march(ar, g, p, raycast(ar, g, p), 0, Set::empty());
    if let Ok(Some(outer)) = outer_of(ar, g, p) {
        if let Ok(islands) = islands_of(g, curves_in(outer), verts_in(g, outer)) {
            lemma_outlines(ar, g, outer, islands, islands.len() as int);
            if let Ok(outs) = outlines(ar, g, outer, islands, islands.len() as int) {
                lemma_holes(ar, g, outs, 0, seq![outer]);
                let all = holes(ar, g, outs, 0, seq![outer]);
                lemma_clear_first(ar, g, p, all, all.len() as int);
            }
        }
    }
}

proof fn lemma_clear_first(ar: Arith, g: Graph, p: Point, loops: Seq<Seq<HalfEdge>>, n: int)
    requires
        1 <= n <= loops.len(),
    ensures
        clear_of(ar, g, p, loops, n).len() > 0,
        clear_of(ar, g, p, loops, n)[0] == loops[0],
    decreases n,
{
    if n > 1 {
        lemma_clear_first(ar, g, p, loops, n - 1);
    } else {
        assert(clear_of(ar, g, p, loops, 0).len() == 0);
    }
}

proof fn lemma_outlines_fault(
    ar: Arith,
    g: Graph,
    outer: Seq<HalfEdge>,
    islands: Seq<Island>,
    i: int,
    n: int,
)
    requires
        0 <= i <= n,
        outlines(ar, g, outer, islands, i) is Err,
    ensures
        outlines(ar, g, outer, islands, n) == outlines(ar, g, outer, islands, i),
    decreases n - i,
{
    if i < n {
        lemma_outlines_fault(ar, g, outer, islands, i, n - 1);
    }
}

proof fn lemma_taken_push(loops: Seq<Seq<HalfEdge>>, lp: Seq<HalfEdge>)
    ensures
        forall|he: HalfEdge| #[trigger]
            taken(loops.push(lp), he) <==> taken(loops, he) || lp.contains(he),
{
    let more = loops.push(lp);
    assert forall|he: HalfEdge| #[trigger] taken(more, he) <==> taken(loops, he) || lp.contains(
        he,
    ) by {
        if taken(loops, he) {
            let i = choose|i: int| 0 <= i < loops.len() && (#[trigger] loops[i]).contains(he);
            assert(more[i] == loops[i]);
        }
        assert(more[loops.len() as int] == lp);
        if taken(more, he) {
            let i = choose|i: int| 0 <= i < more.len() && (#[trigger] more[i]).contains(he);
            if i < loops.len() {
                assert(loops[i].contains(he));
            }
        }
    }
}

/// What is kept of the first loops depends on these alone.
proof fn lemma_clear_prefix(
    ar: Arith,
    g: Graph,
    p: Point,
    a: Seq<Seq<HalfEdge>>,
    b: Seq<Seq<HalfEdge>>,
    n: int,
)
    requires
        0 <= n <= a.len(),
        n <= b.len(),
        forall|i: int| 0 <= i < n ==> a[i] == b[i],
    ensures
        clear_of(ar, g, p, a, n) == clear_of(ar, g, p, b, n),
    decreases n,
{
    if n > 0 {
        lemma_clear_prefix(ar, g, p, a, b, n - 1);
    }
}

/// Places and loops side by side.
spec fn paired(tests: Seq<Point>, lps: Seq<Vec<HalfEdge>>) -> Seq<Outline> {
    Seq::new(lps.len(), |i: int| (tests[i], lps[i]@))
}

fn copied(lp: &Vec<HalfEdge>) -> (r: Vec<HalfEdge>)
    ensures
        r@ == lp@,
{
    let mut r: Vec<HalfEdge> = Vec::new();
    let n: usize = lp.len();
    let mut i: usize = 0;
    while i < n
        invariant
            i <= n == lp@.len(),
            r@ == lp@.take(i as int),
        decreases n - i,
    {
        r.push(lp[i]);
        i = i + 1;
        assert(lp@.take(i as int) =~= lp@.take(i - 1).push(lp@[i - 1]));
    }
    assert(lp@.take(n as int) =~= lp@);
    r
}

/// Marks, one list for each direction, that stand for a set of half-edges.
pub open spec fn marks_half_edges(
    g: Graph,
    fore: Seq<bool>,
    back: Seq<bool>,
    set: Set<HalfEdge>,
) -> bool {
    &&& fore.len() == g.curves.len()
    &&& back.len() == g.curves.len()
    &&& forall|he: HalfEdge|
        #![trigger set.contains(he)]
        curve_live(g, he.0) ==> (set.contains(he) <==> if he.1 {
            back[he.0.0 as int]
        } else {
            fore[he.0.0 as int]
        })
}

impl Arrangement {
    /// Marches the +x ray outward to the outer boundary of the face of `p`.
    fn find_outer<F: Fn(Op, Scalar, Scalar) -> Scalar>(&self, k: &Calc<F>, p: Point) -> (r: Result<
        Option<Vec<HalfEdge>>,
        Fault,
    >)
        requires
            k.wf(),
            graph_wf(self@),
        ensures
            match r {
                Err(e) => outer_of(k@, self@, p) == Err::<Option<Seq<HalfEdge>>, Fault>(e),
                Ok(None) => outer_of(k@, self@, p) == Ok::<Option<Seq<HalfEdge>>, Fault>(None),
                Ok(Some(lp)) => {
                    &&& outer_of(k@, self@, p) == Ok::<Option<Seq<HalfEdge>>, Fault>(Some(lp@))
                    &&& is_face_loop(k@, self@, lp@)
                },
            },
    {
        let hits = self.raycast_crossings(k, p);
        proof {
            lemma_raycast(k@, self@, p);
        }
        let mut skip = blank(self.curves.len());
        let ghost mut passed: Set<CurveId> = Set::empty();
        let n: usize = hits.len();
        let mut i: usize = 0;
        while i < n
            invariant
                k.wf(),
                graph_wf(self@),
                i <= n == hits@.len(),
                hits@ == raycast(k@, self@, p),
                forall|j: int| 0 <= j < hits@.len() ==> curve_live(self@, (#[trigger] hits@[j]).0),
                marks(self@, skip@, passed),
                outer_of(k@, self@, p) == march(k@, self@, p, hits@, i as int, passed),
            decreases n - i,
        {
            let he = hits[i];
            assert(curve_live(self@, hits@[i as int].0));
            let known = skip[he.0.0 as usize];
            assert(known == passed.contains(he.0));
            if !known {
                match self.walk_face(k, he) {
                    Err(e) => {
                        return Err(e);
                    },
                    Ok(None) => {
                        skip.set(he.0.0 as usize, true);
                        proof {
                            passed = passed.insert(he.0);
                        }
                    },
                    Ok(Some(lp)) => {
                        let poly = self.loop_polyline(k, &lp);
                        if self.is_bounded(k, &lp, &poly) && point_in_polyline(k, p, &poly) {
                            return Ok(Some(lp));
                        }
                        self.mark_curves(&lp, &mut skip, Ghost(passed));
                        proof {
                            passed = passed.union(curves_in(lp@));
                        }
                    },
                }
            }
            i = i + 1;
        }
        Ok(None)
    }

    /// Marks the curves of a loop.
    fn mark_curves(
        &self,
        lp: &Vec<HalfEdge>,
        bits: &mut Vec<bool>,
        Ghost(set): Ghost<Set<CurveId>>,
    )
        requires
            loop_live(self@, lp@),
            graph_wf(self@),
            marks(self@, old(bits)@, set),
        ensures
            marks(self@, final(bits)@, set.union(curves_in(lp@))),
    {
        let n: usize = lp.len();
        let ghost start = bits@;
        let mut i: usize = 0;
        while i < n
            invariant
                i <= n == lp@.len(),
                loop_live(self@, lp@),
                graph_wf(self@),
                marks(self@, start, set),
                bits@.len() == start.len(),
                forall|x: int|
                    #![trigger bits@[x]]
                    0 <= x < bits@.len() ==> (bits@[x] <==> start[x] || exists|j: int|
                        0 <= j < i && (#[trigger] lp@[j]).0.0 == x),
            decreases n - i,
        {
            let ghost before = bits@;
            assert(curve_live(self@, lp@[i as int].0));
            bits.set(lp[i].0.0 as usize, true);
            assert forall|x: int| #![trigger bits@[x]] 0 <= x < bits@.len() implies (bits@[x]
                <==> start[x] || exists|j: int| 0 <= j < i + 1 && (#[trigger] lp@[j]).0.0 == x) by {
                if before[x] && !start[x] {
                    let j = choose|j: int| 0 <= j < i && (#[trigger] lp@[j]).0.0 == x;
                    assert(lp@[j].0.0 == x);
                }
                if lp@[i as int].0.0 == x {
                    assert(bits@[x]);
                } else {
                    assert(bits@[x] == before[x]);
                }
            }
            i = i + 1;
        }
        assert forall|x: int| #![trigger bits@[x]] 0 <= x < bits@.len() implies (bits@[x]
            <==> set.union(curves_in(lp@)).contains(CurveId(x as u32))) by {
            if exists|j: int| 0 <= j < n && (#[trigger] lp@[j]).0.0 == x {
                let j = choose|j: int| 0 <= j < n && (#[trigger] lp@[j]).0.0 == x;
                assert(lp@[j].0 == CurveId(x as u32));
            }
            if curves_in(lp@).contains(CurveId(x as u32)) {
                let j = choose|j: int| 0 <= j < n && (#[trigger] lp@[j]).0 == CurveId(x as u32);
                assert(lp@[j].0.0 == x);
            }
        }
    }

    /// Marks the vertices of a loop's curves.
    fn mark_verts(&self, lp: &Vec<HalfEdge>) -> (bits: Vec<bool>)
        requires
            loop_live(self@, lp@),
            graph_wf(self@),
        ensures
            marks_verts(self@, bits@, verts_in(self@, lp@)),
    {
        let ghost g = self@;
        let mut bits = blank(self.verts.len());
        let n: usize = lp.len();
        let mut i: usize = 0;
        while i < n
            invariant
                i <= n == lp@.len(),
                self@ == g,
                loop_live(g, lp@),
                graph_wf(g),
                bits@.len() == g.verts.len(),
                forall|x: int|
                    #![trigger bits@[x]]
                    0 <= x < bits@.len() ==> (bits@[x] <==> exists|j: int|
                        0 <= j < i && ends_at(g, (#[trigger] lp@[j]).0, VertexId(x as u32))),
            decreases n - i,
        {
            let ghost before = bits@;
            assert(curve_live(g, lp@[i as int].0));
            let c = self.curve(lp[i].0);
            assert(g.curves[lp@[i as int].0.0 as int] is Some);
            bits.set(c.v0.0 as usize, true);
            bits.set(c.v1.0 as usize, true);
            assert forall|x: int| #![trigger bits@[x]] 0 <= x < bits@.len() implies (bits@[x]
                <==> exists|j: int|
                0 <= j < i + 1 && ends_at(g, (#[trigger] lp@[j]).0, VertexId(x as u32))) by {
                if before[x] {
                    let j = choose|j: int|
                        0 <= j < i && ends_at(g, (#[trigger] lp@[j]).0, VertexId(x as u32));
                    assert(ends_at(g, lp@[j].0, VertexId(x as u32)));
                } else if bits@[x] {
                    assert(ends_at(g, lp@[i as int].0, VertexId(x as u32)));
                }
            }
            i = i + 1;
        }
        bits
    }

    /// Whether the loop, which has the polyline `poly`, runs around a bounded
    /// region.
    fn is_bounded<F: Fn(Op, Scalar, Scalar) -> Scalar>(
        &self,
        k: &Calc<F>,
        lp: &Vec<HalfEdge>,
        poly: &Vec<Point>,
    ) -> (r: bool)
        requires
            k.wf(),
            poly@ == loop_poly(k@, self@, lp@),
        ensures
            r == bounded(k@, self@, lp@),
    {
        (Scalar { bits: ZERO }).lt(signed_area(k, poly)) && !goes_out_and_back(lp)
    }

    /// The walk around an island.
    fn outline<F: Fn(Op, Scalar, Scalar) -> Scalar>(
        &self,
        k: &Calc<F>,
        excl: &Vec<bool>,
        island: Island,
        Ghost(set): Ghost<Set<CurveId>>,
    ) -> (r: Result<Option<Vec<HalfEdge>>, Fault>)
        requires
            k.wf(),
            graph_wf(self@),
            marks(self@, excl@, set),
            remains(self@, set, island.lead),
        ensures
            match r {
                Err(e) => outline_of(k@, self@, set, island) == Err::<
                    Option<Seq<HalfEdge>>,
                    Fault,
                >(e),
                Ok(None) => outline_of(k@, self@, set, island) == Ok::<
                    Option<Seq<HalfEdge>>,
                    Fault,
                >(None),
                Ok(Some(lp)) => {
                    &&& outline_of(k@, self@, set, island) == Ok::<Option<Seq<HalfEdge>>, Fault>(
                        Some(lp@),
                    )
                    &&& is_face_loop(k@, self@, lp@)
                },
            },
    {
        let ghost g = self@;
        proof {
            lemma_outline(k@, g, set, island);
        }
        let first = match self.first_half_edge_from_plus_x(k, island.right) {
            Err(e) => {
                return Err(e);
            },
            Ok(first) => first,
        };
        let mut starts: Vec<HalfEdge> = Vec::new();
        if let Some(he) = first {
            starts.push(he);
        }
        let ghost head = starts@;
        self.half_edges_into(excl, island.lead, &mut starts, Ghost(set));
        proof {
            assert(head + component_half_edges(g, set, island.lead) =~= starts@);
            if first is None {
                assert(starts@ =~= component_half_edges(g, set, island.lead));
            } else {
                assert(head =~= seq![first->0]);
            }
            assert(starts_of(k@, g, set, island) == Ok::<Seq<HalfEdge>, Fault>(starts@));
        }
        let mut fore = blank(self.curves.len());
        let mut back = blank(self.curves.len());
        let ghost mut seen: Set<HalfEdge> = Set::empty();
        let mut best: Option<Vec<HalfEdge>> = None;
        let mut least = Scalar { bits: ZERO };
        let n: usize = starts.len();
        let mut i: usize = 0;
        while i < n
            invariant
                k.wf(),
                graph_wf(g),
                self@ == g,
                i <= n == starts@.len(),
                loop_live(g, starts@),
                marks_half_edges(g, fore@, back@, seen),
                best matches Some(b) ==> is_face_loop(k@, g, b@) && least == area_of(
                    k@,
                    loop_poly(k@, g, b@),
                ),
                outline_of(k@, g, set, island) == outermost(
                    k@,
                    g,
                    starts@,
                    i as int,
                    seen,
                    match best {
                        None => None::<Seq<HalfEdge>>,
                        Some(b) => Some(b@),
                    },
                ),
            decreases n - i,
        {
            let he = starts[i];
            assert(curve_live(g, starts@[i as int].0));
            let known = if he.1 {
                back[he.0.0 as usize]
            } else {
                fore[he.0.0 as usize]
            };
            assert(known == seen.contains(he));
            if !known {
                match self.walk_face(k, he) {
                    Err(e) => {
                        return Err(e);
                    },
                    Ok(None) => {},
                    Ok(Some(lp)) => {
                        let area = signed_area(k, &self.loop_polyline(k, &lp));
                        self.mark_half_edges(&lp, &mut fore, &mut back, Ghost(seen));
                        proof {
                            seen = seen.union(lp@.to_set());
                        }
                        if best.is_none() || area.lt(least) {
                            least = area;
                            best = Some(lp);
                        }
                    },
                }
            }
            i = i + 1;
        }
        Ok(best)
    }

    /// Marks the half-edges of a loop.
    fn mark_half_edges(
        &self,
        lp: &Vec<HalfEdge>,
        fore: &mut Vec<bool>,
        back: &mut Vec<bool>,
        Ghost(set): Ghost<Set<HalfEdge>>,
    )
        requires
            loop_live(self@, lp@),
            graph_wf(self@),
            marks_half_edges(self@, old(fore)@, old(back)@, set),
        ensures
            marks_half_edges(self@, final(fore)@, final(back)@, set.union(lp@.to_set())),
    {
        let ghost g = self@;
        let n: usize = lp.len();
        let mut i: usize = 0;
        assert(set.union(lp@.take(0).to_set()) =~= set);
        while i < n
            invariant
                i <= n == lp@.len(),
                self@ == g,
                loop_live(g, lp@),
                graph_wf(g),
                marks_half_edges(g, fore@, back@, set.union(lp@.take(i as int).to_set())),
            decreases n - i,
        {
            let he = lp[i];
            assert(curve_live(g, lp@[i as int].0));
            let ghost so_far = set.union(lp@.take(i as int).to_set());
            let ghost f0 = fore@;
            let ghost b0 = back@;
            if he.1 {
                back.set(he.0.0 as usize, true);
            } else {
                fore.set(he.0.0 as usize, true);
            }
            proof {
                let now = set.union(lp@.take(i + 1).to_set());
                assert(lp@.take(i + 1) =~= lp@.take(i as int).push(he));
                assert(lp@.take(i + 1).to_set() =~= lp@.take(i as int).to_set().insert(he)) by {
                    assert forall|x: HalfEdge|
                        lp@.take(i + 1).to_set().contains(x) <==> lp@.take(
                            i as int,
                        ).to_set().insert(he).contains(x) by {
                        let a = lp@.take(i as int);
                        let b = lp@.take(i + 1);
                        if a.contains(x) {
                            let m = choose|m: int| 0 <= m < a.len() && a[m] == x;
                            assert(b[m] == x);
                        }
                        if b.contains(x) {
                            let m = choose|m: int| 0 <= m < b.len() && b[m] == x;
                            if m < i {
                                assert(a[m] == x);
                            }
                        }
                        assert(b[i as int] == he);
                    }
                }
                assert forall|x: HalfEdge|
                    #![trigger now.contains(x)]
                    curve_live(g, x.0) implies (now.contains(x) <==> if x.1 {
                    back@[x.0.0 as int]
                } else {
                    fore@[x.0.0 as int]
                }) by {
                    assert(so_far.contains(x) <==> if x.1 {
                        b0[x.0.0 as int]
                    } else {
                        f0[x.0.0 as int]
                    });
                    assert(now.contains(x) <==> so_far.contains(x) || x == he);
                }
            }
            i = i + 1;
        }
        assert(lp@.take(n as int) =~= lp@);
    }

    /// The outlines of the islands inside `outer`.
    fn find_outlines<F: Fn(Op, Scalar, Scalar) -> Scalar>(&self, k: &Calc<F>, outer: &Vec<HalfEdge>) -> (r:
        Result<(Vec<Point>, Vec<Vec<HalfEdge>>), Fault>)
        requires
            k.wf(),
            graph_wf(self@),
            loop_live(self@, outer@),
        ensures
            match islands_of(self@, curves_in(outer@), verts_in(self@, outer@)) {
                Err(e) => r == Err::<(Vec<Point>, Vec<Vec<HalfEdge>>), Fault>(e),
                Ok(islands) => match r {
                    Err(e) => outlines(k@, self@, outer@, islands, islands.len() as int) == Err::<
                        Seq<Outline>,
                        Fault,
                    >(e),
                    Ok((tests, lps)) => {
                        &&& tests@.len() == lps@.len()
                        &&& outlines(k@, self@, outer@, islands, islands.len() as int) == Ok::<
                            Seq<Outline>,
                            Fault,
                        >(paired(tests@, lps@))
                        &&& forall|j: int|
                            0 <= j < lps@.len() ==> is_face_loop(k@, self@, (#[trigger] lps@[j])@)
                    },
                },
            },
    {
        let ghost g = self@;
        let mut excl = blank(self.curves.len());
        proof {
            assert(marks(g, excl@, Set::empty()));
        }
        self.mark_curves(outer, &mut excl, Ghost(Set::empty()));
        assert(Set::<CurveId>::empty().union(curves_in(outer@)) =~= curves_in(outer@));
        let shore = self.mark_verts(outer);
        let islands = match self.find_islands(
            &excl,
            &shore,
            Ghost(curves_in(outer@)),
            Ghost(verts_in(g, outer@)),
        ) {
            Err(e) => {
                return Err(e);
            },
            Ok(islands) => islands,
        };
        proof {
            lemma_islands_live(g, curves_in(outer@), verts_in(g, outer@));
        }
        let wall = self.loop_polyline(k, outer);
        let mut tests: Vec<Point> = Vec::new();
        let mut lps: Vec<Vec<HalfEdge>> = Vec::new();
        assert(paired(tests@, lps@) =~= Seq::empty());
        let n: usize = islands.len();
        let mut i: usize = 0;
        while i < n
            invariant
                k.wf(),
                graph_wf(g),
                self@ == g,
                i <= n == islands@.len(),
                marks(g, excl@, curves_in(outer@)),
                islands_of(g, curves_in(outer@), verts_in(g, outer@)) == Ok::<Seq<Island>, Fault>(
                    islands@,
                ),
                forall|j: int|
                    0 <= j < islands@.len() ==> vertex_live(g, (#[trigger] islands@[j]).test)
                        && remains(g, curves_in(outer@), islands@[j].lead),
                wall@ == loop_poly(k@, g, outer@),
                tests@.len() == lps@.len(),
                forall|j: int|
                    0 <= j < lps@.len() ==> is_face_loop(k@, g, (#[trigger] lps@[j])@),
                outlines(k@, g, outer@, islands@, i as int) == Ok::<Seq<Outline>, Fault>(
                    paired(tests@, lps@),
                ),
            decreases n - i,
        {
            let island = islands[i];
            assert(vertex_live(g, islands@[i as int].test));
            let test = self.vpos(island.test);
            if point_in_polyline(k, test, &wall) {
                match self.outline(k, &excl, island, Ghost(curves_in(outer@))) {
                    Err(e) => {
                        proof {
                            lemma_outlines_fault(k@, g, outer@, islands@, i + 1, n as int);
                        }
                        return Err(e);
                    },
                    Ok(None) => {},
                    Ok(Some(lp)) => {
                        let ghost before = paired(tests@, lps@);
                        let ghost way = lp@;
                        let ghost l0 = lps@;
                        tests.push(test);
                        lps.push(lp);
                        assert(paired(tests@, lps@) =~= before.push((test, way)));
                        assert forall|j: int| 0 <= j < lps@.len() implies is_face_loop(
                            k@,
                            g,
                            (#[trigger] lps@[j])@,
                        ) by {
                            if j < l0.len() {
                                assert(lps@[j] == l0[j]);
                            }
                        }
                    },
                }
            }
            i = i + 1;
        }
        Ok((tests, lps))
    }

    /// Whether the `i`-th island lies inside another one.
    fn is_sheltered<F: Fn(Op, Scalar, Scalar) -> Scalar>(
        &self,
        k: &Calc<F>,
        test: Point,
        polys: &Vec<Vec<Point>>,
        i: usize,
        Ghost(outs): Ghost<Seq<Outline>>,
    ) -> (r: bool)
        requires
            k.wf(),
            i < outs.len() == polys@.len(),
            test == outs[i as int].0,
            forall|j: int|
                #![trigger polys@[j]]
                0 <= j < outs.len() ==> polys@[j]@ == loop_poly(k@, self@, outs[j].1),
        ensures
            r == sheltered(k@, self@, outs, i as int),
    {
        let n: usize = polys.len();
        let mut j: usize = 0;
        while j < n
            invariant
                k.wf(),
                j <= n == polys@.len() == outs.len(),
                i < n,
                test == outs[i as int].0,
                forall|x: int|
                    #![trigger polys@[x]]
                    0 <= x < outs.len() ==> polys@[x]@ == loop_poly(k@, self@, outs[x].1),
                forall|x: int|
                    0 <= x < j && x != i ==> !in_polyline(
                        k@,
                        test,
                        loop_poly(k@, self@, (#[trigger] outs[x]).1),
                    ),
            decreases n - j,
        {
            assert(polys@[j as int]@ == loop_poly(k@, self@, outs[j as int].1));
            if j != i && point_in_polyline(k, test, &polys[j]) {
                return true;
            }
            j = j + 1;
        }
        false
    }

    /// The face with the given outer boundary: that loop, and the holes in it
    /// that do not have `p` inside.
    fn find_holes<F: Fn(Op, Scalar, Scalar) -> Scalar>(
        &self,
        k: &Calc<F>,
        p: Point,
        outer: Vec<HalfEdge>,
    ) -> (r: Result<Vec<Vec<HalfEdge>>, Fault>)
        requires
            k.wf(),
            graph_wf(self@),
            is_face_loop(k@, self@, outer@),
        ensures
            match r {
                Err(e) => face_within(k@, self@, outer@) == Err::<Seq<Seq<HalfEdge>>, Fault>(e),
                Ok(loops) => face_within(k@, self@, outer@) matches Ok(all) && deep(loops@)
                    == clear_of(k@, self@, p, all, all.len() as int),
            },
    {
        let ghost g = self@;
        let ghost out = outer@;
        let (tests, lps) = match self.find_outlines(k, &outer) {
            Err(e) => {
                return Err(e);
            },
            Ok(r) => r,
        };
        let ghost outs = paired(tests@, lps@);
        let n: usize = lps.len();
        let mut polys: Vec<Vec<Point>> = Vec::new();
        let mut i: usize = 0;
        while i < n
            invariant
                k.wf(),
                graph_wf(g),
                self@ == g,
                i <= n == lps@.len() == polys@.len() + (n - i),
                forall|j: int|
                    0 <= j < lps@.len() ==> is_face_loop(k@, g, (#[trigger] lps@[j])@),
                forall|j: int|
                    #![trigger polys@[j]]
                    0 <= j < i ==> polys@[j]@ == loop_poly(k@, g, lps@[j]@),
            decreases n - i,
        {
            assert(is_face_loop(k@, g, lps@[i as int]@));
            polys.push(self.loop_polyline(k, &lps[i]));
            i = i + 1;
        }
        let mut fore = blank(self.curves.len());
        let mut back = blank(self.curves.len());
        let ghost mut loops: Seq<Seq<HalfEdge>> = seq![out];
        let ghost mut used: Set<HalfEdge> = Set::empty();
        self.mark_half_edges(&outer, &mut fore, &mut back, Ghost(used));
        proof {
            used = used.union(out.to_set());
            assert forall|he: HalfEdge| used.contains(he) <==> taken(loops, he) by {
                assert(loops[0] == out);
            }
        }
        let mut kept: Vec<Vec<HalfEdge>> = Vec::new();
        kept.push(outer);
        assert(clear_of(k@, g, p, loops, 1) =~= seq![out]) by {
            assert(clear_of(k@, g, p, loops, 0) =~= Seq::empty());
        }
        assert(deep(kept@) =~= seq![out]);
        let mut j: usize = 0;
        while j < n
            invariant
                k.wf(),
                graph_wf(g),
                self@ == g,
                j <= n == lps@.len() == polys@.len() == tests@.len(),
                outs == paired(tests@, lps@),
                forall|x: int|
                    0 <= x < lps@.len() ==> is_face_loop(k@, g, (#[trigger] lps@[x])@),
                forall|x: int|
                    #![trigger polys@[x]]
                    0 <= x < n ==> polys@[x]@ == loop_poly(k@, g, lps@[x]@),
                loops.len() > 0,
                marks_half_edges(g, fore@, back@, used),
                forall|he: HalfEdge| #[trigger] used.contains(he) <==> taken(loops, he),
                holes(k@, g, outs, 0, seq![out]) == holes(k@, g, outs, j as int, loops),
                deep(kept@) == clear_of(k@, g, p, loops, loops.len() as int),
            decreases n - j,
        {
            assert(is_face_loop(k@, g, lps@[j as int]@));
            assert(polys@[j as int]@ == loop_poly(k@, g, lps@[j as int]@));
            let lp = &lps[j];
            let first = lp[0];
            assert(curve_live(g, lp@[0].0));
            let used_already = if first.1 {
                back[first.0.0 as usize]
            } else {
                fore[first.0.0 as usize]
            };
            assert(used_already == used.contains(first));
            if !self.is_sheltered(k, tests[j], &polys, j, Ghost(outs)) && !self.is_bounded(
                k,
                lp,
                &polys[j],
            ) && !used_already {
                let ghost before = loops;
                let ghost so_far = used;
                self.mark_half_edges(lp, &mut fore, &mut back, Ghost(used));
                proof {
                    loops = loops.push(lp@);
                    used = used.union(lp@.to_set());
                    lemma_taken_push(before, lp@);
                    assert forall|he: HalfEdge| #[trigger] used.contains(he) <==> taken(
                        loops,
                        he,
                    ) by {
                        assert(so_far.contains(he) <==> taken(before, he));
                    }
                    lemma_clear_prefix(k@, g, p, before, loops, before.len() as int);
                }
                if !point_in_polyline(k, p, &polys[j]) {
                    let ghost k0 = deep(kept@);
                    let copy = copied(lp);
                    kept.push(copy);
                    assert(deep(kept@) =~= k0.push(lp@));
                }
            }
            j = j + 1;
        }
        Ok(kept)
    }

    /// Traces the face containing `p`: its outer loop, then its holes.
    pub(crate) fn trace_face<F: Fn(Op, Scalar, Scalar) -> Scalar>(&self, k: &Calc<F>, p: Point) -> (r: Result<
        Result<Vec<Vec<HalfEdge>>, FillError>,
        Fault,
    >)
        requires
            k.wf(),
            graph_wf(self@),
        ensures
            match r {
                Err(e) => face_of(k@, self@, p) == Err::<
                    Result<Seq<Seq<HalfEdge>>, FillError>,
                    Fault,
                >(e),
                Ok(Err(e)) => face_of(k@, self@, p) == Ok::<
                    Result<Seq<Seq<HalfEdge>>, FillError>,
                    Fault,
                >(Err(e)),
                Ok(Ok(loops)) => {
                    &&& face_of(k@, self@, p) == Ok::<Result<Seq<Seq<HalfEdge>>, FillError>, Fault>(
                        Ok(deep(loops@)),
                    )
                    &&& loops_live(self@, deep(loops@))
                },
            },
    {
        proof {
            reveal(face_of);
            law_face_encloses_point(k@, self@, p);
        }
        match self.find_outer(k, p) {
            Err(e) => Err(e),
            Ok(None) => Ok(Err(FillError::NotEnclosed)),
            Ok(Some(outer)) => match self.find_holes(k, p, outer) {
                Err(e) => Err(e),
                Ok(loops) => Ok(Ok(loops)),
            },
        }
    }
}

impl Scene {
    /// Traces the face containing `p`: its outer loop, then its holes.
    pub fn trace_face<F: Fn(Op, Scalar, Scalar) -> Scalar>(&self, k: &Calc<F>, p: Point) -> (r: Result<
        Result<Vec<Vec<HalfEdge>>, FillError>,
        Fault,
    >)
        requires
            k.wf(),
            self.wf(),
        ensures
            match r {
                Err(e) => face_of(k@, self@.g, p) == Err::<
                    Result<Seq<Seq<HalfEdge>>, FillError>,
                    Fault,
                >(e),
                Ok(Err(e)) => face_of(k@, self@.g, p) == Ok::<
                    Result<Seq<Seq<HalfEdge>>, FillError>,
                    Fault,
                >(Err(e)),
                Ok(Ok(loops)) => face_of(k@, self@.g, p) == Ok::<
                    Result<Seq<Seq<HalfEdge>>, FillError>,
                    Fault,
                >(Ok(deep(loops@))),
            },
    {
        self.arr.trace_face(k, p)
    }
}

} // verus!
