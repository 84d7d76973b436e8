//! What holds of every scene, whatever has been done to it.

use vstd::prelude::*;

use crate::calc::Arith;
use crate::error::{Fault, FillError};
use crate::face::{
    encloses, face_loops, face_of, law_face_encloses_point, law_outer_first, loops_live,
};
use crate::fill::{
    bounding, bounds, fill_hit, fill_live, fill_of, fills_wf, in_fill, law_face_covers_point,
    law_refilled, lemma_fill_hit, loop_polys, painted, refilled, Fill,
};
use crate::geom::Cubic;
use crate::graft::{curve_copy, law_copy_keeps_shape_and_tag, lemma_grafted, lemma_grafted_wf};
use crate::graph::{
    any_curve, curve_ids_of, curve_live, curve_of, graph_wf, incident_to, law_swept, lemma_pick,
    pick, points_of, swept, touching, vertex_live, vertex_used, CurveId, FillId, Graph, VertexId,
};
use crate::integrate::run_room;
use crate::kept::{law_outer_survives, walks_kept};
use crate::lineage::{law_integrated_lineage, law_pieces, same_body};
use crate::locate::raycast;
use crate::pipeline::integrated;
use crate::planar::{
    alike, alike_joints, law_integrated_planar, law_subset_planar, lemma_alike_beside,
    lemma_alike_settled, lemma_planar_but, planar, planar_but, same_curve, settled, settled_beside,
};
use crate::point::{spec_plus, Point};
use crate::scene::{
    committed, drawn, edit_room, erased, lemma_moved_wf, lemma_new_curve_wf, lemma_without_wf,
    new_curve_id, not_bounded_by, replanarized, scene_wf, vertex_moved, with_new_curve,
    with_vertex_at, without, Model,
};
use crate::subgraph::{
    bare, curve_pairs, extracted, fill_pairs, in_set, inside_of, left_fills, left_graph,
    lemma_bounds_live, lemma_left_wf, lemma_merged_fills, lemma_picked, lemma_taken_wf, merge_graft,
    merge_room, merged_fills, merged_scene, new_ids, taken_fills, taken_graft, taken_ids, walls_of,
};
use crate::walk::{
    is_face_loop, law_face_loop_survives, law_face_loops_same_or_disjoint, loop_live, loop_poly,
    thinned_out, HalfEdge,
};

verus! {

// ---- what edits have in common ----

/// Every live vertex is an endpoint of a live curve.
pub open spec fn no_orphans(g: Graph) -> bool {
    forall|v: VertexId| #[trigger] vertex_live(g, v) ==> vertex_used(g, v.0 as int)
}

/// Ids are never reused: slots are only added, what is dead stays dead, and a
/// curve that keeps its id keeps its control points and tag.
pub open spec fn ids_kept(g1: Graph, g2: Graph) -> bool {
    &&& g1.curves.len() <= g2.curves.len()
    &&& g1.verts.len() <= g2.verts.len()
    &&& forall|c: CurveId|
        #![trigger curve_live(g2, c)]
        curve_live(g2, c) && c.0 < g1.curves.len() ==> curve_live(g1, c) && same_body(
            curve_of(g1, c),
            curve_of(g2, c),
        )
    &&& forall|v: VertexId|
        #![trigger vertex_live(g2, v)]
        vertex_live(g2, v) && v.0 < g1.verts.len() ==> vertex_live(g1, v)
}

/// Every fill is the face that contains its anchor; it has kept its payload and
/// anchor, and is gone where its anchor is no longer enclosed.
pub open spec fn fills_kept(
    ar: Arith,
    g: Graph,
    before: Seq<Option<Fill>>,
    now: Seq<Option<Fill>>,
) -> bool {
    &&& now.len() == before.len()
    &&& forall|i: int|
        #![trigger now[i]]
        0 <= i < now.len() ==> match now[i] {
            Some(f) => {
                &&& before[i] is Some
                &&& f.payload == (before[i]->0).payload
                &&& f.anchor == (before[i]->0).anchor
                &&& face_of(ar, g, f.anchor) == Ok::<Result<Seq<Seq<HalfEdge>>, FillError>, Fault>(
                    Ok(f.loops),
                )
            },
            None => before[i] is None || face_of(ar, g, (before[i]->0).anchor) == Ok::<
                Result<Seq<Seq<HalfEdge>>, FillError>,
                Fault,
            >(Err(FillError::NotEnclosed)),
        }
}

/// The curve's tag is that of the curve of `g1` that it descends from.
pub open spec fn tags_kept(g1: Graph, g2: Graph, root: Seq<CurveId>) -> bool {
    forall|c: CurveId|
        #![trigger curve_live(g2, c)]
        curve_live(g2, c) ==> curve_live(g1, root[c.0 as int]) && curve_of(
            g1,
            root[c.0 as int],
        ).tag == curve_of(g2, c).tag
}

/// What restoring the rules keeps: the scene is in order and without orphans,
/// ids are not reused, every piece has the tag of its ancestor, and every fill
/// is the face that contains its anchor.
pub proof fn law_replanarized(ar: Arith, g: Graph, dirty: Seq<CurveId>, fills: Seq<Option<Fill>>)
    requires
        graph_wf(g),
        run_room(g),
        fills.len() <= u32::MAX,
    ensures
        replanarized(ar, g, dirty, fills) matches Ok(m) ==> {
            &&& scene_wf(m)
            &&& no_orphans(m.g)
            &&& ids_kept(g, m.g)
            &&& tags_kept(g, m.g, integrated(ar, g, dirty).w.root)
            &&& fills_kept(ar, m.g, fills, m.fills)
        },
{
    law_integrated_lineage(ar, g, dirty);
    let w = integrated(ar, g, dirty).w;
    law_swept(w.g);
    let g2 = swept(w.g);
    law_refilled(ar, g2, fills);
    if let Ok(m) = replanarized(ar, g, dirty, fills) {
        assert forall|c: CurveId| #[trigger] curve_live(m.g, c) implies curve_live(w.g, c)
            && curve_of(w.g, c) == curve_of(m.g, c) by {}
        assert forall|v: VertexId|
            #[trigger] vertex_live(m.g, v) && v.0 < g.verts.len() implies vertex_live(g, v) by {
            assert(vertex_live(w.g, v));
        }
        lemma_swept_used(w.g);
    }
}

proof fn lemma_swept_used(g: Graph)
    requires
        graph_wf(g),
    ensures
        no_orphans(swept(g)),
{
    law_swept(g);
    assert forall|v: VertexId| #[trigger] vertex_live(swept(g), v) implies vertex_used(
        swept(g),
        v.0 as int,
    ) by {
        assert(vertex_used(g, v.0 as int));
        let i = choose|i: int|
            0 <= i < g.curves.len() && (#[trigger] g.curves[i]) is Some && ((
            g.curves[i]->0).v0.0 == v.0 || (g.curves[i]->0).v1.0 == v.0);
        assert(swept(g).curves[i] is Some);
    }
}

/// Sweeping keeps every live curve as it is.
proof fn lemma_swept_same(g: Graph)
    requires
        graph_wf(g),
    ensures
        forall|c: CurveId| #[trigger] curve_live(swept(g), c) ==> same_curve(g, swept(g), c),
{
    law_swept(g);
    assert forall|c: CurveId| #[trigger] curve_live(swept(g), c) implies same_curve(
        g,
        swept(g),
        c,
    ) by {
        assert(curve_live(g, c));
        assert(points_of(swept(g), c) == points_of(g, c));
    }
}

/// Restoring the rules leaves a planar arrangement, where all curves but the
/// dirty ones were in order.
pub proof fn law_replanarized_planar(
    ar: Arith,
    g: Graph,
    dirty: Seq<CurveId>,
    fills: Seq<Option<Fill>>,
)
    requires
        graph_wf(g),
        run_room(g),
        planar_but(ar, g, dirty),
    ensures
        replanarized(ar, g, dirty, fills) matches Ok(m) ==> planar(ar, m.g),
{
    law_integrated_planar(ar, g, dirty);
    law_integrated_lineage(ar, g, dirty);
    let w = integrated(ar, g, dirty).w;
    if replanarized(ar, g, dirty, fills) is Ok {
        lemma_swept_same(w.g);
        law_subset_planar(ar, w.g, swept(w.g));
    }
}

// ---- adding and replacing curves ----

proof fn lemma_new_curve_kept(g: Graph, p: Cubic, tag: u64)
    requires
        graph_wf(g),
        g.curves.len() < u32::MAX,
        g.verts.len() + 2 <= u32::MAX,
    ensures
        ({
            let g1 = with_new_curve(g, p, tag);
            &&& ids_kept(g, g1)
            &&& curve_live(g1, new_curve_id(g))
            &&& forall|c: CurveId|
                #![trigger curve_live(g1, c)]
                curve_live(g1, c) && c != new_curve_id(g) ==> same_curve(g, g1, c)
        }),
{
    let g1 = with_new_curve(g, p, tag);
    lemma_new_curve_wf(g, p, tag);
    assert forall|c: CurveId|
        #![trigger curve_live(g1, c)]
        curve_live(g1, c) && c != new_curve_id(g) implies same_curve(g, g1, c) by {
        assert(c.0 < g.curves.len());
        assert(g.curves[c.0 as int] is Some);
        let d = curve_of(g, c);
        assert(vertex_live(g, d.v0) && vertex_live(g, d.v1));
    }
}

proof fn lemma_ids_kept_trans(g1: Graph, g2: Graph, g3: Graph)
    requires
        ids_kept(g1, g2),
        ids_kept(g2, g3),
    ensures
        ids_kept(g1, g3),
{
    assert forall|c: CurveId|
        #[trigger] curve_live(g3, c) && c.0 < g1.curves.len() implies curve_live(g1, c)
        && same_body(curve_of(g1, c), curve_of(g3, c)) by {
        assert(curve_live(g2, c));
    }
    assert forall|v: VertexId|
        #[trigger] vertex_live(g3, v) && v.0 < g1.verts.len() implies vertex_live(g1, v) by {
        assert(vertex_live(g2, v));
    }
}

/// What adding a curve keeps, and that its pieces are live, in ascending order,
/// and carry its tag.
pub proof fn law_drawn(ar: Arith, g: Graph, fills: Seq<Option<Fill>>, p: Cubic, tag: u64)
    requires
        graph_wf(g),
        edit_room(Model { g, fills }),
        fills.len() <= u32::MAX,
    ensures
        drawn(ar, g, fills, p, tag) matches Ok((m, pieces)) ==> {
            &&& scene_wf(m)
            &&& no_orphans(m.g)
            &&& ids_kept(g, m.g)
            &&& fills_kept(ar, m.g, fills, m.fills)
            &&& forall|i: int|
                #![trigger pieces[i]]
                0 <= i < pieces.len() ==> curve_live(m.g, pieces[i]) && pieces[i].0 >= g.curves.len()
                    && curve_of(m.g, pieces[i]).tag == tag
            &&& forall|i: int, j: int|
                0 <= i < j < pieces.len() ==> (#[trigger] pieces[i]).0 < (#[trigger] pieces[j]).0
        },
{
    let g1 = with_new_curve(g, p, tag);
    let id = new_curve_id(g);
    lemma_new_curve_wf(g, p, tag);
    lemma_new_curve_kept(g, p, tag);
    law_replanarized(ar, g1, seq![id], fills);
    law_pieces(ar, g1, seq![id], id);
    law_integrated_lineage(ar, g1, seq![id]);
    if let Ok((m, pieces)) = drawn(ar, g, fills, p, tag) {
        let w = integrated(ar, g1, seq![id]).w;
        lemma_ids_kept_trans(g, g1, m.g);
        law_swept(w.g);
        assert forall|i: int| #![trigger pieces[i]] 0 <= i < pieces.len() implies curve_live(
            m.g,
            pieces[i],
        ) && pieces[i].0 >= g.curves.len() && curve_of(m.g, pieces[i]).tag == tag by {
            assert(curve_live(w.g, pieces[i]));
            assert(pieces.contains(pieces[i]));
            if pieces[i].0 < g.curves.len() {
                assert(w.root[pieces[i].0 as int] == CurveId(pieces[i].0));
            }
        }
    }
}

/// Adding a curve to a planar scene leaves it planar.
pub proof fn law_drawn_planar(ar: Arith, g: Graph, fills: Seq<Option<Fill>>, p: Cubic, tag: u64)
    requires
        graph_wf(g),
        edit_room(Model { g, fills }),
        planar(ar, g),
    ensures
        drawn(ar, g, fills, p, tag) matches Ok((m, pieces)) ==> planar(ar, m.g),
{
    let g1 = with_new_curve(g, p, tag);
    let id = new_curve_id(g);
    lemma_new_curve_wf(g, p, tag);
    lemma_new_curve_kept(g, p, tag);
    assert(seq![id][0] == id);
    assert forall|c: CurveId|
        #![trigger curve_live(g1, c)]
        curve_live(g1, c) && !seq![id].contains(c) implies same_curve(g, g1, c) by {
        assert(c != id);
    }
    lemma_planar_but(ar, g, g1, seq![id]);
    law_replanarized_planar(ar, g1, seq![id], fills);
}

proof fn lemma_without_kept(g: Graph, id: CurveId)
    requires
        graph_wf(g),
        curve_live(g, id),
    ensures
        graph_wf(without(g, id)),
        ids_kept(g, without(g, id)),
        !curve_live(without(g, id), id),
        forall|c: CurveId| #[trigger]
            curve_live(without(g, id), c) ==> same_curve(g, without(g, id), c),
{
    lemma_without_wf(g, id);
}

/// What replacing a curve keeps: the old curve is gone, and the pieces of the
/// new one carry its tag.
pub proof fn law_replaced(ar: Arith, m: Model, id: CurveId, p: Cubic)
    requires
        scene_wf(m),
        edit_room(m),
        curve_live(m.g, id),
    ensures
        drawn(ar, without(m.g, id), m.fills, p, curve_of(m.g, id).tag) matches Ok((m2, pieces)) ==> {
            &&& scene_wf(m2)
            &&& no_orphans(m2.g)
            &&& ids_kept(m.g, m2.g)
            &&& fills_kept(ar, m2.g, m.fills, m2.fills)
            &&& !curve_live(m2.g, id)
            &&& planar(ar, m.g) ==> planar(ar, m2.g)
            &&& forall|i: int|
                #![trigger pieces[i]]
                0 <= i < pieces.len() ==> curve_live(m2.g, pieces[i]) && curve_of(
                    m2.g,
                    pieces[i],
                ).tag == curve_of(m.g, id).tag
        },
{
    let g = without(m.g, id);
    let tag = curve_of(m.g, id).tag;
    lemma_without_kept(m.g, id);
    law_drawn(ar, g, m.fills, p, tag);
    if let Ok((m2, pieces)) = drawn(ar, g, m.fills, p, tag) {
        lemma_ids_kept_trans(m.g, g, m2.g);
        if planar(ar, m.g) {
            law_subset_planar(ar, m.g, g);
            law_drawn_planar(ar, g, m.fills, p, tag);
        }
    }
}

// ---- deleting curves ----

/// What deleting a curve keeps: the curve is gone, and so is every fill whose
/// boundary it was part of; every other live curve is as it was; and a planar
/// scene stays planar.
pub proof fn law_erased(ar: Arith, m: Model, id: CurveId)
    requires
        scene_wf(m),
        curve_live(m.g, id),
    ensures
        erased(ar, m, id) matches Ok(m2) ==> {
            &&& scene_wf(m2)
            &&& no_orphans(m2.g)
            &&& ids_kept(m.g, m2.g)
            &&& fills_kept(ar, m2.g, not_bounded_by(m.fills, id), m2.fills)
            &&& forall|c: CurveId| #[trigger]
                curve_live(m2.g, c) <==> curve_live(m.g, c) && c != id
            &&& forall|c: CurveId| #[trigger]
                curve_live(m2.g, c) ==> same_curve(m.g, m2.g, c)
            &&& forall|f: FillId|
                #![trigger fill_live(m, f)]
                fill_live(m, f) && bounds(fill_of(m, f).loops, id) ==> !fill_live(m2, f)
            &&& planar(ar, m.g) ==> planar(ar, m2.g)
        },
{
    let g = without(m.g, id);
    let g2 = swept(g);
    let kept = not_bounded_by(m.fills, id);
    lemma_without_kept(m.g, id);
    law_swept(g);
    lemma_swept_used(g);
    lemma_swept_same(g);
    law_refilled(ar, g2, kept);
    if let Ok(m2) = erased(ar, m, id) {
        assert forall|c: CurveId| #[trigger] curve_live(m2.g, c) implies same_curve(
            m.g,
            m2.g,
            c,
        ) by {
            assert(same_curve(g, g2, c));
            assert(curve_live(g, c));
            assert(same_curve(m.g, g, c));
        }
        assert forall|v: VertexId|
            #[trigger] vertex_live(m2.g, v) && v.0 < m.g.verts.len() implies vertex_live(m.g, v) by {
            assert(vertex_live(g, v));
        }
        assert forall|f: FillId|
            #![trigger fill_live(m, f)]
            fill_live(m, f) && bounds(fill_of(m, f).loops, id) implies !fill_live(m2, f) by {
            assert(kept[f.0 as int] is None);
            if fill_live(m2, f) {
                assert(m2.fills[f.0 as int] is Some);
            }
        }
        if planar(ar, m.g) {
            law_subset_planar(ar, m.g, m2.g);
        }
    }
}

// ---- moving vertices ----

/// What moving a vertex keeps.
pub proof fn law_vertex_moved(ar: Arith, m: Model, v: VertexId, to: Point)
    requires
        scene_wf(m),
        edit_room(m),
        vertex_live(m.g, v),
    ensures
        vertex_moved(ar, m, v, to) matches Ok(m2) ==> {
            &&& scene_wf(m2)
            &&& no_orphans(m2.g)
            &&& ids_kept(m.g, m2.g)
            &&& fills_kept(ar, m2.g, m.fills, m2.fills)
            &&& planar(ar, m.g) ==> planar(ar, m2.g)
        },
{
    let g1 = with_vertex_at(m.g, v, to);
    let dirty = incident_to(g1, v);
    lemma_moved_wf(m.g, v, to);
    assert(ids_kept(m.g, g1)) by {
        assert forall|u: VertexId| #[trigger] vertex_live(g1, u) implies vertex_live(m.g, u) by {}
        assert forall|c: CurveId| #[trigger] curve_live(g1, c) implies curve_live(m.g, c) by {}
    }
    law_replanarized(ar, g1, dirty, m.fills);
    if let Ok(m2) = vertex_moved(ar, m, v, to) {
        lemma_ids_kept_trans(m.g, g1, m2.g);
        if planar(ar, m.g) {
            lemma_pick(g1.curves, touching(v), g1.curves.len() as int);
            assert forall|c: CurveId|
                #![trigger curve_live(g1, c)]
                curve_live(g1, c) && !dirty.contains(c) implies same_curve(m.g, g1, c) by {
                assert(curve_live(m.g, c));
                assert(m.g.curves[c.0 as int] is Some);
                let d = curve_of(m.g, c);
                assert(d.v0 != v && d.v1 != v);
            }
            lemma_planar_but(ar, m.g, g1, dirty);
            law_replanarized_planar(ar, g1, dirty, m.fills);
        }
    }
}

/// Committing leaves a planar scene, whatever has been done to it before; every
/// live curve has the tag of the curve that it descends from.
pub proof fn law_committed(ar: Arith, m: Model)
    requires
        scene_wf(m),
        edit_room(m),
    ensures
        committed(ar, m) matches Ok(m2) ==> {
            &&& scene_wf(m2)
            &&& no_orphans(m2.g)
            &&& ids_kept(m.g, m2.g)
            &&& tags_kept(m.g, m2.g, integrated(ar, m.g, curve_ids_of(m.g)).w.root)
            &&& fills_kept(ar, m2.g, m.fills, m2.fills)
            &&& planar(ar, m2.g)
        },
{
    let all = curve_ids_of(m.g);
    law_replanarized(ar, m.g, all, m.fills);
    lemma_pick(m.g.curves, any_curve(), m.g.curves.len() as int);
    assert(planar_but(ar, m.g, all)) by {
        assert forall|c: CurveId| #[trigger] curve_live(m.g, c) implies all.contains(c) by {}
    }
    law_replanarized_planar(ar, m.g, all, m.fills);
}

/// A new scene is planar.
pub proof fn law_empty_planar(ar: Arith, g: Graph)
    requires
        g.curves.len() == 0,
    ensures
        planar(ar, g),
{
}

// ---- painting ----

/// What painting does: the arrangement stays; inside a fill, that fill and no
/// other has the new payload; elsewhere there is one more fill, at the point,
/// with the loops of the face there, of which the first encloses it; either way
/// the fill found at the point is the one with the new payload. It is refused
/// exactly where the point is in no fill and not enclosed.
pub proof fn law_painted(ar: Arith, m: Model, p: Point, payload: u64)
    requires
        scene_wf(m),
        m.fills.len() < u32::MAX,
    ensures
        match painted(ar, m, p, payload) {
            Err(_) => fill_hit(ar, m, p, 0) is None && face_of(ar, m.g, p) is Err,
            Ok(Err(_)) => fill_hit(ar, m, p, 0) is None && face_of(ar, m.g, p) == Ok::<
                Result<Seq<Seq<HalfEdge>>, FillError>,
                Fault,
            >(Err(FillError::NotEnclosed)),
            Ok(Ok((m2, id))) => {
                &&& scene_wf(m2)
                &&& m2.g == m.g
                &&& fill_live(m2, id)
                &&& fill_of(m2, id).payload == payload
                &&& fill_hit(ar, m2, p, 0) == Some(id)
                &&& forall|f: FillId|
                    #![trigger fill_live(m, f)]
                    fill_live(m, f) && f != id ==> fill_live(m2, f) && fill_of(m2, f) == fill_of(
                        m,
                        f,
                    )
                &&& match fill_hit(ar, m, p, 0) {
                    Some(hit) => {
                        &&& id == hit
                        &&& fill_live(m, id)
                        &&& in_fill(ar, m.g, fill_of(m, id), p)
                        &&& m2.fills.len() == m.fills.len()
                        &&& fill_of(m2, id) == (Fill { payload, ..fill_of(m, id) })
                    },
                    None => {
                        &&& id.0 == m.fills.len()
                        &&& m2.fills.len() == m.fills.len() + 1
                        &&& fill_of(m2, id).anchor == p
                        &&& face_of(ar, m.g, p) == Ok::<
                            Result<Seq<Seq<HalfEdge>>, FillError>,
                            Fault,
                        >(Ok(fill_of(m2, id).loops))
                        &&& encloses(ar, m.g, fill_of(m2, id).loops[0], p)
                    },
                }
            },
        },
{
    lemma_fill_hit(ar, m, p, 0);
    law_face_encloses_point(ar, m.g, p);
    if let Ok(Err(e)) = face_of(ar, m.g, p) {
        assert(e == FillError::NotEnclosed);
    }
    if let Ok(Ok((m2, id))) = painted(ar, m, p, payload) {
        assert(fills_wf(m2.g, m2.fills)) by {
            assert forall|i: int| 0 <= i < m2.fills.len() && (#[trigger] m2.fills[i])
                is Some implies loops_live(m2.g, (m2.fills[i]->0).loops) by {
                if i < m.fills.len() {
                    assert(m.fills[i] is Some);
                }
            }
        }
        law_face_covers_point(ar, m.g, p, payload);
        lemma_fill_hit(ar, m2, p, 0);
        assert(m2.fills[id.0 as int] is Some && in_fill(ar, m2.g, fill_of(m2, id), p));
        assert forall|j: int| 0 <= j < id.0 && (#[trigger] m2.fills[j]) is Some implies !in_fill(
            ar,
            m2.g,
            m2.fills[j]->0,
            p,
        ) by {
            assert(m.fills[j] is Some);
        }
        if let Some(found) = fill_hit(ar, m2, p, 0) {
            assert(m2.fills[found.0 as int] is Some);
        }
    }
}

/// Painting twice at one point paints one fill: the second time the fill of the
/// first is found there, and gets the second payload and nothing else new.
pub proof fn law_repainted(ar: Arith, m: Model, p: Point, first: u64, second: u64)
    requires
        scene_wf(m),
        m.fills.len() < u32::MAX,
    ensures
        painted(ar, m, p, first) matches Ok(Ok((m2, id))) ==> {
            &&& fill_hit(ar, m2, p, 0) == Some(id)
            &&& painted(ar, m2, p, second) == Ok::<
                Result<(Model, FillId), FillError>,
                Fault,
            >(
                Ok(
                    (
                        Model {
                            fills: m2.fills.update(
                                id.0 as int,
                                Some(Fill { payload: second, ..fill_of(m2, id) }),
                            ),
                            ..m2
                        },
                        id,
                    ),
                ),
            )
        },
{
    law_painted(ar, m, p, first);
}

// ---- merging ----

/// What merging keeps: ids of this scene are not reused, every live curve has
/// the tag of a curve of this scene or of the copy of one of the other, fills
/// of both keep their payloads, and a planar scene stays planar.
pub proof fn law_merged(ar: Arith, m: Model, other: Model, off: Point)
    requires
        scene_wf(m),
        scene_wf(other),
        merge_room(m, other),
    ensures
        merged_scene(ar, m, other, off) matches Ok(m2) ==> {
            let g1 = merge_graft(ar, m.g, other.g, off).g;
            let dirty = new_ids(m.g, curve_ids_of(other.g).len());
            &&& scene_wf(m2)
            &&& no_orphans(m2.g)
            &&& ids_kept(m.g, m2.g)
            &&& tags_kept(g1, m2.g, integrated(ar, g1, dirty).w.root)
            &&& fills_kept(
                ar,
                m2.g,
                m.fills + merged_fills(ar, other, off, other.fills.len() as int),
                m2.fills,
            )
            &&& planar(ar, m.g) ==> planar(ar, m2.g)
        },
{
    let ids = curve_ids_of(other.g);
    let s = merge_graft(ar, m.g, other.g, off);
    let dirty = new_ids(m.g, ids.len());
    let fills = m.fills + merged_fills(ar, other, off, other.fills.len() as int);
    lemma_picked(other.g, any_curve());
    lemma_grafted(ar, other.g, Some(off), m.g, ids, ids.len() as int);
    lemma_grafted_wf(ar, other.g, Some(off), m.g, ids);
    lemma_merged_fills(ar, other, off, other.fills.len() as int);
    law_replanarized(ar, s.g, dirty, fills);
    assert forall|c: CurveId|
        #![trigger curve_live(s.g, c)]
        curve_live(s.g, c) && !dirty.contains(c) implies same_curve(m.g, s.g, c) by {
        if c.0 >= m.g.curves.len() {
            let j = c.0 - m.g.curves.len();
            assert(dirty[j] == c);
        }
        assert(s.g.curves[c.0 as int] == m.g.curves[c.0 as int]);
        assert(m.g.curves[c.0 as int] is Some);
        let d = curve_of(m.g, c);
        assert(vertex_live(m.g, d.v0) && vertex_live(m.g, d.v1));
        assert(s.g.verts[d.v0.0 as int] == m.g.verts[d.v0.0 as int]);
        assert(s.g.verts[d.v1.0 as int] == m.g.verts[d.v1.0 as int]);
    }
    assert(ids_kept(m.g, s.g)) by {
        assert forall|c: CurveId|
            #[trigger] curve_live(s.g, c) && c.0 < m.g.curves.len() implies curve_live(m.g, c)
            && same_body(curve_of(m.g, c), curve_of(s.g, c)) by {
            assert(s.g.curves[c.0 as int] == m.g.curves[c.0 as int]);
        }
        assert forall|v: VertexId|
            #[trigger] vertex_live(s.g, v) && v.0 < m.g.verts.len() implies vertex_live(m.g, v) by {
            assert(s.g.verts[v.0 as int] == m.g.verts[v.0 as int]);
        }
    }
    if let Ok(m2) = merged_scene(ar, m, other, off) {
        lemma_ids_kept_trans(m.g, s.g, m2.g);
        if planar(ar, m.g) {
            lemma_planar_but(ar, m.g, s.g, dirty);
            law_replanarized_planar(ar, s.g, dirty, fills);
        }
    }
}

// ---- extracting ----

/// The copy of a curve that is taken has the same control points and tag.
pub proof fn law_taken_curve(ar: Arith, m: Model, inside: Set<CurveId>, c: CurveId)
    requires
        scene_wf(m),
        curve_live(m.g, c),
        inside.contains(c),
    ensures
        ({
            let s = taken_graft(ar, m, inside);
            let n = s.cmap[c.0 as int]->0;
            &&& s.cmap[c.0 as int] is Some
            &&& curve_live(s.g, n)
            &&& points_of(s.g, n) == points_of(m.g, c)
            &&& curve_of(s.g, n).tag == curve_of(m.g, c).tag
        }),
{
    let ids = taken_ids(m, inside);
    lemma_picked(m.g, in_set(inside));
    assert(ids.contains(c));
    let j = choose|j: int| 0 <= j < ids.len() && ids[j] == c;
    law_copy_keeps_shape_and_tag(ar, m.g, None, bare(m.g), ids, j);
}

proof fn lemma_copy_alike(ar: Arith, m: Model, inside: Set<CurveId>, j: int)
    requires
        scene_wf(m),
        0 <= j < taken_ids(m, inside).len(),
    ensures
        alike(m.g, taken_ids(m, inside)[j], taken_graft(ar, m, inside).g, CurveId(j as u32)),
{
    let ids = taken_ids(m, inside);
    let s = taken_graft(ar, m, inside);
    lemma_picked(m.g, in_set(inside));
    lemma_grafted(ar, m.g, None, bare(m.g), ids, ids.len() as int);
    law_copy_keeps_shape_and_tag(ar, m.g, None, bare(m.g), ids, j);
    let c = curve_of(m.g, ids[j]);
    assert(curve_live(m.g, ids[j]));
    assert(m.g.curves[ids[j].0 as int] is Some);
    assert(s.g.curves[0 + j] == Some(curve_copy(ar, m.g, None, s, ids[j])));
    assert(s.vmap[c.v0.0 as int] is Some && s.vmap[c.v1.0 as int] is Some);
}

proof fn lemma_copy_joints(ar: Arith, m: Model, inside: Set<CurveId>, i: int, j: int)
    requires
        scene_wf(m),
        0 <= i < taken_ids(m, inside).len(),
        0 <= j < taken_ids(m, inside).len(),
    ensures
        alike_joints(
            m.g,
            taken_ids(m, inside)[i],
            taken_ids(m, inside)[j],
            taken_graft(ar, m, inside).g,
            CurveId(i as u32),
            CurveId(j as u32),
        ),
{
    let ids = taken_ids(m, inside);
    let s = taken_graft(ar, m, inside);
    lemma_picked(m.g, in_set(inside));
    lemma_pick(m.g.curves, in_set(inside), m.g.curves.len() as int);
    assert(i < j ==> ids[i].0 < ids[j].0);
    assert(j < i ==> ids[j].0 < ids[i].0);
    lemma_grafted(ar, m.g, None, bare(m.g), ids, ids.len() as int);
    assert(curve_live(m.g, ids[i]) && curve_live(m.g, ids[j]));
    assert(m.g.curves[ids[i].0 as int] is Some);
    assert(m.g.curves[ids[j].0 as int] is Some);
    let c = curve_of(m.g, ids[i]);
    let d = curve_of(m.g, ids[j]);
    assert(s.g.curves[0 + i] == Some(curve_copy(ar, m.g, None, s, ids[i])));
    assert(s.g.curves[0 + j] == Some(curve_copy(ar, m.g, None, s, ids[j])));
    assert(s.vmap[c.v0.0 as int] is Some && s.vmap[c.v1.0 as int] is Some);
    assert(s.vmap[d.v0.0 as int] is Some && s.vmap[d.v1.0 as int] is Some);
}

/// The curves taken from a planar scene are planar by themselves.
pub proof fn law_taken_planar(ar: Arith, m: Model, inside: Set<CurveId>)
    requires
        scene_wf(m),
        planar(ar, m.g),
    ensures
        planar(ar, taken_graft(ar, m, inside).g),
{
    let ids = taken_ids(m, inside);
    let s = taken_graft(ar, m, inside);
    lemma_picked(m.g, in_set(inside));
    lemma_grafted(ar, m.g, None, bare(m.g), ids, ids.len() as int);
    assert forall|a: CurveId| #[trigger] curve_live(s.g, a) implies settled(ar, s.g, a) by {
        let i = a.0 as int;
        lemma_copy_alike(ar, m, inside, i);
        lemma_alike_settled(ar, m.g, ids[i], s.g, a);
        assert(curve_live(m.g, ids[i]));
    }
    assert forall|a: CurveId, b: CurveId|
        #![trigger curve_live(s.g, a), curve_live(s.g, b)]
        curve_live(s.g, a) && curve_live(s.g, b) && a != b implies settled_beside(ar, s.g, a, b) by {
        let i = a.0 as int;
        let j = b.0 as int;
        lemma_copy_alike(ar, m, inside, i);
        lemma_copy_alike(ar, m, inside, j);
        lemma_copy_joints(ar, m, inside, i, j);
        lemma_alike_beside(ar, m.g, ids[i], ids[j], s.g, a, b);
        assert(curve_live(m.g, ids[i]) && curve_live(m.g, ids[j]));
        assert(ids[i] != ids[j]);
    }
}

/// Without sweeping.
proof fn lemma_left_unswept(g: Graph, inside: Set<CurveId>, walls: Set<CurveId>)
    requires
        graph_wf(g),
    ensures
        ({
            let l = left_graph(g, inside, walls);
            &&& graph_wf(l)
            &&& ids_kept(g, l)
            &&& forall|c: CurveId| #[trigger]
                curve_live(l, c) <==> curve_live(g, c) && (!inside.contains(c) || walls.contains(
                    c,
                ))
            &&& forall|c: CurveId| #[trigger] curve_live(l, c) ==> same_curve(g, l, c)
        }),
{
    let l = left_graph(g, inside, walls);
    lemma_left_wf(g, inside, walls);
    assert forall|c: CurveId| #[trigger] curve_live(l, c) <==> curve_live(g, c) && (
    !inside.contains(c) || walls.contains(c)) by {
        assert(CurveId(c.0 as int as u32) == c);
    }
    assert forall|c: CurveId| #[trigger] curve_live(l, c) implies same_curve(g, l, c) by {
        assert(l.curves[c.0 as int] == g.curves[c.0 as int]);
    }
}

proof fn lemma_swept_kept(g: Graph)
    requires
        graph_wf(g),
    ensures
        ids_kept(g, swept(g)),
        forall|c: CurveId| #[trigger] curve_live(swept(g), c) <==> curve_live(g, c),
{
    law_swept(g);
    assert forall|v: VertexId| #[trigger] vertex_live(swept(g), v) implies vertex_live(g, v) by {}
}

proof fn lemma_left_kept(g: Graph, inside: Set<CurveId>, walls: Set<CurveId>)
    requires
        graph_wf(g),
    ensures
        ({
            let left = swept(left_graph(g, inside, walls));
            &&& graph_wf(left)
            &&& no_orphans(left)
            &&& ids_kept(g, left)
            &&& forall|c: CurveId| #[trigger]
                curve_live(left, c) <==> curve_live(g, c) && (!inside.contains(c)
                    || walls.contains(c))
            &&& forall|c: CurveId| #[trigger] curve_live(left, c) ==> same_curve(g, left, c)
        }),
{
    let l = left_graph(g, inside, walls);
    let left = swept(l);
    lemma_left_unswept(g, inside, walls);
    lemma_swept_used(l);
    lemma_swept_same(l);
    lemma_swept_kept(l);
    lemma_ids_kept_trans(g, l, left);
    assert(graph_wf(left)) by {
        law_swept(l);
    }
    assert forall|c: CurveId| #[trigger] curve_live(left, c) implies same_curve(g, left, c) by {
        assert(same_curve(l, left, c));
        assert(curve_live(l, c));
        assert(same_curve(g, l, c));
    }
}

proof fn lemma_left_fills(
    ar: Arith,
    g: Graph,
    all: Seq<Option<Fill>>,
    fills: Set<FillId>,
    now: Seq<Option<Fill>>,
)
    requires
        graph_wf(g),
        all.len() <= u32::MAX,
        refilled(ar, g, left_fills(all, fills)) == Ok::<Seq<Option<Fill>>, Fault>(now),
    ensures
        fills_wf(g, now),
        fills_kept(ar, g, left_fills(all, fills), now),
        forall|f: FillId| #[trigger]
            fills.contains(f) ==> !(f.0 < now.len() && now[f.0 as int] is Some),
{
    let kept = left_fills(all, fills);
    law_refilled(ar, g, kept);
    assert forall|f: FillId| #[trigger] fills.contains(f) implies !(f.0 < now.len()
        && now[f.0 as int] is Some) by {
        if f.0 < now.len() {
            assert(FillId(f.0 as int as u32) == f);
            assert(kept[f.0 as int] is None);
        }
    }
}

/// What an extraction leaves: both scenes are in order; the taken curves are
/// gone, but for the walls of kept fills; what stays is as it was, and so are
/// all walls of kept fills; the chosen fills are gone; and of a planar scene
/// both halves are planar.
pub proof fn law_extracted(ar: Arith, m: Model, curves: Set<CurveId>, fills: Set<FillId>)
    requires
        scene_wf(m),
    ensures
        extracted(ar, m, curves, fills) matches Ok((left, taken)) ==> {
            let inside = inside_of(m, curves, fills);
            let walls = walls_of(m, fills);
            &&& scene_wf(left)
            &&& scene_wf(taken)
            &&& no_orphans(left.g)
            &&& ids_kept(m.g, left.g)
            &&& fills_kept(ar, left.g, left_fills(m.fills, fills), left.fills)
            &&& forall|c: CurveId| #[trigger]
                curve_live(left.g, c) <==> curve_live(m.g, c) && (!inside.contains(c)
                    || walls.contains(c))
            &&& forall|c: CurveId| #[trigger]
                curve_live(left.g, c) ==> same_curve(m.g, left.g, c)
            &&& forall|f: FillId| #[trigger] fills.contains(f) ==> !fill_live(left, f)
            &&& forall|f: FillId, c: CurveId|
                #![trigger fill_live(m, f), curve_live(left.g, c)]
                fill_live(m, f) && !fills.contains(f) && bounds(fill_of(m, f).loops, c)
                    ==> curve_live(left.g, c)
            &&& planar(ar, m.g) ==> planar(ar, left.g) && planar(ar, taken.g)
        },
{
    let inside = inside_of(m, curves, fills);
    let walls = walls_of(m, fills);
    lemma_left_kept(m.g, inside, walls);
    lemma_taken_wf(ar, m, curves, fills, m.fills.len() as int);
    if let Ok((left, taken)) = extracted(ar, m, curves, fills) {
        lemma_left_fills(ar, left.g, m.fills, fills, left.fills);
        assert forall|f: FillId, c: CurveId|
            #![trigger fill_live(m, f), curve_live(left.g, c)]
            fill_live(m, f) && !fills.contains(f) && bounds(
                fill_of(m, f).loops,
                c,
            ) implies curve_live(left.g, c) by {
            lemma_bounds_live(m, f, c);
            assert(walls.contains(c));
        }
        if planar(ar, m.g) {
            law_subset_planar(ar, m.g, left.g);
            law_taken_planar(ar, m, inside);
        }
    }
}

/// The two loops go along the same half-edges.
pub open spec fn same_half_edges(a: Seq<HalfEdge>, b: Seq<HalfEdge>) -> bool {
    forall|he: HalfEdge| #[trigger] a.contains(he) <==> b.contains(he)
}

/// A loop of the one list and a loop of the other go along the same half-edges,
/// or share none.
pub open spec fn loops_agree(a: Seq<Seq<HalfEdge>>, b: Seq<Seq<HalfEdge>>) -> bool {
    forall|i: int, j: int, he: HalfEdge|
        #![trigger a[i].contains(he), b[j].contains(he)]
        0 <= i < a.len() && 0 <= j < b.len() && a[i].contains(he) && b[j].contains(he)
            ==> same_half_edges(a[i], b[j])
}

proof fn lemma_loops_agree(ar: Arith, g: Graph, a: Seq<Seq<HalfEdge>>, b: Seq<Seq<HalfEdge>>)
    requires
        face_loops(ar, g, a),
        face_loops(ar, g, b),
    ensures
        loops_agree(a, b),
{
    assert forall|i: int, j: int, he: HalfEdge|
        #![trigger a[i].contains(he), b[j].contains(he)]
        0 <= i < a.len() && 0 <= j < b.len() && a[i].contains(he) && b[j].contains(
            he,
        ) implies same_half_edges(a[i], b[j]) by {
        assert(is_face_loop(ar, g, a[i]));
        assert(is_face_loop(ar, g, b[j]));
        law_face_loops_same_or_disjoint(ar, g, a[i], b[j], he);
    }
}

proof fn lemma_loops_survive(ar: Arith, g1: Graph, g2: Graph, loops: Seq<Seq<HalfEdge>>)
    requires
        graph_wf(g1),
        graph_wf(g2),
        thinned_out(g1, g2),
        face_loops(ar, g1, loops),
        loops_live(g2, loops),
    ensures
        face_loops(ar, g2, loops),
        loop_polys(ar, g2, loops) == loop_polys(ar, g1, loops),
{
    assert forall|i: int| 0 <= i < loops.len() implies is_face_loop(ar, g2, #[trigger] loops[i])
        && loop_poly(ar, g2, loops[i]) == loop_poly(ar, g1, loops[i]) by {
        assert(is_face_loop(ar, g1, loops[i]));
        law_face_loop_survives(ar, g1, g2, loops[i]);
    }
    assert(loop_polys(ar, g2, loops) =~= loop_polys(ar, g1, loops));
}

proof fn lemma_left_thinned(ar: Arith, m: Model, curves: Set<CurveId>, fills: Set<FillId>)
    requires
        scene_wf(m),
    ensures
        extracted(ar, m, curves, fills) matches Ok((left, _)) ==> graph_wf(left.g) && thinned_out(
            m.g,
            left.g,
        ),
{
    lemma_left_kept(m.g, inside_of(m, curves, fills), walls_of(m, fills));
    if let Ok((left, taken)) = extracted(ar, m, curves, fills) {
        assert forall|c: CurveId| #[trigger] curve_live(left.g, c) implies curve_live(m.g, c)
            && curve_of(left.g, c) == curve_of(m.g, c) && points_of(left.g, c) == points_of(
            m.g,
            c,
        ) by {
            assert(same_curve(m.g, left.g, c));
        }
    }
}

proof fn lemma_kept_live(
    ar: Arith,
    m: Model,
    curves: Set<CurveId>,
    fills: Set<FillId>,
    f: FillId,
)
    requires
        scene_wf(m),
        fill_live(m, f),
        !fills.contains(f),
    ensures
        extracted(ar, m, curves, fills) matches Ok((left, _)) ==> {
            let was = fill_of(m, f);
            let now = fill_of(left, f);
            &&& loops_live(left.g, was.loops)
            &&& fill_live(left, f) ==> now.payload == was.payload && now.anchor == was.anchor
                && face_of(ar, left.g, now.anchor) == Ok::<
                Result<Seq<Seq<HalfEdge>>, FillError>,
                Fault,
            >(Ok(now.loops))
        },
{
    let walls = walls_of(m, fills);
    let was = fill_of(m, f);
    lemma_left_kept(m.g, inside_of(m, curves, fills), walls);
    if let Ok((left, taken)) = extracted(ar, m, curves, fills) {
        lemma_left_fills(ar, left.g, m.fills, fills, left.fills);
        assert forall|i: int, j: int|
            0 <= i < was.loops.len() && 0 <= j < was.loops[i].len() implies curve_live(
            left.g,
            (#[trigger] was.loops[i][j]).0,
        ) by {
            let c = was.loops[i][j].0;
            assert(bounds(was.loops, c));
            lemma_bounds_live(m, f, c);
            assert(walls.contains(c));
        }
        assert forall|i: int| 0 <= i < was.loops.len() implies loop_live(
            left.g,
            #[trigger] was.loops[i],
        ) by {}
        if fill_live(left, f) {
            assert(left.fills[f.0 as int] is Some);
            assert(FillId(f.0 as int as u32) == f);
        }
    }
}

/// What an extraction leaves of a kept fill's boundary: its loops are closed
/// walks around faces still, along the same polylines, with the same points
/// inside. Traced anew, the fill has its payload and anchor, and each of its
/// loops goes along the same half-edges as an old one, or shares none with any.
pub proof fn law_kept_boundary(
    ar: Arith,
    m: Model,
    curves: Set<CurveId>,
    fills: Set<FillId>,
    f: FillId,
)
    requires
        scene_wf(m),
        fill_live(m, f),
        !fills.contains(f),
        face_loops(ar, m.g, fill_of(m, f).loops),
    ensures
        extracted(ar, m, curves, fills) matches Ok((left, _)) ==> {
            let was = fill_of(m, f);
            &&& face_loops(ar, left.g, was.loops)
            &&& loop_polys(ar, left.g, was.loops) == loop_polys(ar, m.g, was.loops)
            &&& forall|p: Point| #[trigger]
                in_fill(ar, left.g, was, p) == in_fill(ar, m.g, was, p)
            &&& fill_live(left, f) ==> {
                let now = fill_of(left, f);
                &&& now.payload == was.payload
                &&& now.anchor == was.anchor
                &&& loops_agree(was.loops, now.loops)
            }
        },
{
    lemma_left_thinned(ar, m, curves, fills);
    lemma_kept_live(ar, m, curves, fills, f);
    if let Ok((left, taken)) = extracted(ar, m, curves, fills) {
        let was = fill_of(m, f);
        lemma_loops_survive(ar, m.g, left.g, was.loops);
        if fill_live(left, f) {
            let now = fill_of(left, f);
            law_face_encloses_point(ar, left.g, now.anchor);
            lemma_loops_agree(ar, left.g, was.loops, now.loops);
        }
    }
}

/// A kept fill stays: when it was up to date, and an extraction takes no curve of
/// a walk which the ray from its anchor meets before its outer boundary, it is
/// live afterwards, with the same outer boundary.
pub proof fn law_kept_fill_stays(
    ar: Arith,
    m: Model,
    curves: Set<CurveId>,
    fills: Set<FillId>,
    f: FillId,
)
    requires
        scene_wf(m),
        fill_live(m, f),
        !fills.contains(f),
        face_of(ar, m.g, fill_of(m, f).anchor) == Ok::<
            Result<Seq<Seq<HalfEdge>>, FillError>,
            Fault,
        >(Ok(fill_of(m, f).loops)),
    ensures
        ({
            let was = fill_of(m, f);
            let hits = raycast(ar, m.g, was.anchor);
            extracted(ar, m, curves, fills) matches Ok((left, _)) ==> walks_kept(
                ar,
                m.g,
                left.g,
                was.anchor,
                hits,
                0,
                Set::empty(),
            ) ==> {
                let now = fill_of(left, f);
                &&& fill_live(left, f)
                &&& now.payload == was.payload
                &&& now.anchor == was.anchor
                &&& now.loops.len() > 0
                &&& now.loops[0] == was.loops[0]
            }
        }),
{
    let was = fill_of(m, f);
    let p = was.anchor;
    lemma_left_thinned(ar, m, curves, fills);
    lemma_kept_live(ar, m, curves, fills, f);
    law_face_encloses_point(ar, m.g, p);
    if let Ok((left, taken)) = extracted(ar, m, curves, fills) {
        if walks_kept(ar, m.g, left.g, p, raycast(ar, m.g, p), 0, Set::empty()) {
            let outer = was.loops[0];
            law_outer_first(ar, m.g, p);
            assert(loop_live(left.g, outer));
            law_outer_survives(ar, m.g, left.g, p, outer);
            law_outer_first(ar, left.g, p);
            lemma_left_fills(ar, left.g, m.fills, fills, left.fills);
            assert(FillId(f.0 as int as u32) == f);
            assert(left_fills(m.fills, fills)[f.0 as int] == m.fills[f.0 as int]);
            assert(left.fills[f.0 as int] is Some);
        }
    }
}

/// The curve pairs of a copy are exactly its old and new ids.
pub proof fn law_curve_pairs(cmap: Seq<Option<CurveId>>, n: int)
    requires
        0 <= n <= cmap.len() <= u32::MAX,
    ensures
        forall|c: CurveId, d: CurveId| #[trigger]
            curve_pairs(cmap, n).contains((c, d)) <==> c.0 < n && cmap[c.0 as int] == Some(d),
    decreases n,
{
    if n > 0 {
        law_curve_pairs(cmap, n - 1);
        let rest = curve_pairs(cmap, n - 1);
        let all = curve_pairs(cmap, n);
        assert forall|c: CurveId, d: CurveId| #[trigger] all.contains((c, d)) <==> c.0 < n
            && cmap[c.0 as int] == Some(d) by {
            if all.contains((c, d)) {
                let i = choose|i: int| 0 <= i < all.len() && all[i] == (c, d);
                if i < rest.len() {
                    assert(rest[i] == (c, d));
                    assert(rest.contains((c, d)));
                }
            }
            if c.0 < n && cmap[c.0 as int] == Some(d) {
                if c.0 < n - 1 {
                    assert(rest.contains((c, d)));
                    let i = choose|i: int| 0 <= i < rest.len() && rest[i] == (c, d);
                    assert(all[i] == (c, d));
                } else {
                    assert(all[rest.len() as int] == (c, d));
                }
            }
        }
    }
}

/// Taken fills come in the order of their old ids, with the payload and anchor
/// that they had.
pub proof fn law_taken_fills(m: Model, fills: Set<FillId>, cmap: Seq<Option<CurveId>>, n: int)
    requires
        0 <= n <= m.fills.len() <= u32::MAX,
    ensures
        ({
            let taken = taken_fills(m, fills, cmap, n);
            let pairs = fill_pairs(m, fills, 0, n);
            &&& taken.len() == pairs.len() <= n
            &&& forall|j: int|
                #![trigger pairs[j]]
                0 <= j < pairs.len() ==> {
                    &&& pairs[j].1.0 == j
                    &&& pairs[j].0.0 < n
                    &&& fills.contains(pairs[j].0)
                    &&& fill_live(m, pairs[j].0)
                    &&& taken[j] matches Some(f) && f.payload == fill_of(m, pairs[j].0).payload
                        && f.anchor == fill_of(m, pairs[j].0).anchor
                }
        }),
    decreases n,
{
    if n > 0 {
        law_taken_fills(m, fills, cmap, n - 1);
        let old_taken = taken_fills(m, fills, cmap, n - 1);
        let old_pairs = fill_pairs(m, fills, 0, n - 1);
        let taken = taken_fills(m, fills, cmap, n);
        let pairs = fill_pairs(m, fills, 0, n);
        assert forall|j: int| #![trigger pairs[j]] 0 <= j < pairs.len() implies {
            &&& pairs[j].1.0 == j
            &&& pairs[j].0.0 < n
            &&& fills.contains(pairs[j].0)
            &&& fill_live(m, pairs[j].0)
            &&& taken[j] matches Some(f) && f.payload == fill_of(m, pairs[j].0).payload && f.anchor
                == fill_of(m, pairs[j].0).anchor
        } by {
            if j < old_pairs.len() {
                assert(pairs[j] == old_pairs[j]);
                assert(taken[j] == old_taken[j]);
            }
        }
    }
}

/// Merged fills come in the order of their old ids, with the payload that they
/// had and their anchor translated.
pub proof fn law_merged_fills(ar: Arith, other: Model, off: Point, base: int, n: int)
    requires
        0 <= n <= other.fills.len(),
        0 <= base,
        base + other.fills.len() <= u32::MAX,
    ensures
        ({
            let fills = merged_fills(ar, other, off, n);
            let pairs = fill_pairs(other, Set::full(), base, n);
            &&& fills.len() == pairs.len() <= n
            &&& forall|j: int|
                #![trigger pairs[j]]
                0 <= j < pairs.len() ==> {
                    &&& pairs[j].1.0 == base + j
                    &&& pairs[j].0.0 < n
                    &&& fill_live(other, pairs[j].0)
                    &&& fills[j] matches Some(f) && f.payload == fill_of(
                        other,
                        pairs[j].0,
                    ).payload && f.anchor == spec_plus(ar, fill_of(other, pairs[j].0).anchor, off)
                }
        }),
    decreases n,
{
    if n > 0 {
        law_merged_fills(ar, other, off, base, n - 1);
        let old_fills = merged_fills(ar, other, off, n - 1);
        let old_pairs = fill_pairs(other, Set::full(), base, n - 1);
        let fills = merged_fills(ar, other, off, n);
        let pairs = fill_pairs(other, Set::full(), base, n);
        assert(Set::<FillId>::full().contains(FillId((n - 1) as u32)));
        assert forall|j: int| #![trigger pairs[j]] 0 <= j < pairs.len() implies {
            &&& pairs[j].1.0 == base + j
            &&& pairs[j].0.0 < n
            &&& fill_live(other, pairs[j].0)
            &&& fills[j] matches Some(f) && f.payload == fill_of(other, pairs[j].0).payload
                && f.anchor == spec_plus(ar, fill_of(other, pairs[j].0).anchor, off)
        } by {
            if j < old_pairs.len() {
                assert(pairs[j] == old_pairs[j]);
                assert(fills[j] == old_fills[j]);
            }
        }
    }
}

/// The boundary curves of a fill are exactly the curves of its loops, in
/// ascending order.
pub proof fn law_boundary_curves(m: Model, id: FillId)
    requires
        scene_wf(m),
        fill_live(m, id),
    ensures
        ({
            let loops = fill_of(m, id).loops;
            let ids = pick(m.g.curves, bounding(loops), m.g.curves.len() as int);
            &&& forall|c: CurveId| #[trigger] ids.contains(c) <==> bounds(loops, c)
            &&& forall|i: int, j: int|
                0 <= i < j < ids.len() ==> (#[trigger] ids[i]).0 < (#[trigger] ids[j]).0
        }),
{
    let loops = fill_of(m, id).loops;
    let ids = pick(m.g.curves, bounding(loops), m.g.curves.len() as int);
    lemma_pick(m.g.curves, bounding(loops), m.g.curves.len() as int);
    assert forall|c: CurveId| #[trigger] ids.contains(c) <==> bounds(loops, c) by {
        if bounds(loops, c) {
            lemma_bounds_live(m, id, c);
        }
    }
}

} // verus!
