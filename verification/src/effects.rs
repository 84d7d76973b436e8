//! What the edits of a scene do, said of the scene before and the scene after.

use vstd::prelude::*;

use crate::calc::{Arith, Op};
use crate::error::{Fault, FillError};
use crate::face::{face_of, loops_live};
use crate::fill::{bounds, fill_live, fill_of, in_fill, law_refilled, loop_polys, Fill};
use crate::geom::Cubic;
use crate::graft::{lemma_grafted, lemma_grafted_wf};
use crate::graph::{
    any_curve, curve_ids_of, curve_live, curve_of, graph_wf, incident_to, law_swept, points_of,
    polyline_of, swept, vertex_live, vertex_used, vpos_of, CurveId, FillId, Graph, VertexId,
};
use crate::integrate::run_room;
use crate::laws::{law_drawn, law_merged_fills, law_replanarized, law_taken_fills};
use crate::lineage::{law_integrated_lineage, law_pieces, succeeds};
use crate::pipeline::integrated;
use crate::point::Point;
use crate::scene::{
    committed, drawn, edit_room, erased, lemma_moved_wf, lemma_new_curve_wf, lemma_without_wf,
    new_curve_id, not_bounded_by, replanarized, scene_wf, vertex_moved, with_new_curve,
    with_vertex_at, without, Model,
};
use crate::subgraph::{
    curve_pairs, bare, carried_loop, extracted, fill_pairs, in_set, inside_of, left_fills,
    left_graph, lemma_left_wf, lemma_merged_fills, lemma_picked, merge_graft, merge_room,
    merged_fills, merged_scene, new_ids, taken_fills, taken_graft, taken_ids, walls_of,
};
use crate::walk::{he_poly_of, loop_live, loop_poly, loop_poly_below, HalfEdge};

verus! {

// ---- restoring the rules ----

/// Whatever is still there after the rules have been restored is as it was: a
/// vertex that is still live is in its place, and a curve that is still live has
/// its inner control points and its tag. Nothing dead comes back, and the
/// distances stay.
pub open spec fn undisturbed(g1: Graph, g2: Graph) -> bool {
    &&& g2.snap == g1.snap
    &&& g2.tol == g1.tol
    &&& g1.curves.len() <= g2.curves.len()
    &&& g1.verts.len() <= g2.verts.len()
    &&& forall|v: VertexId|
        #![trigger g2.verts[v.0 as int]]
        v.0 < g1.verts.len() && g2.verts[v.0 as int] is Some ==> g1.verts[v.0 as int]
            == g2.verts[v.0 as int]
    &&& forall|c: CurveId|
        #![trigger g2.curves[c.0 as int]]
        c.0 < g1.curves.len() && g2.curves[c.0 as int] is Some ==> {
            &&& g1.curves[c.0 as int] is Some
            &&& (g2.curves[c.0 as int]->0).c0 == (g1.curves[c.0 as int]->0).c0
            &&& (g2.curves[c.0 as int]->0).c1 == (g1.curves[c.0 as int]->0).c1
            &&& (g2.curves[c.0 as int]->0).tag == (g1.curves[c.0 as int]->0).tag
        }
}

/// Restoring the rules leaves in place what it leaves.
pub proof fn law_rules_leave_in_place(
    ar: Arith,
    g: Graph,
    dirty: Seq<CurveId>,
    fills: Seq<Option<Fill>>,
)
    requires
        graph_wf(g),
        run_room(g),
    ensures
        replanarized(ar, g, dirty, fills) matches Ok(m) ==> undisturbed(g, m.g),
{
    law_integrated_lineage(ar, g, dirty);
    let w = integrated(ar, g, dirty).w;
    law_swept(w.g);
    if let Ok(m) = replanarized(ar, g, dirty, fills) {
        assert(succeeds(g, w.g));
        assert forall|v: VertexId|
            #![trigger m.g.verts[v.0 as int]]
            v.0 < g.verts.len() && m.g.verts[v.0 as int] is Some implies g.verts[v.0 as int]
            == m.g.verts[v.0 as int] by {
            assert(vertex_live(m.g, v));
            assert(m.g.verts[v.0 as int] == w.g.verts[v.0 as int]);
            assert(vertex_live(w.g, v));
            assert(vpos_of(g, v) == vpos_of(w.g, v));
        }
        assert forall|c: CurveId|
            #![trigger m.g.curves[c.0 as int]]
            c.0 < g.curves.len() && m.g.curves[c.0 as int] is Some implies {
            &&& g.curves[c.0 as int] is Some
            &&& (m.g.curves[c.0 as int]->0).c0 == (g.curves[c.0 as int]->0).c0
            &&& (m.g.curves[c.0 as int]->0).c1 == (g.curves[c.0 as int]->0).c1
            &&& (m.g.curves[c.0 as int]->0).tag == (g.curves[c.0 as int]->0).tag
        } by {
            assert(curve_live(m.g, c));
            assert(curve_live(w.g, c));
        }
    }
}

// ---- adding a curve ----

/// Adding a curve disturbs nothing that stays, and the new curve is the one that
/// was asked for: if it is still whole it has the given inner control points and
/// tag, and the two vertices made for it, if they are still there, are in the
/// places of its ends.
pub proof fn law_drawn_as_given(
    ar: Arith,
    g: Graph,
    fills: Seq<Option<Fill>>,
    p: Cubic,
    tag: u64,
)
    requires
        graph_wf(g),
        edit_room(Model { g, fills }),
    ensures
        drawn(ar, g, fills, p, tag) matches Ok((m, pieces)) ==> {
            let (n, k) = (g.curves.len() as int, g.verts.len() as int);
            &&& undisturbed(g, m.g)
            &&& m.g.curves.len() > n
            &&& m.g.verts.len() > k + 1
            &&& m.g.curves[n] matches Some(c) ==> c.c0 == p.p1 && c.c1 == p.p2 && c.tag == tag
            &&& m.g.verts[k] matches Some(v) ==> v == p.p0
            &&& m.g.verts[k + 1] matches Some(v) ==> v == p.p3
            &&& m.g.curves[n] is Some ==> pieces.contains(CurveId(n as u32))
        },
{
    let g1 = with_new_curve(g, p, tag);
    let id = new_curve_id(g);
    lemma_new_curve_wf(g, p, tag);
    law_rules_leave_in_place(ar, g1, seq![id], fills);
    law_integrated_lineage(ar, g1, seq![id]);
    law_pieces(ar, g1, seq![id], id);
    if let Ok((m, pieces)) = drawn(ar, g, fills, p, tag) {
        let w = integrated(ar, g1, seq![id]).w;
        law_swept(w.g);
        let (n, k) = (g.curves.len() as int, g.verts.len() as int);
        assert(m.g.curves[CurveId(n as u32).0 as int] == m.g.curves[n]);
        assert(m.g.verts[VertexId(k as u32).0 as int] == m.g.verts[k]);
        assert(m.g.verts[VertexId((k + 1) as u32).0 as int] == m.g.verts[k + 1]);
        assert forall|v: VertexId|
            #![trigger m.g.verts[v.0 as int]]
            v.0 < g.verts.len() && m.g.verts[v.0 as int] is Some implies g.verts[v.0 as int]
            == m.g.verts[v.0 as int] by {
            assert(g1.verts[v.0 as int] == g.verts[v.0 as int]);
        }
        assert forall|c: CurveId|
            #![trigger m.g.curves[c.0 as int]]
            c.0 < g.curves.len() && m.g.curves[c.0 as int] is Some implies {
            &&& g.curves[c.0 as int] is Some
            &&& (m.g.curves[c.0 as int]->0).c0 == (g.curves[c.0 as int]->0).c0
            &&& (m.g.curves[c.0 as int]->0).c1 == (g.curves[c.0 as int]->0).c1
            &&& (m.g.curves[c.0 as int]->0).tag == (g.curves[c.0 as int]->0).tag
        } by {
            assert(g1.curves[c.0 as int] == g.curves[c.0 as int]);
        }
        if m.g.curves[n] is Some {
            assert(curve_live(m.g, id));
            assert(curve_live(w.g, id));
            assert(w.root[id.0 as int] == id);
        }
    }
}

// ---- moving a vertex ----

/// Moving a vertex puts it where it was asked to go: if it is still live it is at
/// exactly that point. Every other vertex that is still live is in its place, and
/// every curve that is still live has its inner control points and tag.
pub proof fn law_vertex_moved_there(ar: Arith, m: Model, v: VertexId, to: Point)
    requires
        scene_wf(m),
        edit_room(m),
        vertex_live(m.g, v),
    ensures
        vertex_moved(ar, m, v, to) matches Ok(m2) ==> {
            &&& m2.g.snap == m.g.snap
            &&& m2.g.tol == m.g.tol
            &&& m.g.verts.len() <= m2.g.verts.len()
            &&& m.g.curves.len() <= m2.g.curves.len()
            &&& m2.g.verts[v.0 as int] matches Some(p) ==> p == to
            &&& forall|u: VertexId|
                #![trigger m2.g.verts[u.0 as int]]
                u != v && u.0 < m.g.verts.len() && m2.g.verts[u.0 as int] is Some
                    ==> m2.g.verts[u.0 as int] == m.g.verts[u.0 as int]
            &&& forall|c: CurveId|
                #![trigger m2.g.curves[c.0 as int]]
                c.0 < m.g.curves.len() && m2.g.curves[c.0 as int] is Some ==> {
                    &&& m.g.curves[c.0 as int] is Some
                    &&& (m2.g.curves[c.0 as int]->0).c0 == (m.g.curves[c.0 as int]->0).c0
                    &&& (m2.g.curves[c.0 as int]->0).c1 == (m.g.curves[c.0 as int]->0).c1
                    &&& (m2.g.curves[c.0 as int]->0).tag == (m.g.curves[c.0 as int]->0).tag
                }
        },
{
    let g1 = with_vertex_at(m.g, v, to);
    lemma_moved_wf(m.g, v, to);
    law_rules_leave_in_place(ar, g1, incident_to(g1, v), m.fills);
    if let Ok(m2) = vertex_moved(ar, m, v, to) {
        assert(undisturbed(g1, m2.g));
        assert(g1.curves == m.g.curves);
        assert forall|u: VertexId|
            #![trigger m2.g.verts[u.0 as int]]
            u != v && u.0 < m.g.verts.len() && m2.g.verts[u.0 as int]
            is Some implies m2.g.verts[u.0 as int] == m.g.verts[u.0 as int] by {
            assert(g1.verts[u.0 as int] == m.g.verts[u.0 as int]);
        }
        assert(m2.g.verts[v.0 as int] is Some ==> g1.verts[v.0 as int] == m2.g.verts[v.0 as int]);
    }
}

// ---- merging ----

/// `q` is `p` moved by `off`, coordinate by coordinate.
pub open spec fn moved_by(ar: Arith, p: Point, off: Point, q: Point) -> bool {
    q.x == ar(Op::Add, p.x, off.x) && q.y == ar(Op::Add, p.y, off.y)
}

/// Before the rules are run, a merge has put in a copy of every live curve of the
/// other scene, under an id of its own: each control point is the curve's plus the
/// offset, and the tag is the curve's. Two copies share a vertex just where the
/// curves do. What was there is untouched.
pub proof fn law_merge_translates(ar: Arith, m: Model, other: Model, off: Point)
    requires
        scene_wf(m),
        scene_wf(other),
        merge_room(m, other),
    ensures
        ({
            let s = merge_graft(ar, m.g, other.g, off);
            &&& s.g.snap == m.g.snap
            &&& s.g.tol == m.g.tol
            &&& m.g.verts.len() <= s.g.verts.len()
            &&& forall|v: int| 0 <= v < m.g.verts.len() ==> #[trigger] s.g.verts[v] == m.g.verts[v]
            &&& m.g.curves.len() <= s.g.curves.len()
            &&& forall|i: int|
                0 <= i < m.g.curves.len() ==> #[trigger] s.g.curves[i] == m.g.curves[i]
            &&& forall|c: CurveId|
                #![trigger other.g.curves[c.0 as int]]
                c.0 < other.g.curves.len() && other.g.curves[c.0 as int] is Some ==> {
                    let old = other.g.curves[c.0 as int]->0;
                    let n = s.cmap[c.0 as int]->0;
                    let new = s.g.curves[n.0 as int]->0;
                    &&& s.cmap[c.0 as int] is Some
                    &&& m.g.curves.len() <= n.0 < s.g.curves.len()
                    &&& s.g.curves[n.0 as int] is Some
                    &&& new.tag == old.tag
                    &&& moved_by(ar, old.c0, off, new.c0)
                    &&& moved_by(ar, old.c1, off, new.c1)
                    &&& m.g.verts.len() <= new.v0.0 < s.g.verts.len()
                    &&& m.g.verts.len() <= new.v1.0 < s.g.verts.len()
                    &&& s.g.verts[new.v0.0 as int] is Some
                    &&& s.g.verts[new.v1.0 as int] is Some
                    &&& moved_by(
                        ar,
                        other.g.verts[old.v0.0 as int]->0,
                        off,
                        s.g.verts[new.v0.0 as int]->0,
                    )
                    &&& moved_by(
                        ar,
                        other.g.verts[old.v1.0 as int]->0,
                        off,
                        s.g.verts[new.v1.0 as int]->0,
                    )
                }
            &&& forall|c: CurveId, d: CurveId|
                #![trigger other.g.curves[c.0 as int], other.g.curves[d.0 as int]]
                curve_live(other.g, c) && curve_live(other.g, d) ==> {
                    let (a, b) = (other.g.curves[c.0 as int]->0, other.g.curves[d.0 as int]->0);
                    let x = s.g.curves[(s.cmap[c.0 as int]->0).0 as int]->0;
                    let y = s.g.curves[(s.cmap[d.0 as int]->0).0 as int]->0;
                    &&& (x.v0 == y.v0 <==> a.v0 == b.v0)
                    &&& (x.v0 == y.v1 <==> a.v0 == b.v1)
                    &&& (x.v1 == y.v1 <==> a.v1 == b.v1)
                    &&& (s.cmap[c.0 as int] == s.cmap[d.0 as int] <==> c == d)
                }
        }),
{
    let ids = curve_ids_of(other.g);
    let s = merge_graft(ar, m.g, other.g, off);
    lemma_picked(other.g, any_curve());
    lemma_grafted(ar, other.g, Some(off), m.g, ids, ids.len() as int);
    assert forall|c: CurveId|
        #![trigger other.g.curves[c.0 as int]]
        c.0 < other.g.curves.len() && other.g.curves[c.0 as int] is Some implies exists|j: int|
        0 <= j < ids.len() && ids[j] == c by {
        assert(curve_live(other.g, c));
        assert(ids.contains(c));
    }
    assert forall|c: CurveId|
        #![trigger other.g.curves[c.0 as int]]
        c.0 < other.g.curves.len() && other.g.curves[c.0 as int] is Some implies {
        let old = other.g.curves[c.0 as int]->0;
        let n = s.cmap[c.0 as int]->0;
        let new = s.g.curves[n.0 as int]->0;
        &&& s.cmap[c.0 as int] is Some
        &&& m.g.curves.len() <= n.0 < s.g.curves.len()
        &&& s.g.curves[n.0 as int] is Some
        &&& new.tag == old.tag
        &&& moved_by(ar, old.c0, off, new.c0)
        &&& moved_by(ar, old.c1, off, new.c1)
        &&& m.g.verts.len() <= new.v0.0 < s.g.verts.len()
        &&& m.g.verts.len() <= new.v1.0 < s.g.verts.len()
        &&& s.g.verts[new.v0.0 as int] is Some
        &&& s.g.verts[new.v1.0 as int] is Some
        &&& moved_by(
            ar,
            other.g.verts[old.v0.0 as int]->0,
            off,
            s.g.verts[new.v0.0 as int]->0,
        )
        &&& moved_by(
            ar,
            other.g.verts[old.v1.0 as int]->0,
            off,
            s.g.verts[new.v1.0 as int]->0,
        )
    } by {
        let j = choose|j: int| 0 <= j < ids.len() && ids[j] == c;
        let old = curve_of(other.g, c);
        assert(vertex_live(other.g, old.v0) && vertex_live(other.g, old.v1));
        assert(s.vmap[old.v0.0 as int] is Some && s.vmap[old.v1.0 as int] is Some);
    }
    assert forall|c: CurveId, d: CurveId|
        #![trigger other.g.curves[c.0 as int], other.g.curves[d.0 as int]]
        curve_live(other.g, c) && curve_live(other.g, d) implies {
        let (a, b) = (other.g.curves[c.0 as int]->0, other.g.curves[d.0 as int]->0);
        let x = s.g.curves[(s.cmap[c.0 as int]->0).0 as int]->0;
        let y = s.g.curves[(s.cmap[d.0 as int]->0).0 as int]->0;
        &&& (x.v0 == y.v0 <==> a.v0 == b.v0)
        &&& (x.v0 == y.v1 <==> a.v0 == b.v1)
        &&& (x.v1 == y.v1 <==> a.v1 == b.v1)
        &&& (s.cmap[c.0 as int] == s.cmap[d.0 as int] <==> c == d)
    } by {
        let i = choose|i: int| 0 <= i < ids.len() && ids[i] == c;
        let j = choose|j: int| 0 <= j < ids.len() && ids[j] == d;
        let (a, b) = (curve_of(other.g, c), curve_of(other.g, d));
        assert(vertex_live(other.g, a.v0) && vertex_live(other.g, a.v1));
        assert(vertex_live(other.g, b.v0) && vertex_live(other.g, b.v1));
        assert(s.vmap[a.v0.0 as int] is Some && s.vmap[a.v1.0 as int] is Some);
        assert(s.vmap[b.v0.0 as int] is Some && s.vmap[b.v1.0 as int] is Some);
    }
}

/// After a merge a copy that is still whole has the curve's control points plus
/// the offset, and a vertex made for a copy, if it is still there, is that of the
/// curve plus the offset. What this scene had, as far as it stays, is undisturbed.
pub proof fn law_merged_translated(ar: Arith, m: Model, other: Model, off: Point, c: CurveId)
    requires
        scene_wf(m),
        scene_wf(other),
        merge_room(m, other),
        curve_live(other.g, c),
    ensures
        merged_scene(ar, m, other, off) matches Ok(m2) ==> {
            let s = merge_graft(ar, m.g, other.g, off);
            let n = s.cmap[c.0 as int]->0;
            let old = other.g.curves[c.0 as int]->0;
            let start = (s.g.curves[n.0 as int]->0).v0;
            let end = (s.g.curves[n.0 as int]->0).v1;
            &&& undisturbed(m.g, m2.g)
            &&& n.0 < m2.g.curves.len()
            &&& m2.g.curves[n.0 as int] matches Some(d) ==> {
                &&& d.tag == old.tag
                &&& moved_by(ar, old.c0, off, d.c0)
                &&& moved_by(ar, old.c1, off, d.c1)
            }
            &&& m2.g.verts[start.0 as int] matches Some(q) ==> moved_by(
                ar,
                other.g.verts[old.v0.0 as int]->0,
                off,
                q,
            )
            &&& m2.g.verts[end.0 as int] matches Some(q) ==> moved_by(
                ar,
                other.g.verts[old.v1.0 as int]->0,
                off,
                q,
            )
        },
{
    let ids = curve_ids_of(other.g);
    let s = merge_graft(ar, m.g, other.g, off);
    let dirty = new_ids(m.g, ids.len());
    let fills = m.fills + merged_fills(ar, other, off, other.fills.len() as int);
    law_merge_translates(ar, m, other, off);
    lemma_picked(other.g, any_curve());
    lemma_grafted(ar, other.g, Some(off), m.g, ids, ids.len() as int);
    lemma_grafted_wf(ar, other.g, Some(off), m.g, ids);
    law_rules_leave_in_place(ar, s.g, dirty, fills);
    if let Ok(m2) = merged_scene(ar, m, other, off) {
        assert(other.g.curves[c.0 as int] is Some);
        let n = s.cmap[c.0 as int]->0;
        let start = (s.g.curves[n.0 as int]->0).v0;
        let end = (s.g.curves[n.0 as int]->0).v1;
        assert(undisturbed(s.g, m2.g));
        assert(m2.g.verts[start.0 as int] is Some ==> s.g.verts[start.0 as int]
            == m2.g.verts[start.0 as int]);
        assert(m2.g.verts[end.0 as int] is Some ==> s.g.verts[end.0 as int]
            == m2.g.verts[end.0 as int]);
        assert forall|v: VertexId|
            #![trigger m2.g.verts[v.0 as int]]
            v.0 < m.g.verts.len() && m2.g.verts[v.0 as int] is Some implies m.g.verts[v.0 as int]
            == m2.g.verts[v.0 as int] by {
            assert(s.g.verts[v.0 as int] == m.g.verts[v.0 as int]);
        }
        assert forall|i: CurveId|
            #![trigger m2.g.curves[i.0 as int]]
            i.0 < m.g.curves.len() && m2.g.curves[i.0 as int] is Some implies {
            &&& m.g.curves[i.0 as int] is Some
            &&& (m2.g.curves[i.0 as int]->0).c0 == (m.g.curves[i.0 as int]->0).c0
            &&& (m2.g.curves[i.0 as int]->0).c1 == (m.g.curves[i.0 as int]->0).c1
            &&& (m2.g.curves[i.0 as int]->0).tag == (m.g.curves[i.0 as int]->0).tag
        } by {
            assert(s.g.curves[i.0 as int] == m.g.curves[i.0 as int]);
        }
    }
}

/// After a merge the fills of this scene come first, under their ids, and then
/// those of the other, each under the id that is told for it: a fill that is live
/// has the payload of the one it was and its anchor, plus the offset where it is of
/// the other scene. No fill comes from nowhere.
pub proof fn law_merged_fills_translated(ar: Arith, m: Model, other: Model, off: Point)
    requires
        scene_wf(m),
        scene_wf(other),
        merge_room(m, other),
    ensures
        merged_scene(ar, m, other, off) matches Ok(m2) ==> {
            let base = m.fills.len() as int;
            let pairs = fill_pairs(other, Set::full(), base, other.fills.len() as int);
            &&& m2.fills.len() == base + pairs.len()
            &&& forall|i: int|
                #![trigger m2.fills[i]]
                0 <= i < base && m2.fills[i] is Some ==> {
                    &&& m.fills[i] is Some
                    &&& (m2.fills[i]->0).payload == (m.fills[i]->0).payload
                    &&& (m2.fills[i]->0).anchor == (m.fills[i]->0).anchor
                }
            &&& forall|j: int|
                #![trigger pairs[j]]
                0 <= j < pairs.len() ==> {
                    let old = pairs[j].0.0 as int;
                    let new = base + j;
                    &&& pairs[j].1.0 == new
                    &&& old < other.fills.len()
                    &&& other.fills[old] is Some
                    &&& m2.fills[new] matches Some(f) ==> {
                        &&& f.payload == (other.fills[old]->0).payload
                        &&& moved_by(ar, (other.fills[old]->0).anchor, off, f.anchor)
                    }
                }
            &&& forall|i: int|
                #![trigger other.fills[i]]
                0 <= i < other.fills.len() && other.fills[i] is Some ==> exists|j: int|
                    0 <= j < pairs.len() && (#[trigger] pairs[j]).0.0 == i
        },
{
    let base = m.fills.len() as int;
    let k = other.fills.len() as int;
    let ids = curve_ids_of(other.g);
    let s = merge_graft(ar, m.g, other.g, off);
    let dirty = new_ids(m.g, ids.len());
    let extra = merged_fills(ar, other, off, k);
    let fills = m.fills + extra;
    lemma_picked(other.g, any_curve());
    lemma_grafted(ar, other.g, Some(off), m.g, ids, ids.len() as int);
    lemma_grafted_wf(ar, other.g, Some(off), m.g, ids);
    lemma_merged_fills(ar, other, off, k);
    law_replanarized(ar, s.g, dirty, fills);
    law_merged_fills(ar, other, off, base, k);
    lemma_all_paired(other, Set::full(), base, k);
    if let Ok(m2) = merged_scene(ar, m, other, off) {
        let pairs = fill_pairs(other, Set::full(), base, k);
        assert forall|i: int| #![trigger m2.fills[i]] 0 <= i < base && m2.fills[i] is Some implies {
            &&& m.fills[i] is Some
            &&& (m2.fills[i]->0).payload == (m.fills[i]->0).payload
            &&& (m2.fills[i]->0).anchor == (m.fills[i]->0).anchor
        } by {
            assert(fills[i] == m.fills[i]);
        }
        assert forall|j: int| #![trigger pairs[j]] 0 <= j < pairs.len() implies {
            let old = pairs[j].0.0 as int;
            let new = base + j;
            &&& pairs[j].1.0 == new
            &&& old < other.fills.len()
            &&& other.fills[old] is Some
            &&& m2.fills[new] matches Some(f) ==> {
                &&& f.payload == (other.fills[old]->0).payload
                &&& moved_by(ar, (other.fills[old]->0).anchor, off, f.anchor)
            }
        } by {
            assert(fill_live(other, pairs[j].0));
            assert(fills[base + j] == extra[j]);
        }
        assert forall|i: int|
            #![trigger other.fills[i]]
            0 <= i < other.fills.len() && other.fills[i] is Some implies exists|j: int|
            0 <= j < pairs.len() && (#[trigger] pairs[j]).0.0 == i by {
            assert(Set::<FillId>::full().contains(FillId(i as u32)));
        }
    }
}

/// Every chosen live fill has a pair.
proof fn lemma_all_paired(m: Model, fills: Set<FillId>, base: int, n: int)
    requires
        0 <= n <= m.fills.len() <= u32::MAX,
    ensures
        forall|i: int|
            #![trigger m.fills[i]]
            0 <= i < n && m.fills[i] is Some && fills.contains(FillId(i as u32)) ==> exists|j: int|
                0 <= j < fill_pairs(m, fills, base, n).len() && (#[trigger] fill_pairs(
                    m,
                    fills,
                    base,
                    n,
                )[j]).0.0 == i,
    decreases n,
{
    if n > 0 {
        lemma_all_paired(m, fills, base, n - 1);
        let rest = fill_pairs(m, fills, base, n - 1);
        let all = fill_pairs(m, fills, base, n);
        assert forall|i: int|
            #![trigger m.fills[i]]
            0 <= i < n && m.fills[i] is Some && fills.contains(FillId(i as u32)) implies exists|
            j: int,
        | 0 <= j < all.len() && (#[trigger] all[j]).0.0 == i by {
            if i < n - 1 {
                let j = choose|j: int| 0 <= j < rest.len() && (#[trigger] rest[j]).0.0 == i;
                assert(all[j] == rest[j]);
            } else {
                assert(all[rest.len() as int].0.0 == i);
            }
        }
    }
}

/// The ids told for a copy come in ascending order of the old ones, each once.
pub proof fn law_pairs_ascend(
    cmap: Seq<Option<CurveId>>,
    m: Model,
    fills: Set<FillId>,
    base: int,
    n: int,
    k: int,
)
    requires
        n <= cmap.len() <= u32::MAX,
        k <= m.fills.len() <= u32::MAX,
    ensures
        forall|i: int, j: int|
            0 <= i < j < curve_pairs(cmap, n).len() ==> (#[trigger] curve_pairs(cmap, n)[i]).0.0 < (
            #[trigger] curve_pairs(cmap, n)[j]).0.0,
        forall|i: int, j: int|
            0 <= i < j < fill_pairs(m, fills, base, k).len() ==> (#[trigger] fill_pairs(
                m,
                fills,
                base,
                k,
            )[i]).0.0 < (#[trigger] fill_pairs(m, fills, base, k)[j]).0.0,
{
    lemma_curve_pairs_ascend(cmap, n);
    lemma_fill_pairs_ascend(m, fills, base, k);
}

proof fn lemma_curve_pairs_ascend(cmap: Seq<Option<CurveId>>, n: int)
    requires
        n <= cmap.len() <= u32::MAX,
    ensures
        forall|i: int|
            0 <= i < curve_pairs(cmap, n).len() ==> (#[trigger] curve_pairs(cmap, n)[i]).0.0 < n,
        forall|i: int, j: int|
            0 <= i < j < curve_pairs(cmap, n).len() ==> (#[trigger] curve_pairs(cmap, n)[i]).0.0 < (
            #[trigger] curve_pairs(cmap, n)[j]).0.0,
    decreases n,
{
    if n > 0 {
        lemma_curve_pairs_ascend(cmap, n - 1);
        let before = curve_pairs(cmap, n - 1);
        let all = curve_pairs(cmap, n);
        assert forall|i: int| 0 <= i < all.len() implies (#[trigger] all[i]).0.0 < n by {
            if i < before.len() {
                assert(all[i] == before[i]);
            }
        }
        assert forall|i: int, j: int| 0 <= i < j < all.len() implies (#[trigger] all[i]).0.0 < (
        #[trigger] all[j]).0.0 by {
            assert(all[i] == before[i]);
            if j < before.len() {
                assert(all[j] == before[j]);
            }
        }
    }
}

proof fn lemma_fill_pairs_ascend(m: Model, fills: Set<FillId>, base: int, n: int)
    requires
        n <= m.fills.len() <= u32::MAX,
    ensures
        forall|i: int|
            0 <= i < fill_pairs(m, fills, base, n).len() ==> (#[trigger] fill_pairs(
                m,
                fills,
                base,
                n,
            )[i]).0.0 < n,
        forall|i: int, j: int|
            0 <= i < j < fill_pairs(m, fills, base, n).len() ==> (#[trigger] fill_pairs(
                m,
                fills,
                base,
                n,
            )[i]).0.0 < (#[trigger] fill_pairs(m, fills, base, n)[j]).0.0,
    decreases n,
{
    if n > 0 {
        lemma_fill_pairs_ascend(m, fills, base, n - 1);
        let before = fill_pairs(m, fills, base, n - 1);
        let all = fill_pairs(m, fills, base, n);
        assert forall|i: int| 0 <= i < all.len() implies (#[trigger] all[i]).0.0 < n by {
            if i < before.len() {
                assert(all[i] == before[i]);
            }
        }
        assert forall|i: int, j: int| 0 <= i < j < all.len() implies (#[trigger] all[i]).0.0 < (
        #[trigger] all[j]).0.0 by {
            assert(all[i] == before[i]);
            if j < before.len() {
                assert(all[j] == before[j]);
            }
        }
    }
}

// ---- extracting ----

/// The curve is chosen, or part of the boundary of a chosen fill.
pub open spec fn asked_for(m: Model, curves: Set<CurveId>, fills: Set<FillId>, c: CurveId) -> bool {
    curves.contains(c) || exists|f: FillId, i: int, j: int|
        #![trigger fill_of(m, f).loops[i][j]]
        fills.contains(f) && fill_live(m, f) && 0 <= i < fill_of(m, f).loops.len() && 0 <= j
            < fill_of(m, f).loops[i].len() && fill_of(m, f).loops[i][j].0 == c
}

proof fn lemma_asked_for(m: Model, curves: Set<CurveId>, fills: Set<FillId>, c: CurveId)
    ensures
        inside_of(m, curves, fills).contains(c) <==> asked_for(m, curves, fills, c),
{
    if inside_of(m, curves, fills).contains(c) && !curves.contains(c) {
        let f = choose|f: FillId| #[trigger]
            fills.contains(f) && fill_live(m, f) && bounds(fill_of(m, f).loops, c);
        let loops = fill_of(m, f).loops;
        let (i, j) = choose|i: int, j: int|
            0 <= i < loops.len() && 0 <= j < loops[i].len() && (#[trigger] loops[i][j]).0 == c;
        assert(fill_of(m, f).loops[i][j].0 == c);
    }
    if asked_for(m, curves, fills, c) && !curves.contains(c) {
        let (f, i, j) = choose|f: FillId, i: int, j: int|
            #![trigger fill_of(m, f).loops[i][j]]
            fills.contains(f) && fill_live(m, f) && 0 <= i < fill_of(m, f).loops.len() && 0 <= j
                < fill_of(m, f).loops[i].len() && fill_of(m, f).loops[i][j].0 == c;
        let loops = fill_of(m, f).loops;
        assert(loops[i][j].0 == c);
        assert(bounds(loops, c));
    }
}

/// An extraction takes the chosen live curves and the boundaries of the chosen
/// fills, and no others: each has a copy of its own in the new scene, with the
/// same control points and tag, and two copies share a vertex just where the
/// curves do. The new scene holds no other curves, and has the same distances.
pub proof fn law_extracted_curves(ar: Arith, m: Model, curves: Set<CurveId>, fills: Set<FillId>)
    requires
        scene_wf(m),
    ensures
        extracted(ar, m, curves, fills) matches Ok((_, taken)) ==> {
            let cmap = taken_graft(ar, m, inside_of(m, curves, fills)).cmap;
            &&& taken.g.snap == m.g.snap
            &&& taken.g.tol == m.g.tol
            &&& cmap.len() == m.g.curves.len()
            &&& forall|c: CurveId|
                #![trigger cmap[c.0 as int]]
                c.0 < cmap.len() ==> (cmap[c.0 as int] is Some <==> curve_live(m.g, c)
                    && asked_for(m, curves, fills, c))
            &&& forall|c: CurveId|
                #![trigger cmap[c.0 as int]]
                c.0 < cmap.len() && cmap[c.0 as int] is Some ==> {
                    let old = m.g.curves[c.0 as int]->0;
                    let n = cmap[c.0 as int]->0;
                    let new = taken.g.curves[n.0 as int]->0;
                    &&& n.0 < taken.g.curves.len()
                    &&& taken.g.curves[n.0 as int] is Some
                    &&& new.c0 == old.c0
                    &&& new.c1 == old.c1
                    &&& new.tag == old.tag
                    &&& new.v0.0 < taken.g.verts.len()
                    &&& new.v1.0 < taken.g.verts.len()
                    &&& taken.g.verts[new.v0.0 as int] == Some(m.g.verts[old.v0.0 as int]->0)
                    &&& taken.g.verts[new.v1.0 as int] == Some(m.g.verts[old.v1.0 as int]->0)
                }
            &&& forall|c: CurveId, d: CurveId|
                #![trigger cmap[c.0 as int], cmap[d.0 as int]]
                c.0 < cmap.len() && d.0 < cmap.len() && cmap[c.0 as int] is Some
                    && cmap[d.0 as int] is Some ==> {
                    let (a, b) = (m.g.curves[c.0 as int]->0, m.g.curves[d.0 as int]->0);
                    let x = taken.g.curves[(cmap[c.0 as int]->0).0 as int]->0;
                    let y = taken.g.curves[(cmap[d.0 as int]->0).0 as int]->0;
                    &&& (x.v0 == y.v0 <==> a.v0 == b.v0)
                    &&& (x.v0 == y.v1 <==> a.v0 == b.v1)
                    &&& (x.v1 == y.v1 <==> a.v1 == b.v1)
                    &&& (cmap[c.0 as int] == cmap[d.0 as int] <==> c == d)
                }
            &&& forall|n: CurveId|
                #![trigger taken.g.curves[n.0 as int]]
                n.0 < taken.g.curves.len() && taken.g.curves[n.0 as int] is Some ==> exists|
                    c: CurveId,
                |
                    c.0 < cmap.len() && #[trigger] cmap[c.0 as int] == Some(n)
        },
{
    let inside = inside_of(m, curves, fills);
    let s = taken_graft(ar, m, inside);
    let ids = taken_ids(m, inside);
    lemma_picked(m.g, in_set(inside));
    lemma_grafted(ar, m.g, None, bare(m.g), ids, ids.len() as int);
    if let Ok((left, taken)) = extracted(ar, m, curves, fills) {
        let cmap = s.cmap;
        assert forall|c: CurveId| #![trigger cmap[c.0 as int]] c.0 < cmap.len() implies (
        cmap[c.0 as int] is Some <==> curve_live(m.g, c) && asked_for(m, curves, fills, c)) by {
            lemma_asked_for(m, curves, fills, c);
            if cmap[c.0 as int] is Some {
                let j = choose|j: int|
                    0 <= j < ids.len() && #[trigger] ids[j] == CurveId(c.0 as int as u32);
                assert(ids[j] == c);
                assert(ids.contains(c));
            }
            if curve_live(m.g, c) && inside.contains(c) {
                assert(ids.contains(c));
                let j = choose|j: int| 0 <= j < ids.len() && ids[j] == c;
                assert(ids[j] == c);
            }
        }
        assert forall|c: CurveId|
            #![trigger cmap[c.0 as int]]
            c.0 < cmap.len() && cmap[c.0 as int] is Some implies exists|j: int|
            0 <= j < ids.len() && #[trigger] ids[j] == c by {
            let j = choose|j: int|
                0 <= j < ids.len() && #[trigger] ids[j] == CurveId(c.0 as int as u32);
            assert(ids[j] == c);
        }
        assert forall|c: CurveId|
            #![trigger cmap[c.0 as int]]
            c.0 < cmap.len() && cmap[c.0 as int] is Some implies {
            let old = m.g.curves[c.0 as int]->0;
            let n = cmap[c.0 as int]->0;
            let new = taken.g.curves[n.0 as int]->0;
            &&& n.0 < taken.g.curves.len()
            &&& taken.g.curves[n.0 as int] is Some
            &&& new.c0 == old.c0
            &&& new.c1 == old.c1
            &&& new.tag == old.tag
            &&& new.v0.0 < taken.g.verts.len()
            &&& new.v1.0 < taken.g.verts.len()
            &&& taken.g.verts[new.v0.0 as int] == Some(m.g.verts[old.v0.0 as int]->0)
            &&& taken.g.verts[new.v1.0 as int] == Some(m.g.verts[old.v1.0 as int]->0)
        } by {
            let j = choose|j: int| 0 <= j < ids.len() && #[trigger] ids[j] == c;
            assert(curve_live(m.g, ids[j]));
            assert(m.g.curves[c.0 as int] is Some);
            let old = curve_of(m.g, c);
            assert(s.vmap[old.v0.0 as int] is Some && s.vmap[old.v1.0 as int] is Some);
        }
        assert forall|c: CurveId, d: CurveId|
            #![trigger cmap[c.0 as int], cmap[d.0 as int]]
            c.0 < cmap.len() && d.0 < cmap.len() && cmap[c.0 as int] is Some && cmap[d.0 as int]
                is Some implies {
            let (a, b) = (m.g.curves[c.0 as int]->0, m.g.curves[d.0 as int]->0);
            let x = taken.g.curves[(cmap[c.0 as int]->0).0 as int]->0;
            let y = taken.g.curves[(cmap[d.0 as int]->0).0 as int]->0;
            &&& (x.v0 == y.v0 <==> a.v0 == b.v0)
            &&& (x.v0 == y.v1 <==> a.v0 == b.v1)
            &&& (x.v1 == y.v1 <==> a.v1 == b.v1)
            &&& (cmap[c.0 as int] == cmap[d.0 as int] <==> c == d)
        } by {
            let i = choose|i: int| 0 <= i < ids.len() && #[trigger] ids[i] == c;
            let j = choose|j: int| 0 <= j < ids.len() && #[trigger] ids[j] == d;
            assert(curve_live(m.g, ids[i]) && curve_live(m.g, ids[j]));
            assert(m.g.curves[c.0 as int] is Some && m.g.curves[d.0 as int] is Some);
            let (a, b) = (curve_of(m.g, c), curve_of(m.g, d));
            assert(s.vmap[a.v0.0 as int] is Some && s.vmap[a.v1.0 as int] is Some);
            assert(s.vmap[b.v0.0 as int] is Some && s.vmap[b.v1.0 as int] is Some);
        }
        assert forall|n: CurveId|
            #![trigger taken.g.curves[n.0 as int]]
            n.0 < taken.g.curves.len() && taken.g.curves[n.0 as int] is Some implies exists|
            c: CurveId,
        | c.0 < cmap.len() && #[trigger] cmap[c.0 as int] == Some(n) by {
            let c = ids[n.0 as int];
            assert(curve_live(m.g, c));
            assert(cmap[c.0 as int] == Some(n));
        }
    }
}

proof fn lemma_copied_loop(
    ar: Arith,
    g1: Graph,
    g2: Graph,
    cmap: Seq<Option<CurveId>>,
    a: Seq<HalfEdge>,
    b: Seq<HalfEdge>,
    n: int,
)
    requires
        g1.snap == g2.snap,
        g1.tol == g2.tol,
        a.len() == b.len(),
        0 <= n <= a.len(),
        forall|i: int|
            #![trigger a[i]]
            0 <= i < a.len() ==> points_of(g2, b[i].0) == points_of(g1, a[i].0) && b[i].1 == a[i].1,
    ensures
        loop_poly_below(ar, g2, b, n) == loop_poly_below(ar, g1, a, n),
    decreases n,
{
    if n > 0 {
        lemma_copied_loop(ar, g1, g2, cmap, a, b, n - 1);
        reveal(polyline_of);
        assert(points_of(g2, b[n - 1].0) == points_of(g1, a[n - 1].0));
        assert(he_poly_of(ar, g2, b[n - 1]) == he_poly_of(ar, g1, a[n - 1]));
    }
}

/// An extracted fill covers what it covered: every chosen live fill is in the new
/// scene, under the id told for it, with its payload and anchor and with as many
/// loops, each of which goes, half-edge by half-edge, along the copies of the
/// curves that the old one goes along, in the same directions. So its loops run
/// along the same polylines, and the same points are inside. There are no others.
pub proof fn law_extracted_fills(ar: Arith, m: Model, curves: Set<CurveId>, fills: Set<FillId>)
    requires
        scene_wf(m),
    ensures
        extracted(ar, m, curves, fills) matches Ok((_, taken)) ==> {
            let cmap = taken_graft(ar, m, inside_of(m, curves, fills)).cmap;
            let pairs = fill_pairs(m, fills, 0, m.fills.len() as int);
            &&& taken.fills.len() == pairs.len()
            &&& forall|i: int|
                #![trigger m.fills[i]]
                0 <= i < m.fills.len() && m.fills[i] is Some && fills.contains(FillId(i as u32))
                    ==> exists|j: int| 0 <= j < pairs.len() && (#[trigger] pairs[j]).0.0 == i
            &&& forall|j: int|
                #![trigger pairs[j]]
                0 <= j < pairs.len() ==> {
                    let was = m.fills[pairs[j].0.0 as int]->0;
                    let now = taken.fills[j]->0;
                    &&& pairs[j].0.0 < m.fills.len()
                    &&& fills.contains(pairs[j].0)
                    &&& m.fills[pairs[j].0.0 as int] is Some
                    &&& pairs[j].1.0 == j
                    &&& taken.fills[j] is Some
                    &&& now.payload == was.payload
                    &&& now.anchor == was.anchor
                    &&& now.loops.len() == was.loops.len()
                    &&& forall|a: int|
                        #![trigger now.loops[a]]
                        0 <= a < was.loops.len() ==> now.loops[a].len() == was.loops[a].len()
                    &&& forall|a: int, b: int|
                        #![trigger now.loops[a][b]]
                        0 <= a < was.loops.len() && 0 <= b < was.loops[a].len() ==> {
                            &&& Some(now.loops[a][b].0) == cmap[was.loops[a][b].0.0 as int]
                            &&& now.loops[a][b].1 == was.loops[a][b].1
                        }
                    &&& loop_polys(ar, taken.g, now.loops) == loop_polys(ar, m.g, was.loops)
                    &&& forall|p: Point| #[trigger]
                        in_fill(ar, taken.g, now, p) == in_fill(ar, m.g, was, p)
                }
        },
{
    let inside = inside_of(m, curves, fills);
    let s = taken_graft(ar, m, inside);
    let k = m.fills.len() as int;
    law_taken_fills(m, fills, s.cmap, k);
    lemma_all_paired(m, fills, 0, k);
    law_extracted_curves(ar, m, curves, fills);
    lemma_taken_loops(m, fills, s.cmap, k);
    if let Ok((left, taken)) = extracted(ar, m, curves, fills) {
        let cmap = s.cmap;
        let pairs = fill_pairs(m, fills, 0, k);
        assert forall|j: int| #![trigger pairs[j]] 0 <= j < pairs.len() implies {
            let was = m.fills[pairs[j].0.0 as int]->0;
            let now = taken.fills[j]->0;
            &&& forall|a: int, b: int|
                #![trigger now.loops[a][b]]
                0 <= a < was.loops.len() && 0 <= b < was.loops[a].len() ==> {
                    &&& Some(now.loops[a][b].0) == cmap[was.loops[a][b].0.0 as int]
                    &&& now.loops[a][b].1 == was.loops[a][b].1
                }
            &&& loop_polys(ar, taken.g, now.loops) == loop_polys(ar, m.g, was.loops)
        } by {
            let f = pairs[j].0;
            let was = m.fills[f.0 as int]->0;
            let now = taken.fills[j]->0;
            assert(fill_live(m, f) && fills.contains(f));
            assert(now.loops.len() == was.loops.len());
            assert forall|a: int, b: int|
                #![trigger now.loops[a][b]]
                0 <= a < was.loops.len() && 0 <= b < was.loops[a].len() implies {
                let c = was.loops[a][b].0;
                &&& c.0 < cmap.len()
                &&& cmap[c.0 as int] is Some
                &&& Some(now.loops[a][b].0) == cmap[c.0 as int]
                &&& now.loops[a][b].1 == was.loops[a][b].1
            } by {
                let c = was.loops[a][b].0;
                assert(loops_live(m.g, was.loops));
                assert(loop_live(m.g, was.loops[a]));
                assert(curve_live(m.g, was.loops[a][b].0));
                assert(fill_of(m, f).loops[a][b].0 == c);
                assert(asked_for(m, curves, fills, c));
                assert(cmap[c.0 as int] is Some);
                assert(now.loops[a] == carried_loop(cmap, was.loops[a]));
            }
            assert forall|a: int| 0 <= a < was.loops.len() implies #[trigger] loop_poly(
                ar,
                taken.g,
                now.loops[a],
            ) == loop_poly(ar, m.g, was.loops[a]) by {
                let (x, y) = (was.loops[a], now.loops[a]);
                assert(y == carried_loop(cmap, x));
                assert forall|i: int| #![trigger x[i]] 0 <= i < x.len() implies points_of(
                    taken.g,
                    y[i].0,
                ) == points_of(m.g, x[i].0) && y[i].1 == x[i].1 by {
                    assert(now.loops[a][i] == y[i]);
                    assert(was.loops[a][i] == x[i]);
                    assert(cmap[x[i].0.0 as int] is Some);
                }
                lemma_copied_loop(ar, m.g, taken.g, cmap, x, y, x.len() as int);
            }
            assert(loop_polys(ar, taken.g, now.loops) =~= loop_polys(ar, m.g, was.loops));
        }
    }
}

/// A taken fill has the loops of the chosen one, along the copies.
proof fn lemma_taken_loops(m: Model, fills: Set<FillId>, cmap: Seq<Option<CurveId>>, n: int)
    requires
        0 <= n <= m.fills.len() <= u32::MAX,
    ensures
        ({
            let taken = taken_fills(m, fills, cmap, n);
            let pairs = fill_pairs(m, fills, 0, n);
            &&& taken.len() == pairs.len()
            &&& forall|j: int|
                #![trigger pairs[j]]
                0 <= j < pairs.len() ==> {
                    let was = m.fills[pairs[j].0.0 as int]->0;
                    let now = taken[j]->0;
                    &&& now.loops.len() == was.loops.len()
                    &&& forall|a: int|
                        #![trigger now.loops[a]]
                        0 <= a < was.loops.len() ==> now.loops[a] == carried_loop(cmap, was.loops[a])
                }
        }),
    decreases n,
{
    if n > 0 {
        lemma_taken_loops(m, fills, cmap, n - 1);
        law_taken_fills(m, fills, cmap, n - 1);
        let old_taken = taken_fills(m, fills, cmap, n - 1);
        let old_pairs = fill_pairs(m, fills, 0, n - 1);
        let taken = taken_fills(m, fills, cmap, n);
        let pairs = fill_pairs(m, fills, 0, n);
        assert forall|j: int| #![trigger pairs[j]] 0 <= j < pairs.len() implies {
            let was = m.fills[pairs[j].0.0 as int]->0;
            let now = taken[j]->0;
            &&& now.loops.len() == was.loops.len()
            &&& forall|a: int|
                #![trigger now.loops[a]]
                0 <= a < was.loops.len() ==> now.loops[a] == carried_loop(cmap, was.loops[a])
        } by {
            if j < old_pairs.len() {
                assert(pairs[j] == old_pairs[j]);
                assert(taken[j] == old_taken[j]);
            }
        }
    }
}

// ---- replacing, deleting, committing ----

/// Replacing a curve takes that curve away and puts in the one that was asked
/// for, with the tag of the old: if the new one is still whole it has the given
/// inner control points, and the vertices made for it, if they are still there, are
/// in the places of its ends. Whatever else stays is undisturbed.
pub proof fn law_replaced_as_given(ar: Arith, m: Model, id: CurveId, p: Cubic)
    requires
        scene_wf(m),
        edit_room(m),
        curve_live(m.g, id),
    ensures
        drawn(ar, without(m.g, id), m.fills, p, curve_of(m.g, id).tag) matches Ok((m2, pieces)) ==> {
            let (n, k) = (m.g.curves.len() as int, m.g.verts.len() as int);
            &&& undisturbed(m.g, m2.g)
            &&& m2.g.curves[id.0 as int] is None
            &&& m2.g.curves[n] matches Some(c) ==> c.c0 == p.p1 && c.c1 == p.p2 && c.tag == (
            m.g.curves[id.0 as int]->0).tag
            &&& m2.g.verts[k] matches Some(v) ==> v == p.p0
            &&& m2.g.verts[k + 1] matches Some(v) ==> v == p.p3
            &&& forall|i: int|
                #![trigger pieces[i]]
                0 <= i < pieces.len() ==> {
                    &&& n <= pieces[i].0 < m2.g.curves.len()
                    &&& m2.g.curves[pieces[i].0 as int] is Some
                    &&& (m2.g.curves[pieces[i].0 as int]->0).tag == (m.g.curves[id.0 as int]->0).tag
                }
        },
{
    let g = without(m.g, id);
    let tag = curve_of(m.g, id).tag;
    lemma_without_wf(m.g, id);
    law_drawn_as_given(ar, g, m.fills, p, tag);
    lemma_pieces_tagged(ar, g, m.fills, p, tag);
    if let Ok((m2, pieces)) = drawn(ar, g, m.fills, p, tag) {
        lemma_undisturbed_without(m.g, id, m2.g);
    }
}

proof fn lemma_undisturbed_without(g: Graph, id: CurveId, g2: Graph)
    requires
        curve_live(g, id),
        undisturbed(without(g, id), g2),
    ensures
        undisturbed(g, g2),
        g2.curves[id.0 as int] is None,
{
    let g1 = without(g, id);
    assert(g2.curves[id.0 as int] is Some ==> g1.curves[id.0 as int] is Some);
    assert forall|c: CurveId|
        #![trigger g2.curves[c.0 as int]]
        c.0 < g.curves.len() && g2.curves[c.0 as int] is Some implies {
        &&& g.curves[c.0 as int] is Some
        &&& (g2.curves[c.0 as int]->0).c0 == (g.curves[c.0 as int]->0).c0
        &&& (g2.curves[c.0 as int]->0).c1 == (g.curves[c.0 as int]->0).c1
        &&& (g2.curves[c.0 as int]->0).tag == (g.curves[c.0 as int]->0).tag
    } by {
        assert(g1.curves[c.0 as int] is Some);
    }
}

/// The pieces of a new curve are live, new, and have its tag.
proof fn lemma_pieces_tagged(
    ar: Arith,
    g: Graph,
    fills: Seq<Option<Fill>>,
    p: Cubic,
    tag: u64,
)
    requires
        graph_wf(g),
        edit_room(Model { g, fills }),
        fills.len() <= u32::MAX,
    ensures
        drawn(ar, g, fills, p, tag) matches Ok((m2, pieces)) ==> forall|i: int|
            #![trigger pieces[i]]
            0 <= i < pieces.len() ==> {
                &&& g.curves.len() <= pieces[i].0 < m2.g.curves.len()
                &&& m2.g.curves[pieces[i].0 as int] is Some
                &&& (m2.g.curves[pieces[i].0 as int]->0).tag == tag
            },
{
    law_drawn(ar, g, fills, p, tag);
    if let Ok((m2, pieces)) = drawn(ar, g, fills, p, tag) {
        assert forall|i: int| #![trigger pieces[i]] 0 <= i < pieces.len() implies {
            &&& g.curves.len() <= pieces[i].0 < m2.g.curves.len()
            &&& m2.g.curves[pieces[i].0 as int] is Some
            &&& (m2.g.curves[pieces[i].0 as int]->0).tag == tag
        } by {
            assert(curve_live(m2.g, pieces[i]));
        }
    }
}

/// The curve is part of the fill's boundary.
pub open spec fn walls_in(f: Fill, c: CurveId) -> bool {
    exists|i: int, j: int|
        0 <= i < f.loops.len() && 0 <= j < f.loops[i].len() && (#[trigger] f.loops[i][j]).0 == c
}

/// Deleting a curve takes away that curve, the fills whose boundary it was part
/// of, and the vertices that no live curve ends at any more; every other curve and
/// every other vertex is exactly as it was, slot by slot. Every other fill keeps its
/// payload and anchor, and is the face around its anchor, or gone where there is
/// none.
pub proof fn law_erased_exactly(ar: Arith, m: Model, id: CurveId)
    requires
        scene_wf(m),
        curve_live(m.g, id),
    ensures
        erased(ar, m, id) matches Ok(m2) ==> {
            &&& m2.g.snap == m.g.snap
            &&& m2.g.tol == m.g.tol
            &&& m2.g.curves.len() == m.g.curves.len()
            &&& m2.g.verts.len() == m.g.verts.len()
            &&& m2.fills.len() == m.fills.len()
            &&& m2.g.curves[id.0 as int] is None
            &&& forall|i: int|
                #![trigger m2.g.curves[i]]
                0 <= i < m.g.curves.len() && i != id.0 ==> m2.g.curves[i] == m.g.curves[i]
            &&& forall|v: int|
                #![trigger m2.g.verts[v]]
                0 <= v < m.g.verts.len() ==> m2.g.verts[v] == if exists|i: int|
                    0 <= i < m.g.curves.len() && i != id.0 && (#[trigger] m.g.curves[i]) is Some
                        && ((m.g.curves[i]->0).v0.0 == v || (m.g.curves[i]->0).v1.0 == v) {
                    m.g.verts[v]
                } else {
                    None
                }
            &&& forall|f: int|
                #![trigger m2.fills[f]]
                0 <= f < m.fills.len() ==> match m2.fills[f] {
                    Some(now) => {
                        &&& m.fills[f] is Some
                        &&& !walls_in(m.fills[f]->0, id)
                        &&& now.payload == (m.fills[f]->0).payload
                        &&& now.anchor == (m.fills[f]->0).anchor
                        &&& face_of(ar, m2.g, now.anchor) == Ok::<
                            Result<Seq<Seq<HalfEdge>>, FillError>,
                            Fault,
                        >(Ok(now.loops))
                    },
                    None => {
                        ||| m.fills[f] is None
                        ||| walls_in(m.fills[f]->0, id)
                        ||| face_of(ar, m2.g, (m.fills[f]->0).anchor) == Ok::<
                            Result<Seq<Seq<HalfEdge>>, FillError>,
                            Fault,
                        >(Err(FillError::NotEnclosed))
                    },
                }
        },
{
    let g = without(m.g, id);
    lemma_without_wf(m.g, id);
    law_swept(g);
    let kept = not_bounded_by(m.fills, id);
    law_refilled(ar, swept(g), kept);
    if let Ok(m2) = erased(ar, m, id) {
        assert forall|v: int| #![trigger m2.g.verts[v]] 0 <= v < m.g.verts.len() implies m2.g.verts[v]
            == (if exists|i: int|
            0 <= i < m.g.curves.len() && i != id.0 && (#[trigger] m.g.curves[i]) is Some && ((
            m.g.curves[i]->0).v0.0 == v || (m.g.curves[i]->0).v1.0 == v) {
            m.g.verts[v]
        } else {
            None
        }) by {
            if vertex_used(g, v) {
                let i = choose|i: int|
                    0 <= i < g.curves.len() && (#[trigger] g.curves[i]) is Some && ((
                    g.curves[i]->0).v0.0 == v || (g.curves[i]->0).v1.0 == v);
                assert(m.g.curves[i] is Some);
            }
            if exists|i: int|
                0 <= i < m.g.curves.len() && i != id.0 && (#[trigger] m.g.curves[i]) is Some && ((
                m.g.curves[i]->0).v0.0 == v || (m.g.curves[i]->0).v1.0 == v) {
                let i = choose|i: int|
                    0 <= i < m.g.curves.len() && i != id.0 && (#[trigger] m.g.curves[i]) is Some
                        && ((m.g.curves[i]->0).v0.0 == v || (m.g.curves[i]->0).v1.0 == v);
                assert(g.curves[i] is Some);
                assert(vertex_used(g, v));
            }
        }
        assert forall|f: int| #![trigger m2.fills[f]] 0 <= f < m.fills.len() implies match m2.fills[f] {
            Some(now) => m.fills[f] is Some && !walls_in(m.fills[f]->0, id),
            None => true,
        } by {
            if m2.fills[f] is Some {
                assert(kept[f] is Some);
                let was = m.fills[f]->0;
                assert(!bounds(was.loops, id));
                if walls_in(was, id) {
                    let (i, j) = choose|i: int, j: int|
                        0 <= i < was.loops.len() && 0 <= j < was.loops[i].len()
                            && (#[trigger] was.loops[i][j]).0 == id;
                    assert(bounds(was.loops, id));
                }
            }
        }
        assert forall|f: int| #![trigger m2.fills[f]] 0 <= f < m.fills.len() && m2.fills[f] is None
            && m.fills[f] is Some && kept[f] is None implies walls_in(m.fills[f]->0, id) by {
            let loops = (m.fills[f]->0).loops;
            assert(bounds(loops, id));
            let (i, j) = choose|i: int, j: int|
                0 <= i < loops.len() && 0 <= j < loops[i].len() && (#[trigger] loops[i][j]).0 == id;
            assert((m.fills[f]->0).loops[i][j].0 == id);
        }
    }
}

/// Committing disturbs nothing that stays.
pub proof fn law_committed_in_place(ar: Arith, m: Model)
    requires
        scene_wf(m),
        edit_room(m),
    ensures
        committed(ar, m) matches Ok(m2) ==> undisturbed(m.g, m2.g),
{
    law_rules_leave_in_place(ar, m.g, curve_ids_of(m.g), m.fills);
}

/// What an extraction leaves behind, slot by slot: the curves that were asked for
/// are gone, unless they are part of the boundary of a fill that was not; every
/// other curve, and every vertex at which one ends, is exactly as it was. The chosen
/// fills are gone; every other keeps its payload and anchor, and is the face around
/// its anchor, or gone where there is none.
pub proof fn law_left_exactly(ar: Arith, m: Model, curves: Set<CurveId>, fills: Set<FillId>)
    requires
        scene_wf(m),
    ensures
        extracted(ar, m, curves, fills) matches Ok((left, _)) ==> {
            &&& left.g.snap == m.g.snap
            &&& left.g.tol == m.g.tol
            &&& left.g.curves.len() == m.g.curves.len()
            &&& left.g.verts.len() == m.g.verts.len()
            &&& left.fills.len() == m.fills.len()
            &&& forall|c: CurveId|
                #![trigger left.g.curves[c.0 as int]]
                c.0 < m.g.curves.len() ==> left.g.curves[c.0 as int] == if asked_for(
                    m,
                    curves,
                    fills,
                    c,
                ) && !asked_for(m, Set::empty(), fills.complement(), c) {
                    None
                } else {
                    m.g.curves[c.0 as int]
                }
            &&& forall|v: int|
                #![trigger left.g.verts[v]]
                0 <= v < m.g.verts.len() ==> left.g.verts[v] == if exists|i: int|
                    0 <= i < left.g.curves.len() && (#[trigger] left.g.curves[i]) is Some && ((
                    left.g.curves[i]->0).v0.0 == v || (left.g.curves[i]->0).v1.0 == v) {
                    m.g.verts[v]
                } else {
                    None
                }
            &&& forall|f: FillId|
                #![trigger left.fills[f.0 as int]]
                f.0 < m.fills.len() ==> match left.fills[f.0 as int] {
                    Some(now) => {
                        &&& !fills.contains(f)
                        &&& m.fills[f.0 as int] is Some
                        &&& now.payload == (m.fills[f.0 as int]->0).payload
                        &&& now.anchor == (m.fills[f.0 as int]->0).anchor
                        &&& face_of(ar, left.g, now.anchor) == Ok::<
                            Result<Seq<Seq<HalfEdge>>, FillError>,
                            Fault,
                        >(Ok(now.loops))
                    },
                    None => {
                        ||| fills.contains(f)
                        ||| m.fills[f.0 as int] is None
                        ||| face_of(ar, left.g, (m.fills[f.0 as int]->0).anchor) == Ok::<
                            Result<Seq<Seq<HalfEdge>>, FillError>,
                            Fault,
                        >(Err(FillError::NotEnclosed))
                    },
                }
        },
{
    let inside = inside_of(m, curves, fills);
    let walls = walls_of(m, fills);
    let l = left_graph(m.g, inside, walls);
    lemma_left_wf(m.g, inside, walls);
    law_swept(l);
    law_refilled(ar, swept(l), left_fills(m.fills, fills));
    if let Ok((left, taken)) = extracted(ar, m, curves, fills) {
        assert forall|c: CurveId| #![trigger left.g.curves[c.0 as int]] c.0
            < m.g.curves.len() implies left.g.curves[c.0 as int] == (if asked_for(
            m,
            curves,
            fills,
            c,
        ) && !asked_for(m, Set::empty(), fills.complement(), c) {
            None
        } else {
            m.g.curves[c.0 as int]
        }) by {
            assert(CurveId(c.0 as int as u32) == c);
            lemma_asked_for(m, curves, fills, c);
            lemma_asked_for(m, Set::empty(), fills.complement(), c);
            assert(walls.contains(c) <==> inside_of(m, Set::empty(), fills.complement()).contains(
                c,
            )) by {
                if walls.contains(c) {
                    let f = choose|f: FillId|
                        #![trigger fill_live(m, f)]
                        !fills.contains(f) && fill_live(m, f) && bounds(fill_of(m, f).loops, c);
                    assert(fills.complement().contains(f));
                }
                if inside_of(m, Set::empty(), fills.complement()).contains(c) {
                    let f = choose|f: FillId| #[trigger]
                        fills.complement().contains(f) && fill_live(m, f) && bounds(
                            fill_of(m, f).loops,
                            c,
                        );
                    assert(!fills.contains(f) && fill_live(m, f));
                }
            }
        }
        assert forall|v: int| #![trigger left.g.verts[v]] 0 <= v
            < m.g.verts.len() implies left.g.verts[v] == (if exists|i: int|
            0 <= i < left.g.curves.len() && (#[trigger] left.g.curves[i]) is Some && ((
            left.g.curves[i]->0).v0.0 == v || (left.g.curves[i]->0).v1.0 == v) {
            m.g.verts[v]
        } else {
            None
        }) by {
            assert(left.g.curves == l.curves);
            if vertex_used(l, v) {
                let i = choose|i: int|
                    0 <= i < l.curves.len() && (#[trigger] l.curves[i]) is Some && ((
                    l.curves[i]->0).v0.0 == v || (l.curves[i]->0).v1.0 == v);
                assert(left.g.curves[i] is Some);
            }
        }
        assert forall|f: FillId| #![trigger left.fills[f.0 as int]] f.0 < m.fills.len() implies (
        left_fills(m.fills, fills)[f.0 as int] is Some <==> !fills.contains(f)
            && m.fills[f.0 as int] is Some) by {
            assert(FillId(f.0 as int as u32) == f);
        }
    }
}

} // verus!
