//! The scene: an arrangement of curves with face fills, and its edits.

use vstd::prelude::*;

use crate::calc::{Arith, Calc, Op};
use crate::error::{BadId, Fault};
use crate::face::loops_live;
use crate::fill::{bounds, fills_view, fills_wf, law_refilled, refilled, Fill, FillData};
use crate::geom::{untagged, Cubic};
use crate::graph::{
    curve_ids_of, curve_live, curve_of, graph_wf, incident_to, points_of, polyline_of, swept,
    vertex_ids_of, vertex_live, vpos_of, Arrangement, Curve, CurveId, Graph, VertexId,
};
use crate::integrate::run_room;
use crate::lineage::law_integrated_lineage;
use crate::locate::deep;
use crate::pipeline::{descendants, integrated, MAX_STEPS};
use crate::point::Point;
use crate::scalar::{num, Scalar, MILLI, TENTH};
use crate::walk::{loop_live, HalfEdge};

verus! {

/// A planar arrangement of cubic bezier curves with face fills.
pub struct Scene {
    pub(crate) arr: Arrangement,
    pub(crate) fills: Vec<Option<FillData>>,
}

/// What a scene holds.
#[verifier::ext_equal]
pub struct Model {
    pub g: Graph,
    pub fills: Seq<Option<Fill>>,
}

impl Scene {
    pub open(crate) spec fn view(&self) -> Model {
        Model { g: self.arr@, fills: fills_view(self.fills@) }
    }

    /// The scene's slots are in order.
    pub open(crate) spec fn wf(&self) -> bool {
        scene_wf(self@)
    }
}

/// Every live curve ends at live vertices, and every live fill runs along live
/// curves.
pub open spec fn scene_wf(m: Model) -> bool {
    graph_wf(m.g) && fills_wf(m.g, m.fills)
}

/// There are ids left for one more curve and all that a run of the pipeline can
/// make of it.
pub open spec fn edit_room(m: Model) -> bool {
    &&& m.g.curves.len() + 1 + 4 * MAX_STEPS <= u32::MAX
    &&& m.g.verts.len() + 2 + MAX_STEPS <= u32::MAX
}

// ---- what the edits do ----

/// What becomes of a changed arrangement: the rules are restored for the dirty
/// curves and everything they touch, vertices without a curve go, and every
/// fill is derived anew.
pub open spec fn replanarized(
    ar: Arith,
    g: Graph,
    dirty: Seq<CurveId>,
    fills: Seq<Option<Fill>>,
) -> Result<Model, Fault> {
    let s = integrated(ar, g, dirty);
    match s.fault {
        Some(e) => Err(e),
        None => {
            let g2 = swept(s.w.g);
            match refilled(ar, g2, fills) {
                Err(e) => Err(e),
                Ok(now) => Ok(Model { g: g2, fills: now }),
            }
        },
    }
}

/// The arrangement with one more curve, between two new vertices.
pub open spec fn with_new_curve(g: Graph, p: Cubic, tag: u64) -> Graph {
    let v0 = VertexId(g.verts.len() as u32);
    let v1 = VertexId((g.verts.len() + 1) as u32);
    Graph {
        verts: g.verts.push(Some(p.p0)).push(Some(p.p3)),
        curves: g.curves.push(Some(Curve { v0, c0: p.p1, c1: p.p2, v1, tag })),
        ..g
    }
}

/// The id that the next curve gets.
pub open spec fn new_curve_id(g: Graph) -> CurveId {
    CurveId(g.curves.len() as u32)
}

/// The scene after a curve has been put in, with the curve's surviving pieces.
pub open spec fn drawn(ar: Arith, g: Graph, fills: Seq<Option<Fill>>, p: Cubic, tag: u64) -> Result<
    (Model, Seq<CurveId>),
    Fault,
> {
    let g1 = with_new_curve(g, p, tag);
    let id = new_curve_id(g);
    match replanarized(ar, g1, seq![id], fills) {
        Err(e) => Err(e),
        Ok(m) => Ok((m, descendants(integrated(ar, g1, seq![id]).w, id))),
    }
}

/// The arrangement without a curve.
pub open spec fn without(g: Graph, id: CurveId) -> Graph {
    Graph { curves: g.curves.update(id.0 as int, None), ..g }
}

/// The arrangement with a vertex in another place.
pub open spec fn with_vertex_at(g: Graph, v: VertexId, to: Point) -> Graph {
    Graph { verts: g.verts.update(v.0 as int, Some(to)), ..g }
}

/// The fills without those whose boundary the curve is part of.
pub open spec fn not_bounded_by(fills: Seq<Option<Fill>>, id: CurveId) -> Seq<Option<Fill>> {
    fills.map_values(
        |f: Option<Fill>|
            match f {
                None => None,
                Some(fill) => if bounds(fill.loops, id) {
                    None
                } else {
                    Some(fill)
                },
            },
    )
}

/// The scene after a curve has been deleted.
pub open spec fn erased(ar: Arith, m: Model, id: CurveId) -> Result<Model, Fault> {
    let g = swept(without(m.g, id));
    match refilled(ar, g, not_bounded_by(m.fills, id)) {
        Err(e) => Err(e),
        Ok(now) => Ok(Model { g, fills: now }),
    }
}

/// The scene after a vertex has been moved.
pub open spec fn vertex_moved(ar: Arith, m: Model, v: VertexId, to: Point) -> Result<Model, Fault> {
    let g = with_vertex_at(m.g, v, to);
    replanarized(ar, g, incident_to(g, v), m.fills)
}

/// The scene after all its curves have been looked at.
pub open spec fn committed(ar: Arith, m: Model) -> Result<Model, Fault> {
    replanarized(ar, m.g, curve_ids_of(m.g), m.fills)
}

// ---- the edits ----

impl Scene {
    /// An empty scene with a snap distance of a thousandth and a flatten
    /// tolerance of a tenth.
    pub fn new() -> (r: Scene)
        ensures
            r.wf(),
            r@ == (Model {
                g: Graph {
                    verts: Seq::empty(),
                    curves: Seq::empty(),
                    snap: num(MILLI),
                    tol: num(TENTH),
                },
                fills: Seq::empty(),
            }),
    {
        let r = Scene { arr: Arrangement::new(), fills: Vec::new() };
        assert(fills_view(r.fills@) =~= Seq::empty());
        r
    }

    /// Vertices closer than this are merged into one.
    pub fn set_snap_distance(&mut self, d: Scalar)
        requires
            old(self).wf(),
        ensures
            final(self).wf(),
            final(self)@ == (Model { g: Graph { snap: d, ..old(self)@.g }, ..old(self)@ }),
    {
        self.arr.snap = d;
        proof {
            lemma_same_curves_wf(old(self)@, self@);
        }
    }

    /// Tolerance used when flattening curves for topology queries. Use the same
    /// value when rendering.
    pub fn set_flatten_tolerance(&mut self, tol: Scalar)
        requires
            old(self).wf(),
        ensures
            final(self).wf(),
            final(self)@ == (Model { g: Graph { tol, ..old(self)@.g }, ..old(self)@ }),
    {
        self.arr.tol = tol;
        proof {
            lemma_same_curves_wf(old(self)@, self@);
        }
    }

    pub fn snap_distance(&self) -> (r: Scalar)
        ensures
            r == self@.g.snap,
    {
        self.arr.snap
    }

    pub fn flatten_tolerance(&self) -> (r: Scalar)
        ensures
            r == self@.g.tol,
    {
        self.arr.tol
    }

    /// Whether there are ids left for an edit.
    pub fn has_room(&self) -> (r: bool)
        ensures
            r == edit_room(self@),
    {
        let most: u64 = u32::MAX as u64;
        self.arr.curves.len() as u64 <= most - 1 - 4 * MAX_STEPS && self.arr.verts.len() as u64
            <= most - 2 - MAX_STEPS
    }

    pub fn is_curve(&self, id: CurveId) -> (r: bool)
        ensures
            r == curve_live(self@.g, id),
    {
        self.arr.curve_live(id)
    }

    pub fn is_vertex(&self, id: VertexId) -> (r: bool)
        ensures
            r == vertex_live(self@.g, id),
    {
        self.arr.vertex_live(id)
    }

    /// The opaque payload of a curve. 0 if untagged or the id is dead.
    pub fn curve_tag(&self, id: CurveId) -> (r: u64)
        ensures
            r == if curve_live(self@.g, id) {
                curve_of(self@.g, id).tag
            } else {
                0
            },
    {
        if self.arr.curve_live(id) {
            self.arr.curve(id).tag
        } else {
            0
        }
    }

    /// A curve as it is stored.
    pub fn curve(&self, id: CurveId) -> (r: Curve)
        requires
            curve_live(self@.g, id),
        ensures
            r == curve_of(self@.g, id),
    {
        self.arr.curve(id)
    }

    /// Control points of a curve, endpoints resolved through its vertices.
    pub fn curve_points(&self, id: CurveId) -> (r: [Point; 4])
        requires
            self.wf(),
            curve_live(self@.g, id),
        ensures
            Cubic::spec_of(r@) == points_of(self@.g, id),
    {
        let p = self.arr.points(id);
        [p.p0, p.p1, p.p2, p.p3]
    }

    /// The curve's rendered polyline: flattened at the scene tolerance, with
    /// the portion inside a snap-radius disk around each endpoint replaced by a
    /// straight stub. All topology tests and any renderer must use this exact
    /// polyline.
    pub fn curve_polyline<F: Fn(Op, Scalar, Scalar) -> Scalar>(&self, k: &Calc<F>, id: CurveId) -> (r:
        Vec<Point>)
        requires
            k.wf(),
            self.wf(),
            curve_live(self@.g, id),
        ensures
            r@ == untagged(polyline_of(k@, self@.g, id)),
    {
        self.arr.polyline(k, id)
    }

    pub fn vertex_pos(&self, id: VertexId) -> (r: Point)
        requires
            vertex_live(self@.g, id),
        ensures
            r == vpos_of(self@.g, id),
    {
        self.arr.vpos(id)
    }

    /// The ids of the live curves, in ascending order.
    pub fn curve_ids(&self) -> (r: Vec<CurveId>)
        requires
            self.wf(),
        ensures
            r@ == curve_ids_of(self@.g),
    {
        self.arr.curve_ids()
    }

    /// The ids of the live vertices, in ascending order.
    pub fn vertex_ids(&self) -> (r: Vec<VertexId>)
        requires
            self.wf(),
        ensures
            r@ == vertex_ids_of(self@.g),
    {
        self.arr.vertex_ids()
    }

    /// The scene that a changed arrangement settles into: the rules are restored
    /// for `dirty` and everything they touch, and every fill is derived anew.
    /// The ancestor of every curve comes with it.
    pub(crate) fn replanarize<F: Fn(Op, Scalar, Scalar) -> Scalar>(
        k: &Calc<F>,
        changed: Arrangement,
        dirty: Vec<CurveId>,
        fills: &Vec<Option<FillData>>,
    ) -> (r: Result<(Scene, Vec<CurveId>), Fault>)
        requires
            k.wf(),
            fills@.len() <= u32::MAX,
            graph_wf(changed@),
            run_room(changed@),
        ensures
            match replanarized(k@, changed@, dirty@, fills_view(fills@)) {
                Err(e) => r == Err::<(Scene, Vec<CurveId>), Fault>(e),
                Ok(m) => {
                    &&& r is Ok
                    &&& r->Ok_0.0.wf()
                    &&& r->Ok_0.0@ == m
                    &&& r->Ok_0.1@ == integrated(k@, changed@, dirty@).w.root
                    &&& r->Ok_0.1@.len() == m.g.curves.len()
                    &&& m.g.curves == integrated(k@, changed@, dirty@).w.g.curves
                },
            },
    {
        let mut arr = changed;
        proof {
            law_integrated_lineage(k@, arr@, dirty@);
        }
        let root = match arr.integrate(k, dirty) {
            Err(e) => {
                return Err(e);
            },
            Ok(root) => root,
        };
        arr.sweep_orphan_vertices();
        let now = match arr.retrace(k, fills) {
            Err(e) => {
                return Err(e);
            },
            Ok(now) => now,
        };
        proof {
            law_refilled(k@, arr@, fills_view(fills@));
        }
        Ok((Scene { arr, fills: now }, root))
    }

    /// Puts in a curve and returns its surviving pieces.
    fn draw<F: Fn(Op, Scalar, Scalar) -> Scalar>(
        &mut self,
        k: &Calc<F>,
        base: Arrangement,
        pts: Cubic,
        tag: u64,
    ) -> (r: Result<Vec<CurveId>, Fault>)
        requires
            k.wf(),
            old(self).wf(),
            graph_wf(base@),
            edit_room(Model { g: base@, fills: old(self)@.fills }),
        ensures
            final(self).wf(),
            match drawn(k@, base@, old(self)@.fills, pts, tag) {
                Err(e) => r == Err::<Vec<CurveId>, Fault>(e) && final(self)@ == old(self)@,
                Ok((m, pieces)) => r is Ok && final(self)@ == m && r->Ok_0@ == pieces,
            },
    {
        let mut arr = base;
        let ghost g = arr@;
        let v0 = arr.alloc_vertex(pts.p0);
        let v1 = arr.alloc_vertex(pts.p3);
        let id = arr.alloc_curve(Curve { v0, c0: pts.p1, c1: pts.p2, v1, tag });
        let mut dirty: Vec<CurveId> = Vec::new();
        dirty.push(id);
        proof {
            assert(dirty@ =~= seq![id]);
            assert(arr@ == with_new_curve(g, pts, tag));
            lemma_new_curve_wf(g, pts, tag);
        }
        match Scene::replanarize(k, arr, dirty, &self.fills) {
            Err(e) => Err(e),
            Ok((scene, root)) => {
                *self = scene;
                Ok(self.arr.live_descendants(&root, id))
            },
        }
    }

    /// Op 1: add a curve. Returns the surviving pieces of the added curve
    /// (possibly empty if it was degenerate and dropped).
    pub fn add_curve<F: Fn(Op, Scalar, Scalar) -> Scalar>(&mut self, k: &Calc<F>, pts: [Point; 4]) -> (r:
        Result<Vec<CurveId>, Fault>)
        requires
            k.wf(),
            old(self).wf(),
            edit_room(old(self)@),
        ensures
            final(self).wf(),
            match drawn(k@, old(self)@.g, old(self)@.fills, Cubic::spec_of(pts@), 0) {
                Err(e) => r == Err::<Vec<CurveId>, Fault>(e) && final(self)@ == old(self)@,
                Ok((m, pieces)) => r is Ok && final(self)@ == m && r->Ok_0@ == pieces,
            },
    {
        self.add_curve_tagged(k, pts, 0)
    }

    /// Op 1 with an opaque payload attached. Every surviving piece (after
    /// splitting/snapping) carries `tag`.
    pub fn add_curve_tagged<F: Fn(Op, Scalar, Scalar) -> Scalar>(
        &mut self,
        k: &Calc<F>,
        pts: [Point; 4],
        tag: u64,
    ) -> (r: Result<Vec<CurveId>, Fault>)
        requires
            k.wf(),
            old(self).wf(),
            edit_room(old(self)@),
        ensures
            final(self).wf(),
            match drawn(k@, old(self)@.g, old(self)@.fills, Cubic::spec_of(pts@), tag) {
                Err(e) => r == Err::<Vec<CurveId>, Fault>(e) && final(self)@ == old(self)@,
                Ok((m, pieces)) => r is Ok && final(self)@ == m && r->Ok_0@ == pieces,
            },
    {
        let base = self.arr.copy();
        self.draw(k, base, Cubic::of(pts), tag)
    }

    /// Op 3: delete a curve; any fill whose boundary references it is deleted.
    pub fn delete_curve<F: Fn(Op, Scalar, Scalar) -> Scalar>(&mut self, k: &Calc<F>, id: CurveId) -> (r:
        Result<Result<(), BadId>, Fault>)
        requires
            k.wf(),
            old(self).wf(),
        ensures
            final(self).wf(),
            if !curve_live(old(self)@.g, id) {
                r == Ok::<Result<(), BadId>, Fault>(Err(BadId)) && final(self)@ == old(self)@
            } else {
                match erased(k@, old(self)@, id) {
                    Err(e) => r == Err::<Result<(), BadId>, Fault>(e) && final(self)@ == old(self)@,
                    Ok(m) => r == Ok::<Result<(), BadId>, Fault>(Ok(())) && final(self)@ == m,
                }
            },
    {
        if !self.arr.curve_live(id) {
            return Ok(Err(BadId));
        }
        let mut arr = self.arr.copy();
        arr.drop_curve(id);
        proof {
            lemma_without_wf(self@.g, id);
        }
        arr.sweep_orphan_vertices();
        let kept = kept_fills(&self.fills, id);
        let fills = match arr.retrace(k, &kept) {
            Err(e) => {
                return Err(e);
            },
            Ok(fills) => fills,
        };
        proof {
            law_refilled(k@, arr@, fills_view(kept@));
        }
        self.arr = arr;
        self.fills = fills;
        Ok(Ok(()))
    }

    /// Op 5: replace a curve with a new one. Returns the surviving pieces of
    /// the replacement, which carry the old curve's tag.
    pub fn replace_curve<F: Fn(Op, Scalar, Scalar) -> Scalar>(
        &mut self,
        k: &Calc<F>,
        id: CurveId,
        pts: [Point; 4],
    ) -> (r: Result<Result<Vec<CurveId>, BadId>, Fault>)
        requires
            k.wf(),
            old(self).wf(),
            edit_room(old(self)@),
        ensures
            final(self).wf(),
            if !curve_live(old(self)@.g, id) {
                &&& r == Ok::<Result<Vec<CurveId>, BadId>, Fault>(Err(BadId))
                &&& final(self)@ == old(self)@
            } else {
                match drawn(
                    k@,
                    without(old(self)@.g, id),
                    old(self)@.fills,
                    Cubic::spec_of(pts@),
                    curve_of(old(self)@.g, id).tag,
                ) {
                    Err(e) => {
                        &&& r == Err::<Result<Vec<CurveId>, BadId>, Fault>(e)
                        &&& final(self)@ == old(self)@
                    },
                    Ok((m, pieces)) => {
                        &&& r matches Ok(Ok(ids)) && ids@ == pieces
                        &&& final(self)@ == m
                    },
                }
            },
    {
        if !self.arr.curve_live(id) {
            return Ok(Err(BadId));
        }
        let tag = self.arr.curve(id).tag;
        let mut base = self.arr.copy();
        base.drop_curve(id);
        proof {
            lemma_without_wf(self@.g, id);
        }
        match self.draw(k, base, Cubic::of(pts), tag) {
            Err(e) => Err(e),
            Ok(pieces) => Ok(Ok(pieces)),
        }
    }

    /// Op 6: move a vertex to new coordinates.
    pub fn move_vertex<F: Fn(Op, Scalar, Scalar) -> Scalar>(
        &mut self,
        k: &Calc<F>,
        id: VertexId,
        to: Point,
    ) -> (r: Result<Result<(), BadId>, Fault>)
        requires
            k.wf(),
            old(self).wf(),
            edit_room(old(self)@),
        ensures
            final(self).wf(),
            if !vertex_live(old(self)@.g, id) {
                r == Ok::<Result<(), BadId>, Fault>(Err(BadId)) && final(self)@ == old(self)@
            } else {
                match vertex_moved(k@, old(self)@, id, to) {
                    Err(e) => r == Err::<Result<(), BadId>, Fault>(e) && final(self)@ == old(self)@,
                    Ok(m) => r == Ok::<Result<(), BadId>, Fault>(Ok(())) && final(self)@ == m,
                }
            },
    {
        if !self.arr.vertex_live(id) {
            return Ok(Err(BadId));
        }
        let mut arr = self.arr.copy();
        arr.verts.set(id.0 as usize, Some(to));
        proof {
            lemma_moved_wf(self@.g, id, to);
            assert(arr@ =~= with_vertex_at(self@.g, id, to));
        }
        let dirty = arr.incident_curves(id);
        match Scene::replanarize(k, arr, dirty, &self.fills) {
            Err(e) => Err(e),
            Ok((scene, _)) => {
                *self = scene;
                Ok(Ok(()))
            },
        }
    }

    /// Move a vertex WITHOUT re-planarizing. Cheap, and leaves the arrangement
    /// temporarily non-planar. Intended for live drag preview: call
    /// [`Scene::commit`] once on edit-commit to restore the split/snap
    /// invariants.
    pub fn set_vertex_position(&mut self, id: VertexId, to: Point) -> (r: Result<(), BadId>)
        requires
            old(self).wf(),
        ensures
            final(self).wf(),
            if vertex_live(old(self)@.g, id) {
                &&& r == Ok::<(), BadId>(())
                &&& final(self)@ == (Model {
                    g: with_vertex_at(old(self)@.g, id, to),
                    ..old(self)@
                })
                &&& final(self)@.g.verts == old(self)@.g.verts.update(id.0 as int, Some(to))
                &&& final(self)@.g.curves == old(self)@.g.curves
                &&& final(self)@.fills == old(self)@.fills
            } else {
                r == Err::<(), BadId>(BadId) && final(self)@ == old(self)@
            },
    {
        if !self.arr.vertex_live(id) {
            return Err(BadId);
        }
        proof {
            lemma_moved_wf(self@.g, id, to);
        }
        self.arr.verts.set(id.0 as usize, Some(to));
        proof {
            lemma_same_curves_wf(old(self)@, self@);
        }
        Ok(())
    }

    /// Re-planarize the whole scene: run the split / snap / dedup pipeline over
    /// every live curve, then re-derive fills. Call once after a batch of
    /// [`Scene::set_vertex_position`] edits. Tags survive.
    pub fn commit<F: Fn(Op, Scalar, Scalar) -> Scalar>(&mut self, k: &Calc<F>) -> (r: Result<(), Fault>)
        requires
            k.wf(),
            old(self).wf(),
            edit_room(old(self)@),
        ensures
            final(self).wf(),
            match committed(k@, old(self)@) {
                Err(e) => r == Err::<(), Fault>(e) && final(self)@ == old(self)@,
                Ok(m) => r == Ok::<(), Fault>(()) && final(self)@ == m,
            },
    {
        let arr = self.arr.copy();
        let all = arr.curve_ids();
        match Scene::replanarize(k, arr, all, &self.fills) {
            Err(e) => Err(e),
            Ok((scene, _)) => {
                *self = scene;
                Ok(())
            },
        }
    }
}

impl Default for Scene {
    fn default() -> (r: Scene)
        ensures
            r.wf(),
            r@ == (Model {
                g: Graph {
                    verts: Seq::empty(),
                    curves: Seq::empty(),
                    snap: num(MILLI),
                    tol: num(TENTH),
                },
                fills: Seq::empty(),
            }),
    {
        Scene::new()
    }
}

/// The curve occurs in one of the loops.
fn bounded_by(loops: &Vec<Vec<HalfEdge>>, id: CurveId) -> (r: bool)
    ensures
        r == bounds(deep(loops@), id),
{
    let ghost d = deep(loops@);
    let n: usize = loops.len();
    let mut i: usize = 0;
    while i < n
        invariant
            i <= n == loops@.len(),
            d == deep(loops@),
            forall|a: int, b: int|
                0 <= a < i && 0 <= b < d[a].len() ==> (#[trigger] d[a][b]).0 != id,
        decreases n - i,
    {
        let m: usize = loops[i].len();
        assert(d[i as int] == loops@[i as int]@);
        let mut j: usize = 0;
        while j < m
            invariant
                i < n == loops@.len(),
                j <= m == loops@[i as int]@.len(),
                d == deep(loops@),
                d[i as int] == loops@[i as int]@,
                forall|b: int| 0 <= b < j ==> (#[trigger] d[i as int][b]).0 != id,
            decreases m - j,
        {
            if loops[i][j].0 == id {
                assert(d[i as int][j as int].0 == id);
                return true;
            }
            j = j + 1;
        }
        i = i + 1;
    }
    false
}

/// A copy of a list of loops.
pub(crate) fn copy_loops(loops: &Vec<Vec<HalfEdge>>) -> (r: Vec<Vec<HalfEdge>>)
    ensures
        deep(r@) == deep(loops@),
{
    let mut out: Vec<Vec<HalfEdge>> = Vec::new();
    let n: usize = loops.len();
    let mut i: usize = 0;
    assert(deep(out@) =~= deep(loops@).take(0));
    while i < n
        invariant
            i <= n == loops@.len(),
            deep(out@) == deep(loops@).take(i as int),
        decreases n - i,
    {
        let lp = &loops[i];
        let m: usize = lp.len();
        let mut one: Vec<HalfEdge> = Vec::new();
        let mut j: usize = 0;
        while j < m
            invariant
                j <= m == lp@.len(),
                one@ == lp@.take(j as int),
            decreases m - j,
        {
            one.push(lp[j]);
            j = j + 1;
            assert(lp@.take(j as int) =~= lp@.take(j - 1).push(lp@[j - 1]));
        }
        assert(lp@.take(m as int) =~= lp@);
        let ghost before = out@;
        out.push(one);
        i = i + 1;
        assert(deep(out@) =~= deep(before).push(one@));
        assert(deep(loops@).take(i as int) =~= deep(loops@).take(i - 1).push(loops@[i - 1]@));
    }
    assert(deep(loops@).take(n as int) =~= deep(loops@));
    out
}

/// The fills without those whose boundary the curve is part of.
fn kept_fills(fills: &Vec<Option<FillData>>, id: CurveId) -> (r: Vec<Option<FillData>>)
    ensures
        fills_view(r@) == not_bounded_by(fills_view(fills@), id),
{
    let ghost want = not_bounded_by(fills_view(fills@), id);
    let mut out: Vec<Option<FillData>> = Vec::new();
    let n: usize = fills.len();
    let mut i: usize = 0;
    assert(fills_view(out@) =~= want.take(0));
    while i < n
        invariant
            i <= n == fills@.len(),
            want == not_bounded_by(fills_view(fills@), id),
            fills_view(out@) == want.take(i as int),
        decreases n - i,
    {
        let ghost before = out@;
        let next = match &fills[i] {
            None => None,
            Some(d) => if bounded_by(&d.loops, id) {
                None
            } else {
                Some(
                    FillData {
                        payload: d.payload,
                        anchor: d.anchor,
                        loops: copy_loops(&d.loops),
                    },
                )
            },
        };
        out.push(next);
        i = i + 1;
        assert(fills_view(out@) =~= fills_view(before).push(
            match next {
                None => None::<Fill>,
                Some(d) => Some(d@),
            },
        ));
        assert(want.take(i as int) =~= want.take(i - 1).push(want[i - 1]));
    }
    assert(want.take(n as int) =~= want);
    out
}

// ---- what the edits keep ----

/// Fills stay in order where every live curve stays live.
proof fn lemma_same_curves_wf(m1: Model, m2: Model)
    requires
        scene_wf(m1),
        graph_wf(m2.g),
        m1.fills == m2.fills,
        m1.g.curves == m2.g.curves,
    ensures
        scene_wf(m2),
{
    assert forall|i: int| 0 <= i < m2.fills.len() && (#[trigger] m2.fills[i])
        is Some implies loops_live(m2.g, (m2.fills[i]->0).loops) by {
        assert(m1.fills[i] is Some);
        let loops = (m1.fills[i]->0).loops;
        assert forall|a: int| 0 <= a < loops.len() implies loop_live(
            m2.g,
            #[trigger] loops[a],
        ) by {
            assert(loop_live(m1.g, loops[a]));
        }
    }
}

pub proof fn lemma_new_curve_wf(g: Graph, p: Cubic, tag: u64)
    requires
        graph_wf(g),
        g.curves.len() < u32::MAX,
        g.verts.len() + 2 <= u32::MAX,
    ensures
        graph_wf(with_new_curve(g, p, tag)),
{
    let g2 = with_new_curve(g, p, tag);
    assert forall|i: int| 0 <= i < g2.curves.len() && (#[trigger] g2.curves[i]) is Some implies
        vertex_live(g2, (g2.curves[i]->0).v0) && vertex_live(g2, (g2.curves[i]->0).v1) by {
        if i < g.curves.len() {
            assert(g.curves[i] is Some);
        }
    }
}

pub proof fn lemma_without_wf(g: Graph, id: CurveId)
    requires
        graph_wf(g),
        curve_live(g, id),
    ensures
        graph_wf(without(g, id)),
{
    let g2 = without(g, id);
    assert forall|i: int| 0 <= i < g2.curves.len() && (#[trigger] g2.curves[i]) is Some implies
        vertex_live(g2, (g2.curves[i]->0).v0) && vertex_live(g2, (g2.curves[i]->0).v1) by {
        assert(g.curves[i] is Some);
    }
}

pub proof fn lemma_moved_wf(g: Graph, v: VertexId, to: Point)
    requires
        graph_wf(g),
        vertex_live(g, v),
    ensures
        graph_wf(with_vertex_at(g, v, to)),
{
    let g2 = with_vertex_at(g, v, to);
    assert forall|i: int| 0 <= i < g2.curves.len() && (#[trigger] g2.curves[i]) is Some implies
        vertex_live(g2, (g2.curves[i]->0).v0) && vertex_live(g2, (g2.curves[i]->0).v1) by {
        assert(g.curves[i] is Some);
    }
}

} // verus!
