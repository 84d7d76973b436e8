//! Taking a scene apart into its slots, and putting one together from them.
//! Ids are plain slot numbers and never reused, so the slots as they are keep
//! every id, fill boundaries included.

use vstd::prelude::*;

use crate::face::loops_live;
use crate::fill::{fills_view, fills_wf, FillData};
use crate::graph::{curve_live, graph_wf, vertex_live, Arrangement, Curve, Graph};
use crate::locate::deep;
use crate::point::Point;
use crate::scalar::Scalar;
use crate::scene::{scene_wf, Model, Scene};
use crate::walk::{loop_live, HalfEdge};

verus! {

/// Whether every live curve ends at live vertices.
fn curves_in_order(arr: &Arrangement) -> (r: bool)
    ensures
        r == graph_wf(arr@),
{
    let n: usize = arr.curves.len();
    if arr.verts.len() as u64 > u32::MAX as u64 || n as u64 > u32::MAX as u64 {
        return false;
    }
    let mut i: usize = 0;
    while i < n
        invariant
            i <= n == arr@.curves.len() <= u32::MAX,
            arr@.verts.len() <= u32::MAX,
            forall|j: int|
                0 <= j < i && (#[trigger] arr@.curves[j]) is Some ==> vertex_live(
                    arr@,
                    (arr@.curves[j]->0).v0,
                ) && vertex_live(arr@, (arr@.curves[j]->0).v1),
        decreases n - i,
    {
        if let Some(c) = arr.curves[i] {
            assert(arr@.curves[i as int] is Some);
            if !arr.vertex_live(c.v0) || !arr.vertex_live(c.v1) {
                return false;
            }
        }
        i = i + 1;
    }
    true
}

fn loop_in_order(arr: &Arrangement, lp: &Vec<HalfEdge>) -> (r: bool)
    ensures
        r == loop_live(arr@, lp@),
{
    let n: usize = lp.len();
    let mut i: usize = 0;
    while i < n
        invariant
            i <= n == lp@.len(),
            forall|j: int| 0 <= j < i ==> curve_live(arr@, (#[trigger] lp@[j]).0),
        decreases n - i,
    {
        if !arr.curve_live(lp[i].0) {
            assert(!curve_live(arr@, lp@[i as int].0));
            return false;
        }
        i = i + 1;
    }
    true
}

fn loops_in_order(arr: &Arrangement, loops: &Vec<Vec<HalfEdge>>) -> (r: bool)
    ensures
        r == loops_live(arr@, deep(loops@)),
{
    let n: usize = loops.len();
    let mut i: usize = 0;
    while i < n
        invariant
            i <= n == loops@.len(),
            forall|j: int| 0 <= j < i ==> loop_live(arr@, #[trigger] deep(loops@)[j]),
        decreases n - i,
    {
        assert(deep(loops@)[i as int] == loops@[i as int]@);
        if !loop_in_order(arr, &loops[i]) {
            assert(!loop_live(arr@, deep(loops@)[i as int]));
            return false;
        }
        i = i + 1;
    }
    true
}

/// Whether every live fill runs along live curves.
fn fills_in_order(arr: &Arrangement, fills: &Vec<Option<FillData>>) -> (r: bool)
    ensures
        r == fills_wf(arr@, fills_view(fills@)),
{
    let n: usize = fills.len();
    if n as u64 > u32::MAX as u64 {
        return false;
    }
    let ghost all = fills_view(fills@);
    let mut i: usize = 0;
    while i < n
        invariant
            i <= n == fills@.len() <= u32::MAX,
            all == fills_view(fills@),
            forall|j: int|
                0 <= j < i && (#[trigger] all[j]) is Some ==> loops_live(arr@, (all[j]->0).loops),
        decreases n - i,
    {
        if let Some(d) = &fills[i] {
            assert(all[i as int] == Some(d@));
            assert(all[i as int] is Some);
            if !loops_in_order(arr, &d.loops) {
                return false;
            }
        }
        i = i + 1;
    }
    true
}

impl Scene {
    /// The vertex slots.
    pub fn vertex_slots(&self) -> (r: &Vec<Option<Point>>)
        ensures
            r@ == self@.g.verts,
    {
        &self.arr.verts
    }

    /// The curve slots.
    pub fn curve_slots(&self) -> (r: &Vec<Option<Curve>>)
        ensures
            r@ == self@.g.curves,
    {
        &self.arr.curves
    }

    /// The fill slots.
    pub fn fill_slots(&self) -> (r: &Vec<Option<FillData>>)
        ensures
            fills_view(r@) == self@.fills,
    {
        &self.fills
    }

    /// The scene with the given slots, unless a curve ends at a dead vertex, a
    /// fill runs along a dead curve, or there are more slots than ids.
    pub fn from_slots(
        verts: Vec<Option<Point>>,
        curves: Vec<Option<Curve>>,
        fills: Vec<Option<FillData>>,
        snap: Scalar,
        tol: Scalar,
    ) -> (r: Option<Scene>)
        ensures
            ({
                let m = Model {
                    g: Graph { verts: verts@, curves: curves@, snap, tol },
                    fills: fills_view(fills@),
                };
                match r {
                    Some(s) => s.wf() && s@ == m && scene_wf(m),
                    None => !scene_wf(m),
                }
            }),
    {
        let arr = Arrangement { verts, curves, snap, tol };
        if curves_in_order(&arr) && fills_in_order(&arr, &fills) {
            Some(Scene { arr, fills })
        } else {
            None
        }
    }
}

} // verus!
