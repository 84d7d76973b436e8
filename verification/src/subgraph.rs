//! Extract a sub-arrangement into a new scene, and merge one scene into another.
//! Used by hosts for grouping / clipboard / movie-clip conversion.
//!
//! A subset of a planar arrangement is still planar, so neither half of an
//! extraction needs the rules run again. `merge` brings independent geometry
//! together and re-planarizes the seam. Curve tags and fill payloads are
//! preserved throughout.

use vstd::prelude::*;

use crate::calc::{Arith, Calc, Op};
use crate::error::Fault;
use crate::face::loops_live;
use crate::fill::{
    bounds, fill_live, fill_of, fills_view, fills_wf, law_refilled, mark_loops, refilled, Fill,
    FillData,
};
use crate::graft::{grafted, lemma_grafted, lemma_grafted_wf, Graft};
use crate::graph::{
    any_curve, curve_ids_of, curve_live, curve_of, graph_wf, lemma_pick, pick, swept, vertex_live,
    Arrangement, Curve, CurveId, FillId, Graph,
};
use crate::islands::{blank, marks};
use crate::locate::deep;
use crate::pipeline::MAX_STEPS;
use crate::point::{spec_plus, Point};
use crate::scalar::Scalar;
use crate::scene::{copy_loops, replanarized, scene_wf, Model, Scene};
use crate::walk::{loop_live, HalfEdge};

verus! {

// ---- what is taken and what is left ----

/// The curves to take: the chosen ones, and every boundary curve of a chosen
/// fill.
pub open spec fn inside_of(m: Model, curves: Set<CurveId>, fills: Set<FillId>) -> Set<CurveId> {
    Set::new(
        |c: CurveId|
            curves.contains(c) || exists|f: FillId| #[trigger]
                fills.contains(f) && fill_live(m, f) && bounds(fill_of(m, f).loops, c),
    )
}

/// The boundary curves of the fills that are kept.
pub open spec fn walls_of(m: Model, fills: Set<FillId>) -> Set<CurveId> {
    Set::new(
        |c: CurveId|
            exists|f: FillId|
                #![trigger fill_live(m, f)]
                !fills.contains(f) && fill_live(m, f) && bounds(fill_of(m, f).loops, c),
    )
}

pub open spec fn in_set(set: Set<CurveId>) -> spec_fn(CurveId, Curve) -> bool {
    |id: CurveId, c: Curve| set.contains(id)
}

/// The live curves to take, in ascending order.
pub open spec fn taken_ids(m: Model, inside: Set<CurveId>) -> Seq<CurveId> {
    pick(m.g.curves, in_set(inside), m.g.curves.len() as int)
}

/// No vertices and no curves, with the same distances.
pub open spec fn bare(g: Graph) -> Graph {
    Graph { verts: Seq::empty(), curves: Seq::empty(), snap: g.snap, tol: g.tol }
}

/// The taken curves, in an arrangement of their own.
pub open spec fn taken_graft(ar: Arith, m: Model, inside: Set<CurveId>) -> Graft {
    let ids = taken_ids(m, inside);
    grafted(ar, m.g, None, bare(m.g), ids, ids.len() as int)
}

/// A loop along the copies of its curves.
pub open spec fn carried_loop(cmap: Seq<Option<CurveId>>, lp: Seq<HalfEdge>) -> Seq<HalfEdge> {
    lp.map_values(|he: HalfEdge| (cmap[he.0.0 as int]->0, he.1))
}

pub open spec fn carried_loops(cmap: Seq<Option<CurveId>>, loops: Seq<Seq<HalfEdge>>) -> Seq<
    Seq<HalfEdge>,
> {
    loops.map_values(|lp: Seq<HalfEdge>| carried_loop(cmap, lp))
}

/// The chosen live fills below `n`, along the copies of their curves.
pub open spec fn taken_fills(
    m: Model,
    fills: Set<FillId>,
    cmap: Seq<Option<CurveId>>,
    n: int,
) -> Seq<Option<Fill>>
    decreases n,
{
    if n <= 0 {
        Seq::empty()
    } else {
        let rest = taken_fills(m, fills, cmap, n - 1);
        let id = FillId((n - 1) as u32);
        if fills.contains(id) && m.fills[n - 1] is Some {
            let f = m.fills[n - 1]->0;
            rest.push(Some(Fill { loops: carried_loops(cmap, f.loops), ..f }))
        } else {
            rest
        }
    }
}

/// The old and new ids of the chosen live fills below `n`, when the first of
/// them becomes `base`.
pub open spec fn fill_pairs(m: Model, fills: Set<FillId>, base: int, n: int) -> Seq<(FillId, FillId)>
    decreases n,
{
    if n <= 0 {
        Seq::empty()
    } else {
        let rest = fill_pairs(m, fills, base, n - 1);
        let id = FillId((n - 1) as u32);
        if fills.contains(id) && m.fills[n - 1] is Some {
            rest.push((id, FillId((base + rest.len()) as u32)))
        } else {
            rest
        }
    }
}

/// The old and new ids of the copied curves below `n`.
pub open spec fn curve_pairs(cmap: Seq<Option<CurveId>>, n: int) -> Seq<(CurveId, CurveId)>
    decreases n,
{
    if n <= 0 {
        Seq::empty()
    } else {
        let rest = curve_pairs(cmap, n - 1);
        match cmap[n - 1] {
            None => rest,
            Some(c) => rest.push((CurveId((n - 1) as u32), c)),
        }
    }
}

/// The arrangement without the taken curves, but for those that a kept fill
/// still needs.
pub open spec fn left_graph(g: Graph, inside: Set<CurveId>, walls: Set<CurveId>) -> Graph {
    Graph {
        curves: Seq::new(
            g.curves.len(),
            |i: int|
                if inside.contains(CurveId(i as u32)) && !walls.contains(CurveId(i as u32)) {
                    None
                } else {
                    g.curves[i]
                },
        ),
        ..g
    }
}

/// The fills without the chosen ones.
pub open spec fn left_fills(all: Seq<Option<Fill>>, fills: Set<FillId>) -> Seq<Option<Fill>> {
    Seq::new(
        all.len(),
        |i: int|
            if fills.contains(FillId(i as u32)) {
                None
            } else {
                all[i]
            },
    )
}

/// An extraction: the scene that is left, and the scene that is taken.
pub open spec fn extracted(ar: Arith, m: Model, curves: Set<CurveId>, fills: Set<FillId>) -> Result<
    (Model, Model),
    Fault,
> {
    let inside = inside_of(m, curves, fills);
    let g = swept(left_graph(m.g, inside, walls_of(m, fills)));
    let s = taken_graft(ar, m, inside);
    match refilled(ar, g, left_fills(m.fills, fills)) {
        Err(e) => Err(e),
        Ok(kept) => Ok(
            (
                Model { g, fills: kept },
                Model { g: s.g, fills: taken_fills(m, fills, s.cmap, m.fills.len() as int) },
            ),
        ),
    }
}

// ---- merging ----

/// The fills of `other` below `n`, translated, their loops yet to be derived.
pub open spec fn merged_fills(ar: Arith, other: Model, off: Point, n: int) -> Seq<Option<Fill>>
    decreases n,
{
    if n <= 0 {
        Seq::empty()
    } else {
        let rest = merged_fills(ar, other, off, n - 1);
        match other.fills[n - 1] {
            None => rest,
            Some(f) => rest.push(
                Some(
                    Fill {
                        payload: f.payload,
                        anchor: spec_plus(ar, f.anchor, off),
                        loops: Seq::empty(),
                    },
                ),
            ),
        }
    }
}

/// The arrangement with the live curves of `other` copied in, translated.
pub open spec fn merge_graft(ar: Arith, g: Graph, other: Graph, off: Point) -> Graft {
    let ids = curve_ids_of(other);
    grafted(ar, other, Some(off), g, ids, ids.len() as int)
}

/// The ids that `n` new curves get.
pub open spec fn new_ids(g: Graph, n: nat) -> Seq<CurveId> {
    Seq::new(n, |j: int| CurveId((g.curves.len() + j) as u32))
}

/// The scene with all of `other` merged in, translated by `off`.
pub open spec fn merged_scene(ar: Arith, m: Model, other: Model, off: Point) -> Result<Model, Fault> {
    replanarized(
        ar,
        merge_graft(ar, m.g, other.g, off).g,
        new_ids(m.g, curve_ids_of(other.g).len()),
        m.fills + merged_fills(ar, other, off, other.fills.len() as int),
    )
}

/// There are ids left for all of `other` and all that a run of the pipeline can
/// make of it.
pub open spec fn merge_room(m: Model, other: Model) -> bool {
    &&& m.g.curves.len() + other.g.curves.len() + 4 * MAX_STEPS <= u32::MAX
    &&& m.g.verts.len() + other.g.verts.len() + MAX_STEPS <= u32::MAX
    &&& m.fills.len() + other.fills.len() <= u32::MAX
}

// ---- lemmas ----

/// Picked curves are live and distinct.
pub proof fn lemma_picked(g: Graph, pred: spec_fn(CurveId, Curve) -> bool)
    requires
        graph_wf(g),
    ensures
        ({
            let ids = pick(g.curves, pred, g.curves.len() as int);
            &&& forall|i: int| 0 <= i < ids.len() ==> curve_live(g, #[trigger] ids[i])
            &&& ids.no_duplicates()
            &&& ids.len() <= g.curves.len()
            &&& forall|c: CurveId| #[trigger]
                ids.contains(c) <==> curve_live(g, c) && pred(c, curve_of(g, c))
        }),
{
    lemma_pick(g.curves, pred, g.curves.len() as int);
    let ids = pick(g.curves, pred, g.curves.len() as int);
    assert forall|i: int, j: int|
        0 <= i < ids.len() && 0 <= j < ids.len() && i != j implies ids[i] != ids[j] by {
        if i < j {
            assert(ids[i].0 < ids[j].0);
        } else {
            assert(ids[j].0 < ids[i].0);
        }
    }
}

/// A taken curve has a live copy.
proof fn lemma_taken(ar: Arith, m: Model, inside: Set<CurveId>, c: CurveId)
    requires
        scene_wf(m),
        curve_live(m.g, c),
        inside.contains(c),
    ensures
        ({
            let s = taken_graft(ar, m, inside);
            &&& s.cmap[c.0 as int] is Some
            &&& curve_live(s.g, s.cmap[c.0 as int]->0)
        }),
{
    let ids = taken_ids(m, inside);
    lemma_picked(m.g, in_set(inside));
    lemma_grafted(ar, m.g, None, bare(m.g), ids, ids.len() as int);
    assert(ids.contains(c));
    let j = choose|j: int| 0 <= j < ids.len() && ids[j] == c;
    assert(ids[j] == c);
}

/// The taken scene is in order.
pub proof fn lemma_taken_wf(ar: Arith, m: Model, curves: Set<CurveId>, fills: Set<FillId>, n: int)
    requires
        scene_wf(m),
        0 <= n <= m.fills.len(),
    ensures
        ({
            let s = taken_graft(ar, m, inside_of(m, curves, fills));
            let all = taken_fills(m, fills, s.cmap, n);
            &&& graph_wf(s.g)
            &&& all.len() <= n
            &&& all.len() == fill_pairs(m, fills, 0, n).len()
            &&& fills_wf(s.g, all)
        }),
    decreases n,
{
    let inside = inside_of(m, curves, fills);
    let s = taken_graft(ar, m, inside);
    let ids = taken_ids(m, inside);
    lemma_picked(m.g, in_set(inside));
    lemma_grafted_wf(ar, m.g, None, bare(m.g), ids);
    if n > 0 {
        lemma_taken_wf(ar, m, curves, fills, n - 1);
        let rest = taken_fills(m, fills, s.cmap, n - 1);
        let all = taken_fills(m, fills, s.cmap, n);
        let id = FillId((n - 1) as u32);
        if fills.contains(id) && m.fills[n - 1] is Some {
            let f = m.fills[n - 1]->0;
            let loops = carried_loops(s.cmap, f.loops);
            assert(loops_live(m.g, f.loops));
            assert forall|a: int| 0 <= a < loops.len() implies loop_live(s.g, #[trigger] loops[a]) by {
                assert(loop_live(m.g, f.loops[a]));
                assert forall|b: int| 0 <= b < loops[a].len() implies curve_live(
                    s.g,
                    (#[trigger] loops[a][b]).0,
                ) by {
                    let c = f.loops[a][b].0;
                    assert(curve_live(m.g, f.loops[a][b].0));
                    assert(bounds(f.loops, c));
                    assert(fills.contains(id) && fill_live(m, id) && bounds(
                        fill_of(m, id).loops,
                        c,
                    ));
                    lemma_taken(ar, m, inside, c);
                }
            }
            assert forall|i: int| 0 <= i < all.len() && (#[trigger] all[i]) is Some implies loops_live(
                s.g,
                (all[i]->0).loops,
            ) by {
                if i < rest.len() {
                    assert(all[i] == rest[i]);
                }
            }
        }
    }
}

pub proof fn lemma_left_wf(g: Graph, inside: Set<CurveId>, walls: Set<CurveId>)
    requires
        graph_wf(g),
    ensures
        graph_wf(left_graph(g, inside, walls)),
{
    let l = left_graph(g, inside, walls);
    assert forall|i: int| 0 <= i < l.curves.len() && (#[trigger] l.curves[i]) is Some implies
        vertex_live(l, (l.curves[i]->0).v0) && vertex_live(l, (l.curves[i]->0).v1) by {
        assert(g.curves[i] is Some);
    }
}

pub proof fn lemma_merged_fills(ar: Arith, other: Model, off: Point, n: int)
    ensures
        n >= 0 ==> merged_fills(ar, other, off, n).len() <= n,
    decreases n,
{
    if n > 0 {
        lemma_merged_fills(ar, other, off, n - 1);
    }
}

// ---- running it ----

/// The old and new ids of the copied curves.
fn pairs(cmap: &Vec<Option<CurveId>>) -> (r: Vec<(CurveId, CurveId)>)
    requires
        cmap@.len() <= u32::MAX,
    ensures
        r@ == curve_pairs(cmap@, cmap@.len() as int),
{
    let mut out: Vec<(CurveId, CurveId)> = Vec::new();
    let n: usize = cmap.len();
    let mut i: usize = 0;
    while i < n
        invariant
            i <= n == cmap@.len() <= u32::MAX,
            out@ == curve_pairs(cmap@, i as int),
        decreases n - i,
    {
        if let Some(c) = cmap[i] {
            out.push((CurveId(i as u32), c));
        }
        i = i + 1;
    }
    out
}

/// Marks the chosen fills.
fn mark_fills(n: usize, chosen: &Vec<FillId>) -> (r: Vec<bool>)
    requires
        n <= u32::MAX,
    ensures
        r@.len() == n,
        forall|i: int|
            #![trigger r@[i]]
            0 <= i < n ==> (r@[i] <==> chosen@.to_set().contains(FillId(i as u32))),
{
    let mut r = blank(n);
    let m: usize = chosen.len();
    let mut j: usize = 0;
    while j < m
        invariant
            j <= m == chosen@.len(),
            n <= u32::MAX,
            r@.len() == n,
            forall|i: int|
                #![trigger r@[i]]
                0 <= i < n ==> (r@[i] <==> exists|x: int|
                    0 <= x < j && #[trigger] chosen@[x] == FillId(i as u32)),
        decreases m - j,
    {
        let ghost before = r@;
        let id = chosen[j];
        if (id.0 as usize) < n {
            r.set(id.0 as usize, true);
        }
        assert forall|i: int| #![trigger r@[i]] 0 <= i < n implies (r@[i] <==> exists|x: int|
            0 <= x < j + 1 && #[trigger] chosen@[x] == FillId(i as u32)) by {
            if before[i] {
                let x = choose|x: int| 0 <= x < j && #[trigger] chosen@[x] == FillId(i as u32);
                assert(chosen@[x] == FillId(i as u32));
            }
            if chosen@[j as int] == FillId(i as u32) {
                assert(r@[i]);
            } else {
                assert(r@[i] == before[i]);
            }
        }
        j = j + 1;
    }
    assert forall|i: int| #![trigger r@[i]] 0 <= i < n implies (r@[i]
        <==> chosen@.to_set().contains(FillId(i as u32))) by {
        if r@[i] {
            let x = choose|x: int| 0 <= x < m && #[trigger] chosen@[x] == FillId(i as u32);
            assert(chosen@.contains(FillId(i as u32)));
        }
        if chosen@.contains(FillId(i as u32)) {
            let x = choose|x: int| 0 <= x < m && chosen@[x] == FillId(i as u32);
            assert(chosen@[x] == FillId(i as u32));
        }
    }
    r
}

/// A list of loops along the copies of their curves.
fn carry_loops(
    cmap: &Vec<Option<CurveId>>,
    loops: &Vec<Vec<HalfEdge>>,
    Ghost(g): Ghost<Graph>,
) -> (r: Vec<Vec<HalfEdge>>)
    requires
        cmap@.len() == g.curves.len(),
        loops_live(g, deep(loops@)),
        forall|c: CurveId| #[trigger] bounds(deep(loops@), c) ==> cmap@[c.0 as int] is Some,
    ensures
        deep(r@) == carried_loops(cmap@, deep(loops@)),
{
    let ghost d = deep(loops@);
    let ghost want = carried_loops(cmap@, d);
    let mut out: Vec<Vec<HalfEdge>> = Vec::new();
    let n: usize = loops.len();
    let mut i: usize = 0;
    assert(deep(out@) =~= want.take(0));
    while i < n
        invariant
            i <= n == loops@.len(),
            d == deep(loops@),
            want == carried_loops(cmap@, d),
            cmap@.len() == g.curves.len(),
            loops_live(g, d),
            forall|c: CurveId| #[trigger] bounds(d, c) ==> cmap@[c.0 as int] is Some,
            deep(out@) == want.take(i as int),
        decreases n - i,
    {
        let lp = &loops[i];
        assert(d[i as int] == lp@);
        assert(loop_live(g, d[i as int]));
        let mut one: Vec<HalfEdge> = Vec::new();
        let m: usize = lp.len();
        let mut j: usize = 0;
        while j < m
            invariant
                i < n == loops@.len(),
                d == deep(loops@),
                d[i as int] == lp@,
                j <= m == lp@.len(),
                loop_live(g, lp@),
                cmap@.len() == g.curves.len(),
                forall|c: CurveId| #[trigger] bounds(d, c) ==> cmap@[c.0 as int] is Some,
                one@ == carried_loop(cmap@, lp@).take(j as int),
            decreases m - j,
        {
            let he = lp[j];
            proof {
                assert(curve_live(g, lp@[j as int].0));
                assert(d[i as int][j as int].0 == he.0);
                assert(bounds(d, he.0));
            }
            if let Some(c) = cmap[he.0.0 as usize] {
                one.push((c, he.1));
            }
            j = j + 1;
            assert(carried_loop(cmap@, lp@).take(j as int) =~= carried_loop(cmap@, lp@).take(
                j - 1,
            ).push(carried_loop(cmap@, lp@)[j - 1]));
        }
        assert(carried_loop(cmap@, lp@).take(m as int) =~= carried_loop(cmap@, lp@));
        let ghost before = out@;
        out.push(one);
        i = i + 1;
        assert(deep(out@) =~= deep(before).push(one@));
        assert(want.take(i as int) =~= want.take(i - 1).push(want[i - 1]));
    }
    assert(want.take(n as int) =~= want);
    out
}

impl Scene {
    /// Marks the curves to take.
    fn mark_inside(&self, curves: &Vec<CurveId>, chosen: &Vec<bool>, Ghost(fills): Ghost<Set<FillId>>) -> (r:
        Vec<bool>)
        requires
            self.wf(),
            forall|i: int| 0 <= i < curves@.len() ==> (#[trigger] curves@[i]).0 < self@.g.curves.len(),
            chosen@.len() == self@.fills.len(),
            forall|i: int|
                #![trigger chosen@[i]]
                0 <= i < chosen@.len() ==> (chosen@[i] <==> fills.contains(FillId(i as u32))),
        ensures
            marks(self@.g, r@, inside_of(self@, curves@.to_set(), fills)),
    {
        let ghost m = self@;
        let n: usize = self.arr.curves.len();
        let mut bits = blank(n);
        let nc: usize = curves.len();
        let mut i: usize = 0;
        while i < nc
            invariant
                i <= nc == curves@.len(),
                n == m.g.curves.len() <= u32::MAX,
                bits@.len() == n,
                forall|j: int| 0 <= j < curves@.len() ==> (#[trigger] curves@[j]).0 < n,
                forall|x: int|
                    #![trigger bits@[x]]
                    0 <= x < n ==> (bits@[x] <==> exists|j: int|
                        0 <= j < i && #[trigger] curves@[j] == CurveId(x as u32)),
            decreases nc - i,
        {
            let ghost before = bits@;
            assert(curves@[i as int].0 < n);
            bits.set(curves[i].0 as usize, true);
            assert forall|x: int| #![trigger bits@[x]] 0 <= x < n implies (bits@[x] <==> exists|
                j: int,
            | 0 <= j < i + 1 && #[trigger] curves@[j] == CurveId(x as u32)) by {
                if before[x] {
                    let j = choose|j: int|
                        0 <= j < i && #[trigger] curves@[j] == CurveId(x as u32);
                    assert(curves@[j] == CurveId(x as u32));
                }
                if curves@[i as int] == CurveId(x as u32) {
                    assert(bits@[x]);
                } else {
                    assert(bits@[x] == before[x]);
                }
            }
            i = i + 1;
        }
        let ghost chose = bits@;
        assert forall|x: int| #![trigger chose[x]] 0 <= x < n implies (chose[x]
            <==> curves@.to_set().contains(CurveId(x as u32))) by {
            if chose[x] {
                let j = choose|j: int| 0 <= j < nc && #[trigger] curves@[j] == CurveId(x as u32);
                assert(curves@.contains(CurveId(x as u32)));
            }
            if curves@.contains(CurveId(x as u32)) {
                let j = choose|j: int| 0 <= j < nc && curves@[j] == CurveId(x as u32);
                assert(curves@[j] == CurveId(x as u32));
            }
        }
        self.mark_bounds(chosen, true, &mut bits);
        assert forall|x: int| #![trigger bits@[x]] 0 <= x < n implies (bits@[x] <==> inside_of(
            m,
            curves@.to_set(),
            fills,
        ).contains(CurveId(x as u32))) by {
            let c = CurveId(x as u32);
            assert(chose[x] <==> curves@.to_set().contains(c));
            if exists|f: int|
                0 <= f < m.fills.len() && (#[trigger] m.fills[f]) is Some && chosen@[f] && bounds(
                    (m.fills[f]->0).loops,
                    c,
                ) {
                let f = choose|f: int|
                    0 <= f < m.fills.len() && (#[trigger] m.fills[f]) is Some && chosen@[f]
                        && bounds((m.fills[f]->0).loops, c);
                let id = FillId(f as u32);
                assert(fills.contains(id) && fill_live(m, id) && bounds(fill_of(m, id).loops, c));
            }
            if exists|f: FillId| #[trigger]
                fills.contains(f) && fill_live(m, f) && bounds(fill_of(m, f).loops, c) {
                let f = choose|f: FillId| #[trigger]
                    fills.contains(f) && fill_live(m, f) && bounds(fill_of(m, f).loops, c);
                assert(chosen@[f.0 as int]);
                assert(m.fills[f.0 as int] is Some);
            }
        }
        bits
    }

    /// Adds marks on the boundary curves of the live fills that are chosen, or
    /// of those that are not.
    fn mark_bounds(&self, chosen: &Vec<bool>, which: bool, bits: &mut Vec<bool>)
        requires
            self.wf(),
            chosen@.len() == self@.fills.len(),
            old(bits)@.len() == self@.g.curves.len(),
        ensures
            final(bits)@.len() == self@.g.curves.len(),
            forall|x: int|
                #![trigger final(bits)@[x]]
                0 <= x < self@.g.curves.len() ==> (final(bits)@[x] <==> old(bits)@[x] || exists|
                    f: int,
                |
                    0 <= f < self@.fills.len() && (#[trigger] self@.fills[f]) is Some && chosen@[f]
                        == which && bounds((self@.fills[f]->0).loops, CurveId(x as u32))),
    {
        let ghost m = self@;
        let ghost start = bits@;
        let n: usize = self.fills.len();
        let mut i: usize = 0;
        while i < n
            invariant
                self.wf(),
                self@ == m,
                i <= n == m.fills.len(),
                n == self.fills@.len(),
                chosen@.len() == n,
                bits@.len() == m.g.curves.len() == start.len(),
                forall|x: int|
                    #![trigger bits@[x]]
                    0 <= x < m.g.curves.len() ==> (bits@[x] <==> start[x] || exists|f: int|
                        0 <= f < i && (#[trigger] m.fills[f]) is Some && chosen@[f] == which
                            && bounds((m.fills[f]->0).loops, CurveId(x as u32))),
            decreases n - i,
        {
            let ghost before = bits@;
            if chosen[i] == which {
                if let Some(d) = &self.fills[i] {
                    proof {
                        assert(m.fills[i as int] == Some(d@));
                        assert(m.fills[i as int] is Some);
                    }
                    mark_loops(&d.loops, bits, Ghost(m.g));
                }
            }
            assert(m.fills[i as int] is Some <==> self.fills@[i as int] is Some);
            assert forall|x: int| #![trigger bits@[x]] 0 <= x < m.g.curves.len() implies (bits@[x]
                <==> start[x] || exists|f: int|
                0 <= f < i + 1 && (#[trigger] m.fills[f]) is Some && chosen@[f] == which && bounds(
                    (m.fills[f]->0).loops,
                    CurveId(x as u32),
                )) by {
                let c = CurveId(x as u32);
                if before[x] && !start[x] {
                    let f = choose|f: int|
                        0 <= f < i && (#[trigger] m.fills[f]) is Some && chosen@[f] == which
                            && bounds((m.fills[f]->0).loops, c);
                    assert(m.fills[f] is Some);
                }
                if m.fills[i as int] is Some && chosen@[i as int] == which {
                    assert(bits@[x] <==> before[x] || bounds((m.fills[i as int]->0).loops, c));
                } else {
                    assert(bits@[x] == before[x]);
                }
            }
            i = i + 1;
        }
    }

    /// The marked curves that are live, in ascending order.
    fn marked_ids(&self, bits: &Vec<bool>, Ghost(set): Ghost<Set<CurveId>>) -> (r: Vec<CurveId>)
        requires
            self.wf(),
            marks(self@.g, bits@, set),
        ensures
            r@ == taken_ids(self@, set),
    {
        let ghost g = self@.g;
        let mut out: Vec<CurveId> = Vec::new();
        let n: usize = self.arr.curves.len();
        let mut i: usize = 0;
        while i < n
            invariant
                self@.g == g,
                i <= n == g.curves.len() <= u32::MAX,
                marks(g, bits@, set),
                out@ == pick(g.curves, in_set(set), i as int),
            decreases n - i,
        {
            let b = bits[i];
            if b && self.arr.curves[i].is_some() {
                out.push(CurveId(i as u32));
            }
            i = i + 1;
        }
        out
    }

    /// The chosen fills, along the copies of their curves, with their old and
    /// new ids.
    fn take_fills(
        &self,
        chosen: &Vec<bool>,
        cmap: &Vec<Option<CurveId>>,
        Ghost(fills): Ghost<Set<FillId>>,
    ) -> (r: (Vec<Option<FillData>>, Vec<(FillId, FillId)>))
        requires
            self.wf(),
            chosen@.len() == self@.fills.len(),
            forall|i: int|
                #![trigger chosen@[i]]
                0 <= i < chosen@.len() ==> (chosen@[i] <==> fills.contains(FillId(i as u32))),
            cmap@.len() == self@.g.curves.len(),
            forall|f: FillId, c: CurveId|
                #![trigger fills.contains(f), bounds(fill_of(self@, f).loops, c)]
                fills.contains(f) && fill_live(self@, f) && bounds(fill_of(self@, f).loops, c)
                    ==> cmap@[c.0 as int] is Some,
        ensures
            fills_view(r.0@) == taken_fills(self@, fills, cmap@, self@.fills.len() as int),
            r.1@ == fill_pairs(self@, fills, 0, self@.fills.len() as int),
    {
        let ghost m = self@;
        let mut out: Vec<Option<FillData>> = Vec::new();
        let mut ids: Vec<(FillId, FillId)> = Vec::new();
        let n: usize = self.fills.len();
        let mut i: usize = 0;
        assert(fills_view(out@) =~= Seq::<Option<Fill>>::empty());
        while i < n
            invariant
                self.wf(),
                self@ == m,
                i <= n == m.fills.len() <= u32::MAX,
                n == self.fills@.len(),
                chosen@.len() == n,
                forall|x: int|
                    #![trigger chosen@[x]]
                    0 <= x < chosen@.len() ==> (chosen@[x] <==> fills.contains(FillId(x as u32))),
                cmap@.len() == m.g.curves.len(),
                forall|f: FillId, c: CurveId|
                    #![trigger fills.contains(f), bounds(fill_of(m, f).loops, c)]
                    fills.contains(f) && fill_live(m, f) && bounds(fill_of(m, f).loops, c)
                        ==> cmap@[c.0 as int] is Some,
                fills_view(out@) == taken_fills(m, fills, cmap@, i as int),
                ids@ == fill_pairs(m, fills, 0, i as int),
                out@.len() == ids@.len() <= i,
            decreases n - i,
        {
            let ghost before = out@;
            let ghost id = FillId(i as u32);
            let take = chosen[i];
            assert(take == fills.contains(id));
            assert(m.fills[i as int] is Some <==> self.fills@[i as int] is Some);
            if take {
                if let Some(d) = &self.fills[i] {
                    proof {
                        assert(m.fills[i as int] == Some(d@));
                        assert(m.fills[i as int] is Some);
                        assert(fill_live(m, id) && fill_of(m, id) == d@);
                        assert forall|c: CurveId| #[trigger]
                            bounds(deep(d.loops@), c) implies cmap@[c.0 as int] is Some by {
                            assert(fills.contains(id) && bounds(fill_of(m, id).loops, c));
                        }
                    }
                    let loops = carry_loops(cmap, &d.loops, Ghost(m.g));
                    let next = FillData { payload: d.payload, anchor: d.anchor, loops };
                    ids.push((FillId(i as u32), FillId(out.len() as u32)));
                    out.push(Some(next));
                    assert(fills_view(out@) =~= fills_view(before).push(Some(next@)));
                }
            }
            i = i + 1;
        }
        (out, ids)
    }

    /// The fills without the chosen ones.
    fn leave_fills(&self, chosen: &Vec<bool>, Ghost(fills): Ghost<Set<FillId>>) -> (r: Vec<
        Option<FillData>,
    >)
        requires
            self.wf(),
            chosen@.len() == self@.fills.len(),
            forall|i: int|
                #![trigger chosen@[i]]
                0 <= i < chosen@.len() ==> (chosen@[i] <==> fills.contains(FillId(i as u32))),
        ensures
            fills_view(r@) == left_fills(self@.fills, fills),
    {
        let ghost want = left_fills(self@.fills, fills);
        let mut out: Vec<Option<FillData>> = Vec::new();
        let n: usize = self.fills.len();
        let mut i: usize = 0;
        assert(fills_view(out@) =~= want.take(0));
        while i < n
            invariant
                i <= n == self@.fills.len(),
                n == self.fills@.len(),
                chosen@.len() == n,
                forall|x: int|
                    #![trigger chosen@[x]]
                    0 <= x < chosen@.len() ==> (chosen@[x] <==> fills.contains(FillId(x as u32))),
                want == left_fills(self@.fills, fills),
                fills_view(out@) == want.take(i as int),
            decreases n - i,
        {
            let ghost before = out@;
            let take = chosen[i];
            let next = if take {
                None
            } else {
                match &self.fills[i] {
                    None => None,
                    Some(d) => Some(
                        FillData {
                            payload: d.payload,
                            anchor: d.anchor,
                            loops: copy_loops(&d.loops),
                        },
                    ),
                }
            };
            out.push(next);
            i = i + 1;
            assert(fills_view(out@) =~= fills_view(before).push(
                match next {
                    None => None::<Fill>,
                    Some(d) => Some(d@),
                },
            ));
            assert(want.take(i as int) =~= want.take(i - 1).push(want[i - 1]));
        }
        assert(want.take(n as int) =~= want);
        out
    }

    /// The arrangement without the taken curves, but for those that a kept fill
    /// still needs.
    fn leave_curves(
        &self,
        inside: &Vec<bool>,
        walls: &Vec<bool>,
        Ghost(a): Ghost<Set<CurveId>>,
        Ghost(b): Ghost<Set<CurveId>>,
    ) -> (r: Arrangement)
        requires
            self.wf(),
            marks(self@.g, inside@, a),
            marks(self@.g, walls@, b),
        ensures
            r@ == left_graph(self@.g, a, b),
    {
        let ghost g = self@.g;
        let mut arr = self.arr.copy();
        let n: usize = arr.curves.len();
        let mut i: usize = 0;
        while i < n
            invariant
                i <= n == g.curves.len() <= u32::MAX,
                marks(g, inside@, a),
                marks(g, walls@, b),
                arr@.verts == g.verts,
                arr@.snap == g.snap,
                arr@.tol == g.tol,
                arr@.curves.len() == n,
                forall|x: int| 0 <= x < i ==> #[trigger] arr@.curves[x] == left_graph(g, a, b).curves[x],
                forall|x: int| i <= x < n ==> #[trigger] arr@.curves[x] == g.curves[x],
            decreases n - i,
        {
            let take = inside[i];
            let keep = walls[i];
            if take && !keep {
                arr.curves.set(i, None);
            }
            i = i + 1;
        }
        assert(arr@.curves =~= left_graph(g, a, b).curves);
        arr
    }

    /// Move `curves` and `fills` out of this scene into a new one, leaving the
    /// remainder here. The selection is completed automatically:
    ///
    /// - every boundary curve of an extracted fill is pulled in too (so the fill
    ///   isn't dangling), and
    /// - any extracted curve that *also* bounds a fill we are keeping is
    ///   **duplicated**: copied into the new scene but kept here, so the kept
    ///   fill still has its wall.
    ///
    /// Shared vertices are duplicated by position. Curve tags and fill payloads
    /// are preserved. Dead ids are passed over. Returns the new scene, and the
    /// old and new ids of its curves and fills in ascending order of the old.
    pub fn extract<F: Fn(Op, Scalar, Scalar) -> Scalar>(
        &mut self,
        k: &Calc<F>,
        curves: &Vec<CurveId>,
        fills: &Vec<FillId>,
    ) -> (r: Result<(Scene, Vec<(CurveId, CurveId)>, Vec<(FillId, FillId)>), Fault>)
        requires
            k.wf(),
            old(self).wf(),
            forall|i: int|
                0 <= i < curves@.len() ==> (#[trigger] curves@[i]).0 < old(self)@.g.curves.len(),
        ensures
            final(self).wf(),
            match extracted(k@, old(self)@, curves@.to_set(), fills@.to_set()) {
                Err(e) => {
                    &&& r == Err::<
                        (Scene, Vec<(CurveId, CurveId)>, Vec<(FillId, FillId)>),
                        Fault,
                    >(e)
                    &&& final(self)@ == old(self)@
                },
                Ok((left, taken)) => {
                    &&& r is Ok
                    &&& final(self)@ == left
                    &&& r->Ok_0.0.wf()
                    &&& r->Ok_0.0@ == taken
                    &&& r->Ok_0.1@ == curve_pairs(
                        taken_graft(
                            k@,
                            old(self)@,
                            inside_of(old(self)@, curves@.to_set(), fills@.to_set()),
                        ).cmap,
                        old(self)@.g.curves.len() as int,
                    )
                    &&& r->Ok_0.2@ == fill_pairs(
                        old(self)@,
                        fills@.to_set(),
                        0,
                        old(self)@.fills.len() as int,
                    )
                },
            },
    {
        let ghost m = self@;
        let ghost cset = curves@.to_set();
        let ghost fset = fills@.to_set();
        let ghost inside = inside_of(m, cset, fset);
        let ghost walls = walls_of(m, fset);
        let chosen = mark_fills(self.fills.len(), fills);
        let ibits = self.mark_inside(curves, &chosen, Ghost(fset));
        let mut wbits = blank(self.arr.curves.len());
        self.mark_bounds(&chosen, false, &mut wbits);
        proof {
            lemma_walls(m, fset, chosen@, wbits@);
            lemma_picked(m.g, in_set(inside));
        }
        let ids = self.marked_ids(&ibits, Ghost(inside));
        let mut taken = Arrangement {
            verts: Vec::new(),
            curves: Vec::new(),
            snap: self.arr.snap,
            tol: self.arr.tol,
        };
        assert(taken@ =~= bare(m.g));
        let cmap = taken.graft(k, &self.arr, None, &ids);
        proof {
            lemma_grafted(k@, m.g, None, bare(m.g), ids@, ids@.len() as int);
            assert forall|f: FillId, c: CurveId|
                #![trigger fset.contains(f), bounds(fill_of(m, f).loops, c)]
                fset.contains(f) && fill_live(m, f) && bounds(
                    fill_of(m, f).loops,
                    c,
                ) implies cmap@[c.0 as int] is Some by {
                assert(inside.contains(c));
                lemma_bounds_live(m, f, c);
                lemma_taken(k@, m, inside, c);
            }
            lemma_taken_wf(k@, m, cset, fset, m.fills.len() as int);
            lemma_left_wf(m.g, inside, walls);
        }
        let (new_fills, fmap) = self.take_fills(&chosen, &cmap, Ghost(fset));
        let mut arr = self.leave_curves(&ibits, &wbits, Ghost(inside), Ghost(walls));
        arr.sweep_orphan_vertices();
        let kept = self.leave_fills(&chosen, Ghost(fset));
        let now = match arr.retrace(k, &kept) {
            Err(e) => {
                return Err(e);
            },
            Ok(now) => now,
        };
        proof {
            law_refilled(k@, arr@, fills_view(kept@));
        }
        self.arr = arr;
        self.fills = now;
        let cpairs = pairs(&cmap);
        Ok((Scene { arr: taken, fills: new_fills }, cpairs, fmap))
    }

    /// Whether there are ids left for a merge of `other`.
    pub fn has_merge_room(&self, other: &Scene) -> (r: bool)
        requires
            self.wf(),
            other.wf(),
        ensures
            r == merge_room(self@, other@),
    {
        let most: u64 = u32::MAX as u64;
        self.arr.curves.len() as u64 + other.arr.curves.len() as u64 + 4 * MAX_STEPS <= most
            && self.arr.verts.len() as u64 + other.arr.verts.len() as u64 + MAX_STEPS <= most
            && self.fills.len() as u64 + other.fills.len() as u64 <= most
    }

    /// Merge every curve and fill of `other` into this scene, translated by
    /// `offset`. The seam is re-planarized (crossings between merged and existing
    /// geometry split; coincident vertices snap; duplicate curves dedupe), so the
    /// result is a valid arrangement. Tags and payloads are preserved. Returns
    /// the old and new ids of `other`'s curves and fills in ascending order of
    /// the old (for a curve the id before the rules were run; it may since have
    /// been split further).
    pub fn merge<F: Fn(Op, Scalar, Scalar) -> Scalar>(
        &mut self,
        k: &Calc<F>,
        other: &Scene,
        offset: Point,
    ) -> (r: Result<(Vec<(CurveId, CurveId)>, Vec<(FillId, FillId)>), Fault>)
        requires
            k.wf(),
            old(self).wf(),
            other.wf(),
            merge_room(old(self)@, other@),
        ensures
            final(self).wf(),
            match merged_scene(k@, old(self)@, other@, offset) {
                Err(e) => {
                    &&& r == Err::<(Vec<(CurveId, CurveId)>, Vec<(FillId, FillId)>), Fault>(e)
                    &&& final(self)@ == old(self)@
                },
                Ok(m) => {
                    &&& r is Ok
                    &&& final(self)@ == m
                    &&& r->Ok_0.0@ == curve_pairs(
                        merge_graft(k@, old(self)@.g, other@.g, offset).cmap,
                        other@.g.curves.len() as int,
                    )
                    &&& r->Ok_0.1@ == fill_pairs(
                        other@,
                        Set::full(),
                        old(self)@.fills.len() as int,
                        other@.fills.len() as int,
                    )
                },
            },
    {
        let ghost m = self@;
        let ghost o = other@;
        let mut arr = self.arr.copy();
        let ids = other.curve_ids();
        proof {
            lemma_picked(o.g, any_curve());
        }
        let cmap = arr.graft(k, &other.arr, Some(offset), &ids);
        proof {
            lemma_grafted(k@, o.g, Some(offset), m.g, ids@, ids@.len() as int);
            lemma_grafted_wf(k@, o.g, Some(offset), m.g, ids@);
        }
        let base: usize = self.arr.curves.len();
        let n: usize = ids.len();
        let mut dirty: Vec<CurveId> = Vec::new();
        let mut i: usize = 0;
        while i < n
            invariant
                i <= n,
                base == m.g.curves.len(),
                base + n <= u32::MAX,
                dirty@ == new_ids(m.g, i as nat),
            decreases n - i,
        {
            dirty.push(CurveId((base + i) as u32));
            i = i + 1;
            assert(new_ids(m.g, i as nat) =~= new_ids(m.g, (i - 1) as nat).push(
                CurveId((base + i - 1) as u32),
            ));
        }
        let (fills, fmap) = self.join_fills(k, other, offset);
        proof {
            lemma_merged_fills(k@, o, offset, o.fills.len() as int);
        }
        match Scene::replanarize(k, arr, dirty, &fills) {
            Err(e) => Err(e),
            Ok((scene, _)) => {
                *self = scene;
                Ok((pairs(&cmap), fmap))
            },
        }
    }

    /// This scene's fills and those of `other`, translated, with the old and new
    /// ids of the latter.
    fn join_fills<F: Fn(Op, Scalar, Scalar) -> Scalar>(
        &self,
        k: &Calc<F>,
        other: &Scene,
        offset: Point,
    ) -> (r: (Vec<Option<FillData>>, Vec<(FillId, FillId)>))
        requires
            k.wf(),
            self.wf(),
            other.wf(),
            merge_room(self@, other@),
        ensures
            fills_view(r.0@) == self@.fills + merged_fills(
                k@,
                other@,
                offset,
                other@.fills.len() as int,
            ),
            r.1@ == fill_pairs(
                other@,
                Set::full(),
                self@.fills.len() as int,
                other@.fills.len() as int,
            ),
    {
        let ghost m = self@;
        let ghost o = other@;
        let blank_marks = blank(self.fills.len());
        let mut out = self.leave_fills(&blank_marks, Ghost(Set::empty()));
        assert(left_fills(m.fills, Set::empty()) =~= m.fills);
        let mut ids: Vec<(FillId, FillId)> = Vec::new();
        let base: usize = self.fills.len();
        let n: usize = other.fills.len();
        let mut i: usize = 0;
        assert(fills_view(out@) =~= m.fills + merged_fills(k@, o, offset, 0));
        while i < n
            invariant
                k.wf(),
                other@ == o,
                i <= n == o.fills.len(),
                n == other.fills@.len(),
                base == m.fills.len(),
                base + n <= u32::MAX,
                fills_view(out@) == m.fills + merged_fills(k@, o, offset, i as int),
                ids@ == fill_pairs(o, Set::full(), base as int, i as int),
                ids@.len() <= i,
            decreases n - i,
        {
            let ghost before = out@;
            let ghost so_far = merged_fills(k@, o, offset, i as int);
            assert(o.fills[i as int] is Some <==> other.fills@[i as int] is Some);
            assert(Set::<FillId>::full().contains(FillId(i as u32)));
            if let Some(d) = &other.fills[i] {
                assert(o.fills[i as int] == Some(d@));
                let next = FillData {
                    payload: d.payload,
                    anchor: d.anchor.plus(k, offset),
                    loops: Vec::new(),
                };
                assert(deep(next.loops@) =~= Seq::<Seq<HalfEdge>>::empty());
                ids.push((FillId(i as u32), FillId((base + ids.len()) as u32)));
                out.push(Some(next));
                assert(fills_view(out@) =~= fills_view(before).push(Some(next@)));
                assert((m.fills + so_far).push(Some(next@)) =~= m.fills + so_far.push(Some(next@)));
            }
            i = i + 1;
        }
        (out, ids)
    }
}

/// The boundary curves of a fill are live.
pub proof fn lemma_bounds_live(m: Model, f: FillId, c: CurveId)
    requires
        scene_wf(m),
        fill_live(m, f),
        bounds(fill_of(m, f).loops, c),
    ensures
        curve_live(m.g, c),
{
    let loops = fill_of(m, f).loops;
    assert(m.fills[f.0 as int] is Some);
    let (i, j) = choose|i: int, j: int|
        0 <= i < loops.len() && 0 <= j < loops[i].len() && (#[trigger] loops[i][j]).0 == c;
    assert(loop_live(m.g, loops[i]));
    assert(curve_live(m.g, loops[i][j].0));
}

proof fn lemma_walls(m: Model, fills: Set<FillId>, chosen: Seq<bool>, bits: Seq<bool>)
    requires
        scene_wf(m),
        chosen.len() == m.fills.len(),
        forall|i: int|
            #![trigger chosen[i]]
            0 <= i < chosen.len() ==> (chosen[i] <==> fills.contains(FillId(i as u32))),
        bits.len() == m.g.curves.len(),
        forall|x: int|
            #![trigger bits[x]]
            0 <= x < m.g.curves.len() ==> (bits[x] <==> exists|f: int|
                0 <= f < m.fills.len() && (#[trigger] m.fills[f]) is Some && chosen[f] == false
                    && bounds((m.fills[f]->0).loops, CurveId(x as u32))),
    ensures
        marks(m.g, bits, walls_of(m, fills)),
{
    assert forall|x: int| #![trigger bits[x]] 0 <= x < bits.len() implies (bits[x] <==> walls_of(
        m,
        fills,
    ).contains(CurveId(x as u32))) by {
        let c = CurveId(x as u32);
        if bits[x] {
            let f = choose|f: int|
                0 <= f < m.fills.len() && (#[trigger] m.fills[f]) is Some && chosen[f] == false
                    && bounds((m.fills[f]->0).loops, c);
            let id = FillId(f as u32);
            assert(fill_live(m, id) && !fills.contains(id) && bounds(fill_of(m, id).loops, c));
        }
        if walls_of(m, fills).contains(c) {
            let id = choose|f: FillId|
                #![trigger fill_live(m, f)]
                !fills.contains(f) && fill_live(m, f) && bounds(fill_of(m, f).loops, c);
            assert(m.fills[id.0 as int] is Some);
            assert(chosen[id.0 as int] == false);
        }
    }
}

} // verus!
