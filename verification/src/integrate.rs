//! Running the rules pipeline on an arrangement.

use std::collections::VecDeque;

use vstd::prelude::*;

use crate::calc::{Calc, Op};
use crate::error::{viewed, Fault};
use crate::geom::{
    dist, eval, poly_hits, poly_self_hits, polygon_len, seg_dist, self_intersection, spec_poly_hits,
    spec_seg_dist, split, subsegment, untagged, Hit, Tagged,
};
use crate::graph::{
    curve_live, eps_of, graph_wf, lemma_vertices, pick, points_of, polyline_of, touching,
    vertex_ids_of, vertex_live, vpos_of, Arrangement, Curve, CurveId, Graph, VertexId,
};
use crate::pipeline::{
    all_live, coincide, cut_loop, dedup, degenerate, descends_from, enqueue, examine,
    first_conflict, first_crossing, first_tangle, harmless, integrated, lemma_crossing,
    lemma_dedup_wf, lemma_examine_wf, lemma_others, lemma_remedy, lemma_rivals, lemma_snap_pair,
    lemma_split_wf, merged, nearby, next_curve, other_than, others_of, own_roots, popped, redirect,
    redirect_all, remedy_for, resolved, rival_of, rivals_of, run, runs_along, self_hit, snap_pair,
    spec_cuttable, spec_stub_side, split_at, step_room, touches, untangled, with_vertex,
    within_snap, without_curve, work_wf, Remedy, Work, MAX_STEPS,
};
use crate::point::Point;
use crate::scalar::{Scalar, E4, ONE, ONE_LESS_E4, ZERO};

verus! {

/// The curves still to look at, and the ancestor of every curve.
pub struct Agenda {
    pub queue: VecDeque<CurveId>,
    pub root: Vec<CurveId>,
}

pub open spec fn work_of(g: Graph, agenda: Agenda) -> Work {
    Work { g, queue: agenda.queue@, root: agenda.root@ }
}

/// Whether a parameter lies on the straightened first and last segment of a
/// tagged polyline.
fn stub_side(poly: &Vec<Tagged>, t: Scalar) -> (r: (bool, bool))
    ensures
        r == spec_stub_side(poly@, t),
{
    if poly.len() < 2 {
        return (true, true);
    }
    (t.le(poly[1].0), poly[poly.len() - 2].0.le(t))
}

fn cuttable(t: Scalar) -> (r: bool)
    ensures
        r == spec_cuttable(t),
{
    (Scalar { bits: E4 }).lt(t) && t.lt(Scalar { bits: ONE_LESS_E4 })
}

/// Whether `p` lies within `eps` of some segment of `poly`.
fn point_touches<F: Fn(Op, Scalar, Scalar) -> Scalar>(
    k: &Calc<F>,
    p: Point,
    poly: &Vec<Point>,
    eps: Scalar,
) -> (r: bool)
    requires
        k.wf(),
    ensures
        r == touches(k@, p, poly@, eps),
{
    let n: usize = poly.len();
    let mut j: usize = 1;
    while j < n
        invariant
            k.wf(),
            1 <= j,
            n == poly@.len(),
            forall|i: int|
                0 <= i < j - 1 && i < n - 1 ==> !spec_seg_dist(
                    k@,
                    p,
                    #[trigger] poly@[i],
                    poly@[i + 1],
                ).spec_lt(eps),
        decreases n - j,
    {
        if seg_dist(k, p, poly[j - 1], poly[j]).lt(eps) {
            assert(spec_seg_dist(k@, p, poly@[j - 1], poly@[j - 1 + 1]).spec_lt(eps));
            return true;
        }
        j = j + 1;
    }
    false
}

/// Whether every point of `poly` lies within `eps` of `other`.
fn all_touch<F: Fn(Op, Scalar, Scalar) -> Scalar>(
    k: &Calc<F>,
    poly: &Vec<Point>,
    other: &Vec<Point>,
    eps: Scalar,
) -> (r: bool)
    requires
        k.wf(),
    ensures
        r == runs_along(k@, poly@, other@, eps),
{
    let n: usize = poly.len();
    let mut i: usize = 0;
    while i < n
        invariant
            k.wf(),
            i <= n == poly@.len(),
            forall|j: int| 0 <= j < i ==> touches(k@, #[trigger] poly@[j], other@, eps),
        decreases n - i,
    {
        if !point_touches(k, poly[i], other, eps) {
            return false;
        }
        i = i + 1;
    }
    true
}

impl Arrangement {
    fn near_vertex<F: Fn(Op, Scalar, Scalar) -> Scalar>(
        &self,
        k: &Calc<F>,
        p: Point,
        v: VertexId,
    ) -> (r: bool)
        requires
            k.wf(),
            vertex_live(self@, v),
        ensures
            r == within_snap(k@, self@, p, v),
    {
        dist(k, p, self.vpos(v)).lt(self.snap)
    }

    /// Splits a curve at parameter `t`, joining the two pieces at `vm`.
    fn split_curve_at<F: Fn(Op, Scalar, Scalar) -> Scalar>(
        &mut self,
        k: &Calc<F>,
        id: CurveId,
        t: Scalar,
        vm: VertexId,
        agenda: &mut Agenda,
    ) -> (r: (CurveId, CurveId))
        requires
            k.wf(),
            work_wf(work_of(old(self)@, *old(agenda))),
            curve_live(old(self)@, id),
            vertex_live(old(self)@, vm),
            old(self)@.curves.len() + 2 <= u32::MAX,
        ensures
            work_of(final(self)@, *final(agenda)) == split_at(
                k@,
                work_of(old(self)@, *old(agenda)),
                id,
                t,
                vm,
            ),
            r.0.0 == old(self)@.curves.len(),
            r.1.0 == old(self)@.curves.len() + 1,
    {
        let pts = self.points(id);
        let c = self.curve(id);
        let (l, r) = split(k, pts, t);
        self.drop_curve(id);
        let root = agenda.root[id.0 as usize];
        let a = self.alloc_curve(Curve { v0: c.v0, c0: l.p1, c1: l.p2, v1: vm, tag: c.tag });
        agenda.root.push(root);
        let b = self.alloc_curve(Curve { v0: vm, c0: r.p1, c1: r.p2, v1: c.v1, tag: c.tag });
        agenda.root.push(root);
        (a, b)
    }

    /// Cuts the loop out of a curve that meets itself at `h`.
    fn cut_loop_at<F: Fn(Op, Scalar, Scalar) -> Scalar>(
        &mut self,
        k: &Calc<F>,
        id: CurveId,
        h: Hit,
        agenda: &mut Agenda,
    )
        requires
            k.wf(),
            work_wf(work_of(old(self)@, *old(agenda))),
            curve_live(old(self)@, id),
            step_room(old(self)@),
        ensures
            work_of(final(self)@, *final(agenda)) == enqueue(
                cut_loop(k@, work_of(old(self)@, *old(agenda)), id, h),
                seq![
                    next_curve(work_of(old(self)@, *old(agenda)), 0),
                    next_curve(work_of(old(self)@, *old(agenda)), 1),
                    next_curve(work_of(old(self)@, *old(agenda)), 2),
                ],
            ),
    {
        let pts = self.points(id);
        let c = self.curve(id);
        let root = agenda.root[id.0 as usize];
        let s0 = subsegment(k, pts, Scalar { bits: ZERO }, h.t);
        let s1 = subsegment(k, pts, h.t, h.u);
        let s2 = subsegment(k, pts, h.u, Scalar { bits: ONE });
        let vm = self.alloc_vertex(h.p);
        self.drop_curve(id);
        let a = self.alloc_curve(Curve { v0: c.v0, c0: s0.p1, c1: s0.p2, v1: vm, tag: c.tag });
        agenda.root.push(root);
        agenda.queue.push_back(a);
        let b = self.alloc_curve(Curve { v0: vm, c0: s1.p1, c1: s1.p2, v1: vm, tag: c.tag });
        agenda.root.push(root);
        agenda.queue.push_back(b);
        let d = self.alloc_curve(Curve { v0: vm, c0: s2.p1, c1: s2.p2, v1: c.v1, tag: c.tag });
        agenda.root.push(root);
        agenda.queue.push_back(d);
    }

    /// Merges `lose` into `keep` (keeping the position of `keep`), re-queueing
    /// every affected curve.
    fn merge_vertices(&mut self, keep: VertexId, lose: VertexId, agenda: &mut Agenda)
        requires
            work_wf(work_of(old(self)@, *old(agenda))),
            vertex_live(old(self)@, keep),
            vertex_live(old(self)@, lose),
            keep != lose,
        ensures
            work_of(final(self)@, *final(agenda)) == merged(
                work_of(old(self)@, *old(agenda)),
                keep,
                lose,
            ),
    {
        let ghost w0 = work_of(self@, *agenda);
        let ghost after = redirect_all(w0.g.curves, keep, lose);
        let n: usize = self.curves.len();
        let mut i: usize = 0;
        assert(w0.queue + Seq::<CurveId>::empty() =~= w0.queue);
        while i < n
            invariant
                i <= n == w0.g.curves.len() <= u32::MAX,
                after == redirect_all(w0.g.curves, keep, lose),
                self@.verts == w0.g.verts,
                self@.snap == w0.g.snap,
                self@.tol == w0.g.tol,
                self@.curves.len() == n,
                agenda.root@ == w0.root,
                forall|j: int| 0 <= j < i ==> #[trigger] self@.curves[j] == after[j],
                forall|j: int| i <= j < n ==> #[trigger] self@.curves[j] == w0.g.curves[j],
                agenda.queue@ == w0.queue + pick(w0.g.curves, touching(lose), i as int),
            decreases n - i,
        {
            assert(self@.curves[i as int] == w0.g.curves[i as int]);
            if let Some(c) = self.curves[i] {
                let v0 = if c.v0 == lose {
                    keep
                } else {
                    c.v0
                };
                let v1 = if c.v1 == lose {
                    keep
                } else {
                    c.v1
                };
                let moved = Curve { v0, c0: c.c0, c1: c.c1, v1, tag: c.tag };
                self.curves.set(i, Some(moved));
                if c.v0 == lose || c.v1 == lose {
                    agenda.queue.push_back(CurveId(i as u32));
                }
                proof {
                    assert(moved == redirect(c, keep, lose));
                    let before = pick(w0.g.curves, touching(lose), i as int);
                    assert((w0.queue + before).push(CurveId(i as u32)) =~= w0.queue + before.push(
                        CurveId(i as u32),
                    ));
                }
            }
            i = i + 1;
        }
        assert(self@.curves =~= after);
        let ghost q1 = agenda.queue@;
        let ghost g1 = self@;
        let mut m: usize = 0;
        assert(q1 + Seq::<CurveId>::empty() =~= q1);
        while m < n
            invariant
                m <= n == after.len() <= u32::MAX,
                self@ == g1,
                self@.curves == after,
                agenda.root@ == w0.root,
                agenda.queue@ == q1 + pick(after, touching(keep), m as int),
            decreases n - m,
        {
            if let Some(c) = self.curves[m] {
                if c.v0 == keep || c.v1 == keep {
                    agenda.queue.push_back(CurveId(m as u32));
                    proof {
                        let before = pick(after, touching(keep), m as int);
                        assert((q1 + before).push(CurveId(m as u32)) =~= q1 + before.push(
                            CurveId(m as u32),
                        ));
                    }
                }
            }
            m = m + 1;
        }
        self.verts.set(lose.0 as usize, None);
    }

    /// The other curves between the same two vertices as `cid`.
    fn rivals(&self, cid: CurveId) -> (r: Vec<CurveId>)
        requires
            graph_wf(self@),
            curve_live(self@, cid),
        ensures
            r@ == rivals_of(self@, cid),
    {
        let me = self.curve(cid);
        let mut out: Vec<CurveId> = Vec::new();
        let n: usize = self.curves.len();
        let mut i: usize = 0;
        while i < n
            invariant
                i <= n == self@.curves.len() <= u32::MAX,
                out@ == pick(self@.curves, rival_of(cid, me.v0, me.v1), i as int),
            decreases n - i,
        {
            if let Some(c) = self.curves[i] {
                let id = CurveId(i as u32);
                if id != cid && ((c.v0 == me.v0 && c.v1 == me.v1) || (c.v0 == me.v1 && c.v1
                    == me.v0)) {
                    out.push(id);
                }
            }
            i = i + 1;
        }
        out
    }

    /// The live curves other than `cid`.
    fn others(&self, cid: CurveId) -> (r: Vec<CurveId>)
        requires
            graph_wf(self@),
        ensures
            r@ == others_of(self@, cid),
    {
        let mut out: Vec<CurveId> = Vec::new();
        let n: usize = self.curves.len();
        let mut i: usize = 0;
        while i < n
            invariant
                i <= n == self@.curves.len() <= u32::MAX,
                out@ == pick(self@.curves, other_than(cid), i as int),
            decreases n - i,
        {
            if self.curves[i].is_some() {
                let id = CurveId(i as u32);
                if id != cid {
                    out.push(id);
                }
            }
            i = i + 1;
        }
        out
    }

    /// If `cid` duplicates another live curve (same endpoint vertices, whole
    /// polylines within eps both ways), deletes the one with the higher id.
    /// Returns whether that was `cid`.
    fn drop_duplicate_of<F: Fn(Op, Scalar, Scalar) -> Scalar>(
        &mut self,
        k: &Calc<F>,
        cid: CurveId,
        agenda: &mut Agenda,
    ) -> (r: bool)
        requires
            k.wf(),
            work_wf(work_of(old(self)@, *old(agenda))),
            curve_live(old(self)@, cid),
        ensures
            (r, work_of(final(self)@, *final(agenda))) == dedup(
                k@,
                work_of(old(self)@, *old(agenda)),
                cid,
                rivals_of(old(self)@, cid),
                0,
            ),
    {
        let ghost w0 = work_of(self@, *agenda);
        let eps = self.eps(k);
        let rivals = self.rivals(cid);
        proof {
            lemma_rivals(self@, cid);
        }
        let pa = self.polyline(k, cid);
        let n: usize = rivals.len();
        let mut i: usize = 0;
        while i < n
            invariant
                k.wf(),
                i <= n == rivals@.len(),
                rivals@ == rivals_of(w0.g, cid),
                w0 == work_of(old(self)@, *old(agenda)),
                eps == eps_of(k@, self@),
                pa@ == untagged(polyline_of(k@, self@, cid)),
                work_wf(work_of(self@, *agenda)),
                curve_live(self@, cid),
                all_live(self@, rivals@, i as int),
                forall|j: int| i <= j < rivals@.len() ==> #[trigger] rivals@[j] != cid,
                dedup(k@, w0, cid, rivals@, 0) == dedup(
                    k@,
                    work_of(self@, *agenda),
                    cid,
                    rivals@,
                    i as int,
                ),
            decreases n - i,
        {
            let oid = rivals[i];
            let pb = self.polyline(k, oid);
            let same = all_touch(k, &pa, &pb, eps) && all_touch(k, &pb, &pa, eps);
            assert(same == coincide(k@, self@, cid, oid)) by {
                reveal(coincide);
            }
            if same {
                if cid.0 > oid.0 {
                    self.drop_curve(cid);
                    return true;
                }
                let ghost w1 = work_of(self@, *agenda);
                self.drop_curve(oid);
                agenda.queue.push_back(cid);
                proof {
                    reveal(polyline_of);
                    assert(points_of(self@, cid) == points_of(w1.g, cid));
                    assert(work_of(self@, *agenda) =~= enqueue(
                        without_curve(w1, oid),
                        seq![cid],
                    ));
                }
            }
            i = i + 1;
        }
        false
    }

    /// Where the curve meets itself.
    fn find_self_hit<F: Fn(Op, Scalar, Scalar) -> Scalar>(&self, k: &Calc<F>, cid: CurveId) -> (r: Result<
        Option<Hit>,
        Fault,
    >)
        requires
            k.wf(),
            graph_wf(self@),
            curve_live(self@, cid),
        ensures
            r == self_hit(k@, self@, cid),
    {
        let pts = self.points(cid);
        if let Some((t1, t2)) = self_intersection(k, pts) {
            let h = Hit { t: t1, u: t2, p: eval(k, pts, t1) };
            if !self.is_harmless(k, cid, h) {
                return Ok(Some(h));
            }
        }
        let poly = self.polyline_tagged(k, cid);
        let eps = self.eps(k);
        match poly_self_hits(k, &poly, eps) {
            Err(e) => Err(e),
            Ok(hits) => {
                let n: usize = hits.len();
                let mut i: usize = 0;
                while i < n
                    invariant
                        k.wf(),
                        i <= n == hits@.len(),
                        graph_wf(self@),
                        curve_live(self@, cid),
                        self_hit(k@, self@, cid) == Ok::<Option<Hit>, Fault>(
                            first_tangle(k@, self@, cid, hits@, i as int),
                        ),
                    decreases n - i,
                {
                    if !self.is_harmless(k, cid, hits[i]) {
                        return Ok(Some(hits[i]));
                    }
                    i = i + 1;
                }
                Ok(None)
            },
        }
    }

    /// Whether the curve's meeting itself at `h` calls for no cut.
    fn is_harmless<F: Fn(Op, Scalar, Scalar) -> Scalar>(&self, k: &Calc<F>, cid: CurveId, h: Hit) -> (r:
        bool)
        requires
            k.wf(),
            graph_wf(self@),
            curve_live(self@, cid),
        ensures
            r == harmless(k@, self@, cid, h),
    {
        let c = self.curve(cid);
        assert(self@.curves[cid.0 as int] is Some);
        let near0 = self.near_vertex(k, h.p, c.v0);
        (near0 || self.near_vertex(k, h.p, c.v1)) && !cuttable(if near0 {
            h.u
        } else {
            h.t
        })
    }

    /// Resolves the curve's meeting itself at `h`. Returns whether anything
    /// was done.
    fn untangle<F: Fn(Op, Scalar, Scalar) -> Scalar>(
        &mut self,
        k: &Calc<F>,
        cid: CurveId,
        h: Hit,
        agenda: &mut Agenda,
    ) -> (r: bool)
        requires
            k.wf(),
            work_wf(work_of(old(self)@, *old(agenda))),
            curve_live(old(self)@, cid),
            step_room(old(self)@),
        ensures
            ({
                let w0 = work_of(old(self)@, *old(agenda));
                let w1 = work_of(final(self)@, *final(agenda));
                match untangled(k@, w0, cid, h) {
                    Some(w2) => r && w1 == w2,
                    None => !r && w1 == w0,
                }
            }),
    {
        let c = self.curve(cid);
        assert(self@.curves[cid.0 as int] is Some);
        let near0 = self.near_vertex(k, h.p, c.v0);
        let near1 = self.near_vertex(k, h.p, c.v1);
        if near0 || near1 {
            let vend = if near0 {
                c.v0
            } else {
                c.v1
            };
            let t = if near0 {
                h.u
            } else {
                h.t
            };
            if cuttable(t) {
                let ghost q0 = agenda.queue@;
                let (a, b) = self.split_curve_at(k, cid, t, vend, agenda);
                agenda.queue.push_back(a);
                agenda.queue.push_back(b);
                assert(agenda.queue@ =~= q0 + seq![a, b]);
                return true;
            }
            return false;
        }
        self.cut_loop_at(k, cid, h, agenda);
        true
    }

    /// What the meeting of two curves calls for.
    fn remedy<F: Fn(Op, Scalar, Scalar) -> Scalar>(
        &self,
        k: &Calc<F>,
        cid: CurveId,
        oid: CurveId,
        pa: &Vec<Tagged>,
        pb: &Vec<Tagged>,
        h: Hit,
    ) -> (r: Remedy)
        requires
            k.wf(),
            graph_wf(self@),
            curve_live(self@, cid),
            curve_live(self@, oid),
            pa@ == polyline_of(k@, self@, cid),
            pb@ == polyline_of(k@, self@, oid),
        ensures
            r == remedy_for(k@, self@, cid, oid, h),
    {
        let c = self.curve(cid);
        let o = self.curve(oid);
        assert(self@.curves[cid.0 as int] is Some);
        assert(self@.curves[oid.0 as int] is Some);
        let (cs0, cs1) = stub_side(pa, h.t);
        let (os0, os1) = stub_side(pb, h.u);
        let near_c0 = cs0 && self.near_vertex(k, h.p, c.v0);
        let near_c1 = cs1 && self.near_vertex(k, h.p, c.v1);
        let near_o0 = os0 && self.near_vertex(k, h.p, o.v0);
        let near_o1 = os1 && self.near_vertex(k, h.p, o.v1);
        let vc = if near_c0 {
            c.v0
        } else {
            c.v1
        };
        let vo = if near_o0 {
            o.v0
        } else {
            o.v1
        };
        match (near_c0 || near_c1, near_o0 || near_o1) {
            (true, true) => {
                if vc == vo {
                    Remedy::Leave
                } else if dist(k, h.p, self.vpos(vc)).le(dist(k, h.p, self.vpos(vo))) {
                    Remedy::Merge { keep: vc, lose: vo }
                } else {
                    Remedy::Merge { keep: vo, lose: vc }
                }
            },
            (true, false) => Remedy::CutOther { at: vc },
            (false, true) => Remedy::CutThis { at: vo },
            (false, false) => Remedy::CutBoth,
        }
    }

    /// The first conflict of `cid` with another curve, and what it calls for.
    fn find_crossing<F: Fn(Op, Scalar, Scalar) -> Scalar>(&self, k: &Calc<F>, cid: CurveId) -> (r: Result<
        Option<(CurveId, Hit, Remedy)>,
        Fault,
    >)
        requires
            k.wf(),
            graph_wf(self@),
            curve_live(self@, cid),
        ensures
            match r {
                Err(e) => first_crossing(k@, self@, cid, others_of(self@, cid), 0) == Err::<
                    Option<(CurveId, Hit)>,
                    Fault,
                >(e),
                Ok(None) => first_crossing(k@, self@, cid, others_of(self@, cid), 0) == Ok::<
                    Option<(CurveId, Hit)>,
                    Fault,
                >(None),
                Ok(Some((oid, h, remedy))) => {
                    &&& first_crossing(k@, self@, cid, others_of(self@, cid), 0) == Ok::<
                        Option<(CurveId, Hit)>,
                        Fault,
                    >(Some((oid, h)))
                    &&& remedy == remedy_for(k@, self@, cid, oid, h)
                },
            },
    {
        let others = self.others(cid);
        let pa = self.polyline_tagged(k, cid);
        let eps = self.eps(k);
        proof {
            lemma_others(self@, cid);
        }
        let n: usize = others.len();
        let mut i: usize = 0;
        while i < n
            invariant
                k.wf(),
                i <= n == others@.len(),
                graph_wf(self@),
                curve_live(self@, cid),
                others@ == others_of(self@, cid),
                forall|j: int|
                    0 <= j < others@.len() ==> curve_live(self@, #[trigger] others@[j]),
                pa@ == polyline_of(k@, self@, cid),
                eps == eps_of(k@, self@),
                first_crossing(k@, self@, cid, others@, 0) == first_crossing(
                    k@,
                    self@,
                    cid,
                    others@,
                    i as int,
                ),
            decreases n - i,
        {
            let oid = others[i];
            let pb = self.polyline_tagged(k, oid);
            match poly_hits(k, &pa, &pb, eps, oid.0 < cid.0) {
                Err(e) => {
                    return Err(e);
                },
                Ok(hits) => {
                    let m: usize = hits.len();
                    let mut j: usize = 0;
                    while j < m
                        invariant
                            k.wf(),
                            j <= m == hits@.len(),
                            graph_wf(self@),
                            curve_live(self@, cid),
                            curve_live(self@, oid),
                            i < others@.len(),
                            oid == others@[i as int],
                            others@ == others_of(self@, cid),
                            pa@ == polyline_of(k@, self@, cid),
                            pb@ == polyline_of(k@, self@, oid),
                            eps == eps_of(k@, self@),
                            spec_poly_hits(k@, pa@, pb@, eps, oid.0 < cid.0) == Ok::<
                                Seq<Hit>,
                                Fault,
                            >(hits@),
                            first_crossing(k@, self@, cid, others@, 0) == first_crossing(
                                k@,
                                self@,
                                cid,
                                others@,
                                i as int,
                            ),
                            first_conflict(k@, self@, cid, oid, hits@, 0) == first_conflict(
                                k@,
                                self@,
                                cid,
                                oid,
                                hits@,
                                j as int,
                            ),
                        decreases m - j,
                    {
                        let remedy = self.remedy(k, cid, oid, &pa, &pb, hits[j]);
                        if remedy != Remedy::Leave {
                            return Ok(Some((oid, hits[j], remedy)));
                        }
                        j = j + 1;
                    }
                },
            }
            i = i + 1;
        }
        Ok(None)
    }

    /// Finds and resolves the first crossing (or sub-eps near-miss) between
    /// the polyline of `cid` and any other curve's. Returns whether there was
    /// one.
    fn cross_split<F: Fn(Op, Scalar, Scalar) -> Scalar>(
        &mut self,
        k: &Calc<F>,
        cid: CurveId,
        agenda: &mut Agenda,
    ) -> (r: Result<bool, Fault>)
        requires
            k.wf(),
            work_wf(work_of(old(self)@, *old(agenda))),
            curve_live(old(self)@, cid),
            step_room(old(self)@),
        ensures
            ({
                let w0 = work_of(old(self)@, *old(agenda));
                let w1 = work_of(final(self)@, *final(agenda));
                match first_crossing(k@, w0.g, cid, others_of(w0.g, cid), 0) {
                    Err(e) => r == Err::<bool, Fault>(e) && w1 == w0,
                    Ok(None) => r == Ok::<bool, Fault>(false) && w1 == w0,
                    Ok(Some((oid, h))) => r == Ok::<bool, Fault>(true) && w1 == resolved(
                        k@,
                        w0,
                        cid,
                        oid,
                        h,
                    ),
                }
            }),
    {
        proof {
            lemma_crossing(k@, self@, cid);
        }
        let ghost w0 = work_of(self@, *agenda);
        let ghost q0 = agenda.queue@;
        let (oid, h, remedy) = match self.find_crossing(k, cid) {
            Err(e) => {
                return Err(e);
            },
            Ok(None) => {
                return Ok(false);
            },
            Ok(Some(found)) => found,
        };
        proof {
            lemma_remedy(k@, self@, cid, oid, h);
        }
        match remedy {
            Remedy::Leave => {},
            Remedy::Merge { keep, lose } => {
                self.merge_vertices(keep, lose, agenda);
                let ghost q1 = agenda.queue@;
                agenda.queue.push_back(cid);
                assert(agenda.queue@ =~= q1 + seq![cid]);
            },
            Remedy::CutOther { at } => {
                let (a, b) = self.split_curve_at(k, oid, h.u, at, agenda);
                agenda.queue.push_back(a);
                agenda.queue.push_back(b);
                agenda.queue.push_back(cid);
                assert(agenda.queue@ =~= q0 + seq![a, b, cid]);
            },
            Remedy::CutThis { at } => {
                let (a, b) = self.split_curve_at(k, cid, h.t, at, agenda);
                agenda.queue.push_back(a);
                agenda.queue.push_back(b);
                agenda.queue.push_back(oid);
                assert(agenda.queue@ =~= q0 + seq![a, b, oid]);
            },
            Remedy::CutBoth => {
                let vm = self.alloc_vertex(h.p);
                proof {
                    let w1 = with_vertex(w0, h.p);
                    assert(work_of(self@, *agenda) == w1);
                    assert forall|i: int|
                        0 <= i < w1.g.curves.len() && (#[trigger] w1.g.curves[i])
                            is Some implies vertex_live(w1.g, (w1.g.curves[i]->0).v0)
                        && vertex_live(w1.g, (w1.g.curves[i]->0).v1) by {
                        assert(w0.g.curves[i] is Some);
                    }
                    lemma_split_wf(k@, w1, cid, h.t, vm);
                }
                let (a, b) = self.split_curve_at(k, cid, h.t, vm, agenda);
                let (c, d) = self.split_curve_at(k, oid, h.u, vm, agenda);
                agenda.queue.push_back(a);
                agenda.queue.push_back(b);
                agenda.queue.push_back(c);
                agenda.queue.push_back(d);
                assert(agenda.queue@ =~= q0 + seq![a, b, c, d]);
            },
        }
        Ok(true)
    }

    /// The first live vertex other than `v` within snap of it.
    fn find_nearby<F: Fn(Op, Scalar, Scalar) -> Scalar>(&self, k: &Calc<F>, v: VertexId) -> (r: Option<
        VertexId,
    >)
        requires
            k.wf(),
            graph_wf(self@),
            vertex_live(self@, v),
        ensures
            r == nearby(k@, self@, v, vertex_ids_of(self@), 0),
    {
        let ids = self.vertex_ids();
        let vp = self.vpos(v);
        proof {
            lemma_vertices(self@.verts, self@.verts.len() as int);
        }
        let n: usize = ids.len();
        let mut i: usize = 0;
        while i < n
            invariant
                k.wf(),
                i <= n == ids@.len(),
                ids@ == vertex_ids_of(self@),
                vp == vpos_of(self@, v),
                vertex_live(self@, v),
                forall|j: int| 0 <= j < ids@.len() ==> vertex_live(self@, #[trigger] ids@[j]),
                nearby(k@, self@, v, ids@, 0) == nearby(k@, self@, v, ids@, i as int),
            decreases n - i,
        {
            assert(vertex_live(self@, ids@[i as int]));
            if ids[i] != v && (self.near_vertex(k, vp, ids[i]) || self.near_vertex(
                k,
                self.vpos(ids[i]),
                v,
            )) {
                return Some(ids[i]);
            }
            i = i + 1;
        }
        None
    }

    /// Merges a vertex of `cid` with a nearby other vertex. Returns whether
    /// there was one.
    fn snap_endpoints<F: Fn(Op, Scalar, Scalar) -> Scalar>(
        &mut self,
        k: &Calc<F>,
        cid: CurveId,
        agenda: &mut Agenda,
    ) -> (r: bool)
        requires
            k.wf(),
            work_wf(work_of(old(self)@, *old(agenda))),
            curve_live(old(self)@, cid),
        ensures
            ({
                let w0 = work_of(old(self)@, *old(agenda));
                let w1 = work_of(final(self)@, *final(agenda));
                match snap_pair(k@, w0.g, cid) {
                    Some((keep, lose)) => r && w1 == merged(w0, keep, lose),
                    None => !r && w1 == w0,
                }
            }),
    {
        let c = self.curve(cid);
        assert(self@.curves[cid.0 as int] is Some);
        proof {
            lemma_snap_pair(k@, self@, cid);
        }
        let (v, hit) = match self.find_nearby(k, c.v0) {
            Some(x) => (c.v0, Some(x)),
            None => (c.v1, self.find_nearby(k, c.v1)),
        };
        if let Some(x) = hit {
            let (keep, lose) = if v.0 < x.0 {
                (v, x)
            } else {
                (x, v)
            };
            self.merge_vertices(keep, lose, agenda);
            return true;
        }
        false
    }

    /// Whether the curve is a loop that renders to nothing.
    fn is_degenerate<F: Fn(Op, Scalar, Scalar) -> Scalar>(&self, k: &Calc<F>, cid: CurveId) -> (r: bool)
        requires
            k.wf(),
            graph_wf(self@),
            curve_live(self@, cid),
        ensures
            r == degenerate(k@, self@, cid),
    {
        let c = self.curve(cid);
        c.v0 == c.v1 && (polygon_len(k, self.points(cid)).lt(self.snap) || self.polyline_tagged(
            k,
            cid,
        ).len() < 3)
    }

    /// Applies the rules to one curve: the first that calls for something
    /// decides.
    fn examine_curve<F: Fn(Op, Scalar, Scalar) -> Scalar>(
        &mut self,
        k: &Calc<F>,
        cid: CurveId,
        agenda: &mut Agenda,
    ) -> (r: Result<(), Fault>)
        requires
            k.wf(),
            work_wf(work_of(old(self)@, *old(agenda))),
            step_room(old(self)@),
        ensures
            ({
                let s = examine(k@, work_of(old(self)@, *old(agenda)), cid);
                &&& work_of(final(self)@, *final(agenda)) == s.w
                &&& r == match s.fault {
                    Some(e) => Err::<(), Fault>(e),
                    None => Ok::<(), Fault>(()),
                }
            }),
    {
        if !self.curve_live(cid) {
            return Ok(());
        }
        if self.is_degenerate(k, cid) {
            self.drop_curve(cid);
            return Ok(());
        }
        proof {
            lemma_rivals(self@, cid);
            lemma_dedup_wf(k@, work_of(self@, *agenda), cid, rivals_of(self@, cid), 0);
        }
        if self.drop_duplicate_of(k, cid, agenda) {
            return Ok(());
        }
        match self.find_self_hit(k, cid) {
            Err(e) => {
                return Err(e);
            },
            Ok(None) => {},
            Ok(Some(h)) => {
                if self.untangle(k, cid, h, agenda) {
                    return Ok(());
                }
            },
        }
        match self.cross_split(k, cid, agenda) {
            Err(e) => {
                return Err(e);
            },
            Ok(done) => {
                if done {
                    return Ok(());
                }
            },
        }
        let _ = self.snap_endpoints(k, cid, agenda);
        Ok(())
    }

    /// Restores the no-self-intersection, no-crossing and snapped invariants
    /// for the given dirty curves and everything they touch. On success the
    /// ancestor of every curve comes back.
    pub(crate) fn integrate<F: Fn(Op, Scalar, Scalar) -> Scalar>(
        &mut self,
        k: &Calc<F>,
        dirty: Vec<CurveId>,
    ) -> (r: Result<Vec<CurveId>, Fault>)
        requires
            k.wf(),
            graph_wf(old(self)@),
            run_room(old(self)@),
        ensures
            final(self)@ == integrated(k@, old(self)@, dirty@).w.g,
            viewed(r) == match integrated(k@, old(self)@, dirty@).fault {
                Some(e) => Err::<Seq<CurveId>, Fault>(e),
                None => Ok::<Seq<CurveId>, Fault>(integrated(k@, old(self)@, dirty@).w.root),
            },
            graph_wf(final(self)@),
    {
        let mut queue: VecDeque<CurveId> = VecDeque::new();
        let n: usize = dirty.len();
        let mut i: usize = 0;
        while i < n
            invariant
                i <= n == dirty@.len(),
                queue@ == dirty@.take(i as int),
            decreases n - i,
        {
            queue.push_back(dirty[i]);
            i = i + 1;
            assert(dirty@.take(i as int) =~= dirty@.take(i - 1).push(dirty@[i - 1]));
        }
        assert(dirty@.take(n as int) =~= dirty@);
        let mut root: Vec<CurveId> = Vec::new();
        let m: usize = self.curves.len();
        let mut j: usize = 0;
        while j < m
            invariant
                j <= m == self@.curves.len() <= u32::MAX,
                root@ == own_roots(self@).take(j as int),
            decreases m - j,
        {
            root.push(CurveId(j as u32));
            j = j + 1;
            assert(own_roots(self@).take(j as int) =~= own_roots(self@).take(j - 1).push(
                own_roots(self@)[j - 1],
            ));
        }
        assert(own_roots(self@).take(m as int) =~= own_roots(self@));
        let mut agenda = Agenda { queue, root };
        let ghost w0 = work_of(self@, agenda);
        let ghost all = integrated(k@, self@, dirty@);
        let mut steps: u64 = 0;
        loop
            invariant
                k.wf(),
                0 <= steps < MAX_STEPS,
                work_wf(work_of(self@, agenda)),
                self@.curves.len() <= w0.g.curves.len() + 4 * steps,
                self@.verts.len() <= w0.g.verts.len() + steps,
                run_room(w0.g),
                all == integrated(k@, old(self)@, dirty@),
                run(k@, work_of(self@, agenda), steps as int) == all,
            decreases MAX_STEPS - steps,
        {
            let ghost before = work_of(self@, agenda);
            let cid = match agenda.queue.pop_front() {
                None => {
                    return Ok(agenda.root);
                },
                Some(cid) => cid,
            };
            proof {
                assert(before.queue.skip(1) =~= before.queue.subrange(
                    1,
                    before.queue.len() as int,
                ));
                assert(work_of(self@, agenda) == popped(before));
            }
            if steps + 1 >= MAX_STEPS {
                return Err(Fault::Unsettled);
            }
            proof {
                lemma_examine_wf(k@, work_of(self@, agenda), cid);
            }
            match self.examine_curve(k, cid, &mut agenda) {
                Err(e) => {
                    return Err(e);
                },
                Ok(_) => {},
            }
            steps = steps + 1;
        }
    }

    /// The live curves that descend from `t`, in ascending order.
    pub(crate) fn live_descendants(&self, root: &Vec<CurveId>, t: CurveId) -> (r: Vec<CurveId>)
        requires
            graph_wf(self@),
            root@.len() == self@.curves.len(),
        ensures
            r@ == pick(self@.curves, descends_from(root@, t), self@.curves.len() as int),
    {
        let mut out: Vec<CurveId> = Vec::new();
        let n: usize = self.curves.len();
        let mut i: usize = 0;
        while i < n
            invariant
                i <= n == self@.curves.len() <= u32::MAX,
                root@.len() == n,
                out@ == pick(self@.curves, descends_from(root@, t), i as int),
            decreases n - i,
        {
            if self.curves[i].is_some() && root[i] == t {
                out.push(CurveId(i as u32));
            }
            i = i + 1;
        }
        out
    }
}

/// Room for every slot that a whole run of the pipeline can take.
pub open spec fn run_room(g: Graph) -> bool {
    &&& g.curves.len() + 4 * MAX_STEPS <= u32::MAX
    &&& g.verts.len() + MAX_STEPS <= u32::MAX
}

} // verus!
