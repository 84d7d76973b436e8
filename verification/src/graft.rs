//! Copying curves from one arrangement into another.

use vstd::prelude::*;
use vstd::set_lib::{lemma_int_range, lemma_len_subset, set_int_range};

use crate::calc::{Arith, Calc, Op};
use crate::graph::{
    curve_live, curve_of, graph_wf, points_of, vertex_live, vpos_of, Arrangement, Curve, CurveId,
    Graph, VertexId,
};
use crate::point::{spec_plus, Point};
use crate::scalar::Scalar;

verus! {

/// A copy under way: the arrangement copied into, and the new id of every
/// vertex and curve that has been copied.
#[verifier::ext_equal]
pub struct Graft {
    pub g: Graph,
    pub vmap: Seq<Option<VertexId>>,
    pub cmap: Seq<Option<CurveId>>,
}

/// `p`, translated where there is an offset.
pub open spec fn shifted(ar: Arith, off: Option<Point>, p: Point) -> Point {
    match off {
        None => p,
        Some(o) => spec_plus(ar, p, o),
    }
}

fn shift<F: Fn(Op, Scalar, Scalar) -> Scalar>(k: &Calc<F>, off: Option<Point>, p: Point) -> (r: Point)
    requires
        k.wf(),
    ensures
        r == shifted(k@, off, p),
{
    match off {
        None => p,
        Some(o) => p.plus(k, o),
    }
}

/// Nothing copied yet.
pub open spec fn graft_start(src: Graph, dest: Graph) -> Graft {
    Graft {
        g: dest,
        vmap: Seq::new(src.verts.len(), |i: int| None),
        cmap: Seq::new(src.curves.len(), |i: int| None),
    }
}

/// One more vertex copied, unless it has been already.
pub open spec fn graft_vertex(ar: Arith, src: Graph, off: Option<Point>, s: Graft, v: VertexId) -> Graft {
    if s.vmap[v.0 as int] is Some {
        s
    } else {
        Graft {
            g: Graph { verts: s.g.verts.push(Some(shifted(ar, off, vpos_of(src, v)))), ..s.g },
            vmap: s.vmap.update(v.0 as int, Some(VertexId(s.g.verts.len() as u32))),
            cmap: s.cmap,
        }
    }
}

/// One more curve copied, with its vertices.
pub open spec fn graft_curve(ar: Arith, src: Graph, off: Option<Point>, s: Graft, id: CurveId) -> Graft {
    let c = curve_of(src, id);
    let t = graft_vertex(ar, src, off, graft_vertex(ar, src, off, s, c.v0), c.v1);
    Graft {
        g: Graph {
            curves: t.g.curves.push(
                Some(
                    Curve {
                        v0: t.vmap[c.v0.0 as int]->0,
                        c0: shifted(ar, off, c.c0),
                        c1: shifted(ar, off, c.c1),
                        v1: t.vmap[c.v1.0 as int]->0,
                        tag: c.tag,
                    },
                ),
            ),
            ..t.g
        },
        vmap: t.vmap,
        cmap: t.cmap.update(id.0 as int, Some(CurveId(t.g.curves.len() as u32))),
    }
}

/// The first `n` of `ids` copied from `src` into `dest`, in order.
pub open spec fn grafted(
    ar: Arith,
    src: Graph,
    off: Option<Point>,
    dest: Graph,
    ids: Seq<CurveId>,
    n: int,
) -> Graft
    decreases n,
{
    if n <= 0 {
        graft_start(src, dest)
    } else {
        graft_curve(ar, src, off, grafted(ar, src, off, dest, ids, n - 1), ids[n - 1])
    }
}

// ---- what a copy keeps ----

/// The vertices that have been copied.
pub open spec fn copied(vmap: Seq<Option<VertexId>>) -> Set<int> {
    Set::new(|i: int| 0 <= i < vmap.len() && vmap[i] is Some)
}

/// The copy is faithful: what was there stays, and every copied vertex is a new
/// one in its place, another for each.
pub open spec fn verts_grafted(ar: Arith, src: Graph, off: Option<Point>, dest: Graph, s: Graft) -> bool {
    &&& s.vmap.len() == src.verts.len()
    &&& s.cmap.len() == src.curves.len()
    &&& s.g.snap == dest.snap
    &&& s.g.tol == dest.tol
    &&& dest.verts.len() <= s.g.verts.len()
    &&& forall|v: int| 0 <= v < dest.verts.len() ==> #[trigger] s.g.verts[v] == dest.verts[v]
    &&& forall|v: int|
        #![trigger s.vmap[v]]
        0 <= v < s.vmap.len() && s.vmap[v] is Some ==> {
            let w = s.vmap[v]->0;
            &&& dest.verts.len() <= w.0 < s.g.verts.len()
            &&& s.g.verts[w.0 as int] == Some(shifted(ar, off, src.verts[v]->0))
        }
    &&& forall|u: int, v: int|
        #![trigger s.vmap[u], s.vmap[v]]
        0 <= u < s.vmap.len() && 0 <= v < s.vmap.len() && s.vmap[u] is Some && s.vmap[u]
            == s.vmap[v] ==> u == v
    &&& copied(s.vmap).finite()
    &&& copied(s.vmap).len() == s.g.verts.len() - dest.verts.len()
}

/// The copy of the curve `id`.
pub open spec fn curve_copy(ar: Arith, src: Graph, off: Option<Point>, s: Graft, id: CurveId) -> Curve {
    let c = curve_of(src, id);
    Curve {
        v0: s.vmap[c.v0.0 as int]->0,
        c0: shifted(ar, off, c.c0),
        c1: shifted(ar, off, c.c1),
        v1: s.vmap[c.v1.0 as int]->0,
        tag: c.tag,
    }
}

/// The `k`-th of `ids` is the `k`-th new curve, between the copies of its
/// vertices.
pub open spec fn curves_grafted(
    ar: Arith,
    src: Graph,
    off: Option<Point>,
    dest: Graph,
    s: Graft,
    ids: Seq<CurveId>,
    n: int,
) -> bool {
    &&& s.g.curves.len() == dest.curves.len() + n
    &&& forall|i: int| 0 <= i < dest.curves.len() ==> #[trigger] s.g.curves[i] == dest.curves[i]
    &&& forall|j: int|
        #![trigger ids[j]]
        0 <= j < n ==> {
            &&& s.cmap[ids[j].0 as int] == Some(CurveId((dest.curves.len() + j) as u32))
            &&& s.vmap[curve_of(src, ids[j]).v0.0 as int] is Some
            &&& s.vmap[curve_of(src, ids[j]).v1.0 as int] is Some
            &&& s.g.curves[dest.curves.len() + j] == Some(curve_copy(ar, src, off, s, ids[j]))
        }
    &&& forall|i: int|
        #![trigger s.cmap[i]]
        0 <= i < s.cmap.len() && s.cmap[i] is Some ==> exists|j: int|
            0 <= j < n && #[trigger] ids[j] == CurveId(i as u32)
}

proof fn lemma_copied_bound(vmap: Seq<Option<VertexId>>)
    ensures
        copied(vmap).finite(),
        copied(vmap).len() <= vmap.len(),
{
    let n = vmap.len() as int;
    lemma_int_range(0, n);
    assert(copied(vmap).subset_of(set_int_range(0, n)));
    lemma_len_subset(copied(vmap), set_int_range(0, n));
}

proof fn lemma_graft_vertex(
    ar: Arith,
    src: Graph,
    off: Option<Point>,
    dest: Graph,
    s: Graft,
    v: VertexId,
)
    requires
        verts_grafted(ar, src, off, dest, s),
        v.0 < src.verts.len(),
        dest.verts.len() + src.verts.len() <= u32::MAX,
    ensures
        ({
            let t = graft_vertex(ar, src, off, s, v);
            &&& verts_grafted(ar, src, off, dest, t)
            &&& t.vmap[v.0 as int] is Some
            &&& t.g.curves == s.g.curves
            &&& t.cmap == s.cmap
            &&& s.g.verts.len() <= t.g.verts.len() <= u32::MAX
            &&& forall|i: int| 0 <= i < s.g.verts.len() ==> t.g.verts[i] == s.g.verts[i]
            &&& forall|i: int|
                #![trigger t.vmap[i]]
                0 <= i < s.vmap.len() && s.vmap[i] is Some ==> t.vmap[i] == s.vmap[i]
        }),
{
    lemma_copied_bound(s.vmap);
    let t = graft_vertex(ar, src, off, s, v);
    if s.vmap[v.0 as int] is None {
        assert(copied(t.vmap) =~= copied(s.vmap).insert(v.0 as int));
        assert(!copied(s.vmap).contains(v.0 as int));
        lemma_copied_bound(t.vmap);
        assert(s.g.verts.len() < u32::MAX);
    }
}

proof fn lemma_graft_curve(
    ar: Arith,
    src: Graph,
    off: Option<Point>,
    dest: Graph,
    s: Graft,
    ids: Seq<CurveId>,
    n: int,
)
    requires
        graph_wf(src),
        0 <= n < ids.len(),
        forall|i: int| 0 <= i < ids.len() ==> curve_live(src, #[trigger] ids[i]),
        ids.no_duplicates(),
        verts_grafted(ar, src, off, dest, s),
        curves_grafted(ar, src, off, dest, s, ids, n),
        dest.verts.len() + src.verts.len() <= u32::MAX,
        dest.curves.len() + ids.len() <= u32::MAX,
    ensures
        ({
            let t = graft_curve(ar, src, off, s, ids[n]);
            &&& verts_grafted(ar, src, off, dest, t)
            &&& curves_grafted(ar, src, off, dest, t, ids, n + 1)
        }),
{
    let id = ids[n];
    let c = curve_of(src, id);
    assert(src.curves[id.0 as int] is Some);
    assert(vertex_live(src, c.v0) && vertex_live(src, c.v1));
    let a = graft_vertex(ar, src, off, s, c.v0);
    lemma_graft_vertex(ar, src, off, dest, s, c.v0);
    let b = graft_vertex(ar, src, off, a, c.v1);
    lemma_graft_vertex(ar, src, off, dest, a, c.v1);
    let t = graft_curve(ar, src, off, s, id);
    assert(b.vmap[c.v0.0 as int] is Some);
    assert forall|j: int| #![trigger ids[j]] 0 <= j < n + 1 implies {
        &&& t.cmap[ids[j].0 as int] == Some(CurveId((dest.curves.len() + j) as u32))
        &&& t.vmap[curve_of(src, ids[j]).v0.0 as int] is Some
        &&& t.vmap[curve_of(src, ids[j]).v1.0 as int] is Some
        &&& t.g.curves[dest.curves.len() + j] == Some(curve_copy(ar, src, off, t, ids[j]))
    } by {
        if j < n {
            assert(ids[j] != ids[n]);
            assert(curve_live(src, ids[j]));
            assert(src.curves[ids[j].0 as int] is Some);
            let d = curve_of(src, ids[j]);
            assert(s.vmap[d.v0.0 as int] is Some && s.vmap[d.v1.0 as int] is Some);
            assert(a.vmap[d.v0.0 as int] == s.vmap[d.v0.0 as int]);
            assert(a.vmap[d.v1.0 as int] == s.vmap[d.v1.0 as int]);
            assert(b.vmap[d.v0.0 as int] == s.vmap[d.v0.0 as int]);
            assert(b.vmap[d.v1.0 as int] == s.vmap[d.v1.0 as int]);
        }
    }
    assert forall|i: int| #![trigger t.cmap[i]] 0 <= i < t.cmap.len() && t.cmap[i]
        is Some implies exists|j: int| 0 <= j < n + 1 && #[trigger] ids[j] == CurveId(i as u32) by {
        if i == id.0 {
            assert(ids[n] == CurveId(i as u32));
        } else {
            assert(s.cmap[i] is Some);
            let j = choose|j: int| 0 <= j < n && #[trigger] ids[j] == CurveId(i as u32);
            assert(ids[j] == CurveId(i as u32));
        }
    }
}

/// A copy is faithful all along.
pub proof fn lemma_grafted(
    ar: Arith,
    src: Graph,
    off: Option<Point>,
    dest: Graph,
    ids: Seq<CurveId>,
    n: int,
)
    requires
        graph_wf(src),
        0 <= n <= ids.len(),
        forall|i: int| 0 <= i < ids.len() ==> curve_live(src, #[trigger] ids[i]),
        ids.no_duplicates(),
        dest.verts.len() + src.verts.len() <= u32::MAX,
        dest.curves.len() + ids.len() <= u32::MAX,
    ensures
        verts_grafted(ar, src, off, dest, grafted(ar, src, off, dest, ids, n)),
        curves_grafted(ar, src, off, dest, grafted(ar, src, off, dest, ids, n), ids, n),
    decreases n,
{
    if n > 0 {
        lemma_grafted(ar, src, off, dest, ids, n - 1);
        lemma_graft_curve(
            ar,
            src,
            off,
            dest,
            grafted(ar, src, off, dest, ids, n - 1),
            ids,
            n - 1,
        );
    } else {
        let s = graft_start(src, dest);
        assert(copied(s.vmap) =~= Set::empty());
    }
}

/// A copied arrangement is in order where the one copied into was.
pub proof fn lemma_grafted_wf(
    ar: Arith,
    src: Graph,
    off: Option<Point>,
    dest: Graph,
    ids: Seq<CurveId>,
)
    requires
        graph_wf(src),
        graph_wf(dest),
        forall|i: int| 0 <= i < ids.len() ==> curve_live(src, #[trigger] ids[i]),
        ids.no_duplicates(),
        dest.verts.len() + src.verts.len() <= u32::MAX,
        dest.curves.len() + ids.len() <= u32::MAX,
    ensures
        graph_wf(grafted(ar, src, off, dest, ids, ids.len() as int).g),
        grafted(ar, src, off, dest, ids, ids.len() as int).g.verts.len() <= dest.verts.len()
            + src.verts.len(),
{
    let n = ids.len() as int;
    let s = grafted(ar, src, off, dest, ids, n);
    lemma_grafted(ar, src, off, dest, ids, n);
    lemma_copied_bound(s.vmap);
    assert forall|i: int| 0 <= i < s.g.curves.len() && (#[trigger] s.g.curves[i]) is Some implies
        vertex_live(s.g, (s.g.curves[i]->0).v0) && vertex_live(s.g, (s.g.curves[i]->0).v1) by {
        if i < dest.curves.len() {
            assert(s.g.curves[i] == dest.curves[i]);
            let c = dest.curves[i]->0;
            assert(vertex_live(dest, c.v0) && vertex_live(dest, c.v1));
            assert(s.g.verts[c.v0.0 as int] == dest.verts[c.v0.0 as int]);
            assert(s.g.verts[c.v1.0 as int] == dest.verts[c.v1.0 as int]);
        } else {
            let j = i - dest.curves.len();
            let d = curve_of(src, ids[j]);
            assert(curve_live(src, ids[j]));
            assert(src.curves[ids[j].0 as int] is Some);
            assert(s.g.curves[dest.curves.len() + j] == Some(curve_copy(ar, src, off, s, ids[j])));
            assert(s.vmap[d.v0.0 as int] is Some);
            assert(s.vmap[d.v1.0 as int] is Some);
        }
    }
}

/// A copy has the curve's translated control points and its tag.
pub proof fn law_copy_keeps_shape_and_tag(
    ar: Arith,
    src: Graph,
    off: Option<Point>,
    dest: Graph,
    ids: Seq<CurveId>,
    j: int,
)
    requires
        graph_wf(src),
        graph_wf(dest),
        forall|i: int| 0 <= i < ids.len() ==> curve_live(src, #[trigger] ids[i]),
        ids.no_duplicates(),
        dest.verts.len() + src.verts.len() <= u32::MAX,
        dest.curves.len() + ids.len() <= u32::MAX,
        0 <= j < ids.len(),
    ensures
        ({
            let s = grafted(ar, src, off, dest, ids, ids.len() as int);
            let id = CurveId((dest.curves.len() + j) as u32);
            let p = points_of(src, ids[j]);
            let q = points_of(s.g, id);
            &&& s.cmap[ids[j].0 as int] == Some(id)
            &&& curve_live(s.g, id)
            &&& curve_of(s.g, id).tag == curve_of(src, ids[j]).tag
            &&& q.p0 == shifted(ar, off, p.p0)
            &&& q.p1 == shifted(ar, off, p.p1)
            &&& q.p2 == shifted(ar, off, p.p2)
            &&& q.p3 == shifted(ar, off, p.p3)
        }),
{
    let s = grafted(ar, src, off, dest, ids, ids.len() as int);
    lemma_grafted(ar, src, off, dest, ids, ids.len() as int);
    let d = curve_of(src, ids[j]);
    assert(curve_live(src, ids[j]));
    assert(src.curves[ids[j].0 as int] is Some);
    assert(s.vmap[d.v0.0 as int] is Some);
    assert(s.vmap[d.v1.0 as int] is Some);
}

impl Arrangement {
    fn graft_one_vertex<F: Fn(Op, Scalar, Scalar) -> Scalar>(
        &mut self,
        k: &Calc<F>,
        src: &Arrangement,
        off: Option<Point>,
        v: VertexId,
        vmap: &mut Vec<Option<VertexId>>,
        Ghost(s): Ghost<Graft>,
    ) -> (r: VertexId)
        requires
            k.wf(),
            vertex_live(src@, v),
            s.g == old(self)@,
            s.vmap == old(vmap)@,
            s.vmap.len() == src@.verts.len(),
            s.vmap[v.0 as int] is None ==> old(self)@.verts.len() < u32::MAX,
        ensures
            final(self)@ == graft_vertex(k@, src@, off, s, v).g,
            final(vmap)@ == graft_vertex(k@, src@, off, s, v).vmap,
            final(vmap)@[v.0 as int] == Some(r),
    {
        match vmap[v.0 as usize] {
            Some(w) => w,
            None => {
                let w = self.alloc_vertex(shift(k, off, src.vpos(v)));
                vmap.set(v.0 as usize, Some(w));
                w
            },
        }
    }

    /// Copies curves of `src`, in order. Returns the new id of each.
    pub(crate) fn graft<F: Fn(Op, Scalar, Scalar) -> Scalar>(
        &mut self,
        k: &Calc<F>,
        src: &Arrangement,
        off: Option<Point>,
        ids: &Vec<CurveId>,
    ) -> (r: Vec<Option<CurveId>>)
        requires
            k.wf(),
            graph_wf(src@),
            graph_wf(old(self)@),
            forall|i: int| 0 <= i < ids@.len() ==> curve_live(src@, #[trigger] ids@[i]),
            ids@.no_duplicates(),
            old(self)@.verts.len() + src@.verts.len() <= u32::MAX,
            old(self)@.curves.len() + ids@.len() <= u32::MAX,
        ensures
            ({
                let s = grafted(k@, src@, off, old(self)@, ids@, ids@.len() as int);
                final(self)@ == s.g && r@ == s.cmap
            }),
            graph_wf(final(self)@),
    {
        let ghost dest = self@;
        let mut vmap: Vec<Option<VertexId>> = Vec::new();
        let nv: usize = src.verts.len();
        let mut a: usize = 0;
        while a < nv
            invariant
                a <= nv,
                vmap@.len() == a,
                forall|x: int| 0 <= x < a ==> #[trigger] vmap@[x] is None,
            decreases nv - a,
        {
            vmap.push(None);
            a = a + 1;
        }
        let mut cmap: Vec<Option<CurveId>> = Vec::new();
        let nc: usize = src.curves.len();
        let mut b: usize = 0;
        while b < nc
            invariant
                b <= nc,
                cmap@.len() == b,
                forall|x: int| 0 <= x < b ==> #[trigger] cmap@[x] is None,
            decreases nc - b,
        {
            cmap.push(None);
            b = b + 1;
        }
        let n: usize = ids.len();
        let mut i: usize = 0;
        assert(vmap@ =~= graft_start(src@, dest).vmap);
        assert(cmap@ =~= graft_start(src@, dest).cmap);
        while i < n
            invariant
                k.wf(),
                graph_wf(src@),
                i <= n == ids@.len(),
                forall|x: int| 0 <= x < ids@.len() ==> curve_live(src@, #[trigger] ids@[x]),
                ids@.no_duplicates(),
                dest.verts.len() + src@.verts.len() <= u32::MAX,
                dest.curves.len() + ids@.len() <= u32::MAX,
                (Graft { g: self@, vmap: vmap@, cmap: cmap@ }) == grafted(
                    k@,
                    src@,
                    off,
                    dest,
                    ids@,
                    i as int,
                ),
            decreases n - i,
        {
            let ghost s = grafted(k@, src@, off, dest, ids@, i as int);
            proof {
                lemma_grafted(k@, src@, off, dest, ids@, i as int);
                assert(curve_live(src@, ids@[i as int]));
                assert(src@.curves[ids@[i as int].0 as int] is Some);
            }
            let id = ids[i];
            let c = src.curve(id);
            proof {
                lemma_graft_vertex(k@, src@, off, dest, s, c.v0);
                lemma_graft_vertex(
                    k@,
                    src@,
                    off,
                    dest,
                    graft_vertex(k@, src@, off, s, c.v0),
                    c.v1,
                );
            }
            let v0 = self.graft_one_vertex(k, src, off, c.v0, &mut vmap, Ghost(s));
            let ghost s1 = graft_vertex(k@, src@, off, s, c.v0);
            let v1 = self.graft_one_vertex(k, src, off, c.v1, &mut vmap, Ghost(s1));
            let ghost s2 = graft_vertex(k@, src@, off, s1, c.v1);
            assert(s2.vmap[c.v0.0 as int] == s1.vmap[c.v0.0 as int]);
            let nid = self.alloc_curve(
                Curve { v0, c0: shift(k, off, c.c0), c1: shift(k, off, c.c1), v1, tag: c.tag },
            );
            cmap.set(id.0 as usize, Some(nid));
            i = i + 1;
        }
        proof {
            lemma_grafted_wf(k@, src@, off, dest, ids@);
        }
        cmap
    }
}

} // verus!
