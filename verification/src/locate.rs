//! Rays, point location and areas over polylines.

use vstd::prelude::*;

use crate::calc::{minus, over, plus, times, Arith, Calc, Op};
use crate::graph::{
    any_curve, curve_ids_of, curve_live, graph_wf, lemma_pick, Arrangement, CurveId, Graph,
};
use crate::order::{lemma_sorted, sort_keys, spec_sorted, Key};
use crate::point::Point;
use crate::scalar::{num, Scalar, HALF, ZERO};
use crate::walk::{he_poly_of, lemma_he_poly, HalfEdge};

verus! {

/// Where the +x ray from `p` crosses the segment from `a` to `b`, strictly
/// right of `p`, and whether the segment crosses it downward (with growing
/// `y`). An end counts as on the far side when it is on the ray's line.
pub open spec fn spec_ray_hit(ar: Arith, p: Point, a: Point, b: Point) -> Option<(Scalar, bool)> {
    let down = a.y.spec_le(p.y) && p.y.spec_lt(b.y);
    let up = b.y.spec_le(p.y) && p.y.spec_lt(a.y);
    if !down && !up {
        None
    } else {
        let x = plus(
            ar,
            a.x,
            times(ar, over(ar, minus(ar, p.y, a.y), minus(ar, b.y, a.y)), minus(ar, b.x, a.x)),
        );
        if p.x.spec_lt(x) {
            Some((x, down))
        } else {
            None
        }
    }
}

pub fn ray_hit<F: Fn(Op, Scalar, Scalar) -> Scalar>(k: &Calc<F>, p: Point, a: Point, b: Point) -> (r:
    Option<(Scalar, bool)>)
    requires
        k.wf(),
    ensures
        r == spec_ray_hit(k@, p, a, b),
{
    let down = a.y.le(p.y) && p.y.lt(b.y);
    let up = b.y.le(p.y) && p.y.lt(a.y);
    if !down && !up {
        return None;
    }
    let x = k.plus(
        a.x,
        k.times(k.over(k.minus(p.y, a.y), k.minus(b.y, a.y)), k.minus(b.x, a.x)),
    );
    if p.x.lt(x) {
        Some((x, down))
    } else {
        None
    }
}

/// The corner after the `i`-th, cyclically.
pub open spec fn corner_after(poly: Seq<Point>, i: int) -> Point {
    if i + 1 == poly.len() {
        poly[0]
    } else {
        poly[i + 1]
    }
}

/// How many of the first `n` sides of the closed polyline the +x ray from `p`
/// crosses.
pub open spec fn crossings_below(ar: Arith, p: Point, poly: Seq<Point>, n: int) -> nat
    decreases n,
{
    if n <= 0 {
        0
    } else {
        crossings_below(ar, p, poly, n - 1) + if spec_ray_hit(
            ar,
            p,
            poly[n - 1],
            corner_after(poly, n - 1),
        ) is Some {
            1nat
        } else {
            0nat
        }
    }
}

pub open spec fn crossings_of(ar: Arith, p: Point, poly: Seq<Point>) -> nat {
    crossings_below(ar, p, poly, poly.len() as int)
}

/// `p` is inside the closed polyline, by the even-odd rule.
pub open spec fn in_polyline(ar: Arith, p: Point, poly: Seq<Point>) -> bool {
    crossings_of(ar, p, poly) % 2 == 1
}

pub fn point_in_polyline<F: Fn(Op, Scalar, Scalar) -> Scalar>(
    k: &Calc<F>,
    p: Point,
    poly: &Vec<Point>,
) -> (r: bool)
    requires
        k.wf(),
    ensures
        r == in_polyline(k@, p, poly@),
{
    let n: usize = poly.len();
    let mut inside = false;
    let mut i: usize = 0;
    while i < n
        invariant
            k.wf(),
            i <= n == poly@.len(),
            inside == (crossings_below(k@, p, poly@, i as int) % 2 == 1),
        decreases n - i,
    {
        let next: usize = if i + 1 == n {
            0
        } else {
            i + 1
        };
        if ray_hit(k, p, poly[i], poly[next]).is_some() {
            inside = !inside;
        }
        i = i + 1;
    }
    inside
}

/// How many sides of the first `n` closed polylines the +x ray from `p`
/// crosses.
pub open spec fn crossings_of_all(ar: Arith, p: Point, polys: Seq<Seq<Point>>, n: int) -> nat
    decreases n,
{
    if n <= 0 {
        0
    } else {
        crossings_of_all(ar, p, polys, n - 1) + crossings_of(ar, p, polys[n - 1])
    }
}

/// `p` is inside the closed polylines taken together, by the even-odd rule.
pub open spec fn in_polylines(ar: Arith, p: Point, polys: Seq<Seq<Point>>) -> bool {
    crossings_of_all(ar, p, polys, polys.len() as int) % 2 == 1
}

/// The contents of a list of lists.
pub open spec fn deep<T>(v: Seq<Vec<T>>) -> Seq<Seq<T>> {
    v.map_values(|x: Vec<T>| x@)
}

pub fn point_in_polylines<F: Fn(Op, Scalar, Scalar) -> Scalar>(
    k: &Calc<F>,
    p: Point,
    polys: &Vec<Vec<Point>>,
) -> (r: bool)
    requires
        k.wf(),
    ensures
        r == in_polylines(k@, p, deep(polys@)),
{
    let n: usize = polys.len();
    let mut inside = false;
    let mut i: usize = 0;
    while i < n
        invariant
            k.wf(),
            i <= n == polys@.len(),
            inside == (crossings_of_all(k@, p, deep(polys@), i as int) % 2 == 1),
        decreases n - i,
    {
        if point_in_polyline(k, p, &polys[i]) {
            inside = !inside;
        }
        assert(deep(polys@)[i as int] == polys@[i as int]@);
        i = i + 1;
    }
    inside
}

/// Twice the shoelace area of the first `n` sides.
pub open spec fn shoelace_below(ar: Arith, poly: Seq<Point>, n: int) -> Scalar
    decreases n,
{
    if n <= 0 {
        num(ZERO)
    } else {
        let a = poly[n - 1];
        let b = corner_after(poly, n - 1);
        plus(
            ar,
            shoelace_below(ar, poly, n - 1),
            minus(ar, times(ar, a.x, b.y), times(ar, b.x, a.y)),
        )
    }
}

/// The shoelace area of the closed polyline; positive when the region on its
/// algebraic left is bounded.
pub open spec fn area_of(ar: Arith, poly: Seq<Point>) -> Scalar {
    times(ar, shoelace_below(ar, poly, poly.len() as int), num(HALF))
}

pub fn signed_area<F: Fn(Op, Scalar, Scalar) -> Scalar>(k: &Calc<F>, poly: &Vec<Point>) -> (r: Scalar)
    requires
        k.wf(),
    ensures
        r == area_of(k@, poly@),
{
    let n: usize = poly.len();
    let mut s = Scalar { bits: ZERO };
    let mut i: usize = 0;
    while i < n
        invariant
            k.wf(),
            i <= n == poly@.len(),
            s == shoelace_below(k@, poly@, i as int),
        decreases n - i,
    {
        let next: usize = if i + 1 == n {
            0
        } else {
            i + 1
        };
        let a = poly[i];
        let b = poly[next];
        s = k.plus(s, k.minus(k.times(a.x, b.y), k.times(b.x, a.y)));
        i = i + 1;
    }
    k.times(s, Scalar { bits: HALF })
}

// ---- rays through the arrangement ----

/// A crossing of a ray: where, and the half-edge with the ray's origin on its
/// algebraic left.
pub type Crossing = (Scalar, HalfEdge);

/// The crossings of the ray with the first `n` segments of `poly`, which is
/// the polyline of `c`.
pub open spec fn ray_hits_curve(ar: Arith, p: Point, c: CurveId, poly: Seq<Point>, n: int) -> Seq<
    Crossing,
>
    decreases n,
{
    if n <= 0 {
        Seq::empty()
    } else {
        let before = ray_hits_curve(ar, p, c, poly, n - 1);
        match spec_ray_hit(ar, p, poly[n - 1], poly[n]) {
            None => before,
            Some((x, down)) => before.push((x, (c, !down))),
        }
    }
}

/// The crossings of the ray with the first `n` of `ids`.
pub open spec fn ray_hits(ar: Arith, g: Graph, p: Point, ids: Seq<CurveId>, n: int) -> Seq<Crossing>
    decreases n,
{
    if n <= 0 {
        Seq::empty()
    } else {
        let poly = he_poly_of(ar, g, (ids[n - 1], false));
        ray_hits(ar, g, p, ids, n - 1) + ray_hits_curve(ar, p, ids[n - 1], poly, poly.len() - 1)
    }
}

pub open spec fn crossing_keys(hits: Seq<Crossing>) -> Seq<Key> {
    Seq::new(hits.len(), |i: int| (hits[i].0.spec_rank() as i64, i as u64))
}

/// All crossings of the +x ray from `p`, from left to right; of those at one
/// place, lower curves first.
#[verifier::opaque]
pub open spec fn raycast(ar: Arith, g: Graph, p: Point) -> Seq<HalfEdge> {
    let ids = curve_ids_of(g);
    let hits = ray_hits(ar, g, p, ids, ids.len() as int);
    spec_sorted(crossing_keys(hits)).map_values(|key: Key| hits[key.1 as int].1)
}

pub(crate) proof fn lemma_ray_hits_curve(ar: Arith, p: Point, c: CurveId, poly: Seq<Point>, n: int)
    ensures
        forall|i: int|
            0 <= i < ray_hits_curve(ar, p, c, poly, n).len() ==> (#[trigger] ray_hits_curve(
                ar,
                p,
                c,
                poly,
                n,
            )[i]).1.0 == c,
    decreases n,
{
    if n > 0 {
        lemma_ray_hits_curve(ar, p, c, poly, n - 1);
        let before = ray_hits_curve(ar, p, c, poly, n - 1);
        let all = ray_hits_curve(ar, p, c, poly, n);
        assert forall|i: int| 0 <= i < all.len() implies (#[trigger] all[i]).1.0 == c by {
            if i < before.len() {
                assert(all[i] == before[i]);
            }
        }
    }
}

proof fn lemma_ray_hits(ar: Arith, g: Graph, p: Point, ids: Seq<CurveId>, n: int)
    requires
        0 <= n <= ids.len(),
        forall|i: int| 0 <= i < ids.len() ==> curve_live(g, #[trigger] ids[i]),
    ensures
        forall|i: int|
            0 <= i < ray_hits(ar, g, p, ids, n).len() ==> curve_live(
                g,
                (#[trigger] ray_hits(ar, g, p, ids, n)[i]).1.0,
            ),
    decreases n,
{
    if n > 0 {
        lemma_ray_hits(ar, g, p, ids, n - 1);
        let poly = he_poly_of(ar, g, (ids[n - 1], false));
        lemma_ray_hits_curve(ar, p, ids[n - 1], poly, poly.len() - 1);
        let before = ray_hits(ar, g, p, ids, n - 1);
        let more = ray_hits_curve(ar, p, ids[n - 1], poly, poly.len() - 1);
        let all = ray_hits(ar, g, p, ids, n);
        assert forall|i: int| 0 <= i < all.len() implies curve_live(
            g,
            (#[trigger] all[i]).1.0,
        ) by {
            if i < before.len() {
                assert(all[i] == before[i]);
            } else {
                assert(all[i] == more[i - before.len()]);
            }
        }
    }
}

/// A ray crosses live curves only.
pub proof fn lemma_raycast(ar: Arith, g: Graph, p: Point)
    requires
        graph_wf(g),
    ensures
        forall|i: int|
            0 <= i < raycast(ar, g, p).len() ==> curve_live(g, (#[trigger] raycast(ar, g, p)[i]).0),
{
    reveal(raycast);
    let ids = curve_ids_of(g);
    let hits = ray_hits(ar, g, p, ids, ids.len() as int);
    let keys = crossing_keys(hits);
    lemma_pick(g.curves, any_curve(), g.curves.len() as int);
    lemma_ray_hits(ar, g, p, ids, ids.len() as int);
    lemma_sorted(keys);
    let all = raycast(ar, g, p);
    assert forall|i: int| 0 <= i < all.len() implies curve_live(g, (#[trigger] all[i]).0) by {
        let key = spec_sorted(keys)[i];
        assert(spec_sorted(keys).contains(key));
        assert(keys.contains(key));
    }
}

impl Arrangement {
    fn ray_hits_into<F: Fn(Op, Scalar, Scalar) -> Scalar>(
        &self,
        k: &Calc<F>,
        p: Point,
        c: CurveId,
        hits: &mut Vec<Crossing>,
    )
        requires
            k.wf(),
            graph_wf(self@),
            curve_live(self@, c),
        ensures
            final(hits)@ == old(hits)@ + ray_hits_curve(
                k@,
                p,
                c,
                he_poly_of(k@, self@, (c, false)),
                he_poly_of(k@, self@, (c, false)).len() - 1,
            ),
    {
        let poly = self.he_poly(k, (c, false));
        proof {
            lemma_he_poly(k@, self@, (c, false));
            assert(hits@ + Seq::<Crossing>::empty() =~= hits@);
        }
        let n: usize = poly.len();
        let ghost start = hits@;
        let mut i: usize = 1;
        while i < n
            invariant
                k.wf(),
                1 <= i <= n == poly@.len(),
                hits@ == start + ray_hits_curve(k@, p, c, poly@, i - 1),
            decreases n - i,
        {
            if let Some((x, down)) = ray_hit(k, p, poly[i - 1], poly[i]) {
                let ghost so_far = hits@;
                hits.push((x, (c, !down)));
                assert(hits@ =~= start + ray_hits_curve(k@, p, c, poly@, i - 1).push(
                    (x, (c, !down)),
                ));
            }
            i = i + 1;
        }
    }

    /// All crossings of the +x ray from `p`, from left to right, each oriented
    /// so that `p` is locally on the algebraic left.
    pub(crate) fn raycast_crossings<F: Fn(Op, Scalar, Scalar) -> Scalar>(&self, k: &Calc<F>, p: Point) -> (r:
        Vec<HalfEdge>)
        requires
            k.wf(),
            graph_wf(self@),
        ensures
            r@ == raycast(k@, self@, p),
    {
        proof {
            reveal(raycast);
            lemma_pick(self@.curves, any_curve(), self@.curves.len() as int);
        }
        let ids = self.curve_ids();
        let mut hits: Vec<Crossing> = Vec::new();
        let n: usize = ids.len();
        let mut i: usize = 0;
        while i < n
            invariant
                k.wf(),
                graph_wf(self@),
                i <= n == ids@.len(),
                forall|j: int| 0 <= j < ids@.len() ==> curve_live(self@, #[trigger] ids@[j]),
                hits@ == ray_hits(k@, self@, p, ids@, i as int),
            decreases n - i,
        {
            self.ray_hits_into(k, p, ids[i], &mut hits);
            i = i + 1;
        }
        let m: usize = hits.len();
        let ghost all = crossing_keys(hits@);
        let mut keys: Vec<Key> = Vec::new();
        let mut j: usize = 0;
        while j < m
            invariant
                j <= m == hits@.len(),
                all == crossing_keys(hits@),
                keys@ == all.take(j as int),
            decreases m - j,
        {
            keys.push((hits[j].0.rank(), j as u64));
            j = j + 1;
            assert(all.take(j as int) =~= all.take(j - 1).push(all[j - 1]));
        }
        assert(all.take(m as int) =~= all);
        let sorted = sort_keys(&keys);
        proof {
            lemma_sorted(keys@);
        }
        let ghost want = sorted@.map_values(|key: Key| hits@[key.1 as int].1);
        let mut r: Vec<HalfEdge> = Vec::new();
        let mut t: usize = 0;
        while t < m
            invariant
                t <= m == sorted@.len() == hits@.len(),
                keys@ == crossing_keys(hits@),
                forall|x: Key| sorted@.contains(x) <==> keys@.contains(x),
                want == sorted@.map_values(|key: Key| hits@[key.1 as int].1),
                r@ == want.take(t as int),
            decreases m - t,
        {
            let key = sorted[t];
            proof {
                assert(sorted@.contains(key));
                assert(keys@.contains(key));
            }
            r.push(hits[key.1 as usize].1);
            t = t + 1;
            assert(want.take(t as int) =~= want.take(t - 1).push(want[t - 1]));
        }
        assert(want.take(m as int) =~= want);
        r
    }
}

} // verus!
