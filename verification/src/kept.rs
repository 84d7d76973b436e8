//! What is left of a face when curves are taken away.

use vstd::prelude::*;

use crate::calc::Arith;
use crate::error::Fault;
use crate::face::{curves_in, encloses, march, outer_of};
use crate::geom::MAX_POINTS;
use crate::graph::{
    any_curve, curve_live, graph_wf, law_polyline_keeps_endpoints, pick, CurveId, Graph,
};
use crate::locate::{
    crossing_keys, lemma_ray_hits_curve, lemma_raycast, ray_hits, ray_hits_curve, raycast, Crossing,
};
use crate::order::{key_leq, lemma_sorted, spec_sorted};
use crate::point::Point;
use crate::walk::{
    face_walk, he_poly_of, law_face_loop_survives, law_walk_closes, law_walk_is_the_loop,
    lemma_thinned_key, loop_live, thinned_out, HalfEdge,
};

verus! {

// ---- the crossings of a ray ----

/// `to` holds what `from` has at the places `at`, which go up and are those of
/// all curves that are live in `g`.
spec fn sifted(g: Graph, at: Seq<int>, from: Seq<Crossing>, to: Seq<Crossing>) -> bool {
    &&& at.len() == to.len()
    &&& forall|i: int|
        #![trigger at[i]]
        #![trigger to[i]]
        0 <= i < at.len() ==> 0 <= at[i] < from.len() && to[i] == from[at[i]]
    &&& forall|i: int, j: int| 0 <= i < j < at.len() ==> #[trigger] at[i] < #[trigger] at[j]
    &&& forall|x: int|
        0 <= x < from.len() && curve_live(g, (#[trigger] from[x]).1.0) ==> at.contains(x)
}

/// The hits of one more curve: all of them, when it is live in `g`, else none.
proof fn lemma_sifted_more(
    g: Graph,
    at: Seq<int>,
    from: Seq<Crossing>,
    to: Seq<Crossing>,
    more: Seq<Crossing>,
    c: CurveId,
) -> (all: Seq<int>)
    requires
        sifted(g, at, from, to),
        forall|i: int| 0 <= i < more.len() ==> (#[trigger] more[i]).1.0 == c,
    ensures
        sifted(
            g,
            all,
            from + more,
            if curve_live(g, c) {
                to + more
            } else {
                to
            },
        ),
{
    let n = from.len() as int;
    let here = from + more;
    if curve_live(g, c) {
        let next = Seq::new(more.len(), |i: int| n + i);
        let all = at + next;
        let there = to + more;
        assert forall|i: int|
            #![trigger all[i]]
            #![trigger there[i]]
            0 <= i < all.len() implies 0 <= all[i] < here.len() && there[i] == here[all[i]] by {
            if i < at.len() {
                assert(all[i] == at[i] && there[i] == to[i]);
            } else {
                assert(all[i] == n + (i - at.len()));
            }
        }
        assert forall|i: int, j: int| 0 <= i < j < all.len() implies #[trigger] all[i]
            < #[trigger] all[j] by {
            if i < at.len() {
                assert(all[i] == at[i]);
            }
            if j < at.len() {
                assert(all[j] == at[j]);
            }
        }
        assert forall|x: int| 0 <= x < here.len() && curve_live(
            g,
            (#[trigger] here[x]).1.0,
        ) implies all.contains(x) by {
            if x < n {
                assert(here[x] == from[x]);
                let i = choose|i: int| 0 <= i < at.len() && at[i] == x;
                assert(all[i] == x);
            } else {
                assert(all[at.len() + (x - n)] == x);
            }
        }
        all
    } else {
        assert forall|x: int| 0 <= x < here.len() && curve_live(
            g,
            (#[trigger] here[x]).1.0,
        ) implies at.contains(x) by {
            if x < n {
                assert(here[x] == from[x]);
            } else {
                assert(here[x] == more[x - n]);
            }
        }
        assert forall|i: int|
            #![trigger at[i]]
            #![trigger to[i]]
            0 <= i < at.len() implies 0 <= at[i] < here.len() && to[i] == here[at[i]] by {
            assert(here[at[i]] == from[at[i]]);
        }
        at
    }
}

proof fn lemma_hits_prefix(
    ar: Arith,
    g: Graph,
    p: Point,
    a: Seq<CurveId>,
    b: Seq<CurveId>,
    n: int,
)
    requires
        0 <= n <= a.len(),
        n <= b.len(),
        forall|i: int| 0 <= i < n ==> a[i] == b[i],
    ensures
        ray_hits(ar, g, p, a, n) == ray_hits(ar, g, p, b, n),
    decreases n,
{
    if n > 0 {
        lemma_hits_prefix(ar, g, p, a, b, n - 1);
    }
}

/// The hits of the curves in the first `n` slots.
spec fn hits_below(ar: Arith, g: Graph, p: Point, n: int) -> Seq<Crossing> {
    let ids = pick(g.curves, any_curve(), n);
    ray_hits(ar, g, p, ids, ids.len() as int)
}

proof fn lemma_hits_below(ar: Arith, g: Graph, p: Point, n: int)
    requires
        0 < n <= g.curves.len() <= u32::MAX,
    ensures
        ({
            let c = CurveId((n - 1) as u32);
            let poly = he_poly_of(ar, g, (c, false));
            let before = hits_below(ar, g, p, n - 1);
            hits_below(ar, g, p, n) == if curve_live(g, c) {
                before + ray_hits_curve(ar, p, c, poly, poly.len() - 1)
            } else {
                before
            }
        }),
{
    let c = CurveId((n - 1) as u32);
    let rest = pick(g.curves, any_curve(), n - 1);
    let all = pick(g.curves, any_curve(), n);
    if curve_live(g, c) {
        assert(all == rest.push(c));
        lemma_hits_prefix(ar, g, p, all, rest, rest.len() as int);
    }
}

/// The hits of a ray are those that it had with the curves that are left.
proof fn lemma_hits_sifted(ar: Arith, g1: Graph, g2: Graph, p: Point, n: int) -> (at: Seq<int>)
    requires
        thinned_out(g1, g2),
        g1.curves.len() == g2.curves.len() <= u32::MAX,
        0 <= n <= g1.curves.len(),
    ensures
        sifted(g2, at, hits_below(ar, g1, p, n), hits_below(ar, g2, p, n)),
    decreases n,
{
    if n == 0 {
        Seq::empty()
    } else {
        let at = lemma_hits_sifted(ar, g1, g2, p, n - 1);
        lemma_hits_below(ar, g1, p, n);
        lemma_hits_below(ar, g2, p, n);
        let c = CurveId((n - 1) as u32);
        if curve_live(g1, c) {
            let poly = he_poly_of(ar, g1, (c, false));
            lemma_ray_hits_curve(ar, p, c, poly, poly.len() - 1);
            if curve_live(g2, c) {
                lemma_thinned_key(ar, g1, g2, (c, false));
            }
            lemma_sifted_more(
                g2,
                at,
                hits_below(ar, g1, p, n - 1),
                hits_below(ar, g2, p, n - 1),
                ray_hits_curve(ar, p, c, poly, poly.len() - 1),
                c,
            )
        } else {
            assert(!curve_live(g2, c));
            at
        }
    }
}

proof fn lemma_hits_curve_len(ar: Arith, p: Point, c: CurveId, poly: Seq<Point>, n: int)
    requires
        0 <= n,
    ensures
        ray_hits_curve(ar, p, c, poly, n).len() <= n,
    decreases n,
{
    if n > 0 {
        lemma_hits_curve_len(ar, p, c, poly, n - 1);
    }
}

/// There are not so many hits that their places would not fit a key.
proof fn lemma_hits_len(ar: Arith, g: Graph, p: Point, n: int)
    requires
        0 <= n <= g.curves.len() <= u32::MAX,
    ensures
        hits_below(ar, g, p, n).len() <= n * MAX_POINTS,
    decreases n,
{
    if n > 0 {
        lemma_hits_len(ar, g, p, n - 1);
        lemma_hits_below(ar, g, p, n);
        let c = CurveId((n - 1) as u32);
        let poly = he_poly_of(ar, g, (c, false));
        law_polyline_keeps_endpoints(ar, g, c);
        lemma_hits_curve_len(ar, p, c, poly, poly.len() - 1);
    }
}

/// The sorted keys of hits go up strictly, and there is one for each hit.
proof fn lemma_hit_keys(hits: Seq<Crossing>)
    requires
        hits.len() <= u64::MAX,
    ensures
        ({
            let keys = crossing_keys(hits);
            let s = spec_sorted(keys);
            &&& s.len() == hits.len()
            &&& s.no_duplicates()
            &&& forall|i: int, j: int|
                0 <= i < j < s.len() ==> key_leq()(#[trigger] s[i], #[trigger] s[j])
            &&& forall|i: int|
                0 <= i < s.len() ==> (#[trigger] s[i]).1 < hits.len() && s[i] == keys[s[i].1 as int]
            &&& forall|x: int| 0 <= x < hits.len() ==> s.contains(#[trigger] keys[x])
        }),
{
    let keys = crossing_keys(hits);
    let s = spec_sorted(keys);
    lemma_sorted(keys);
    assert(keys.no_duplicates()) by {
        assert forall|i: int, j: int|
            0 <= i < keys.len() && 0 <= j < keys.len() && i != j implies keys[i] != keys[j] by {
            assert(keys[i].1 == i && keys[j].1 == j);
        }
    }
    keys.lemma_multiset_has_no_duplicates();
    s.lemma_multiset_has_no_duplicates_conv();
    assert forall|i: int| 0 <= i < s.len() implies (#[trigger] s[i]).1 < hits.len() && s[i]
        == keys[s[i].1 as int] by {
        assert(s.contains(s[i]));
        assert(keys.contains(s[i]));
        let x = choose|x: int| 0 <= x < keys.len() && keys[x] == s[i];
        assert(keys[x].1 == x);
    }
    assert forall|x: int| 0 <= x < hits.len() implies s.contains(#[trigger] keys[x]) by {
        assert(keys.contains(keys[x]));
    }
}

/// As long as the hits, from left to right, are of curves that are left, they
/// stay where they are in that order.
proof fn lemma_sorted_sifted(
    g: Graph,
    at: Seq<int>,
    from: Seq<Crossing>,
    to: Seq<Crossing>,
    n: int,
)
    requires
        sifted(g, at, from, to),
        from.len() <= u64::MAX,
        to.len() <= u64::MAX,
        0 <= n <= from.len(),
        forall|i: int|
            #![trigger spec_sorted(crossing_keys(from))[i]]
            0 <= i < n ==> curve_live(g, from[spec_sorted(crossing_keys(from))[i].1 as int].1.0),
    ensures
        n <= to.len(),
        forall|i: int|
            #![trigger spec_sorted(crossing_keys(to))[i]]
            0 <= i < n ==> at[spec_sorted(crossing_keys(to))[i].1 as int] == spec_sorted(
                crossing_keys(from),
            )[i].1,
    decreases n,
{
    if n > 0 {
        lemma_sorted_sifted(g, at, from, to, n - 1);
        lemma_hit_keys(from);
        lemma_hit_keys(to);
        let (ka, kb) = (crossing_keys(from), crossing_keys(to));
        let (sa, sb) = (spec_sorted(ka), spec_sorted(kb));
        let k = n - 1;
        let x = sa[k].1 as int;
        assert(curve_live(g, from[x].1.0));
        assert(at.contains(x));
        let y = choose|y: int| 0 <= y < at.len() && at[y] == x;
        assert(to[y] == from[x]);
        assert(sb.contains(kb[y]));
        let j = choose|j: int| 0 <= j < sb.len() && sb[j] == kb[y];
        assert(sb[j].1 == y);
        if j < k {
            assert(at[sb[j].1 as int] == sa[j].1);
            assert(sa[j] == ka[x] && sa[k] == ka[x]);
            assert(false);
        }
        if j > k {
            // What stands there instead comes earlier, and has a place already.
            let z = sb[k].1 as int;
            assert(key_leq()(sb[k], sb[j]) && sb[k] != sb[j]);
            assert(to[z] == from[at[z]]);
            assert(sb[k] == kb[z]);
            let w = at[z];
            assert(z != y);
            assert(z < y ==> at[z] < at[y]);
            assert(y < z ==> at[y] < at[z]);
            assert(ka[w].0 == kb[z].0 && ka[x].0 == kb[y].0);
            assert(key_leq()(ka[w], ka[x]) && ka[w] != ka[x]);
            assert(sa.contains(ka[w]));
            let i = choose|i: int| 0 <= i < sa.len() && sa[i] == ka[w];
            if i >= k {
                assert(i > k ==> key_leq()(sa[k], sa[i]));
                assert(false);
            }
            assert(at[sb[i].1 as int] == sa[i].1);
            assert(sa[i].1 == w);
            assert(sb[i].1 == z) by {
                let v = sb[i].1 as int;
                assert(v < z ==> at[v] < at[z]);
                assert(z < v ==> at[z] < at[v]);
            }
            assert(sb[i] == kb[z]);
            assert(false);
        }
    }
}

/// As long as a ray crosses curves that are left, it crosses them as before.
proof fn lemma_raycast_kept(ar: Arith, g1: Graph, g2: Graph, p: Point, n: int)
    requires
        graph_wf(g1),
        graph_wf(g2),
        thinned_out(g1, g2),
        g1.curves.len() == g2.curves.len(),
        0 <= n <= raycast(ar, g1, p).len(),
        forall|i: int| 0 <= i < n ==> curve_live(g2, (#[trigger] raycast(ar, g1, p)[i]).0),
    ensures
        n <= raycast(ar, g2, p).len(),
        forall|i: int|
            0 <= i < n ==> #[trigger] raycast(ar, g2, p)[i] == raycast(ar, g1, p)[i],
{
    reveal(raycast);
    let m = g1.curves.len() as int;
    let at = lemma_hits_sifted(ar, g1, g2, p, m);
    let from = hits_below(ar, g1, p, m);
    let to = hits_below(ar, g2, p, m);
    lemma_hits_len(ar, g1, p, m);
    lemma_hits_len(ar, g2, p, m);
    assert(m * MAX_POINTS <= u64::MAX) by (nonlinear_arith)
        requires
            0 <= m <= u32::MAX,
            MAX_POINTS == 65537,
    ;
    lemma_hit_keys(from);
    lemma_hit_keys(to);
    let sa = spec_sorted(crossing_keys(from));
    assert forall|i: int| #![trigger sa[i]] 0 <= i < n implies curve_live(
        g2,
        from[sa[i].1 as int].1.0,
    ) by {
        assert(raycast(ar, g1, p)[i] == from[sa[i].1 as int].1);
    }
    lemma_sorted_sifted(g2, at, from, to, n);
    let sb = spec_sorted(crossing_keys(to));
    assert forall|i: int| 0 <= i < n implies #[trigger] raycast(ar, g2, p)[i] == raycast(
        ar,
        g1,
        p,
    )[i] by {
        assert(to[sb[i].1 as int] == from[at[sb[i].1 as int]]);
        assert(raycast(ar, g2, p)[i] == to[sb[i].1 as int].1);
        assert(raycast(ar, g1, p)[i] == from[sa[i].1 as int].1);
    }
}

// ---- the outer boundary ----

/// Where the march along a ray finds the outer boundary, if it does.
spec fn found_at(
    ar: Arith,
    g: Graph,
    p: Point,
    hits: Seq<HalfEdge>,
    i: int,
    skip: Set<CurveId>,
) -> int
    decreases hits.len() - i,
{
    if i >= hits.len() {
        i
    } else if skip.contains(hits[i].0) {
        found_at(ar, g, p, hits, i + 1, skip)
    } else {
        match face_walk(ar, g, hits[i]) {
            Ok(Some(lp)) => if encloses(ar, g, lp, p) {
                i
            } else {
                found_at(ar, g, p, hits, i + 1, skip.union(curves_in(lp)))
            },
            _ => i,
        }
    }
}

/// Every walk that the march along the ray takes before it finds the outer
/// boundary goes along curves that are live in `left`.
pub open spec fn walks_kept(
    ar: Arith,
    g: Graph,
    left: Graph,
    p: Point,
    hits: Seq<HalfEdge>,
    i: int,
    skip: Set<CurveId>,
) -> bool
    decreases hits.len() - i,
{
    i >= hits.len() || if skip.contains(hits[i].0) {
        walks_kept(ar, g, left, p, hits, i + 1, skip)
    } else {
        match face_walk(ar, g, hits[i]) {
            Ok(Some(lp)) => encloses(ar, g, lp, p) || (loop_live(left, lp) && walks_kept(
                ar,
                g,
                left,
                p,
                hits,
                i + 1,
                skip.union(curves_in(lp)),
            )),
            _ => true,
        }
    }
}

/// Up to the outer boundary, the march meets curves that are left only.
proof fn lemma_met(
    ar: Arith,
    g1: Graph,
    g2: Graph,
    p: Point,
    hits: Seq<HalfEdge>,
    i: int,
    skip: Set<CurveId>,
    outer: Seq<HalfEdge>,
)
    requires
        graph_wf(g1),
        0 <= i <= hits.len(),
        forall|j: int| 0 <= j < hits.len() ==> curve_live(g1, (#[trigger] hits[j]).0),
        march(ar, g1, p, hits, i, skip) == Ok::<Option<Seq<HalfEdge>>, Fault>(Some(outer)),
        walks_kept(ar, g1, g2, p, hits, i, skip),
        loop_live(g2, outer),
        forall|c: CurveId| #[trigger] skip.contains(c) ==> curve_live(g2, c),
    ensures
        i <= found_at(ar, g1, p, hits, i, skip) < hits.len(),
        forall|j: int|
            i <= j <= found_at(ar, g1, p, hits, i, skip) ==> curve_live(g2, (#[trigger] hits[j]).0),
    decreases hits.len() - i,
{
    if i < hits.len() {
        if skip.contains(hits[i].0) {
            lemma_met(ar, g1, g2, p, hits, i + 1, skip, outer);
        } else {
            law_walk_closes(ar, g1, hits[i]);
            if let Ok(Some(lp)) = face_walk(ar, g1, hits[i]) {
                if encloses(ar, g1, lp, p) {
                    assert(curve_live(g2, outer[0].0));
                } else {
                    let more = skip.union(curves_in(lp));
                    assert(curve_live(g2, lp[0].0));
                    assert forall|c: CurveId| #[trigger] more.contains(c) implies curve_live(
                        g2,
                        c,
                    ) by {
                        if !skip.contains(c) {
                            let j = choose|j: int| 0 <= j < lp.len() && (#[trigger] lp[j]).0 == c;
                            assert(curve_live(g2, lp[j].0));
                        }
                    }
                    lemma_met(ar, g1, g2, p, hits, i + 1, more, outer);
                }
            }
        }
    }
}

/// A walk along curves that are left is the walk from its first half-edge still,
/// and encloses what it did.
proof fn lemma_walk_kept(ar: Arith, g1: Graph, g2: Graph, p: Point, he: HalfEdge, lp: Seq<HalfEdge>)
    requires
        graph_wf(g1),
        graph_wf(g2),
        thinned_out(g1, g2),
        curve_live(g1, he.0),
        face_walk(ar, g1, he) == Ok::<Option<Seq<HalfEdge>>, Fault>(Some(lp)),
        loop_live(g2, lp),
    ensures
        face_walk(ar, g2, he) == Ok::<Option<Seq<HalfEdge>>, Fault>(Some(lp)),
        encloses(ar, g2, lp, p) == encloses(ar, g1, lp, p),
{
    law_walk_closes(ar, g1, he);
    law_face_loop_survives(ar, g1, g2, lp);
    law_walk_is_the_loop(ar, g2, lp);
}

proof fn lemma_march_kept(
    ar: Arith,
    g1: Graph,
    g2: Graph,
    p: Point,
    hits: Seq<HalfEdge>,
    now: Seq<HalfEdge>,
    i: int,
    skip: Set<CurveId>,
    outer: Seq<HalfEdge>,
)
    requires
        graph_wf(g1),
        graph_wf(g2),
        thinned_out(g1, g2),
        0 <= i <= hits.len(),
        forall|j: int| 0 <= j < hits.len() ==> curve_live(g1, (#[trigger] hits[j]).0),
        march(ar, g1, p, hits, i, skip) == Ok::<Option<Seq<HalfEdge>>, Fault>(Some(outer)),
        walks_kept(ar, g1, g2, p, hits, i, skip),
        loop_live(g2, outer),
        found_at(ar, g1, p, hits, i, skip) < now.len(),
        forall|j: int|
            i <= j <= found_at(ar, g1, p, hits, i, skip) ==> #[trigger] now[j] == hits[j],
    ensures
        march(ar, g2, p, now, i, skip) == Ok::<Option<Seq<HalfEdge>>, Fault>(Some(outer)),
    decreases hits.len() - i,
{
    if i < hits.len() {
        lemma_found(ar, g1, p, hits, i, skip);
        assert(now[i] == hits[i]);
        if skip.contains(hits[i].0) {
            lemma_march_kept(ar, g1, g2, p, hits, now, i + 1, skip, outer);
        } else {
            law_walk_closes(ar, g1, hits[i]);
            if let Ok(Some(lp)) = face_walk(ar, g1, hits[i]) {
                lemma_walk_kept(ar, g1, g2, p, hits[i], lp);
                if !encloses(ar, g1, lp, p) {
                    let more = skip.union(curves_in(lp));
                    lemma_march_kept(ar, g1, g2, p, hits, now, i + 1, more, outer);
                }
            }
        }
    }
}

proof fn lemma_found(
    ar: Arith,
    g: Graph,
    p: Point,
    hits: Seq<HalfEdge>,
    i: int,
    skip: Set<CurveId>,
)
    ensures
        i <= found_at(ar, g, p, hits, i, skip),
    decreases hits.len() - i,
{
    if i < hits.len() {
        if skip.contains(hits[i].0) {
            lemma_found(ar, g, p, hits, i + 1, skip);
        } else if let Ok(Some(lp)) = face_walk(ar, g, hits[i]) {
            lemma_found(ar, g, p, hits, i + 1, skip.union(curves_in(lp)));
        }
    }
}

/// A point keeps the outer boundary of its face when curves are taken away that
/// neither belong to it nor to a walk which the point's ray meets before.
pub proof fn law_outer_survives(
    ar: Arith,
    g1: Graph,
    g2: Graph,
    p: Point,
    outer: Seq<HalfEdge>,
)
    requires
        graph_wf(g1),
        graph_wf(g2),
        thinned_out(g1, g2),
        g1.curves.len() == g2.curves.len(),
        outer_of(ar, g1, p) == Ok::<Option<Seq<HalfEdge>>, Fault>(Some(outer)),
        loop_live(g2, outer),
        walks_kept(ar, g1, g2, p, raycast(ar, g1, p), 0, Set::empty()),
    ensures
        outer_of(ar, g2, p) == Ok::<Option<Seq<HalfEdge>>, Fault>(Some(outer)),
{
    let hits = raycast(ar, g1, p);
    lemma_raycast(ar, g1, p);
    lemma_met(ar, g1, g2, p, hits, 0, Set::empty(), outer);
    let n = found_at(ar, g1, p, hits, 0, Set::empty()) + 1;
    lemma_raycast_kept(ar, g1, g2, p, n);
    lemma_march_kept(ar, g1, g2, p, hits, raycast(ar, g2, p), 0, Set::empty(), outer);
}

} // verus!
