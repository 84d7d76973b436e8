//! Connected components of an arrangement, and where they lie.

use vstd::prelude::*;
use vstd::set_lib::{lemma_int_range, lemma_len_subset, set_int_range};

use crate::error::{viewed, Fault};
use crate::graph::{
    curve_live, curve_of, ends_at, graph_wf, lemma_pick, pick, vertex_live, vpos_of, Arrangement,
    Curve, CurveId, Graph, VertexId,
};
use crate::order::{lemma_sorted, sort_keys, spec_sorted, Key};
use crate::point::Point;
use crate::walk::{loop_live, HalfEdge};

verus! {

// ---- connectedness ----

/// A live curve outside `excl`.
pub open spec fn remains(g: Graph, excl: Set<CurveId>, c: CurveId) -> bool {
    curve_live(g, c) && !excl.contains(c)
}

/// Two remaining curves that share a vertex.
pub open spec fn linked(g: Graph, excl: Set<CurveId>, a: CurveId, b: CurveId) -> bool {
    &&& remains(g, excl, a)
    &&& remains(g, excl, b)
    &&& ends_at(g, a, curve_of(g, b).v0) || ends_at(g, a, curve_of(g, b).v1)
}

pub open spec fn is_path(g: Graph, excl: Set<CurveId>, path: Seq<CurveId>) -> bool {
    &&& path.len() > 0
    &&& remains(g, excl, path[0])
    &&& forall|i: int|
        #![trigger path[i]]
        0 <= i < path.len() - 1 ==> linked(g, excl, path[i], path[i + 1])
}

/// Two remaining curves with a path of remaining curves between them.
pub open spec fn connected(g: Graph, excl: Set<CurveId>, a: CurveId, b: CurveId) -> bool {
    exists|path: Seq<CurveId>| #[trigger]
        is_path(g, excl, path) && path[0] == a && path.last() == b
}

/// The curve with the lowest id of its component.
pub open spec fn leads(g: Graph, excl: Set<CurveId>) -> spec_fn(CurveId, Curve) -> bool {
    |id: CurveId, c: Curve|
        !excl.contains(id) && forall|b: CurveId|
            b.0 < id.0 ==> !#[trigger] connected(g, excl, b, id)
}

/// The leading curves of all components of what remains, in ascending order.
pub open spec fn leaders_of(g: Graph, excl: Set<CurveId>) -> Seq<CurveId> {
    pick(g.curves, leads(g, excl), g.curves.len() as int)
}

/// The vertices of the component that `lead` leads.
pub open spec fn verts_of(g: Graph, excl: Set<CurveId>, lead: CurveId) -> Set<VertexId> {
    Set::new(
        |v: VertexId| exists|c: CurveId| #[trigger] connected(g, excl, lead, c) && ends_at(g, c, v),
    )
}

proof fn lemma_connected_self(g: Graph, excl: Set<CurveId>, a: CurveId)
    requires
        remains(g, excl, a),
    ensures
        connected(g, excl, a, a),
{
    let path = seq![a];
    assert(is_path(g, excl, path) && path[0] == a && path.last() == a);
}

proof fn lemma_connected_step(g: Graph, excl: Set<CurveId>, a: CurveId, b: CurveId, c: CurveId)
    requires
        connected(g, excl, a, b),
        linked(g, excl, b, c),
    ensures
        connected(g, excl, a, c),
{
    let path = choose|path: Seq<CurveId>| #[trigger]
        is_path(g, excl, path) && path[0] == a && path.last() == b;
    let more = path.push(c);
    assert forall|i: int| #![trigger more[i]] 0 <= i < more.len() - 1 implies linked(
        g,
        excl,
        more[i],
        more[i + 1],
    ) by {
        if i < path.len() - 1 {
            assert(linked(g, excl, path[i], path[i + 1]));
        }
    }
    assert(is_path(g, excl, more) && more[0] == a && more.last() == c);
}

pub(crate) proof fn lemma_connected_trans(g: Graph, excl: Set<CurveId>, a: CurveId, b: CurveId, c: CurveId)
    requires
        connected(g, excl, a, b),
        connected(g, excl, b, c),
    ensures
        connected(g, excl, a, c),
{
    let p = choose|path: Seq<CurveId>| #[trigger]
        is_path(g, excl, path) && path[0] == a && path.last() == b;
    let q = choose|path: Seq<CurveId>| #[trigger]
        is_path(g, excl, path) && path[0] == b && path.last() == c;
    let r = p + q.skip(1);
    assert forall|i: int| #![trigger r[i]] 0 <= i < r.len() - 1 implies linked(
        g,
        excl,
        r[i],
        r[i + 1],
    ) by {
        if i < p.len() - 1 {
            assert(linked(g, excl, p[i], p[i + 1]));
        } else {
            let j = i - (p.len() - 1);
            assert(linked(g, excl, q[j], q[j + 1]));
            assert(r[i] == q[j]);
            assert(r[i + 1] == q[j + 1]);
        }
    }
    assert(r.last() == c) by {
        if q.len() == 1 {
            assert(r =~= p);
        } else {
            assert(r.last() == q.last());
        }
    }
    assert(is_path(g, excl, r) && r[0] == a);
}

/// Connected curves remain.
pub(crate) proof fn lemma_connected_remains(g: Graph, excl: Set<CurveId>, a: CurveId, b: CurveId)
    requires
        connected(g, excl, a, b),
    ensures
        remains(g, excl, a),
        remains(g, excl, b),
{
    let path = choose|path: Seq<CurveId>| #[trigger]
        is_path(g, excl, path) && path[0] == a && path.last() == b;
    if path.len() > 1 {
        assert(linked(g, excl, path[path.len() - 2], path[path.len() - 2 + 1]));
    }
}

/// Being connected goes both ways.
pub proof fn law_connected_symmetric(g: Graph, excl: Set<CurveId>, a: CurveId, b: CurveId)
    requires
        connected(g, excl, a, b),
    ensures
        connected(g, excl, b, a),
{
    let path = choose|path: Seq<CurveId>| #[trigger]
        is_path(g, excl, path) && path[0] == a && path.last() == b;
    let back = path.reverse();
    lemma_connected_remains(g, excl, a, b);
    assert forall|i: int| #![trigger back[i]] 0 <= i < back.len() - 1 implies linked(
        g,
        excl,
        back[i],
        back[i + 1],
    ) by {
        let j = path.len() - 2 - i;
        assert(linked(g, excl, path[j], path[j + 1]));
    }
    assert(is_path(g, excl, back) && back[0] == b && back.last() == a);
}

proof fn lemma_has_leader(g: Graph, excl: Set<CurveId>, c: CurveId)
    requires
        graph_wf(g),
        remains(g, excl, c),
    ensures
        exists|l: CurveId| #[trigger] leaders_of(g, excl).contains(l) && connected(g, excl, l, c),
    decreases c.0,
{
    lemma_pick(g.curves, leads(g, excl), g.curves.len() as int);
    lemma_connected_self(g, excl, c);
    if leads(g, excl)(c, curve_of(g, c)) {
        assert(leaders_of(g, excl).contains(c));
    } else {
        let b = choose|b: CurveId| b.0 < c.0 && #[trigger] connected(g, excl, b, c);
        lemma_connected_remains(g, excl, b, c);
        lemma_has_leader(g, excl, b);
        let l = choose|l: CurveId| #[trigger]
            leaders_of(g, excl).contains(l) && connected(g, excl, l, b);
        lemma_connected_trans(g, excl, l, b, c);
    }
}

/// Every remaining curve is in the component of one leading curve and no other.
pub proof fn law_components_partition(g: Graph, excl: Set<CurveId>, c: CurveId)
    requires
        graph_wf(g),
        remains(g, excl, c),
    ensures
        exists|l: CurveId| #[trigger] leaders_of(g, excl).contains(l) && connected(g, excl, l, c),
        forall|l: CurveId, k: CurveId| #[trigger]
            leaders_of(g, excl).contains(l) && #[trigger] leaders_of(g, excl).contains(k)
                && connected(g, excl, l, c) && connected(g, excl, k, c) ==> l == k,
{
    lemma_has_leader(g, excl, c);
    lemma_pick(g.curves, leads(g, excl), g.curves.len() as int);
    let leaders = leaders_of(g, excl);
    assert forall|l: CurveId, k: CurveId| #[trigger]
        leaders.contains(l) && #[trigger] leaders.contains(k) && connected(g, excl, l, c)
            && connected(g, excl, k, c) implies l == k by {
        law_connected_symmetric(g, excl, l, c);
        law_connected_symmetric(g, excl, k, c);
        lemma_connected_trans(g, excl, l, c, k);
        lemma_connected_trans(g, excl, k, c, l);
        if l.0 < k.0 {
            assert(connected(g, excl, l, k));
        } else if k.0 < l.0 {
            assert(connected(g, excl, k, l));
        }
    }
}

/// A set of curves that holds the start of a path, and with each curve all that
/// are linked to it, holds its end.
proof fn lemma_closed(
    g: Graph,
    excl: Set<CurveId>,
    seen: Seq<bool>,
    path: Seq<CurveId>,
    n: int,
)
    requires
        is_path(g, excl, path),
        seen.len() == g.curves.len(),
        seen[path[0].0 as int],
        forall|a: CurveId, b: CurveId|
            #![trigger linked(g, excl, a, b)]
            linked(g, excl, a, b) && seen[a.0 as int] ==> seen[b.0 as int],
        0 <= n < path.len(),
    ensures
        seen[path[n].0 as int],
    decreases n,
{
    if n > 0 {
        lemma_closed(g, excl, seen, path, n - 1);
        assert(linked(g, excl, path[n - 1], path[n - 1 + 1]));
    }
}

/// Distinct ids below `n` number at most `n`.
proof fn lemma_few(ids: Seq<CurveId>, n: int)
    requires
        ids.no_duplicates(),
        0 <= n,
        forall|i: int| 0 <= i < ids.len() ==> (#[trigger] ids[i]).0 < n,
    ensures
        ids.len() <= n,
{
    let nums = ids.map_values(|c: CurveId| c.0 as int);
    assert(nums.no_duplicates()) by {
        assert forall|i: int, j: int|
            0 <= i < nums.len() && 0 <= j < nums.len() && i != j implies nums[i] != nums[j] by {
            assert(ids[i] != ids[j]);
        }
    }
    nums.unique_seq_to_set();
    lemma_int_range(0, n);
    assert(nums.to_set().subset_of(set_int_range(0, n))) by {
        assert forall|x: int| nums.to_set().contains(x) implies set_int_range(0, n).contains(x) by {
            let i = choose|i: int| 0 <= i < nums.len() && nums[i] == x;
            assert(ids[i].0 < n);
        }
    }
    lemma_len_subset(nums.to_set(), set_int_range(0, n));
}

// ---- the rightmost vertex ----

pub open spec fn vertex_nan(g: Graph, v: VertexId) -> bool {
    vpos_of(g, v).x.spec_is_nan() || vpos_of(g, v).y.spec_is_nan()
}

/// `v` has a greater `x` than `u`, or the same `x` and no smaller `y`.
pub open spec fn no_less_right(u: Point, v: Point) -> bool {
    u.x.spec_rank() < v.x.spec_rank() || (u.x.spec_rank() == v.x.spec_rank() && u.y.spec_rank()
        <= v.y.spec_rank())
}

/// The rightmost of the vertices below `n` that are in `set`; of those furthest
/// right the one with the greatest `y`, and of those the last.
pub open spec fn rightmost_below(g: Graph, set: Set<VertexId>, n: int) -> Option<VertexId>
    decreases n,
{
    if n <= 0 {
        None
    } else {
        let v = VertexId((n - 1) as u32);
        match rightmost_below(g, set, n - 1) {
            None => if set.contains(v) {
                Some(v)
            } else {
                None
            },
            Some(u) => if set.contains(v) && no_less_right(vpos_of(g, u), vpos_of(g, v)) {
                Some(v)
            } else {
                Some(u)
            },
        }
    }
}

/// The set has two members, and a member with a coordinate that is not a
/// number.
pub open spec fn unorderable(g: Graph, set: Set<VertexId>) -> bool {
    &&& exists|u: VertexId, v: VertexId| #[trigger]
        set.contains(u) && #[trigger] set.contains(v) && u != v
    &&& exists|v: VertexId| #[trigger] set.contains(v) && vertex_nan(g, v)
}

/// The rightmost vertex of `set`. Two or more cannot be held against each other
/// when a coordinate is not a number.
pub open spec fn rightmost_of(g: Graph, set: Set<VertexId>) -> Result<Option<VertexId>, Fault> {
    if unorderable(g, set) {
        Err(Fault::NotANumber)
    } else {
        Ok(rightmost_below(g, set, g.verts.len() as int))
    }
}

// ---- islands ----

/// A component beside an outer boundary: a vertex that is not on the boundary,
/// its rightmost vertex, and its leading curve.
#[derive(Clone, Copy)]
pub struct Island {
    pub test: VertexId,
    pub right: VertexId,
    pub lead: CurveId,
}

/// The curves of the component that `lead` leads, in ascending order.
pub open spec fn component_curves(g: Graph, excl: Set<CurveId>, lead: CurveId) -> Seq<CurveId> {
    pick(
        g.curves,
        |id: CurveId, c: Curve| connected(g, excl, lead, id),
        g.curves.len() as int,
    )
}

/// The half-edges of the first `n` curves, each forth and then back.
pub open spec fn both_ways(ids: Seq<CurveId>, n: int) -> Seq<HalfEdge>
    decreases n,
{
    if n <= 0 {
        Seq::empty()
    } else {
        both_ways(ids, n - 1).push((ids[n - 1], false)).push((ids[n - 1], true))
    }
}

/// The half-edges of the component that `lead` leads.
pub open spec fn component_half_edges(g: Graph, excl: Set<CurveId>, lead: CurveId) -> Seq<HalfEdge> {
    let ids = component_curves(g, excl, lead);
    both_ways(ids, ids.len() as int)
}

proof fn lemma_both_ways(ids: Seq<CurveId>, n: int)
    requires
        0 <= n <= ids.len(),
    ensures
        forall|i: int|
            #![trigger both_ways(ids, n)[i]]
            0 <= i < both_ways(ids, n).len() ==> ids.contains(both_ways(ids, n)[i].0),
        forall|i: int, back: bool|
            #![trigger both_ways(ids, n).contains((ids[i], back))]
            0 <= i < n ==> both_ways(ids, n).contains((ids[i], back)),
    decreases n,
{
    if n > 0 {
        lemma_both_ways(ids, n - 1);
        let before = both_ways(ids, n - 1);
        let all = both_ways(ids, n);
        assert forall|i: int| #![trigger all[i]] 0 <= i < all.len() implies ids.contains(
            all[i].0,
        ) by {
            if i < before.len() {
                assert(all[i] == before[i]);
            } else {
                assert(ids[n - 1] == all[i].0);
            }
        }
        assert forall|i: int, back: bool|
            #![trigger all.contains((ids[i], back))]
            0 <= i < n implies all.contains((ids[i], back)) by {
            if i < n - 1 {
                assert(before.contains((ids[i], back)));
                let j = choose|j: int| 0 <= j < before.len() && before[j] == (ids[i], back);
                assert(all[j] == (ids[i], back));
            } else {
                assert(all[before.len() as int] == (ids[i], false));
                assert(all[before.len() as int + 1] == (ids[i], true));
            }
        }
    }
}

proof fn lemma_both_ways_prefix(a: Seq<CurveId>, b: Seq<CurveId>, n: int)
    requires
        0 <= n <= a.len(),
        n <= b.len(),
        forall|i: int| 0 <= i < n ==> a[i] == b[i],
    ensures
        both_ways(a, n) == both_ways(b, n),
    decreases n,
{
    if n > 0 {
        lemma_both_ways_prefix(a, b, n - 1);
    }
}

/// The half-edges of a component are those of its curves, which are live.
pub proof fn lemma_component_half_edges(g: Graph, excl: Set<CurveId>, lead: CurveId)
    requires
        graph_wf(g),
    ensures
        loop_live(g, component_half_edges(g, excl, lead)),
        forall|he: HalfEdge| #[trigger]
            connected(g, excl, lead, he.0) ==> component_half_edges(g, excl, lead).contains(he),
{
    let ids = component_curves(g, excl, lead);
    let all = component_half_edges(g, excl, lead);
    lemma_both_ways(ids, ids.len() as int);
    lemma_pick(
        g.curves,
        |id: CurveId, c: Curve| connected(g, excl, lead, id),
        g.curves.len() as int,
    );
    assert forall|i: int| 0 <= i < all.len() implies curve_live(g, (#[trigger] all[i]).0) by {
        assert(ids.contains(all[i].0));
    }
    assert forall|he: HalfEdge| #[trigger] connected(g, excl, lead, he.0) implies all.contains(
        he,
    ) by {
        lemma_connected_remains(g, excl, lead, he.0);
        assert(ids.contains(he.0));
        let i = choose|i: int| 0 <= i < ids.len() && ids[i] == he.0;
        assert(all.contains((ids[i], he.1)));
    }
}

/// The islands that the first `n` of `leaders` lead. A component whose every
/// vertex is in `shore` is none.
pub open spec fn islands_below(
    g: Graph,
    excl: Set<CurveId>,
    shore: Set<VertexId>,
    leaders: Seq<CurveId>,
    n: int,
) -> Result<Seq<Island>, Fault>
    decreases n,
{
    if n <= 0 {
        Ok(Seq::empty())
    } else {
        let verts = verts_of(g, excl, leaders[n - 1]);
        match islands_below(g, excl, shore, leaders, n - 1) {
            Err(e) => Err(e),
            Ok(before) => match rightmost_of(g, verts.difference(shore)) {
                Err(e) => Err(e),
                Ok(None) => Ok(before),
                Ok(Some(test)) => match rightmost_of(g, verts) {
                    Err(e) => Err(e),
                    Ok(None) => Ok(before),
                    Ok(Some(right)) => Ok(
                        before.push(Island { test, right, lead: leaders[n - 1] }),
                    ),
                },
            },
        }
    }
}

pub open spec fn island_keys(g: Graph, islands: Seq<Island>) -> Seq<Key> {
    Seq::new(
        islands.len(),
        |i: int| ((-vpos_of(g, islands[i].right).x.spec_rank()) as i64, i as u64),
    )
}

/// The islands in the order of their rightmost vertices, from right to left;
/// two or more cannot be put in order when one of these has no number for `x`.
pub open spec fn ranged(g: Graph, islands: Seq<Island>) -> Result<Seq<Island>, Fault> {
    if islands.len() >= 2 && exists|i: int|
        0 <= i < islands.len() && vpos_of(g, (#[trigger] islands[i]).right).x.spec_is_nan() {
        Err(Fault::NotANumber)
    } else {
        Ok(spec_sorted(island_keys(g, islands)).map_values(|key: Key| islands[key.1 as int]))
    }
}

/// The islands of what remains without `excl`, from right to left.
#[verifier::opaque]
pub open spec fn islands_of(g: Graph, excl: Set<CurveId>, shore: Set<VertexId>) -> Result<
    Seq<Island>,
    Fault,
> {
    let leaders = leaders_of(g, excl);
    match islands_below(g, excl, shore, leaders, leaders.len() as int) {
        Err(e) => Err(e),
        Ok(islands) => ranged(g, islands),
    }
}

/// The islands found so far depend on the leaders so far alone.
proof fn lemma_islands_prefix(
    g: Graph,
    excl: Set<CurveId>,
    shore: Set<VertexId>,
    a: Seq<CurveId>,
    b: Seq<CurveId>,
    n: int,
)
    requires
        0 <= n <= a.len(),
        n <= b.len(),
        forall|i: int| 0 <= i < n ==> a[i] == b[i],
    ensures
        islands_below(g, excl, shore, a, n) == islands_below(g, excl, shore, b, n),
    decreases n,
{
    if n > 0 {
        lemma_islands_prefix(g, excl, shore, a, b, n - 1);
    }
}

/// The islands of the leaders below `i`.
pub open spec fn islands_upto(g: Graph, excl: Set<CurveId>, shore: Set<VertexId>, i: int) -> Result<
    Seq<Island>,
    Fault,
> {
    let leaders = pick(g.curves, leads(g, excl), i);
    islands_below(g, excl, shore, leaders, leaders.len() as int)
}

/// Once there is a fault, more leaders do not mend it.
proof fn lemma_fault_stays(g: Graph, excl: Set<CurveId>, shore: Set<VertexId>, i: int, n: int)
    requires
        0 <= i <= n <= g.curves.len() <= u32::MAX,
    ensures
        islands_upto(g, excl, shore, i) is Err ==> islands_upto(g, excl, shore, n) == islands_upto(
            g,
            excl,
            shore,
            i,
        ),
    decreases n - i,
{
    if i < n {
        lemma_fault_stays(g, excl, shore, i, n - 1);
        let before = pick(g.curves, leads(g, excl), n - 1);
        let now = pick(g.curves, leads(g, excl), n);
        lemma_islands_prefix(g, excl, shore, before, now, before.len() as int);
    }
}

proof fn lemma_rightmost(g: Graph, set: Set<VertexId>, n: int)
    ensures
        rightmost_below(g, set, n) matches Some(v) ==> set.contains(v),
    decreases n,
{
    if n > 0 {
        lemma_rightmost(g, set, n - 1);
    }
}

/// The vertices of a component are live.
pub(crate) proof fn lemma_verts_live(g: Graph, excl: Set<CurveId>, lead: CurveId)
    requires
        graph_wf(g),
    ensures
        forall|v: VertexId| #[trigger] verts_of(g, excl, lead).contains(v) ==> vertex_live(g, v),
{
    assert forall|v: VertexId| #[trigger] verts_of(g, excl, lead).contains(v) implies vertex_live(
        g,
        v,
    ) by {
        let c = choose|c: CurveId| #[trigger] connected(g, excl, lead, c) && ends_at(g, c, v);
        lemma_connected_remains(g, excl, lead, c);
        assert(g.curves[c.0 as int] is Some);
    }
}

/// The vertices of an island are live, and its leading curve leads.
proof fn lemma_islands(
    g: Graph,
    excl: Set<CurveId>,
    shore: Set<VertexId>,
    leaders: Seq<CurveId>,
    n: int,
)
    requires
        graph_wf(g),
        0 <= n <= leaders.len(),
    ensures
        islands_below(g, excl, shore, leaders, n) matches Ok(islands) ==> forall|i: int|
            0 <= i < islands.len() ==> vertex_live(g, (#[trigger] islands[i]).test) && vertex_live(
                g,
                islands[i].right,
            ) && leaders.contains(islands[i].lead),
    decreases n,
{
    if n > 0 {
        lemma_islands(g, excl, shore, leaders, n - 1);
        let verts = verts_of(g, excl, leaders[n - 1]);
        lemma_verts_live(g, excl, leaders[n - 1]);
        lemma_rightmost(g, verts, g.verts.len() as int);
        lemma_rightmost(g, verts.difference(shore), g.verts.len() as int);
        assert(leaders.contains(leaders[n - 1]));
    }
}

/// The vertices of the islands are live, and their leading curves remain.
pub proof fn lemma_islands_live(g: Graph, excl: Set<CurveId>, shore: Set<VertexId>)
    requires
        graph_wf(g),
    ensures
        islands_of(g, excl, shore) matches Ok(islands) ==> forall|i: int|
            0 <= i < islands.len() ==> vertex_live(g, (#[trigger] islands[i]).test) && vertex_live(
                g,
                islands[i].right,
            ) && remains(g, excl, islands[i].lead),
{
    reveal(islands_of);
    let leaders = leaders_of(g, excl);
    lemma_islands(g, excl, shore, leaders, leaders.len() as int);
    if let Ok(found) = islands_below(g, excl, shore, leaders, leaders.len() as int) {
        let keys = island_keys(g, found);
        lemma_sorted(keys);
        if let Ok(islands) = ranged(g, found) {
            assert forall|i: int| 0 <= i < islands.len() implies vertex_live(
                g,
                (#[trigger] islands[i]).test,
            ) && vertex_live(g, islands[i].right) && remains(g, excl, islands[i].lead) by {
                let key = spec_sorted(keys)[i];
                assert(spec_sorted(keys).contains(key));
                assert(keys.contains(key));
                assert(found[key.1 as int] == islands[i]);
                lemma_pick(g.curves, leads(g, excl), g.curves.len() as int);
                assert(leaders.contains(islands[i].lead));
            }
        }
    }
}

/// Marks that stand for a set of curves.
pub open spec fn marks(g: Graph, bits: Seq<bool>, set: Set<CurveId>) -> bool {
    &&& bits.len() == g.curves.len()
    &&& forall|i: int| #![trigger bits[i]] 0 <= i < bits.len() ==> (bits[i] <==> set.contains(
        CurveId(i as u32),
    ))
}

/// Marks that stand for a set of vertices.
pub open spec fn marks_verts(g: Graph, bits: Seq<bool>, set: Set<VertexId>) -> bool {
    &&& bits.len() == g.verts.len()
    &&& forall|i: int| #![trigger bits[i]] 0 <= i < bits.len() ==> (bits[i] <==> set.contains(
        VertexId(i as u32),
    ))
}

/// `n` marks, none of them set.
pub fn blank(n: usize) -> (r: Vec<bool>)
    ensures
        r@.len() == n,
        forall|i: int| 0 <= i < n ==> !#[trigger] r@[i],
{
    let mut r: Vec<bool> = Vec::new();
    let mut i: usize = 0;
    while i < n
        invariant
            i <= n,
            r@.len() == i,
            forall|j: int| 0 <= j < i ==> !#[trigger] r@[j],
        decreases n - i,
    {
        r.push(false);
        i = i + 1;
    }
    r
}

fn shares_vertex(a: Curve, b: Curve) -> (r: bool)
    ensures
        r == (a.v0 == b.v0 || a.v1 == b.v0 || a.v0 == b.v1 || a.v1 == b.v1),
{
    a.v0 == b.v0 || a.v1 == b.v0 || a.v0 == b.v1 || a.v1 == b.v1
}

impl Arrangement {
    /// Marks the curves that are connected to `lead`.
    fn component_of(&self, excl: &Vec<bool>, lead: CurveId, Ghost(set): Ghost<Set<CurveId>>) -> (r: Vec<
        bool,
    >)
        requires
            graph_wf(self@),
            marks(self@, excl@, set),
            remains(self@, set, lead),
        ensures
            r@.len() == self@.curves.len(),
            forall|i: int|
                #![trigger r@[i]]
                0 <= i < r@.len() ==> (r@[i] <==> connected(self@, set, lead, CurveId(i as u32))),
    {
        let ghost g = self@;
        let n: usize = self.curves.len();
        let mut seen = blank(n);
        let mut queue: Vec<CurveId> = Vec::new();
        seen.set(lead.0 as usize, true);
        queue.push(lead);
        proof {
            lemma_connected_self(g, set, lead);
            assert(queue@[0] == lead);
            assert(queue@.contains(lead));
        }
        let mut head: usize = 0;
        while head < queue.len()
            invariant
                graph_wf(g),
                self@ == g,
                n == g.curves.len(),
                marks(g, excl@, set),
                head <= queue@.len() <= n,
                seen@.len() == n,
                remains(g, set, lead),
                seen@[lead.0 as int],
                queue@.no_duplicates(),
                forall|i: int|
                    #![trigger queue@[i]]
                    0 <= i < queue@.len() ==> connected(g, set, lead, queue@[i]) && remains(
                        g,
                        set,
                        queue@[i],
                    ) && seen@[queue@[i].0 as int],
                forall|i: int|
                    #![trigger seen@[i]]
                    0 <= i < n && seen@[i] ==> queue@.contains(CurveId(i as u32)),
                forall|i: int, b: CurveId|
                    #![trigger linked(g, set, queue@[i], b)]
                    0 <= i < head && linked(g, set, queue@[i], b) ==> seen@[b.0 as int],
            decreases n - head,
        {
            let cur = queue[head];
            assert(connected(g, set, lead, cur));
            let c = self.curve(cur);
            let mut i: usize = 0;
            while i < n
                invariant
                    graph_wf(g),
                    self@ == g,
                    i <= n == g.curves.len(),
                    marks(g, excl@, set),
                    head < queue@.len() <= n,
                    seen@.len() == n,
                    seen@[lead.0 as int],
                    cur == queue@[head as int],
                    remains(g, set, cur),
                    connected(g, set, lead, cur),
                    c == curve_of(g, cur),
                    queue@.no_duplicates(),
                    forall|j: int|
                        #![trigger queue@[j]]
                        0 <= j < queue@.len() ==> connected(g, set, lead, queue@[j]) && remains(
                            g,
                            set,
                            queue@[j],
                        ) && seen@[queue@[j].0 as int],
                    forall|j: int|
                        #![trigger seen@[j]]
                        0 <= j < n && seen@[j] ==> queue@.contains(CurveId(j as u32)),
                    forall|j: int, b: CurveId|
                        #![trigger linked(g, set, queue@[j], b)]
                        0 <= j < head && linked(g, set, queue@[j], b) ==> seen@[b.0 as int],
                    forall|b: CurveId|
                        #![trigger linked(g, set, cur, b)]
                        b.0 < i && linked(g, set, cur, b) ==> seen@[b.0 as int],
                decreases n - i,
            {
                if let Some(d) = self.curves[i] {
                    let id = CurveId(i as u32);
                    assert(curve_live(g, id) && curve_of(g, id) == d);
                    let out = excl[i];
                    if !out && !seen[i] && shares_vertex(c, d) {
                        proof {
                            assert(linked(g, set, cur, id));
                            lemma_connected_step(g, set, lead, cur, id);
                            if queue@.contains(id) {
                                let x = choose|x: int| 0 <= x < queue@.len() && queue@[x] == id;
                                assert(seen@[queue@[x].0 as int]);
                            }
                        }
                        let ghost q0 = queue@;
                        let ghost s0 = seen@;
                        seen.set(i, true);
                        queue.push(id);
                        proof {
                            assert(queue@.no_duplicates());
                            assert forall|j: int|
                                #![trigger queue@[j]]
                                0 <= j < queue@.len() implies connected(g, set, lead, queue@[j])
                                && remains(g, set, queue@[j]) && seen@[queue@[j].0 as int] by {
                                if j < q0.len() {
                                    assert(queue@[j] == q0[j]);
                                }
                            }
                            assert forall|j: int|
                                #![trigger seen@[j]]
                                0 <= j < n && seen@[j] implies queue@.contains(
                                CurveId(j as u32),
                            ) by {
                                if j == i {
                                    assert(queue@[q0.len() as int] == CurveId(j as u32));
                                } else {
                                    assert(s0[j]);
                                    let x = choose|x: int|
                                        0 <= x < q0.len() && q0[x] == CurveId(j as u32);
                                    assert(queue@[x] == CurveId(j as u32));
                                }
                            }
                            assert forall|j: int, b: CurveId|
                                #![trigger linked(g, set, queue@[j], b)]
                                0 <= j < head && linked(g, set, queue@[j], b) implies seen@[b.0 as int] by {
                                assert(queue@[j] == q0[j]);
                                assert(linked(g, set, q0[j], b));
                                assert(s0[b.0 as int]);
                            }
                            lemma_few(queue@, n as int);
                        }
                    }
                }
                proof {
                    assert forall|b: CurveId|
                        #![trigger linked(g, set, cur, b)]
                        b.0 < i + 1 && linked(g, set, cur, b) implies seen@[b.0 as int] by {
                        if b.0 == i {
                            assert(excl@[i as int] <==> set.contains(CurveId(i as u32)));
                            assert(b == CurveId(i as u32));
                        }
                    }
                }
                i = i + 1;
            }
            head = head + 1;
            assert forall|j: int, b: CurveId|
                #![trigger linked(g, set, queue@[j], b)]
                0 <= j < head && linked(g, set, queue@[j], b) implies seen@[b.0 as int] by {
                if j == head - 1 {
                    assert(linked(g, set, cur, b));
                }
            }
        }
        proof {
            assert forall|a: CurveId, b: CurveId|
                #![trigger linked(g, set, a, b)]
                linked(g, set, a, b) && seen@[a.0 as int] implies seen@[b.0 as int] by {
                assert(queue@.contains(CurveId(a.0 as int as u32)));
                assert(queue@.contains(a));
                let x = choose|x: int| 0 <= x < queue@.len() && queue@[x] == a;
                assert(linked(g, set, queue@[x], b));
            }
            assert forall|i: int|
                #![trigger seen@[i]]
                0 <= i < seen@.len() implies (seen@[i] <==> connected(
                g,
                set,
                lead,
                CurveId(i as u32),
            )) by {
                if seen@[i] {
                    assert(queue@.contains(CurveId(i as u32)));
                    let x = choose|x: int| 0 <= x < queue@.len() && queue@[x] == CurveId(i as u32);
                    assert(connected(g, set, lead, queue@[x]));
                }
                if connected(g, set, lead, CurveId(i as u32)) {
                    let path = choose|path: Seq<CurveId>| #[trigger]
                        is_path(g, set, path) && path[0] == lead && path.last() == CurveId(
                            i as u32,
                        );
                    lemma_closed(g, set, seen@, path, path.len() - 1);
                }
            }
        }
        seen
    }

    /// Marks the vertices of the curves that are marked.
    fn verts_of_marked(
        &self,
        comp: &Vec<bool>,
        Ghost(set): Ghost<Set<CurveId>>,
        Ghost(lead): Ghost<CurveId>,
    ) -> (r: Vec<bool>)
        requires
            graph_wf(self@),
            comp@.len() == self@.curves.len(),
            forall|i: int|
                #![trigger comp@[i]]
                0 <= i < comp@.len() ==> (comp@[i] <==> connected(
                    self@,
                    set,
                    lead,
                    CurveId(i as u32),
                )),
        ensures
            marks_verts(self@, r@, verts_of(self@, set, lead)),
    {
        let ghost g = self@;
        let m: usize = self.verts.len();
        let n: usize = self.curves.len();
        let mut r = blank(m);
        let mut i: usize = 0;
        while i < n
            invariant
                graph_wf(g),
                self@ == g,
                i <= n == g.curves.len(),
                m == g.verts.len(),
                r@.len() == m,
                comp@.len() == n,
                forall|x: int|
                    #![trigger comp@[x]]
                    0 <= x < comp@.len() ==> (comp@[x] <==> connected(
                        g,
                        set,
                        lead,
                        CurveId(x as u32),
                    )),
                forall|v: int|
                    #![trigger r@[v]]
                    0 <= v < m ==> (r@[v] <==> exists|c: CurveId| #[trigger]
                        connected(g, set, lead, c) && c.0 < i && ends_at(g, c, VertexId(v as u32))),
            decreases n - i,
        {
            let ghost before = r@;
            let ghost id = CurveId(i as u32);
            let inside = comp[i];
            if inside {
                proof {
                    lemma_connected_remains(g, set, lead, id);
                    assert(g.curves[i as int] is Some);
                }
                let c = self.curve(CurveId(i as u32));
                r.set(c.v0.0 as usize, true);
                r.set(c.v1.0 as usize, true);
            }
            assert forall|v: int| #![trigger r@[v]] 0 <= v < m implies (r@[v] <==> exists|
                c: CurveId,
            | #[trigger]
                connected(g, set, lead, c) && c.0 < i + 1 && ends_at(g, c, VertexId(v as u32))) by {
                if r@[v] && !before[v] {
                    assert(connected(g, set, lead, id) && ends_at(g, id, VertexId(v as u32)));
                } else if r@[v] {
                    let c = choose|c: CurveId| #[trigger]
                        connected(g, set, lead, c) && c.0 < i && ends_at(g, c, VertexId(v as u32));
                    assert(connected(g, set, lead, c));
                }
                if exists|c: CurveId| #[trigger]
                    connected(g, set, lead, c) && c.0 < i + 1 && ends_at(
                        g,
                        c,
                        VertexId(v as u32),
                    ) {
                    let c = choose|c: CurveId| #[trigger]
                        connected(g, set, lead, c) && c.0 < i + 1 && ends_at(
                            g,
                            c,
                            VertexId(v as u32),
                        );
                    if c.0 == i {
                        assert(c == id);
                        assert(comp@[i as int]);
                    } else {
                        assert(before[v]);
                    }
                }
            }
            i = i + 1;
        }
        assert forall|v: int| #![trigger r@[v]] 0 <= v < r@.len() implies (r@[v] <==> verts_of(
            g,
            set,
            lead,
        ).contains(VertexId(v as u32))) by {
            if verts_of(g, set, lead).contains(VertexId(v as u32)) {
                let c = choose|c: CurveId| #[trigger]
                    connected(g, set, lead, c) && ends_at(g, c, VertexId(v as u32));
                lemma_connected_remains(g, set, lead, c);
                assert(connected(g, set, lead, c) && c.0 < n);
            }
        }
        r
    }

    /// Adds the half-edges of the component that `lead` leads.
    pub(crate) fn half_edges_into(
        &self,
        excl: &Vec<bool>,
        lead: CurveId,
        hes: &mut Vec<HalfEdge>,
        Ghost(set): Ghost<Set<CurveId>>,
    )
        requires
            graph_wf(self@),
            marks(self@, excl@, set),
            remains(self@, set, lead),
        ensures
            final(hes)@ == old(hes)@ + component_half_edges(self@, set, lead),
    {
        let ghost g = self@;
        let ghost start = hes@;
        let ghost pred = |id: CurveId, c: Curve| connected(g, set, lead, id);
        let comp = self.component_of(excl, lead, Ghost(set));
        let n: usize = self.curves.len();
        let mut i: usize = 0;
        assert(hes@ =~= start + both_ways(pick(g.curves, pred, 0), 0));
        while i < n
            invariant
                graph_wf(g),
                self@ == g,
                i <= n == g.curves.len() == comp@.len(),
                forall|x: int|
                    #![trigger comp@[x]]
                    0 <= x < comp@.len() ==> (comp@[x] <==> connected(
                        g,
                        set,
                        lead,
                        CurveId(x as u32),
                    )),
                pred == (|id: CurveId, c: Curve| connected(g, set, lead, id)),
                hes@ == start + both_ways(
                    pick(g.curves, pred, i as int),
                    pick(g.curves, pred, i as int).len() as int,
                ),
            decreases n - i,
        {
            let ghost before = pick(g.curves, pred, i as int);
            let ghost h0 = hes@;
            let ghost id = CurveId(i as u32);
            let inside = comp[i];
            if inside {
                hes.push((CurveId(i as u32), false));
                hes.push((CurveId(i as u32), true));
                proof {
                    lemma_connected_remains(g, set, lead, id);
                    let now = pick(g.curves, pred, i + 1);
                    assert(now == before.push(id));
                    lemma_both_ways_prefix(before, now, before.len() as int);
                    assert(hes@ =~= start + both_ways(now, now.len() as int));
                }
            }
            i = i + 1;
        }
    }

    /// The rightmost of the marked vertices.
    fn rightmost(&self, bits: &Vec<bool>, Ghost(set): Ghost<Set<VertexId>>) -> (r: Result<
        Option<VertexId>,
        Fault,
    >)
        requires
            graph_wf(self@),
            marks_verts(self@, bits@, set),
            forall|v: VertexId| #[trigger] set.contains(v) ==> vertex_live(self@, v),
        ensures
            r == rightmost_of(self@, set),
    {
        let ghost g = self@;
        let n: usize = self.verts.len();
        let mut best: Option<VertexId> = None;
        let mut many = false;
        let mut nan = false;
        let mut i: usize = 0;
        while i < n
            invariant
                graph_wf(g),
                self@ == g,
                i <= n == g.verts.len(),
                marks_verts(g, bits@, set),
                forall|v: VertexId| #[trigger] set.contains(v) ==> vertex_live(g, v),
                best == rightmost_below(g, set, i as int),
                best is None ==> forall|v: VertexId| #[trigger] set.contains(v) ==> v.0 >= i,
                best matches Some(b) ==> set.contains(b) && b.0 < i,
                many ==> exists|u: VertexId, v: VertexId| #[trigger]
                    set.contains(u) && #[trigger] set.contains(v) && u != v,
                !many ==> forall|u: VertexId, v: VertexId| #[trigger]
                    set.contains(u) && #[trigger] set.contains(v) && u.0 < i && v.0 < i ==> u == v,
                nan ==> exists|v: VertexId| #[trigger] set.contains(v) && vertex_nan(g, v),
                !nan ==> forall|v: VertexId| #[trigger]
                    set.contains(v) && v.0 < i ==> !vertex_nan(g, v),
            decreases n - i,
        {
            let v = VertexId(i as u32);
            let ghost b0 = best;
            let inside = bits[i];
            assert(inside == set.contains(v));
            if inside {
                let p = self.vpos(v);
                if p.x.is_nan() || p.y.is_nan() {
                    nan = true;
                    assert(set.contains(v) && vertex_nan(g, v));
                }
                match best {
                    None => {
                        best = Some(v);
                    },
                    Some(u) => {
                        many = true;
                        assert(set.contains(u) && set.contains(v) && u != v);
                        let q = self.vpos(u);
                        let rx = q.x.rank();
                        let sx = p.x.rank();
                        if rx < sx || (rx == sx && q.y.rank() <= p.y.rank()) {
                            best = Some(v);
                        }
                    },
                }
            }
            i = i + 1;
            proof {
                assert forall|x: VertexId| #[trigger] set.contains(x) && x.0 < i implies x == v
                    || x.0 < i - 1 by {}
            }
        }
        proof {
            assert forall|x: VertexId| #[trigger] set.contains(x) implies x.0 < n by {
                assert(vertex_live(g, x));
            }
        }
        if many && nan {
            Err(Fault::NotANumber)
        } else {
            Ok(best)
        }
    }

    /// The island that `lead` leads, if it is one.
    fn island_at(
        &self,
        comp: &Vec<bool>,
        shore: &Vec<bool>,
        Ghost(set): Ghost<Set<CurveId>>,
        lead: CurveId,
        Ghost(edge): Ghost<Set<VertexId>>,
    ) -> (r: Result<Option<Island>, Fault>)
        requires
            graph_wf(self@),
            marks_verts(self@, shore@, edge),
            comp@.len() == self@.curves.len(),
            forall|i: int|
                #![trigger comp@[i]]
                0 <= i < comp@.len() ==> (comp@[i] <==> connected(
                    self@,
                    set,
                    lead,
                    CurveId(i as u32),
                )),
        ensures
            r == match rightmost_of(self@, verts_of(self@, set, lead).difference(edge)) {
                Err(e) => Err::<Option<Island>, Fault>(e),
                Ok(None) => Ok(None),
                Ok(Some(test)) => match rightmost_of(self@, verts_of(self@, set, lead)) {
                    Err(e) => Err(e),
                    Ok(None) => Ok(None),
                    Ok(Some(right)) => Ok(Some(Island { test, right, lead })),
                },
            },
    {
        let ghost g = self@;
        let ghost verts = verts_of(g, set, lead);
        let all = self.verts_of_marked(comp, Ghost(set), Ghost(lead));
        let n: usize = self.verts.len();
        let mut inland: Vec<bool> = Vec::new();
        let mut i: usize = 0;
        while i < n
            invariant
                i <= n == g.verts.len(),
                marks_verts(g, all@, verts),
                marks_verts(g, shore@, edge),
                inland@.len() == i,
                forall|x: int|
                    #![trigger inland@[x]]
                    0 <= x < i ==> (inland@[x] <==> verts.difference(edge).contains(
                        VertexId(x as u32),
                    )),
            decreases n - i,
        {
            let b = all[i] && !shore[i];
            inland.push(b);
            i = i + 1;
        }
        proof {
            lemma_verts_live(g, set, lead);
        }
        match self.rightmost(&inland, Ghost(verts.difference(edge))) {
            Err(e) => Err(e),
            Ok(None) => Ok(None),
            Ok(Some(test)) => match self.rightmost(&all, Ghost(verts)) {
                Err(e) => Err(e),
                Ok(None) => Ok(None),
                Ok(Some(right)) => Ok(Some(Island { test, right, lead })),
            },
        }
    }

    /// The islands of what remains without the marked curves, in the order of
    /// their leading curves.
    fn components(
        &self,
        excl: &Vec<bool>,
        shore: &Vec<bool>,
        Ghost(set): Ghost<Set<CurveId>>,
        Ghost(edge): Ghost<Set<VertexId>>,
    ) -> (r: Result<Vec<Island>, Fault>)
        requires
            graph_wf(self@),
            marks(self@, excl@, set),
            marks_verts(self@, shore@, edge),
        ensures
            viewed(r) == islands_below(
                self@,
                set,
                edge,
                leaders_of(self@, set),
                leaders_of(self@, set).len() as int,
            ),
    {
        let ghost g = self@;
        let n: usize = self.curves.len();
        let mut seen = blank(n);
        let mut out: Vec<Island> = Vec::new();
        let mut i: usize = 0;
        while i < n
            invariant
                graph_wf(g),
                self@ == g,
                i <= n == g.curves.len(),
                marks(g, excl@, set),
                marks_verts(g, shore@, edge),
                seen@.len() == n,
                islands_below(
                    g,
                    set,
                    edge,
                    pick(g.curves, leads(g, set), i as int),
                    pick(g.curves, leads(g, set), i as int).len() as int,
                ) == Ok::<Seq<Island>, Fault>(out@),
                forall|x: int|
                    #![trigger seen@[x]]
                    0 <= x < n ==> (seen@[x] <==> exists|r: CurveId| #[trigger]
                        connected(g, set, r, CurveId(x as u32)) && r.0 < i),
            decreases n - i,
        {
            let ghost id = CurveId(i as u32);
            let ghost before = pick(g.curves, leads(g, set), i as int);
            let ghost seen0 = seen@;
            let out_of_it = excl[i];
            let known = seen[i];
            let live = self.curves[i].is_some();
            proof {
                assert(excl@[i as int] <==> set.contains(id));
                assert(known <==> exists|r: CurveId| #[trigger]
                    connected(g, set, r, id) && r.0 < id.0);
            }
            if live && !out_of_it && !known {
                let lead = CurveId(i as u32);
                assert(leads(g, set)(id, g.curves[i as int]->0));
                let ghost now = before.push(id);
                assert(pick(g.curves, leads(g, set), i + 1) == now);
                proof {
                    lemma_islands_prefix(g, set, edge, before, now, before.len() as int);
                    lemma_fault_stays(g, set, edge, i + 1, n as int);
                }
                let comp = self.component_of(excl, lead, Ghost(set));
                match self.island_at(&comp, shore, Ghost(set), lead, Ghost(edge)) {
                    Err(e) => {
                        return Err(e);
                    },
                    Ok(None) => {},
                    Ok(Some(island)) => {
                        out.push(island);
                    },
                }
                let mut j: usize = 0;
                while j < n
                    invariant
                        j <= n == g.curves.len(),
                        i < n,
                        comp@.len() == n,
                        seen@.len() == n,
                        seen0.len() == n,
                        lead == CurveId(i as u32),
                        forall|x: int|
                            #![trigger comp@[x]]
                            0 <= x < n ==> (comp@[x] <==> connected(
                                g,
                                set,
                                lead,
                                CurveId(x as u32),
                            )),
                        forall|x: int|
                            #![trigger seen@[x]]
                            0 <= x < n ==> (seen@[x] <==> seen0[x] || (x < j && comp@[x])),
                    decreases n - j,
                {
                    let c = comp[j];
                    if c {
                        seen.set(j, true);
                    }
                    j = j + 1;
                }
                assert forall|x: int| #![trigger seen@[x]] 0 <= x < n implies (seen@[x] <==> exists|
                    r: CurveId,
                | #[trigger] connected(g, set, r, CurveId(x as u32)) && r.0 < i + 1) by {
                    assert(comp@[x] <==> connected(g, set, lead, CurveId(x as u32)));
                    if seen0[x] {
                        let r = choose|r: CurveId| #[trigger]
                            connected(g, set, r, CurveId(x as u32)) && r.0 < i;
                        assert(connected(g, set, r, CurveId(x as u32)));
                    }
                    if exists|r: CurveId| #[trigger]
                        connected(g, set, r, CurveId(x as u32)) && r.0 < i + 1 {
                        let r = choose|r: CurveId| #[trigger]
                            connected(g, set, r, CurveId(x as u32)) && r.0 < i + 1;
                        if r.0 == i {
                            assert(r == lead);
                        } else {
                            assert(seen0[x]);
                        }
                    }
                }
            } else {
                proof {
                    if live && !out_of_it {
                        let b = choose|r: CurveId| #[trigger]
                            connected(g, set, r, id) && r.0 < id.0;
                        assert(connected(g, set, b, id));
                        assert(!leads(g, set)(id, g.curves[i as int]->0));
                    }
                    assert(pick(g.curves, leads(g, set), i + 1) == before);
                    assert forall|x: int| #![trigger seen@[x]] 0 <= x < n implies (seen@[x]
                        <==> exists|r: CurveId| #[trigger]
                        connected(g, set, r, CurveId(x as u32)) && r.0 < i + 1) by {
                        if exists|r: CurveId| #[trigger]
                            connected(g, set, r, CurveId(x as u32)) && r.0 < i + 1 {
                            let r = choose|r: CurveId| #[trigger]
                                connected(g, set, r, CurveId(x as u32)) && r.0 < i + 1;
                            if r.0 == i {
                                assert(r == id);
                                lemma_connected_remains(g, set, id, CurveId(x as u32));
                                assert(live && !out_of_it);
                                let b = choose|b: CurveId| #[trigger]
                                    connected(g, set, b, id) && b.0 < id.0;
                                lemma_connected_trans(g, set, b, id, CurveId(x as u32));
                                assert(connected(g, set, b, CurveId(x as u32)) && b.0 < i);
                            }
                        }
                    }
                }
            }
            i = i + 1;
        }
        Ok(out)
    }

    /// The islands of what remains without the marked curves, from right to
    /// left.
    pub(crate) fn find_islands(
        &self,
        excl: &Vec<bool>,
        shore: &Vec<bool>,
        Ghost(set): Ghost<Set<CurveId>>,
        Ghost(edge): Ghost<Set<VertexId>>,
    ) -> (r: Result<Vec<Island>, Fault>)
        requires
            graph_wf(self@),
            marks(self@, excl@, set),
            marks_verts(self@, shore@, edge),
        ensures
            viewed(r) == islands_of(self@, set, edge),
    {
        proof {
            reveal(islands_of);
            lemma_islands(self@, set, edge, leaders_of(self@, set), leaders_of(self@, set).len() as int);
        }
        let found = match self.components(excl, shore, Ghost(set), Ghost(edge)) {
            Err(e) => {
                return Err(e);
            },
            Ok(found) => found,
        };
        let n: usize = found.len();
        let ghost all = island_keys(self@, found@);
        let mut keys: Vec<Key> = Vec::new();
        let mut i: usize = 0;
        while i < n
            invariant
                graph_wf(self@),
                i <= n == found@.len(),
                all == island_keys(self@, found@),
                keys@ == all.take(i as int),
                forall|j: int|
                    0 <= j < found@.len() ==> vertex_live(self@, (#[trigger] found@[j]).right),
                n >= 2 ==> forall|j: int|
                    0 <= j < i ==> !vpos_of(self@, (#[trigger] found@[j]).right).x.spec_is_nan(),
                islands_of(self@, set, edge) == ranged(self@, found@),
            decreases n - i,
        {
            assert(vertex_live(self@, found@[i as int].right));
            let x = self.vpos(found[i].right).x;
            if n >= 2 && x.is_nan() {
                assert(vpos_of(self@, found@[i as int].right).x.spec_is_nan());
                return Err(Fault::NotANumber);
            }
            keys.push((-x.rank(), i as u64));
            i = i + 1;
            assert(all.take(i as int) =~= all.take(i - 1).push(all[i - 1]));
        }
        assert(all.take(n as int) =~= all);
        let sorted = sort_keys(&keys);
        proof {
            lemma_sorted(keys@);
        }
        let ghost want = sorted@.map_values(|key: Key| found@[key.1 as int]);
        let mut r: Vec<Island> = Vec::new();
        let mut t: usize = 0;
        while t < n
            invariant
                t <= n == sorted@.len() == found@.len(),
                keys@ == island_keys(self@, found@),
                forall|x: Key| sorted@.contains(x) <==> keys@.contains(x),
                want == sorted@.map_values(|key: Key| found@[key.1 as int]),
                r@ == want.take(t as int),
            decreases n - t,
        {
            let key = sorted[t];
            proof {
                assert(sorted@.contains(key));
                assert(keys@.contains(key));
            }
            r.push(found[key.1 as usize]);
            t = t + 1;
            assert(want.take(t as int) =~= want.take(t - 1).push(want[t - 1]));
        }
        assert(want.take(n as int) =~= want);
        Ok(r)
    }
}

} // verus!
