//! What the geometry of a curve means, said of what goes in and what comes out:
//! points on it, its parts, its polyline, and what a cut leaves of it.

use vstd::arithmetic::power2::{lemma2_to64, lemma_pow2_pos, lemma_pow2_unfold, pow2};
use vstd::prelude::*;

use crate::calc::{Arith, Op};
use crate::geom::{
    spec_dist, spec_eval, spec_flat, spec_flatten_rec, spec_flatten_tagged, spec_frac, spec_lerp,
    law_flatten_keeps_endpoints, spec_encoded, spec_polygon_len, spec_seg_dist, spec_seg_isect,
    spec_seg_seg_dist, spec_split, spec_subsegment, spec_tag, Cubic, Hit, MAX_DEPTH, MAX_POINTS,
};
use crate::graph::{
    first_far, last_far, points_of, polyline_of, spec_straight_start, curve_live, Curve, CurveId,
    Graph, VertexId,
};
use crate::pipeline::{cut_loop, split_at, work_wf, Work};
use crate::point::Point;
use crate::scalar::{num, Scalar, E12, HALF, ONE, ZERO};

verus! {

// ---- points and parts of a curve ----

/// The number at fraction `t` of the way from `a` to `b`.
pub open spec fn blend(ar: Arith, a: Scalar, b: Scalar, t: Scalar) -> Scalar {
    ar(Op::Add, a, ar(Op::Mul, ar(Op::Sub, b, a), t))
}

/// The point at fraction `t` of the way from `a` to `b`.
pub open spec fn midway(ar: Arith, a: Point, b: Point, t: Scalar) -> Point {
    Point { x: blend(ar, a.x, b.x, t), y: blend(ar, a.y, b.y, t) }
}

/// The inner control points of the part of a curve before parameter `t`, by de
/// Casteljau's construction.
pub open spec fn inner_before(ar: Arith, p: Cubic, t: Scalar) -> (Point, Point) {
    let ab = midway(ar, p.p0, p.p1, t);
    (ab, midway(ar, ab, midway(ar, p.p1, p.p2, t), t))
}

/// The inner control points of the part of a curve after parameter `t`, by de
/// Casteljau's construction.
pub open spec fn inner_after(ar: Arith, p: Cubic, t: Scalar) -> (Point, Point) {
    let cd = midway(ar, p.p2, p.p3, t);
    (midway(ar, midway(ar, p.p1, p.p2, t), cd, t), cd)
}

/// The point of a curve at parameter `t`, by de Casteljau's construction.
pub open spec fn joint(ar: Arith, p: Cubic, t: Scalar) -> Point {
    midway(ar, inner_before(ar, p, t).1, inner_after(ar, p, t).0, t)
}

/// The part of a curve before parameter `t`.
pub open spec fn part_before(ar: Arith, p: Cubic, t: Scalar) -> Cubic {
    let (a, b) = inner_before(ar, p, t);
    Cubic { p0: p.p0, p1: a, p2: b, p3: joint(ar, p, t) }
}

/// The part of a curve after parameter `t`.
pub open spec fn part_after(ar: Arith, p: Cubic, t: Scalar) -> Cubic {
    let (a, b) = inner_after(ar, p, t);
    Cubic { p0: joint(ar, p, t), p1: a, p2: b, p3: p.p3 }
}

/// The point between two others, coordinate by coordinate.
pub proof fn law_lerp(ar: Arith, a: Point, b: Point, t: Scalar)
    ensures
        spec_lerp(ar, a, b, t).x == ar(Op::Add, a.x, ar(Op::Mul, ar(Op::Sub, b.x, a.x), t)),
        spec_lerp(ar, a, b, t).y == ar(Op::Add, a.y, ar(Op::Mul, ar(Op::Sub, b.y, a.y), t)),
{
}

/// A curve is evaluated, and cut in two, by de Casteljau's construction: the two
/// parts keep the outer ends, meet in the point at the parameter, and have the
/// construction's points between.
pub proof fn law_split_by_construction(ar: Arith, p: Cubic, t: Scalar)
    ensures
        spec_eval(ar, p, t) == joint(ar, p, t),
        spec_split(ar, p, t).0 == part_before(ar, p, t),
        spec_split(ar, p, t).1 == part_after(ar, p, t),
{
}

/// The part of a curve between two parameters is cut off twice: what comes after
/// the first, and of that what comes before the second, at the fraction of the
/// rest where that lies. Nothing is left where the first is the end.
pub proof fn law_subsegment_by_construction(ar: Arith, p: Cubic, t0: Scalar, t1: Scalar)
    ensures
        ({
            let rest = ar(Op::Sub, num(ONE), t0);
            let t = ar(Op::Div, ar(Op::Sub, t1, t0), rest);
            let after = part_after(ar, p, t0);
            let got = spec_subsegment(ar, p, t0, t1);
            &&& num(E12).spec_lt(rest) && num(ZERO).spec_le(t) && t.spec_le(num(ONE)) ==> got
                == part_before(ar, after, t)
            &&& num(E12).spec_lt(rest) && t.spec_lt(num(ZERO)) ==> got == part_before(
                ar,
                after,
                num(ZERO),
            )
            &&& num(E12).spec_lt(rest) && num(ONE).spec_lt(t) ==> got == part_before(
                ar,
                after,
                num(ONE),
            )
            &&& !num(E12).spec_lt(rest) ==> got == part_before(ar, after, num(ZERO))
        }),
{
    reveal(spec_subsegment);
    law_split_by_construction(ar, p, t0);
}

// ---- distances ----

/// The distance between two points is the root of the sum of the squares.
pub proof fn law_dist(ar: Arith, a: Point, b: Point)
    ensures
        ({
            let dx = ar(Op::Sub, a.x, b.x);
            let dy = ar(Op::Sub, a.y, b.y);
            let sum = ar(Op::Add, ar(Op::Mul, dx, dx), ar(Op::Mul, dy, dy));
            spec_dist(ar, a, b) == ar(Op::Sqrt, sum, sum)
        }),
{
}

/// The length of a control polygon is that of its three sides.
pub proof fn law_polygon_len(ar: Arith, p: Cubic)
    ensures
        spec_polygon_len(ar, p) == ar(
            Op::Add,
            ar(Op::Add, spec_dist(ar, p.p0, p.p1), spec_dist(ar, p.p1, p.p2)),
            spec_dist(ar, p.p2, p.p3),
        ),
{
    reveal(spec_polygon_len);
}

/// The distance to a segment is that to one of its points: the start when the
/// segment has no length, else the foot of the perpendicular, and where that
/// falls before the start or past the end, the start or the end.
pub proof fn law_seg_dist(ar: Arith, p: Point, a: Point, b: Point)
    ensures
        ({
            let (dx, dy) = (ar(Op::Sub, b.x, a.x), ar(Op::Sub, b.y, a.y));
            let (wx, wy) = (ar(Op::Sub, p.x, a.x), ar(Op::Sub, p.y, a.y));
            let len2 = ar(Op::Add, ar(Op::Mul, dx, dx), ar(Op::Mul, dy, dy));
            let along = ar(Op::Add, ar(Op::Mul, wx, dx), ar(Op::Mul, wy, dy));
            let t = ar(Op::Div, along, len2);
            let (d, at) = spec_frac(ar, p, a, b);
            let foot = Point {
                x: ar(Op::Add, a.x, ar(Op::Mul, dx, at)),
                y: ar(Op::Add, a.y, ar(Op::Mul, dy, at)),
            };
            &&& spec_seg_dist(ar, p, a, b) == d
            &&& len2.spec_le(num(ZERO)) ==> at == num(ZERO) && d == spec_dist(ar, p, a)
            &&& !len2.spec_le(num(ZERO)) ==> d == spec_dist(ar, p, foot)
            &&& !len2.spec_le(num(ZERO)) && num(ZERO).spec_le(t) && t.spec_le(num(ONE)) ==> at == t
            &&& !len2.spec_le(num(ZERO)) && t.spec_lt(num(ZERO)) ==> at == num(ZERO)
            &&& !len2.spec_le(num(ZERO)) && num(ONE).spec_lt(t) ==> at == num(ONE)
        }),
{
}

/// Two segments that cross are at no distance, at the fractions of the crossing.
/// Else their distance is that of one end from the other segment, with the
/// fractions of the two places, and no end is nearer; it is found only where all
/// four distances are numbers.
pub proof fn law_seg_seg_dist(ar: Arith, a0: Point, a1: Point, b0: Point, b1: Point)
    ensures
        ({
            let d0 = spec_frac(ar, a0, b0, b1);
            let d1 = spec_frac(ar, a1, b0, b1);
            let d2 = spec_frac(ar, b0, a0, a1);
            let d3 = spec_frac(ar, b1, a0, a1);
            match spec_seg_seg_dist(ar, a0, a1, b0, b1) {
                Err(_) => spec_seg_isect(ar, a0, a1, b0, b1) is None && (d0.0.spec_is_nan()
                    || d1.0.spec_is_nan() || d2.0.spec_is_nan() || d3.0.spec_is_nan()),
                Ok((d, s, t)) => match spec_seg_isect(ar, a0, a1, b0, b1) {
                    Some(at) => d == num(ZERO) && at == (s, t),
                    None => {
                        &&& d.spec_le(d0.0) && d.spec_le(d1.0)
                        &&& d.spec_le(d2.0) && d.spec_le(d3.0)
                        &&& {
                            ||| s == num(ZERO) && (d, t) == d0
                            ||| s == num(ONE) && (d, t) == d1
                            ||| t == num(ZERO) && (d, s) == d2
                            ||| t == num(ONE) && (d, s) == d3
                        }
                    },
                },
            }
        }),
{
}

// ---- flattening ----

/// The part of `p`, which runs from step `a` to step `b`, between the steps `lo`
/// and `hi`, by halving.
pub open spec fn halved_part(ar: Arith, p: Cubic, a: int, b: int, lo: int, hi: int) -> Cubic
    decreases b - a,
{
    let mid = (a + b) / 2;
    if b - a < 2 || (lo <= a && b <= hi) {
        p
    } else if hi <= mid {
        halved_part(ar, part_before(ar, p, num(HALF)), a, mid, lo, hi)
    } else {
        halved_part(ar, part_after(ar, p, num(HALF)), mid, b, lo, hi)
    }
}

/// Both inner control points lie within `tol` of the chord.
pub open spec fn hugs_chord(ar: Arith, p: Cubic, tol: Scalar) -> bool {
    &&& spec_seg_dist(ar, p.p1, p.p0, p.p3).spec_le(tol)
    &&& spec_seg_dist(ar, p.p2, p.p0, p.p3).spec_le(tol)
}

/// The points after the first are the ends of the parts of `p`, which runs from
/// step `a` to step `b`, that come after one another between the steps `at`; each
/// part is flat, or a single step.
spec fn steps_along(
    ar: Arith,
    p: Cubic,
    a: int,
    b: int,
    tol: Scalar,
    at: Seq<int>,
    rest: Seq<(Scalar, Point)>,
) -> bool {
    &&& at.len() == rest.len() + 1
    &&& at.len() > 1
    &&& at[0] == a
    &&& at.last() == b
    &&& forall|i: int, j: int| 0 <= i < j < at.len() ==> #[trigger] at[i] < #[trigger] at[j]
    &&& forall|i: int|
        #![trigger rest[i]]
        0 <= i < rest.len() ==> {
            let part = halved_part(ar, p, a, b, at[i], at[i + 1]);
            &&& rest[i] == (spec_tag(at[i + 1]), part.p3)
            &&& part.p0 == if i == 0 {
                p.p0
            } else {
                rest[i - 1].1
            }
            &&& at[i + 1] == at[i] + 1 || hugs_chord(ar, part, tol)
        }
}

proof fn lemma_steps_along(ar: Arith, p: Cubic, a: int, b: int, tol: Scalar, depth: int) -> (at: Seq<
    int,
>)
    requires
        0 <= depth <= MAX_DEPTH,
        b - a == pow2((MAX_DEPTH - depth) as nat),
    ensures
        steps_along(ar, p, a, b, tol, at, spec_flatten_rec(ar, p, a, b, tol, depth)),
        spec_flatten_rec(ar, p, a, b, tol, depth).last().1 == p.p3,
    decreases MAX_DEPTH - depth,
{
    let left = (MAX_DEPTH - depth) as nat;
    lemma_pow2_pos(left);
    lemma2_to64();
    let rest = spec_flatten_rec(ar, p, a, b, tol, depth);
    if depth >= MAX_DEPTH || spec_flat(ar, p, tol) {
        let at = seq![a, b];
        assert(halved_part(ar, p, a, b, a, b) == p);
        assert(depth >= MAX_DEPTH ==> b == a + 1);
        at
    } else {
        lemma_pow2_unfold(left);
        lemma_pow2_pos((left - 1) as nat);
        let mid = (a + b) / 2;
        let l = part_before(ar, p, num(HALF));
        let r = part_after(ar, p, num(HALF));
        law_split_by_construction(ar, p, num(HALF));
        let x = lemma_steps_along(ar, l, a, mid, tol, depth + 1);
        let y = lemma_steps_along(ar, r, mid, b, tol, depth + 1);
        let u = spec_flatten_rec(ar, l, a, mid, tol, depth + 1);
        let v = spec_flatten_rec(ar, r, mid, b, tol, depth + 1);
        assert(rest == u + v);
        lemma_join_steps(ar, p, a, b, tol, x, u, y, v);
        assert(rest.last() == v.last());
        x + y.skip(1)
    }
}

/// The steps along both halves of a curve are steps along the curve.
#[verifier::rlimit(40)]
proof fn lemma_join_steps(
    ar: Arith,
    p: Cubic,
    a: int,
    b: int,
    tol: Scalar,
    x: Seq<int>,
    u: Seq<(Scalar, Point)>,
    y: Seq<int>,
    v: Seq<(Scalar, Point)>,
)
    requires
        b - a >= 2,
        steps_along(ar, part_before(ar, p, num(HALF)), a, (a + b) / 2, tol, x, u),
        steps_along(ar, part_after(ar, p, num(HALF)), (a + b) / 2, b, tol, y, v),
        u.last().1 == part_before(ar, p, num(HALF)).p3,
    ensures
        steps_along(ar, p, a, b, tol, x + y.skip(1), u + v),
{
    let mid = (a + b) / 2;
    let l = part_before(ar, p, num(HALF));
    let r = part_after(ar, p, num(HALF));
    let rest = u + v;
    let at = x + y.skip(1);
    let n = u.len() as int;
    assert(x[n] == mid && y[0] == mid);
    assert forall|i: int| 0 <= i < at.len() implies #[trigger] at[i] == (if i <= n {
        x[i]
    } else {
        y[i - n]
    }) by {}
    assert forall|i: int, j: int| 0 <= i < j < at.len() implies #[trigger] at[i]
        < #[trigger] at[j] by {
        if i <= n && j > n {
            assert(x[i] <= x[n]);
            assert(y[0] < y[j - n]);
        }
    }
    assert(at.last() == y.last());
    assert forall|i: int| #![trigger rest[i]] 0 <= i < rest.len() implies {
        let part = halved_part(ar, p, a, b, at[i], at[i + 1]);
        &&& rest[i] == (spec_tag(at[i + 1]), part.p3)
        &&& part.p0 == if i == 0 {
            p.p0
        } else {
            rest[i - 1].1
        }
        &&& at[i + 1] == at[i] + 1 || hugs_chord(ar, part, tol)
    } by {
        if i < n {
            assert(rest[i] == u[i]);
            assert(x[i + 1] <= x[n]);
            assert(halved_part(ar, p, a, b, at[i], at[i + 1]) == halved_part(
                ar,
                l,
                a,
                mid,
                x[i],
                x[i + 1],
            ));
            if i > 0 {
                assert(rest[i - 1] == u[i - 1]);
            }
        } else {
            let k = i - n;
            assert(rest[i] == v[k]);
            assert(at[i] == y[k] && at[i + 1] == y[k + 1]);
            assert(y[0] <= y[k] && y[k] < y[k + 1]);
            assert(halved_part(ar, p, a, b, at[i], at[i + 1]) == halved_part(
                ar,
                r,
                mid,
                b,
                y[k],
                y[k + 1],
            ));
            if k == 0 {
                assert(rest[i - 1] == u.last());
            } else {
                assert(rest[i - 1] == v[k - 1]);
            }
        }
    }
}

/// A flattened curve runs through the curve: there are steps, rising from the
/// curve's start to its end, such that its points are the ends of the parts of the
/// curve between them, in order, with the steps' parameters; and of each part,
/// unless it is a single step, both inner control points lie within the tolerance
/// of the chord that stands for it.
pub proof fn law_flatten_within_tolerance(ar: Arith, p: Cubic, tol: Scalar) -> (at: Seq<int>)
    ensures
        ({
            let s = spec_flatten_tagged(ar, p, tol);
            let end = MAX_POINTS - 1;
            &&& at.len() == s.len() >= 2
            &&& at[0] == 0
            &&& at.last() == end
            &&& s[0] == (num(ZERO), p.p0)
            &&& s.last().1 == p.p3
            &&& forall|i: int, j: int| 0 <= i < j < at.len() ==> #[trigger] at[i] < #[trigger] at[j]
            &&& forall|i: int|
                #![trigger at[i]]
                0 <= i < at.len() - 1 ==> {
                    let part = halved_part(ar, p, 0, end, at[i], at[i + 1]);
                    &&& s[i].1 == part.p0
                    &&& s[i + 1] == (spec_tag(at[i + 1]), part.p3)
                    &&& at[i + 1] == at[i] + 1 || {
                        &&& spec_seg_dist(ar, part.p1, s[i].1, s[i + 1].1).spec_le(tol)
                        &&& spec_seg_dist(ar, part.p2, s[i].1, s[i + 1].1).spec_le(tol)
                    }
                }
        }),
{
    lemma2_to64();
    let end = MAX_POINTS - 1;
    let at = lemma_steps_along(ar, p, 0, end, tol, 0);
    let rest = spec_flatten_rec(ar, p, 0, end, tol, 0);
    let s = spec_flatten_tagged(ar, p, tol);
    assert forall|i: int| #![trigger at[i]] 0 <= i < at.len() - 1 implies {
        let part = halved_part(ar, p, 0, end, at[i], at[i + 1]);
        &&& s[i].1 == part.p0
        &&& s[i + 1] == (spec_tag(at[i + 1]), part.p3)
        &&& at[i + 1] == at[i] + 1 || {
            &&& spec_seg_dist(ar, part.p1, s[i].1, s[i + 1].1).spec_le(tol)
            &&& spec_seg_dist(ar, part.p2, s[i].1, s[i + 1].1).spec_le(tol)
        }
    } by {
        assert(s[i + 1] == rest[i]);
        if i > 0 {
            assert(s[i] == rest[i - 1]);
        }
    }
    assert(s.last() == rest.last());
    at
}

// ---- cutting ----

/// The control points of a stored curve, its ends where its vertices are.
pub open spec fn cubic_of(g: Graph, c: Curve) -> Cubic {
    Cubic {
        p0: g.verts[c.v0.0 as int]->0,
        p1: c.c0,
        p2: c.c1,
        p3: g.verts[c.v1.0 as int]->0,
    }
}

/// A cut keeps the drawn shape on both sides: in place of the curve there are two
/// new ones, from its first vertex to the given one and on to its last; their
/// inner control points are those of the curve's parts before and after the
/// parameter, and both have its tag and its ancestor. All other curves, and all
/// vertices, stay as they are.
pub proof fn law_cut_keeps_shape(ar: Arith, w: Work, id: CurveId, t: Scalar, vm: VertexId)
    requires
        work_wf(w),
        curve_live(w.g, id),
    ensures
        ({
            let w2 = split_at(ar, w, id, t, vm);
            let n = w.g.curves.len() as int;
            let c = w.g.curves[id.0 as int]->0;
            let before = inner_before(ar, cubic_of(w.g, c), t);
            let after = inner_after(ar, cubic_of(w.g, c), t);
            &&& w2.g.verts == w.g.verts
            &&& w2.g.snap == w.g.snap
            &&& w2.g.tol == w.g.tol
            &&& w2.queue == w.queue
            &&& w2.g.curves.len() == n + 2
            &&& w2.root.len() == n + 2
            &&& w2.g.curves[id.0 as int] is None
            &&& forall|i: int|
                #![trigger w2.g.curves[i]]
                0 <= i < n && i != id.0 ==> w2.g.curves[i] == w.g.curves[i]
            &&& forall|i: int| #![trigger w2.root[i]] 0 <= i < n ==> w2.root[i] == w.root[i]
            &&& w2.g.curves[n] == Some(
                Curve { v0: c.v0, c0: before.0, c1: before.1, v1: vm, tag: c.tag },
            )
            &&& w2.g.curves[n + 1] == Some(
                Curve { v0: vm, c0: after.0, c1: after.1, v1: c.v1, tag: c.tag },
            )
            &&& w2.root[n] == w.root[id.0 as int]
            &&& w2.root[n + 1] == w.root[id.0 as int]
        }),
{
    let c = w.g.curves[id.0 as int]->0;
    law_split_by_construction(ar, cubic_of(w.g, c), t);
}

/// The inner control points of the part of a curve between two parameters.
pub open spec fn inner_between(ar: Arith, p: Cubic, t0: Scalar, t1: Scalar) -> (Point, Point) {
    let rest = ar(Op::Sub, num(ONE), t0);
    let t = if num(E12).spec_lt(rest) {
        ar(Op::Div, ar(Op::Sub, t1, t0), rest)
    } else {
        num(ZERO)
    };
    inner_before(
        ar,
        part_after(ar, p, t0),
        if t.spec_lt(num(ZERO)) {
            num(ZERO)
        } else if num(ONE).spec_lt(t) {
            num(ONE)
        } else {
            t
        },
    )
}

/// A curve that meets itself is cut into three that keep the drawn shape: up to
/// the meeting, around the loop, and on from there. They join at a new vertex in
/// the place of the meeting, and all have the curve's tag and its ancestor. All
/// other curves and vertices stay as they are.
pub proof fn law_loop_cut_keeps_shape(ar: Arith, w: Work, id: CurveId, h: Hit)
    requires
        work_wf(w),
        curve_live(w.g, id),
        w.g.verts.len() < u32::MAX,
    ensures
        ({
            let w2 = cut_loop(ar, w, id, h);
            let n = w.g.curves.len() as int;
            let c = w.g.curves[id.0 as int]->0;
            let p = cubic_of(w.g, c);
            let vm = VertexId(w.g.verts.len() as u32);
            let (a, b, d) = (
                inner_between(ar, p, num(ZERO), h.t),
                inner_between(ar, p, h.t, h.u),
                inner_between(ar, p, h.u, num(ONE)),
            );
            &&& w2.g.verts == w.g.verts.push(Some(h.p))
            &&& w2.g.snap == w.g.snap
            &&& w2.g.tol == w.g.tol
            &&& w2.queue == w.queue
            &&& w2.g.curves.len() == n + 3
            &&& w2.root.len() == n + 3
            &&& w2.g.curves[id.0 as int] is None
            &&& forall|i: int|
                #![trigger w2.g.curves[i]]
                0 <= i < n && i != id.0 ==> w2.g.curves[i] == w.g.curves[i]
            &&& forall|i: int| #![trigger w2.root[i]] 0 <= i < n ==> w2.root[i] == w.root[i]
            &&& w2.g.curves[n] == Some(Curve { v0: c.v0, c0: a.0, c1: a.1, v1: vm, tag: c.tag })
            &&& w2.g.curves[n + 1] == Some(Curve { v0: vm, c0: b.0, c1: b.1, v1: vm, tag: c.tag })
            &&& w2.g.curves[n + 2] == Some(Curve { v0: vm, c0: d.0, c1: d.1, v1: c.v1, tag: c.tag })
            &&& forall|i: int|
                #![trigger w2.root[i]]
                n <= i < n + 3 ==> w2.root[i] == w.root[id.0 as int]
        }),
{
    let c = w.g.curves[id.0 as int]->0;
    let p = cubic_of(w.g, c);
    reveal(spec_subsegment);
    law_split_by_construction(ar, p, num(ZERO));
    law_split_by_construction(ar, p, h.t);
    law_split_by_construction(ar, p, h.u);
    let w2 = cut_loop(ar, w, id, h);
    assert(w2.g.verts =~= w.g.verts.push(Some(h.p)));
}

// ---- the rendered polyline ----

/// `p` is at least the snap distance away from `c`.
pub open spec fn clear_of_disk(ar: Arith, g: Graph, p: Point, c: Point) -> bool {
    g.snap.spec_le(spec_dist(ar, p, c))
}

/// The rendered polyline, told from the flattened curve: where no later point is
/// clear of the disk around the start, its two ends; else the start, and then from
/// the first point clear of that disk on; of that, where a point before the last
/// is clear of the disk around the end, the points up to the last such one, and
/// then the end. `first` is that first point's place, or the number of points, and
/// `back` that last one's place in what the first straightening left, or -1.
pub proof fn law_polyline_exactly(ar: Arith, g: Graph, id: CurveId) -> (r: (int, int))
    ensures
        ({
            let (first, back) = r;
            let flat = spec_flatten_tagged(ar, cubic_of(g, g.curves[id.0 as int]->0), g.tol);
            let n = flat.len() as int;
            let poly = polyline_of(ar, g, id);
            let left = seq![flat[0]] + flat.skip(first);
            let m = left.len() as int;
            &&& n >= 2
            &&& 1 <= first <= n
            &&& forall|i: int|
                1 <= i < first ==> !clear_of_disk(ar, g, (#[trigger] flat[i]).1, flat[0].1)
            &&& first == n ==> poly == seq![(num(ZERO), flat[0].1), flat.last()]
            &&& first < n ==> {
                &&& clear_of_disk(ar, g, flat[first].1, flat[0].1)
                &&& -1 <= back < m - 1
                &&& forall|i: int|
                    back < i < m - 1 ==> !clear_of_disk(ar, g, (#[trigger] left[i]).1, left.last().1)
                &&& back == -1 ==> poly == left
                &&& back >= 0 ==> clear_of_disk(ar, g, left[back].1, left.last().1) && poly
                    == left.take(back + 1).push(left.last())
            }
        }),
{
    reveal(polyline_of);
    let p = cubic_of(g, g.curves[id.0 as int]->0);
    assert(points_of(g, id) == p);
    law_flatten_keeps_endpoints(ar, p, g.tol);
    let flat = spec_flatten_tagged(ar, p, g.tol);
    let n = flat.len() as int;
    let first = first_far(ar, flat, flat[0].1, g.snap, 1);
    lemma_first_clear(ar, g, flat, flat[0].1, 1);
    let left = seq![flat[0]] + flat.skip(first);
    let m = left.len() as int;
    if first < n {
        let p1 = spec_straight_start(ar, flat, g.snap);
        assert(p1 =~= left);
        let back = last_far(ar, left, left.last().1, g.snap, m - 1);
        lemma_last_clear(ar, g, left, left.last().1, m - 1);
        if back >= 0 && back + 2 >= m {
            assert(left.take(back + 1).push(left.last()) =~= left);
        }
        (first, back)
    } else {
        (first, -1)
    }
}

proof fn lemma_first_clear(ar: Arith, g: Graph, s: Seq<(Scalar, Point)>, c: Point, i: int)
    requires
        0 <= i <= s.len(),
    ensures
        i <= first_far(ar, s, c, g.snap, i) <= s.len(),
        forall|j: int|
            i <= j < first_far(ar, s, c, g.snap, i) ==> !clear_of_disk(
                ar,
                g,
                (#[trigger] s[j]).1,
                c,
            ),
        first_far(ar, s, c, g.snap, i) < s.len() ==> clear_of_disk(
            ar,
            g,
            s[first_far(ar, s, c, g.snap, i)].1,
            c,
        ),
    decreases s.len() - i,
{
    if i < s.len() && !clear_of_disk(ar, g, s[i].1, c) {
        lemma_first_clear(ar, g, s, c, i + 1);
    }
}

proof fn lemma_last_clear(ar: Arith, g: Graph, s: Seq<(Scalar, Point)>, c: Point, n: int)
    requires
        0 <= n <= s.len(),
    ensures
        -1 <= last_far(ar, s, c, g.snap, n) < n || n == 0 && last_far(ar, s, c, g.snap, n) == -1,
        forall|j: int|
            last_far(ar, s, c, g.snap, n) < j < n ==> !clear_of_disk(
                ar,
                g,
                (#[trigger] s[j]).1,
                c,
            ),
        last_far(ar, s, c, g.snap, n) >= 0 ==> clear_of_disk(
            ar,
            g,
            s[last_far(ar, s, c, g.snap, n)].1,
            c,
        ),
    decreases n,
{
    if n > 0 && !clear_of_disk(ar, g, s[n - 1].1, c) {
        lemma_last_clear(ar, g, s, c, n - 1);
    }
}

/// The parameter of a step is the number of steps times two to the power of minus
/// sixteen: its encoding has that number, shifted until its leading bit is the
/// hidden one, for a significand, under an exponent as many lower.
pub proof fn law_tag_is_a_fraction(i: int) -> (shift: nat)
    requires
        0 < i < MAX_POINTS,
    ensures
        0x10_0000_0000_0000 <= i * 0x10_0000_0000 * pow2(shift) < 0x20_0000_0000_0000,
        shift <= 16,
        spec_tag(i).bits == (1022 - shift) * 0x10_0000_0000_0000 + i * 0x10_0000_0000 * pow2(shift),
{
    lemma2_to64();
    let m = i * 0x10_0000_0000;
    let shift = lemma_shifted(m, 1023, 16);
    assert((1022 - shift) * 0x10_0000_0000_0000 + m * pow2(shift) < u64::MAX);
    shift
}

proof fn lemma_shifted(m: int, e: int, most: nat) -> (shift: nat)
    requires
        0 < m < 0x20_0000_0000_0000,
        m * pow2(most) >= 0x10_0000_0000_0000,
        most < e - 1,
    ensures
        shift <= most,
        0x10_0000_0000_0000 <= m * pow2(shift) < 0x20_0000_0000_0000,
        spec_encoded(m, e) == (e - 1 - shift) * 0x10_0000_0000_0000 + m * pow2(shift),
    decreases most,
{
    lemma2_to64();
    if m >= 0x10_0000_0000_0000 {
        assert(m * pow2(0) == m);
        0
    } else {
        if most == 0 {
            assert(m * pow2(0) == m);
        }
        lemma_pow2_unfold(most);
        let rest = pow2((most - 1) as nat);
        assert((2 * m) * rest == m * (2 * rest)) by (nonlinear_arith);
        let k = lemma_shifted(2 * m, e - 1, (most - 1) as nat);
        lemma_pow2_unfold(k + 1);
        let one = pow2(k);
        assert((2 * m) * one == m * (2 * one)) by (nonlinear_arith);
        k + 1
    }
}

} // verus!
