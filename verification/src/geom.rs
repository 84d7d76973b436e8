//! Cubic bezier math: evaluation, splitting, flattening, intersections.

use vstd::arithmetic::power2::{lemma2_to64, lemma_pow2_pos, lemma_pow2_unfold, pow2};
use vstd::prelude::*;

use crate::calc::{minus, over, plus, root, times, Arith, Calc, Op};
use crate::error::{viewed, Fault};
use crate::order::{lemma_sorted, sort_keys, spec_sorted, Key};
use crate::point::{spec_minus, spec_plus, spec_times, Point};
use crate::scalar::{
    num, Scalar, E12, E4, E6, FOUR, HALF, ONE, ONE_LESS_E6, SIX, TENTH, THREE, TWO, ZERO,
};

verus! {

/// The four control points of a cubic bezier curve.
#[derive(Clone, Copy, Debug, PartialEq, Eq, Structural)]
pub struct Cubic {
    pub p0: Point,
    pub p1: Point,
    pub p2: Point,
    pub p3: Point,
}

/// A point of a flattened curve, with the curve parameter it stands at.
pub type Tagged = (Scalar, Point);

/// Where two polylines meet: the parameter on each, and the point.
#[derive(Clone, Copy, Debug, PartialEq, Eq, Structural)]
pub struct Hit {
    pub t: Scalar,
    pub u: Scalar,
    pub p: Point,
}

impl Cubic {
    pub open spec fn spec_of(pts: Seq<Point>) -> Cubic {
        Cubic { p0: pts[0], p1: pts[1], p2: pts[2], p3: pts[3] }
    }

    pub fn of(pts: [Point; 4]) -> (r: Cubic)
        ensures
            r == Cubic::spec_of(pts@),
    {
        Cubic { p0: pts[0], p1: pts[1], p2: pts[2], p3: pts[3] }
    }
}

// ---- points on a curve ----

pub open spec fn spec_lerp(ar: Arith, a: Point, b: Point, t: Scalar) -> Point {
    Point {
        x: plus(ar, a.x, times(ar, minus(ar, b.x, a.x), t)),
        y: plus(ar, a.y, times(ar, minus(ar, b.y, a.y), t)),
    }
}

/// The point at fraction `t` of the way from `a` to `b`.
pub fn lerp<F: Fn(Op, Scalar, Scalar) -> Scalar>(
    k: &Calc<F>,
    a: Point,
    b: Point,
    t: Scalar,
) -> (r: Point)
    requires
        k.wf(),
    ensures
        r == spec_lerp(k@, a, b, t),
{
    Point {
        x: k.plus(a.x, k.times(k.minus(b.x, a.x), t)),
        y: k.plus(a.y, k.times(k.minus(b.y, a.y), t)),
    }
}

pub open spec fn spec_dist(ar: Arith, a: Point, b: Point) -> Scalar {
    let dx = minus(ar, a.x, b.x);
    let dy = minus(ar, a.y, b.y);
    root(ar, plus(ar, times(ar, dx, dx), times(ar, dy, dy)))
}

/// The distance between two points.
pub fn dist<F: Fn(Op, Scalar, Scalar) -> Scalar>(k: &Calc<F>, a: Point, b: Point) -> (r: Scalar)
    requires
        k.wf(),
    ensures
        r == spec_dist(k@, a, b),
{
    let dx = k.minus(a.x, b.x);
    let dy = k.minus(a.y, b.y);
    k.root(k.plus(k.times(dx, dx), k.times(dy, dy)))
}

pub open spec fn spec_eval(ar: Arith, p: Cubic, t: Scalar) -> Point {
    let ab = spec_lerp(ar, p.p0, p.p1, t);
    let bc = spec_lerp(ar, p.p1, p.p2, t);
    let cd = spec_lerp(ar, p.p2, p.p3, t);
    spec_lerp(ar, spec_lerp(ar, ab, bc, t), spec_lerp(ar, bc, cd, t), t)
}

/// The point of `p` at parameter `t`.
pub fn eval<F: Fn(Op, Scalar, Scalar) -> Scalar>(k: &Calc<F>, p: Cubic, t: Scalar) -> (r: Point)
    requires
        k.wf(),
    ensures
        r == spec_eval(k@, p, t),
{
    let ab = lerp(k, p.p0, p.p1, t);
    let bc = lerp(k, p.p1, p.p2, t);
    let cd = lerp(k, p.p2, p.p3, t);
    lerp(k, lerp(k, ab, bc, t), lerp(k, bc, cd, t), t)
}

pub open spec fn spec_split(ar: Arith, p: Cubic, t: Scalar) -> (Cubic, Cubic) {
    let ab = spec_lerp(ar, p.p0, p.p1, t);
    let bc = spec_lerp(ar, p.p1, p.p2, t);
    let cd = spec_lerp(ar, p.p2, p.p3, t);
    let abc = spec_lerp(ar, ab, bc, t);
    let bcd = spec_lerp(ar, bc, cd, t);
    let m = spec_lerp(ar, abc, bcd, t);
    (Cubic { p0: p.p0, p1: ab, p2: abc, p3: m }, Cubic { p0: m, p1: bcd, p2: cd, p3: p.p3 })
}

/// The two halves of `p` on either side of parameter `t`. They meet in the
/// point that `eval` gives there, and keep the outer endpoints of `p`.
pub fn split<F: Fn(Op, Scalar, Scalar) -> Scalar>(k: &Calc<F>, p: Cubic, t: Scalar) -> (r: (
    Cubic,
    Cubic,
))
    requires
        k.wf(),
    ensures
        r == spec_split(k@, p, t),
        r.0.p0 == p.p0,
        r.0.p3 == spec_eval(k@, p, t),
        r.1.p0 == spec_eval(k@, p, t),
        r.1.p3 == p.p3,
{
    let ab = lerp(k, p.p0, p.p1, t);
    let bc = lerp(k, p.p1, p.p2, t);
    let cd = lerp(k, p.p2, p.p3, t);
    let abc = lerp(k, ab, bc, t);
    let bcd = lerp(k, bc, cd, t);
    let m = lerp(k, abc, bcd, t);
    (Cubic { p0: p.p0, p1: ab, p2: abc, p3: m }, Cubic { p0: m, p1: bcd, p2: cd, p3: p.p3 })
}

#[verifier::opaque]
pub open spec fn spec_subsegment(ar: Arith, p: Cubic, t0: Scalar, t1: Scalar) -> Cubic {
    let right = spec_split(ar, p, t0).1;
    let rest = minus(ar, num(ONE), t0);
    let t = if num(E12).spec_lt(rest) {
        over(ar, minus(ar, t1, t0), rest)
    } else {
        num(ZERO)
    };
    spec_split(ar, right, t.spec_clamp(num(ZERO), num(ONE))).0
}

/// The sub-curve of `p` over the parameter range from `t0` to `t1`.
pub fn subsegment<F: Fn(Op, Scalar, Scalar) -> Scalar>(
    k: &Calc<F>,
    p: Cubic,
    t0: Scalar,
    t1: Scalar,
) -> (r: Cubic)
    requires
        k.wf(),
    ensures
        r == spec_subsegment(k@, p, t0, t1),
{
    proof {
        reveal(spec_subsegment);
    }
    let right = split(k, p, t0).1;
    let rest = k.minus(Scalar { bits: ONE }, t0);
    let t = if (Scalar { bits: E12 }).lt(rest) {
        k.over(k.minus(t1, t0), rest)
    } else {
        Scalar { bits: ZERO }
    };
    split(k, right, t.clamp(Scalar { bits: ZERO }, Scalar { bits: ONE })).0
}

#[verifier::opaque]
pub open spec fn spec_polygon_len(ar: Arith, p: Cubic) -> Scalar {
    plus(
        ar,
        plus(ar, spec_dist(ar, p.p0, p.p1), spec_dist(ar, p.p1, p.p2)),
        spec_dist(ar, p.p2, p.p3),
    )
}

/// Total length of the control polygon (upper bound on arc length).
pub fn polygon_len<F: Fn(Op, Scalar, Scalar) -> Scalar>(k: &Calc<F>, p: Cubic) -> (r: Scalar)
    requires
        k.wf(),
    ensures
        r == spec_polygon_len(k@, p),
{
    proof {
        reveal(spec_polygon_len);
    }
    k.plus(k.plus(dist(k, p.p0, p.p1), dist(k, p.p1, p.p2)), dist(k, p.p2, p.p3))
}

/// Nearest point of the segment `q0`-`q1` to `p`: its distance, and the
/// fraction of the segment where it lies.
pub open spec fn spec_frac(ar: Arith, p: Point, q0: Point, q1: Point) -> (Scalar, Scalar) {
    let d = spec_minus(ar, q1, q0);
    let len2 = plus(ar, times(ar, d.x, d.x), times(ar, d.y, d.y));
    if len2.spec_le(num(ZERO)) {
        (spec_dist(ar, p, q0), num(ZERO))
    } else {
        let w = spec_minus(ar, p, q0);
        let t = over(ar, plus(ar, times(ar, w.x, d.x), times(ar, w.y, d.y)), len2).spec_clamp(
            num(ZERO),
            num(ONE),
        );
        (spec_dist(ar, p, spec_plus(ar, q0, spec_times(ar, d, t))), t)
    }
}

fn frac<F: Fn(Op, Scalar, Scalar) -> Scalar>(k: &Calc<F>, p: Point, q0: Point, q1: Point) -> (r: (
    Scalar,
    Scalar,
))
    requires
        k.wf(),
    ensures
        r == spec_frac(k@, p, q0, q1),
{
    let d = q1.minus(k, q0);
    let len2 = k.plus(k.times(d.x, d.x), k.times(d.y, d.y));
    if len2.le(Scalar { bits: ZERO }) {
        (dist(k, p, q0), Scalar { bits: ZERO })
    } else {
        let w = p.minus(k, q0);
        let t = k.over(k.plus(k.times(w.x, d.x), k.times(w.y, d.y)), len2).clamp(
            Scalar { bits: ZERO },
            Scalar { bits: ONE },
        );
        (dist(k, p, q0.plus(k, d.times(k, t))), t)
    }
}

pub open spec fn spec_seg_dist(ar: Arith, p: Point, a: Point, b: Point) -> Scalar {
    spec_frac(ar, p, a, b).0
}

/// The distance from `p` to the segment `a`-`b`.
pub fn seg_dist<F: Fn(Op, Scalar, Scalar) -> Scalar>(
    k: &Calc<F>,
    p: Point,
    a: Point,
    b: Point,
) -> (r: Scalar)
    requires
        k.wf(),
    ensures
        r == spec_seg_dist(k@, p, a, b),
{
    frac(k, p, a, b).0
}

// ---- flattening ----

/// How often a curve is halved at most.
pub const MAX_DEPTH: u32 = 16;

/// How many points a flattened curve has at most.
pub const MAX_POINTS: usize = 65537;

/// Both inner control points lie within `tol` of the chord.
pub open spec fn spec_flat(ar: Arith, p: Cubic, tol: Scalar) -> bool {
    spec_seg_dist(ar, p.p1, p.p0, p.p3).spec_le(tol) && spec_seg_dist(
        ar,
        p.p2,
        p.p0,
        p.p3,
    ).spec_le(tol)
}

fn flat<F: Fn(Op, Scalar, Scalar) -> Scalar>(k: &Calc<F>, p: Cubic, tol: Scalar) -> (r: bool)
    requires
        k.wf(),
    ensures
        r == spec_flat(k@, p, tol),
{
    seg_dist(k, p.p1, p.p0, p.p3).le(tol) && seg_dist(k, p.p2, p.p0, p.p3).le(tol)
}

/// The weight of the hidden bit of an encoded significand.
pub const HIDDEN: u64 = 0x0010_0000_0000_0000;

/// The exponent field under which the significand `HIDDEN` stands for one.
pub const BIAS: u64 = 1023;

/// What one step between the parameters of a flattened curve adds to the
/// significand, under the exponent field of one.
pub const STEP: u64 = 0x0000_0010_0000_0000;

/// The encoding of a significand `m` under the exponent field `e`, shifted up
/// until its leading bit is the hidden one (or the field is at its lowest).
pub open spec fn spec_encoded(m: int, e: int) -> int
    decreases e,
{
    if m >= HIDDEN || e <= 1 {
        (e - 1) * HIDDEN + m
    } else {
        spec_encoded(2 * m, e - 1)
    }
}

/// The parameter `i` steps from the start of a curve, of the `MAX_POINTS - 1`
/// steps to its end. Each is a number without rounding.
pub open spec fn spec_tag(i: int) -> Scalar {
    num(spec_encoded(i * STEP, BIAS as int) as u64)
}

/// A larger significand has a larger encoding, and none reaches past its
/// exponent field.
pub(crate) proof fn lemma_encoded(m: int, n: int, e: int)
    requires
        0 < m < n < 2 * HIDDEN,
        1 <= e <= BIAS,
    ensures
        0 < spec_encoded(m, e) < spec_encoded(n, e) < (e + 1) * HIDDEN,
        m < HIDDEN ==> spec_encoded(m, e) < e * HIDDEN,
    decreases e,
{
    assert((e + 1) * HIDDEN == (e - 1) * HIDDEN + 2 * HIDDEN) by (nonlinear_arith);
    assert(e * HIDDEN == (e - 1) * HIDDEN + HIDDEN) by (nonlinear_arith);
    assert(0 <= (e - 1) * HIDDEN) by (nonlinear_arith)
        requires
            1 <= e,
    ;
    if m < HIDDEN && e > 1 {
        lemma_encoded(2 * m, if n < HIDDEN {
            2 * n
        } else {
            2 * m + 1
        }, e - 1);
        assert(((e - 1) + 1) * HIDDEN == e * HIDDEN);
    }
}

/// The parameters of a curve rise with their steps, from the first to one.
proof fn lemma_tags(i: int, j: int)
    requires
        0 <= i < j < MAX_POINTS,
    ensures
        (if i == 0 {
            num(ZERO)
        } else {
            spec_tag(i)
        }).spec_lt(spec_tag(j)),
        spec_tag(MAX_POINTS - 1) == num(ONE),
{
    assert(spec_encoded(HIDDEN as int, BIAS as int) == ONE);
    if j < MAX_POINTS - 1 {
        lemma_encoded(j * STEP, (MAX_POINTS - 1) * STEP, BIAS as int);
    }
    if i > 0 {
        lemma_encoded(i * STEP, j * STEP, BIAS as int);
    }
}

fn tag(i: u64) -> (r: Scalar)
    requires
        0 < i < MAX_POINTS,
    ensures
        r == spec_tag(i as int),
{
    let mut m: u64 = i * STEP;
    let mut e: u64 = BIAS;
    while m < HIDDEN && e > 1
        invariant
            0 < m < 2 * HIDDEN,
            1 <= e <= BIAS,
            spec_encoded(m as int, e as int) == spec_encoded(i * STEP, BIAS as int),
        decreases e,
    {
        m = 2 * m;
        e = e - 1;
    }
    assert(0 <= (e - 1) * HIDDEN <= (BIAS - 1) * HIDDEN) by (nonlinear_arith)
        requires
            1 <= e <= BIAS,
    ;
    Scalar { bits: (e - 1) * HIDDEN + m }
}

/// The polyline of `p` over the parameters from step `lo` to step `hi`,
/// without its first point: `p` is halved until it is flat.
pub open spec fn spec_flatten_rec(
    ar: Arith,
    p: Cubic,
    lo: int,
    hi: int,
    tol: Scalar,
    depth: int,
) -> Seq<Tagged>
    decreases MAX_DEPTH - depth,
{
    if depth >= MAX_DEPTH || spec_flat(ar, p, tol) {
        seq![(spec_tag(hi), p.p3)]
    } else {
        let (l, r) = spec_split(ar, p, num(HALF));
        let mid = (lo + hi) / 2;
        spec_flatten_rec(ar, l, lo, mid, tol, depth + 1) + spec_flatten_rec(
            ar,
            r,
            mid,
            hi,
            tol,
            depth + 1,
        )
    }
}

pub open spec fn spec_flatten_tagged(ar: Arith, p: Cubic, tol: Scalar) -> Seq<Tagged> {
    seq![(num(ZERO), p.p0)] + spec_flatten_rec(ar, p, 0, MAX_POINTS - 1, tol, 0)
}

/// The points of a tagged polyline.
pub open spec fn untagged(s: Seq<Tagged>) -> Seq<Point> {
    s.map_values(|q: Tagged| q.1)
}

/// A flattened curve ends in the curve's last point, at the last parameter.
pub proof fn lemma_flatten_rec_ends(
    ar: Arith,
    p: Cubic,
    lo: int,
    hi: int,
    tol: Scalar,
    depth: int,
)
    ensures
        spec_flatten_rec(ar, p, lo, hi, tol, depth).len() >= 1,
        spec_flatten_rec(ar, p, lo, hi, tol, depth).last() == (spec_tag(hi), p.p3),
    decreases MAX_DEPTH - depth,
{
    if depth >= MAX_DEPTH || spec_flat(ar, p, tol) {
    } else {
        let (l, r) = spec_split(ar, p, num(HALF));
        let mid = (lo + hi) / 2;
        lemma_flatten_rec_ends(ar, l, lo, mid, tol, depth + 1);
        lemma_flatten_rec_ends(ar, r, mid, hi, tol, depth + 1);
    }
}

/// Halved at most so often, a curve has at most so many pieces.
proof fn lemma_flatten_rec_len(ar: Arith, p: Cubic, lo: int, hi: int, tol: Scalar, depth: int)
    requires
        0 <= depth <= MAX_DEPTH,
    ensures
        spec_flatten_rec(ar, p, lo, hi, tol, depth).len() <= pow2((MAX_DEPTH - depth) as nat),
    decreases MAX_DEPTH - depth,
{
    let left = (MAX_DEPTH - depth) as nat;
    lemma_pow2_pos(left);
    if depth >= MAX_DEPTH || spec_flat(ar, p, tol) {
    } else {
        let (l, r) = spec_split(ar, p, num(HALF));
        let mid = (lo + hi) / 2;
        lemma_flatten_rec_len(ar, l, lo, mid, tol, depth + 1);
        lemma_flatten_rec_len(ar, r, mid, hi, tol, depth + 1);
        lemma_pow2_unfold(left);
    }
}

/// A flattened curve runs from the curve's first point to its last, whatever
/// the tolerance, and has no more than `MAX_POINTS` points.
pub proof fn law_flatten_keeps_endpoints(ar: Arith, p: Cubic, tol: Scalar)
    ensures
        2 <= spec_flatten_tagged(ar, p, tol).len() <= MAX_POINTS,
        spec_flatten_tagged(ar, p, tol).first() == (num(ZERO), p.p0),
        spec_flatten_tagged(ar, p, tol).last() == (num(ONE), p.p3),
{
    lemma_flatten_rec_ends(ar, p, 0, MAX_POINTS - 1, tol, 0);
    lemma_flatten_rec_len(ar, p, 0, MAX_POINTS - 1, tol, 0);
    lemma_tags(0, MAX_POINTS - 1);
    lemma2_to64();
}

/// The pieces into which a curve that has been halved `depth` times is cut, in
/// order, each with the number of times it has been halved.
pub open spec fn pieces_of(ar: Arith, p: Cubic, tol: Scalar, depth: int) -> Seq<(Cubic, int)>
    decreases MAX_DEPTH - depth,
{
    if depth >= MAX_DEPTH || spec_flat(ar, p, tol) {
        seq![(p, depth)]
    } else {
        let (l, r) = spec_split(ar, p, num(HALF));
        pieces_of(ar, l, tol, depth + 1) + pieces_of(ar, r, tol, depth + 1)
    }
}

/// From `first` on, `rest` runs along the chords of `pieces`.
spec fn along(pieces: Seq<(Cubic, int)>, first: Point, rest: Seq<Tagged>) -> bool {
    &&& pieces.len() == rest.len()
    &&& forall|i: int|
        #![trigger pieces[i]]
        0 <= i < pieces.len() ==> pieces[i].0.p3 == rest[i].1 && pieces[i].0.p0 == if i == 0 {
            first
        } else {
            rest[i - 1].1
        }
}

proof fn lemma_pieces(ar: Arith, p: Cubic, lo: int, hi: int, tol: Scalar, depth: int)
    requires
        0 <= depth <= MAX_DEPTH,
    ensures
        along(
            pieces_of(ar, p, tol, depth),
            p.p0,
            spec_flatten_rec(ar, p, lo, hi, tol, depth),
        ),
        forall|i: int|
            #![trigger pieces_of(ar, p, tol, depth)[i]]
            0 <= i < pieces_of(ar, p, tol, depth).len() ==> {
                let (c, n) = pieces_of(ar, p, tol, depth)[i];
                n == MAX_DEPTH || spec_flat(ar, c, tol)
            },
    decreases MAX_DEPTH - depth,
{
    if depth >= MAX_DEPTH || spec_flat(ar, p, tol) {
    } else {
        let (l, r) = spec_split(ar, p, num(HALF));
        let mid = (lo + hi) / 2;
        lemma_pieces(ar, l, lo, mid, tol, depth + 1);
        lemma_pieces(ar, r, mid, hi, tol, depth + 1);
        lemma_flatten_rec_ends(ar, l, lo, mid, tol, depth + 1);
        let x = pieces_of(ar, l, tol, depth + 1);
        let y = pieces_of(ar, r, tol, depth + 1);
        let a = spec_flatten_rec(ar, l, lo, mid, tol, depth + 1);
        let b = spec_flatten_rec(ar, r, mid, hi, tol, depth + 1);
        let all = pieces_of(ar, p, tol, depth);
        let rest = spec_flatten_rec(ar, p, lo, hi, tol, depth);
        assert(all == x + y && rest == a + b);
        assert forall|i: int| #![trigger all[i]] 0 <= i < all.len() implies all[i].0.p3
            == rest[i].1 && all[i].0.p0 == (if i == 0 {
            p.p0
        } else {
            rest[i - 1].1
        }) && (all[i].1 == MAX_DEPTH || spec_flat(ar, all[i].0, tol)) by {
            if i < x.len() {
                assert(all[i] == x[i]);
            } else {
                assert(all[i] == y[i - x.len()]);
            }
        }
    }
}

/// A flattened curve runs along the chords of the pieces that halving it gives,
/// in order, and each piece is flat or has been halved as often as any may be.
pub proof fn law_flatten_cuts_flat_pieces(ar: Arith, p: Cubic, tol: Scalar)
    ensures
        ({
            let s = spec_flatten_tagged(ar, p, tol);
            let pieces = pieces_of(ar, p, tol, 0);
            &&& s.len() == pieces.len() + 1
            &&& forall|i: int|
                #![trigger pieces[i]]
                0 <= i < pieces.len() ==> {
                    &&& s[i].1 == pieces[i].0.p0
                    &&& s[i + 1].1 == pieces[i].0.p3
                    &&& pieces[i].1 == MAX_DEPTH || spec_flat(ar, pieces[i].0, tol)
                }
        }),
{
    lemma_pieces(ar, p, 0, MAX_POINTS - 1, tol, 0);
    let s = spec_flatten_tagged(ar, p, tol);
    let rest = spec_flatten_rec(ar, p, 0, MAX_POINTS - 1, tol, 0);
    let pieces = pieces_of(ar, p, tol, 0);
    assert forall|i: int| #![trigger pieces[i]] 0 <= i < pieces.len() implies s[i].1
        == pieces[i].0.p0 && s[i + 1].1 == pieces[i].0.p3 && (pieces[i].1 == MAX_DEPTH
        || spec_flat(ar, pieces[i].0, tol)) by {
        assert(s[i + 1] == rest[i]);
        if i > 0 {
            assert(s[i] == rest[i - 1]);
        }
    }
}

/// The tags strictly increase.
pub open spec fn tags_rise(s: Seq<Tagged>) -> bool {
    forall|i: int, j: int|
        0 <= i < j < s.len() ==> (#[trigger] s[i]).0.spec_lt((#[trigger] s[j]).0)
}

/// The places that `spec_flatten_rec` gives its tags, one for each point.
spec fn steps(ar: Arith, p: Cubic, lo: int, hi: int, tol: Scalar, depth: int) -> Seq<int>
    decreases MAX_DEPTH - depth,
{
    if depth >= MAX_DEPTH || spec_flat(ar, p, tol) {
        seq![hi]
    } else {
        let (l, r) = spec_split(ar, p, num(HALF));
        let mid = (lo + hi) / 2;
        steps(ar, l, lo, mid, tol, depth + 1) + steps(ar, r, mid, hi, tol, depth + 1)
    }
}

proof fn lemma_steps(ar: Arith, p: Cubic, lo: int, hi: int, tol: Scalar, depth: int)
    requires
        0 <= depth <= MAX_DEPTH,
        hi - lo == pow2((MAX_DEPTH - depth) as nat),
    ensures
        ({
            let s = spec_flatten_rec(ar, p, lo, hi, tol, depth);
            let at = steps(ar, p, lo, hi, tol, depth);
            &&& at.len() == s.len()
            &&& forall|i: int|
                0 <= i < s.len() ==> (#[trigger] s[i]).0 == spec_tag(at[i]) && lo < at[i] <= hi
            &&& forall|i: int, j: int| 0 <= i < j < s.len() ==> #[trigger] at[i] < #[trigger] at[j]
        }),
    decreases MAX_DEPTH - depth,
{
    let left = (MAX_DEPTH - depth) as nat;
    lemma_pow2_pos(left);
    if depth >= MAX_DEPTH || spec_flat(ar, p, tol) {
    } else {
        let (l, r) = spec_split(ar, p, num(HALF));
        let mid = (lo + hi) / 2;
        lemma_pow2_unfold(left);
        lemma_steps(ar, l, lo, mid, tol, depth + 1);
        lemma_steps(ar, r, mid, hi, tol, depth + 1);
        let a = spec_flatten_rec(ar, l, lo, mid, tol, depth + 1);
        let b = spec_flatten_rec(ar, r, mid, hi, tol, depth + 1);
        let u = steps(ar, l, lo, mid, tol, depth + 1);
        let v = steps(ar, r, mid, hi, tol, depth + 1);
        let s = spec_flatten_rec(ar, p, lo, hi, tol, depth);
        let at = steps(ar, p, lo, hi, tol, depth);
        assert(s == a + b && at == u + v);
        assert forall|i: int| 0 <= i < s.len() implies (#[trigger] s[i]).0 == spec_tag(at[i]) && lo
            < at[i] <= hi by {
            if i < a.len() {
                assert(s[i] == a[i] && at[i] == u[i]);
            } else {
                assert(s[i] == b[i - a.len()] && at[i] == v[i - a.len()]);
            }
        }
        assert forall|i: int, j: int| 0 <= i < j < s.len() implies #[trigger] at[i]
            < #[trigger] at[j] by {
            if i < a.len() {
                assert(a[i].0 == spec_tag(u[i]) && at[i] == u[i]);
            }
            if j >= a.len() {
                assert(b[j - a.len()].0 == spec_tag(v[j - a.len()]));
            }
        }
    }
}

/// The parameters of a flattened curve strictly increase.
pub proof fn law_flatten_tags_rise(ar: Arith, p: Cubic, tol: Scalar)
    ensures
        tags_rise(spec_flatten_tagged(ar, p, tol)),
{
    lemma2_to64();
    let end = MAX_POINTS - 1;
    lemma_steps(ar, p, 0, end, tol, 0);
    let rest = spec_flatten_rec(ar, p, 0, end, tol, 0);
    let at = steps(ar, p, 0, end, tol, 0);
    let s = spec_flatten_tagged(ar, p, tol);
    assert forall|i: int, j: int| 0 <= i < j < s.len() implies (#[trigger] s[i]).0.spec_lt(
        (#[trigger] s[j]).0,
    ) by {
        assert(s[j] == rest[j - 1]);
        if i > 0 {
            assert(s[i] == rest[i - 1]);
            lemma_tags(at[i - 1], at[j - 1]);
        } else {
            lemma_tags(0, at[j - 1]);
        }
    }
}

fn flatten_tag_rec<F: Fn(Op, Scalar, Scalar) -> Scalar>(
    k: &Calc<F>,
    p: Cubic,
    lo: u64,
    hi: u64,
    tol: Scalar,
    depth: u32,
    out: &mut Vec<Tagged>,
)
    requires
        k.wf(),
        depth <= MAX_DEPTH,
        hi < MAX_POINTS,
        hi - lo == pow2((MAX_DEPTH - depth) as nat),
    ensures
        final(out)@ == old(out)@ + spec_flatten_rec(k@, p, lo as int, hi as int, tol, depth as int),
    decreases MAX_DEPTH - depth,
{
    proof {
        lemma_pow2_pos((MAX_DEPTH - depth) as nat);
    }
    if depth >= MAX_DEPTH || flat(k, p, tol) {
        out.push((tag(hi), p.p3));
        return;
    }
    proof {
        lemma_pow2_unfold((MAX_DEPTH - depth) as nat);
    }
    let (l, r) = split(k, p, Scalar { bits: HALF });
    let mid: u64 = (lo + hi) / 2;
    flatten_tag_rec(k, l, lo, mid, tol, depth + 1, out);
    flatten_tag_rec(k, r, mid, hi, tol, depth + 1, out);
}

/// Flattens with parameter tags, endpoints included.
pub fn flatten_cubic_tagged<F: Fn(Op, Scalar, Scalar) -> Scalar>(
    k: &Calc<F>,
    p: Cubic,
    tol: Scalar,
) -> (r: Vec<Tagged>)
    requires
        k.wf(),
    ensures
        r@ == spec_flatten_tagged(k@, p, tol),
{
    proof {
        lemma2_to64();
    }
    let mut out: Vec<Tagged> = Vec::new();
    out.push((Scalar { bits: ZERO }, p.p0));
    flatten_tag_rec(k, p, 0, MAX_POINTS as u64 - 1, tol, 0, &mut out);
    out
}

/// Flattens a cubic to a polyline (both endpoints included) by deterministic
/// adaptive subdivision. Shared by the topology tests and any renderer that
/// wants pixel-consistent results.
pub fn flatten_cubic<F: Fn(Op, Scalar, Scalar) -> Scalar>(
    k: &Calc<F>,
    p: [Point; 4],
    tol: Scalar,
) -> (r: Vec<Point>)
    requires
        k.wf(),
    ensures
        r@ == untagged(spec_flatten_tagged(k@, Cubic::spec_of(p@), tol)),
        2 <= r@.len() <= MAX_POINTS,
        r@.first() == p[0],
        r@.last() == p[3],
{
    let tagged = flatten_cubic_tagged(k, Cubic::of(p), tol);
    proof {
        law_flatten_keeps_endpoints(k@, Cubic::spec_of(p@), tol);
    }
    untag(&tagged)
}

/// The points of a tagged polyline.
pub fn untag(poly: &Vec<Tagged>) -> (r: Vec<Point>)
    ensures
        r@ == untagged(poly@),
{
    let mut out: Vec<Point> = Vec::new();
    let n: usize = poly.len();
    let mut i: usize = 0;
    while i < n
        invariant
            i <= n == poly@.len(),
            out@ == untagged(poly@).take(i as int),
        decreases n - i,
    {
        out.push(poly[i].1);
        i = i + 1;
        assert(untagged(poly@).take(i as int) =~= untagged(poly@).take(i - 1).push(poly@[i - 1].1));
    }
    assert(untagged(poly@).take(n as int) =~= untagged(poly@));
    out
}

// ---- intersections ----

/// The cross product of two displacements.
pub open spec fn spec_cross(ar: Arith, d1: Point, d2: Point) -> Scalar {
    minus(ar, times(ar, d1.x, d2.y), times(ar, d1.y, d2.x))
}

fn cross<F: Fn(Op, Scalar, Scalar) -> Scalar>(k: &Calc<F>, d1: Point, d2: Point) -> (r: Scalar)
    requires
        k.wf(),
    ensures
        r == spec_cross(k@, d1, d2),
{
    k.minus(k.times(d1.x, d2.y), k.times(d1.y, d2.x))
}

/// Zero, or not a number.
pub open spec fn spec_vanishes(x: Scalar) -> bool {
    !x.spec_lt(num(ZERO)) && !num(ZERO).spec_lt(x)
}

fn vanishes(x: Scalar) -> (r: bool)
    ensures
        r == spec_vanishes(x),
{
    !x.lt(Scalar { bits: ZERO }) && !(Scalar { bits: ZERO }).lt(x)
}

/// Where the lines through the segments `a0`-`a1` and `b0`-`b1` cross, as
/// fractions of the two.
pub open spec fn spec_fractions(ar: Arith, a0: Point, a1: Point, b0: Point, b1: Point) -> (
    Scalar,
    Scalar,
) {
    let d1 = spec_minus(ar, a1, a0);
    let d2 = spec_minus(ar, b1, b0);
    let w = spec_minus(ar, b0, a0);
    let denom = spec_cross(ar, d1, d2);
    (over(ar, spec_cross(ar, w, d2), denom), over(ar, spec_cross(ar, w, d1), denom))
}

/// Proper intersection of the segments `a0`-`a1` and `b0`-`b1` as fractions
/// of the two. Parallel segments, whose cross product vanishes, have none: that
/// they are near is for the distance between them to say.
pub open spec fn spec_seg_isect(ar: Arith, a0: Point, a1: Point, b0: Point, b1: Point) -> Option<
    (Scalar, Scalar),
> {
    let (s, t) = spec_fractions(ar, a0, a1, b0, b1);
    if spec_vanishes(spec_cross(ar, spec_minus(ar, a1, a0), spec_minus(ar, b1, b0))) {
        None
    } else if spec_in_unit(s) && spec_in_unit(t) {
        Some((s, t))
    } else {
        None
    }
}

/// Segments that are not parallel, and whose lines cross at a fraction of each
/// between its ends, intersect there, however small the angle.
pub proof fn law_crossing_segments_intersect(
    ar: Arith,
    a0: Point,
    a1: Point,
    b0: Point,
    b1: Point,
)
    requires
        ({
            let c = spec_cross(ar, spec_minus(ar, a1, a0), spec_minus(ar, b1, b0));
            c.spec_lt(num(ZERO)) || num(ZERO).spec_lt(c)
        }),
        spec_in_unit(spec_fractions(ar, a0, a1, b0, b1).0),
        spec_in_unit(spec_fractions(ar, a0, a1, b0, b1).1),
    ensures
        spec_seg_isect(ar, a0, a1, b0, b1) == Some(spec_fractions(ar, a0, a1, b0, b1)),
{
}

pub open spec fn spec_in_unit(s: Scalar) -> bool {
    num(ZERO).spec_le(s) && s.spec_le(num(ONE))
}

fn in_unit(s: Scalar) -> (r: bool)
    ensures
        r == spec_in_unit(s),
{
    (Scalar { bits: ZERO }).le(s) && s.le(Scalar { bits: ONE })
}

pub fn seg_isect<F: Fn(Op, Scalar, Scalar) -> Scalar>(
    k: &Calc<F>,
    a0: Point,
    a1: Point,
    b0: Point,
    b1: Point,
) -> (r: Option<(Scalar, Scalar)>)
    requires
        k.wf(),
    ensures
        r == spec_seg_isect(k@, a0, a1, b0, b1),
{
    let d1 = a1.minus(k, a0);
    let d2 = b1.minus(k, b0);
    let denom = cross(k, d1, d2);
    if vanishes(denom) {
        return None;
    }
    let w = b0.minus(k, a0);
    let s = k.over(cross(k, w, d2), denom);
    if !in_unit(s) {
        return None;
    }
    let t = k.over(cross(k, w, d1), denom);
    if in_unit(t) {
        Some((s, t))
    } else {
        None
    }
}

/// A pair of near points on two segments: their distance, and the fraction of
/// each segment.
pub type Gap = (Scalar, Scalar, Scalar);

/// The nearer of two gaps; the first when they are as near.
pub open spec fn spec_nearer(x: Gap, y: Gap) -> Gap {
    if y.0.spec_lt(x.0) {
        y
    } else {
        x
    }
}

fn nearer(x: Gap, y: Gap) -> (r: Gap)
    ensures
        r == spec_nearer(x, y),
{
    if y.0.lt(x.0) {
        y
    } else {
        x
    }
}

/// The nearest of the four projections of an end of one segment on the other.
pub open spec fn spec_end_gap(ar: Arith, a0: Point, a1: Point, b0: Point, b1: Point) -> Result<
    Gap,
    Fault,
> {
    let f0 = spec_frac(ar, a0, b0, b1);
    let f1 = spec_frac(ar, a1, b0, b1);
    let f2 = spec_frac(ar, b0, a0, a1);
    let f3 = spec_frac(ar, b1, a0, a1);
    if f0.0.spec_is_nan() || f1.0.spec_is_nan() || f2.0.spec_is_nan() || f3.0.spec_is_nan() {
        Err(Fault::NotANumber)
    } else {
        Ok(
            spec_nearer(
                spec_nearer(
                    spec_nearer((f0.0, num(ZERO), f0.1), (f1.0, num(ONE), f1.1)),
                    (f2.0, f2.1, num(ZERO)),
                ),
                (f3.0, f3.1, num(ONE)),
            ),
        )
    }
}

fn end_gap<F: Fn(Op, Scalar, Scalar) -> Scalar>(
    k: &Calc<F>,
    a0: Point,
    a1: Point,
    b0: Point,
    b1: Point,
) -> (r: Result<Gap, Fault>)
    requires
        k.wf(),
    ensures
        r == spec_end_gap(k@, a0, a1, b0, b1),
{
    let zero = Scalar { bits: ZERO };
    let one = Scalar { bits: ONE };
    let f0 = frac(k, a0, b0, b1);
    let f1 = frac(k, a1, b0, b1);
    let f2 = frac(k, b0, a0, a1);
    let f3 = frac(k, b1, a0, a1);
    if f0.0.is_nan() || f1.0.is_nan() || f2.0.is_nan() || f3.0.is_nan() {
        return Err(Fault::NotANumber);
    }
    Ok(
        nearer(
            nearer(nearer((f0.0, zero, f0.1), (f1.0, one, f1.1)), (f2.0, f2.1, zero)),
            (f3.0, f3.1, one),
        ),
    )
}

/// Minimum distance between two segments plus closest-point fractions: zero and
/// the crossing where they cross, else the nearest of the four endpoint
/// projections.
pub open spec fn spec_seg_seg_dist(
    ar: Arith,
    a0: Point,
    a1: Point,
    b0: Point,
    b1: Point,
) -> Result<Gap, Fault> {
    match spec_seg_isect(ar, a0, a1, b0, b1) {
        Some((s, t)) => Ok((num(ZERO), s, t)),
        None => spec_end_gap(ar, a0, a1, b0, b1),
    }
}

pub fn seg_seg_dist<F: Fn(Op, Scalar, Scalar) -> Scalar>(
    k: &Calc<F>,
    a0: Point,
    a1: Point,
    b0: Point,
    b1: Point,
) -> (r: Result<Gap, Fault>)
    requires
        k.wf(),
    ensures
        r == spec_seg_seg_dist(k@, a0, a1, b0, b1),
{
    match seg_isect(k, a0, a1, b0, b1) {
        Some((s, t)) => Ok((Scalar { bits: ZERO }, s, t)),
        None => end_gap(k, a0, a1, b0, b1),
    }
}

pub open spec fn spec_lerp_tag(ar: Arith, a: Tagged, b: Tagged, f: Scalar) -> Tagged {
    (plus(ar, a.0, times(ar, minus(ar, b.0, a.0), f)), spec_lerp(ar, a.1, b.1, f))
}

/// The tagged point at fraction `f` of the way from `a` to `b`.
fn lerp_tag<F: Fn(Op, Scalar, Scalar) -> Scalar>(k: &Calc<F>, a: Tagged, b: Tagged, f: Scalar) -> (r:
    Tagged)
    requires
        k.wf(),
    ensures
        r == spec_lerp_tag(k@, a, b, f),
{
    (k.plus(a.0, k.times(k.minus(b.0, a.0), f)), lerp(k, a.1, b.1, f))
}

/// A polyline's number of segments.
pub open spec fn spec_segs(poly: Seq<Tagged>) -> int {
    if poly.len() == 0 {
        0
    } else {
        poly.len() - 1
    }
}

fn segs(poly: &Vec<Tagged>) -> (r: usize)
    ensures
        r == spec_segs(poly@),
{
    if poly.len() == 0 {
        0
    } else {
        poly.len() - 1
    }
}

/// The place `p`, at distance `d` from a segment, is not on it: it is `eps` away,
/// if that is a distance at all, and farther than rounding takes a place with
/// such coordinates.
pub open spec fn spec_off(ar: Arith, p: Point, d: Scalar, eps: Scalar) -> bool {
    &&& num(ZERO).spec_lt(eps)
    &&& eps.spec_le(d)
    &&& times(ar, num(E12), plus(ar, p.x.spec_abs(), p.y.spec_abs())).spec_le(d)
}

fn off<F: Fn(Op, Scalar, Scalar) -> Scalar>(
    k: &Calc<F>,
    p: Point,
    d: Scalar,
    eps: Scalar,
) -> (r: bool)
    requires
        k.wf(),
    ensures
        r == spec_off(k@, p, d, eps),
{
    (Scalar { bits: ZERO }).lt(eps) && eps.le(d) && k.times(
        Scalar { bits: E12 },
        k.plus(p.x.abs(), p.y.abs()),
    ).le(d)
}

/// Where the segment `a0`-`a1` of one tagged polyline crosses the segment
/// `b0`-`b1` of another. The place is taken on the first, and the parameter on
/// the second is the one nearest to it; a place that is off the second is an
/// artefact of segments along one line.
pub open spec fn spec_cut(
    ar: Arith,
    a0: Tagged,
    a1: Tagged,
    b0: Tagged,
    b1: Tagged,
    eps: Scalar,
) -> Option<Hit> {
    match spec_seg_isect(ar, a0.1, a1.1, b0.1, b1.1) {
        None => None,
        Some((s, t)) => {
            let (ta, pa) = spec_lerp_tag(ar, a0, a1, s);
            let (d, f) = spec_frac(ar, pa, b0.1, b1.1);
            if spec_off(ar, pa, d, eps) {
                None
            } else {
                Some(Hit { t: ta, u: spec_lerp_tag(ar, b0, b1, f).0, p: pa })
            }
        },
    }
}

fn cut<F: Fn(Op, Scalar, Scalar) -> Scalar>(
    k: &Calc<F>,
    a0: Tagged,
    a1: Tagged,
    b0: Tagged,
    b1: Tagged,
    eps: Scalar,
) -> (r: Option<Hit>)
    requires
        k.wf(),
    ensures
        r == spec_cut(k@, a0, a1, b0, b1, eps),
{
    match seg_isect(k, a0.1, a1.1, b0.1, b1.1) {
        None => None,
        Some((s, _)) => {
            let (ta, pa) = lerp_tag(k, a0, a1, s);
            let (d, f) = frac(k, pa, b0.1, b1.1);
            if off(k, pa, d, eps) {
                None
            } else {
                Some(Hit { t: ta, u: lerp_tag(k, b0, b1, f).0, p: pa })
            }
        },
    }
}

/// Where two segments of tagged polylines cross; with `turned`, the place is
/// taken on the second.
pub open spec fn spec_crossing(
    ar: Arith,
    a0: Tagged,
    a1: Tagged,
    b0: Tagged,
    b1: Tagged,
    eps: Scalar,
    turned: bool,
) -> Option<Hit> {
    if turned {
        spec_swapped(spec_cut(ar, b0, b1, a0, a1, eps))
    } else {
        spec_cut(ar, a0, a1, b0, b1, eps)
    }
}

fn crossing<F: Fn(Op, Scalar, Scalar) -> Scalar>(
    k: &Calc<F>,
    a0: Tagged,
    a1: Tagged,
    b0: Tagged,
    b1: Tagged,
    eps: Scalar,
    turned: bool,
) -> (r: Option<Hit>)
    requires
        k.wf(),
    ensures
        r == spec_crossing(k@, a0, a1, b0, b1, eps, turned),
{
    if turned {
        match cut(k, b0, b1, a0, a1, eps) {
            None => None,
            Some(h) => Some(Hit { t: h.u, u: h.t, p: h.p }),
        }
    } else {
        cut(k, a0, a1, b0, b1, eps)
    }
}

/// Where the point `q` of one tagged polyline meets the segment `b0`-`b1` of
/// another, at the fraction `f` of that: half way between the two.
pub open spec fn spec_touch(ar: Arith, q: Tagged, b0: Tagged, b1: Tagged, f: Scalar) -> Hit {
    let (u, foot) = spec_lerp_tag(ar, b0, b1, f);
    Hit { t: q.0, u, p: spec_lerp(ar, q.1, foot, num(HALF)) }
}

fn touch<F: Fn(Op, Scalar, Scalar) -> Scalar>(
    k: &Calc<F>,
    q: Tagged,
    b0: Tagged,
    b1: Tagged,
    f: Scalar,
) -> (r: Hit)
    requires
        k.wf(),
    ensures
        r == spec_touch(k@, q, b0, b1, f),
{
    let (u, foot) = lerp_tag(k, b0, b1, f);
    Hit { t: q.0, u, p: lerp(k, q.1, foot, Scalar { bits: HALF }) }
}

/// A meeting as seen from the other polyline.
pub open spec fn spec_swap(h: Hit) -> Hit {
    Hit { t: h.u, u: h.t, p: h.p }
}

/// Where the point `q` passes within `eps` of the segment `b0`-`b1`, if it does.
pub open spec fn spec_near_end(
    ar: Arith,
    q: Tagged,
    b0: Tagged,
    b1: Tagged,
    eps: Scalar,
) -> Option<Hit> {
    let (d, f) = spec_frac(ar, q.1, b0.1, b1.1);
    if d.spec_lt(eps) {
        Some(spec_touch(ar, q, b0, b1, f))
    } else {
        None
    }
}

/// The hits with one more, where there is one.
pub open spec fn spec_with(hits: Seq<Hit>, h: Option<Hit>) -> Seq<Hit> {
    match h {
        None => hits,
        Some(x) => hits.push(x),
    }
}

/// The meeting as seen from the other polyline, where there is one.
pub open spec fn spec_swapped(h: Option<Hit>) -> Option<Hit> {
    match h {
        None => None,
        Some(x) => Some(spec_swap(x)),
    }
}

/// All meetings of two segments: where they cross, and where each of the four
/// ends passes within `eps` of the other segment. The distances of segments that
/// do not cross have to be numbers.
pub open spec fn spec_meetings(
    ar: Arith,
    a0: Tagged,
    a1: Tagged,
    b0: Tagged,
    b1: Tagged,
    eps: Scalar,
    turned: bool,
) -> Result<Seq<Hit>, Fault> {
    let cut = spec_crossing(ar, a0, a1, b0, b1, eps, turned);
    if cut is None && (spec_seg_dist(ar, a0.1, b0.1, b1.1).spec_is_nan() || spec_seg_dist(
        ar,
        a1.1,
        b0.1,
        b1.1,
    ).spec_is_nan() || spec_seg_dist(ar, b0.1, a0.1, a1.1).spec_is_nan() || spec_seg_dist(
        ar,
        b1.1,
        a0.1,
        a1.1,
    ).spec_is_nan()) {
        Err(Fault::NotANumber)
    } else {
        Ok(
            spec_with(
                spec_with(
                    spec_with(
                        spec_with(
                            spec_with(Seq::empty(), cut),
                            spec_near_end(ar, a0, b0, b1, eps),
                        ),
                        spec_near_end(ar, a1, b0, b1, eps),
                    ),
                    spec_swapped(spec_near_end(ar, b0, a0, a1, eps)),
                ),
                spec_swapped(spec_near_end(ar, b1, a0, a1, eps)),
            ),
        )
    }
}

/// All meetings of segment `i` of `a` and segment `j` of `b`.
pub open spec fn spec_pair_hits(
    ar: Arith,
    a: Seq<Tagged>,
    b: Seq<Tagged>,
    eps: Scalar,
    turned: bool,
    i: int,
    j: int,
) -> Result<Seq<Hit>, Fault> {
    spec_meetings(ar, a[i], a[i + 1], b[j], b[j + 1], eps, turned)
}

/// Adds all meetings of two segments.
fn meetings_into<F: Fn(Op, Scalar, Scalar) -> Scalar>(
    k: &Calc<F>,
    a0: Tagged,
    a1: Tagged,
    b0: Tagged,
    b1: Tagged,
    eps: Scalar,
    turned: bool,
    out: &mut Vec<Hit>,
) -> (r: Option<Fault>)
    requires
        k.wf(),
    ensures
        match spec_meetings(k@, a0, a1, b0, b1, eps, turned) {
            Err(e) => r == Some(e),
            Ok(hits) => r is None && final(out)@ == old(out)@ + hits,
        },
{
    let ghost start = out@;
    let cut = crossing(k, a0, a1, b0, b1, eps, turned);
    let f0 = frac(k, a0.1, b0.1, b1.1);
    let f1 = frac(k, a1.1, b0.1, b1.1);
    let f2 = frac(k, b0.1, a0.1, a1.1);
    let f3 = frac(k, b1.1, a0.1, a1.1);
    if cut.is_none() && (f0.0.is_nan() || f1.0.is_nan() || f2.0.is_nan() || f3.0.is_nan()) {
        return Some(Fault::NotANumber);
    }
    let ghost h0 = spec_with(Seq::empty(), cut);
    if let Some(h) = cut {
        out.push(h);
    }
    assert(out@ =~= start + h0);
    let ghost h1 = spec_with(h0, spec_near_end(k@, a0, b0, b1, eps));
    if f0.0.lt(eps) {
        out.push(touch(k, a0, b0, b1, f0.1));
    }
    assert(out@ =~= start + h1);
    let ghost h2 = spec_with(h1, spec_near_end(k@, a1, b0, b1, eps));
    if f1.0.lt(eps) {
        out.push(touch(k, a1, b0, b1, f1.1));
    }
    assert(out@ =~= start + h2);
    let ghost h3 = spec_with(h2, spec_swapped(spec_near_end(k@, b0, a0, a1, eps)));
    if f2.0.lt(eps) {
        let h = touch(k, b0, a0, a1, f2.1);
        out.push(Hit { t: h.u, u: h.t, p: h.p });
    }
    assert(out@ =~= start + h3);
    if f3.0.lt(eps) {
        let h = touch(k, b1, a0, a1, f3.1);
        out.push(Hit { t: h.u, u: h.t, p: h.p });
    }
    assert(out@ =~= start + spec_with(h3, spec_swapped(spec_near_end(k@, b1, a0, a1, eps))));
    None
}

/// `hits` with one more finding added, unless there is a fault.
pub open spec fn spec_gather(hits: Result<Seq<Hit>, Fault>, next: Result<Option<Hit>, Fault>) -> Result<
    Seq<Hit>,
    Fault,
> {
    match hits {
        Err(e) => Err(e),
        Ok(s) => match next {
            Err(e) => Err(e),
            Ok(None) => Ok(s),
            Ok(Some(h)) => Ok(s.push(h)),
        },
    }
}

/// `hits` with more findings added, unless there is a fault.
pub open spec fn spec_gather_all(hits: Result<Seq<Hit>, Fault>, next: Result<Seq<Hit>, Fault>) -> Result<
    Seq<Hit>,
    Fault,
> {
    match hits {
        Err(e) => Err(e),
        Ok(s) => match next {
            Err(e) => Err(e),
            Ok(more) => Ok(s + more),
        },
    }
}

/// The meetings of the first `i` segments of `a` with all of `b`, and of the
/// next segment of `a` with the first `j` segments of `b`, in that order.
pub open spec fn spec_raw_hits(
    ar: Arith,
    a: Seq<Tagged>,
    b: Seq<Tagged>,
    eps: Scalar,
    turned: bool,
    i: int,
    j: int,
) -> Result<Seq<Hit>, Fault>
    decreases i, j,
{
    if j > 0 {
        spec_gather_all(
            spec_raw_hits(ar, a, b, eps, turned, i, j - 1),
            spec_pair_hits(ar, a, b, eps, turned, i, j - 1),
        )
    } else if i > 0 {
        spec_raw_hits(ar, a, b, eps, turned, i - 1, spec_segs(b))
    } else {
        Ok(Seq::empty())
    }
}

/// Once there is a fault, more segments do not mend it.
proof fn lemma_raw_hits_fault(
    ar: Arith,
    a: Seq<Tagged>,
    b: Seq<Tagged>,
    eps: Scalar,
    turned: bool,
    i: int,
    j: int,
    i2: int,
    j2: int,
)
    requires
        0 <= i <= i2,
        0 <= j <= spec_segs(b),
        0 <= j2 <= spec_segs(b),
        i == i2 ==> j <= j2,
        spec_raw_hits(ar, a, b, eps, turned, i, j) is Err,
    ensures
        spec_raw_hits(ar, a, b, eps, turned, i2, j2) == spec_raw_hits(ar, a, b, eps, turned, i, j),
    decreases i2, j2,
{
    if i == i2 && j == j2 {
    } else if j2 > 0 {
        lemma_raw_hits_fault(ar, a, b, eps, turned, i, j, i2, j2 - 1);
    } else {
        lemma_raw_hits_fault(ar, a, b, eps, turned, i, j, i2 - 1, spec_segs(b));
    }
}

/// The hits in the order of their first parameter, earlier findings first
/// among equals.
pub open spec fn spec_by_parameter(raw: Seq<Hit>) -> Seq<Hit> {
    spec_sorted(spec_hit_keys(raw)).map_values(|key: Key| raw[key.1 as int])
}

pub open spec fn spec_hit_keys(raw: Seq<Hit>) -> Seq<Key> {
    Seq::new(raw.len(), |i: int| (raw[i].t.spec_rank() as i64, i as u64))
}

/// Some kept hit lies within `reach` of `p`.
pub open spec fn spec_crowded(ar: Arith, kept: Seq<Hit>, p: Point, reach: Scalar) -> bool {
    exists|i: int|
        0 <= i < kept.len() && spec_dist(ar, (#[trigger] kept[i]).p, p).spec_lt(reach)
}

/// What is kept of the first `n` of `sorted`: each hit that no earlier kept
/// one crowds.
pub open spec fn spec_thinned(ar: Arith, sorted: Seq<Hit>, reach: Scalar, n: int) -> Seq<Hit>
    decreases n,
{
    if n <= 0 {
        Seq::empty()
    } else {
        let kept = spec_thinned(ar, sorted, reach, n - 1);
        if spec_crowded(ar, kept, sorted[n - 1].p, reach) {
            kept
        } else {
            kept.push(sorted[n - 1])
        }
    }
}

/// The hits in the order of their first parameter. Two or more cannot be put
/// in order when one of these is not a number.
pub open spec fn spec_ordered_hits(raw: Seq<Hit>) -> Result<Seq<Hit>, Fault> {
    if raw.len() >= 2 && exists|i: int| 0 <= i < raw.len() && (#[trigger] raw[i]).t.spec_is_nan() {
        Err(Fault::NotANumber)
    } else {
        Ok(spec_by_parameter(raw))
    }
}

fn ordered_hits(raw: Vec<Hit>) -> (r: Result<Vec<Hit>, Fault>)
    ensures
        viewed(r) == spec_ordered_hits(raw@),
{
    let n: usize = raw.len();
    let mut keys: Vec<Key> = Vec::new();
    let mut i: usize = 0;
    while i < n
        invariant
            i <= n == raw@.len(),
            keys@ == spec_hit_keys(raw@).take(i as int),
            n >= 2 ==> forall|j: int| 0 <= j < i ==> !(#[trigger] raw@[j]).t.spec_is_nan(),
        decreases n - i,
    {
        if n >= 2 && raw[i].t.is_nan() {
            return Err(Fault::NotANumber);
        }
        keys.push((raw[i].t.rank(), i as u64));
        i = i + 1;
        assert(spec_hit_keys(raw@).take(i as int) =~= spec_hit_keys(raw@).take(i - 1).push(
            spec_hit_keys(raw@)[i - 1],
        ));
    }
    assert(spec_hit_keys(raw@).take(n as int) =~= spec_hit_keys(raw@));
    let sorted = sort_keys(&keys);
    let ghost order = spec_by_parameter(raw@);
    let mut out: Vec<Hit> = Vec::new();
    proof {
        lemma_sorted(keys@);
    }
    let mut m: usize = 0;
    while m < n
        invariant
            m <= n == raw@.len(),
            sorted@ == spec_sorted(keys@),
            keys@ == spec_hit_keys(raw@),
            sorted@.len() == n,
            order == spec_by_parameter(raw@),
            out@ == order.take(m as int),
            forall|x: Key| sorted@.contains(x) <==> keys@.contains(x),
        decreases n - m,
    {
        let key = sorted[m];
        proof {
            assert(sorted@.contains(key));
            assert(keys@.contains(key));
        }
        out.push(raw[key.1 as usize]);
        m = m + 1;
        assert(order.take(m as int) =~= order.take(m - 1).push(order[m - 1]));
    }
    assert(order.take(n as int) =~= order);
    Ok(out)
}

/// The hits thinned so that no two are within `2 * eps`.
pub open spec fn spec_cluster(ar: Arith, hits: Seq<Hit>, eps: Scalar) -> Seq<Hit> {
    spec_thinned(ar, hits, times(ar, eps, num(TWO)), hits.len() as int)
}

fn cluster<F: Fn(Op, Scalar, Scalar) -> Scalar>(k: &Calc<F>, hits: &Vec<Hit>, eps: Scalar) -> (r: Vec<
    Hit,
>)
    requires
        k.wf(),
    ensures
        r@ == spec_cluster(k@, hits@, eps),
{
    let reach = k.times(eps, Scalar { bits: TWO });
    let n: usize = hits.len();
    let mut out: Vec<Hit> = Vec::new();
    let mut m: usize = 0;
    while m < n
        invariant
            k.wf(),
            m <= n == hits@.len(),
            reach == times(k@, eps, num(TWO)),
            out@ == spec_thinned(k@, hits@, reach, m as int),
        decreases n - m,
    {
        if !crowded(k, &out, hits[m].p, reach) {
            out.push(hits[m]);
        }
        m = m + 1;
    }
    out
}

fn crowded<F: Fn(Op, Scalar, Scalar) -> Scalar>(
    k: &Calc<F>,
    kept: &Vec<Hit>,
    p: Point,
    reach: Scalar,
) -> (r: bool)
    requires
        k.wf(),
    ensures
        r == spec_crowded(k@, kept@, p, reach),
{
    let n: usize = kept.len();
    let mut i: usize = 0;
    while i < n
        invariant
            k.wf(),
            i <= n == kept@.len(),
            forall|j: int|
                0 <= j < i ==> !spec_dist(k@, (#[trigger] kept@[j]).p, p).spec_lt(reach),
        decreases n - i,
    {
        if dist(k, kept[i].p, p).lt(reach) {
            return true;
        }
        i = i + 1;
    }
    false
}

/// All crossings and near-misses within `eps` of two tagged polylines, in the
/// order of their first parameter; with `turned`, crossings as seen from the
/// second.
#[verifier::opaque]
pub open spec fn spec_poly_hits(
    ar: Arith,
    a: Seq<Tagged>,
    b: Seq<Tagged>,
    eps: Scalar,
    turned: bool,
) -> Result<Seq<Hit>, Fault> {
    match spec_raw_hits(ar, a, b, eps, turned, spec_segs(a), 0) {
        Err(e) => Err(e),
        Ok(raw) => spec_ordered_hits(raw),
    }
}

/// Intersections (crossings and near-misses within `eps`) between two tagged
/// polylines, thinned so that no two are within `2 * eps`.
pub open spec fn spec_poly_intersections(
    ar: Arith,
    a: Seq<Tagged>,
    b: Seq<Tagged>,
    eps: Scalar,
) -> Result<Seq<Hit>, Fault> {
    match spec_poly_hits(ar, a, b, eps, false) {
        Err(e) => Err(e),
        Ok(hits) => Ok(spec_cluster(ar, hits, eps)),
    }
}

pub fn poly_intersections<F: Fn(Op, Scalar, Scalar) -> Scalar>(
    k: &Calc<F>,
    a: &Vec<Tagged>,
    b: &Vec<Tagged>,
    eps: Scalar,
) -> (r: Result<Vec<Hit>, Fault>)
    requires
        k.wf(),
    ensures
        viewed(r) == spec_poly_intersections(k@, a@, b@, eps),
{
    match poly_hits(k, a, b, eps, false) {
        Err(e) => Err(e),
        Ok(hits) => Ok(cluster(k, &hits, eps)),
    }
}

/// All crossings and near-misses within `eps` of two tagged polylines, in the
/// order of their first parameter.
pub fn poly_hits<F: Fn(Op, Scalar, Scalar) -> Scalar>(
    k: &Calc<F>,
    a: &Vec<Tagged>,
    b: &Vec<Tagged>,
    eps: Scalar,
    turned: bool,
) -> (r: Result<Vec<Hit>, Fault>)
    requires
        k.wf(),
    ensures
        viewed(r) == spec_poly_hits(k@, a@, b@, eps, turned),
{
    proof {
        reveal(spec_poly_hits);
    }
    let mut raw: Vec<Hit> = Vec::new();
    let na: usize = segs(a);
    let nb: usize = segs(b);
    let mut i: usize = 0;
    while i < na
        invariant
            k.wf(),
            i <= na == spec_segs(a@),
            nb == spec_segs(b@),
            spec_raw_hits(k@, a@, b@, eps, turned, i as int, 0) == Ok::<Seq<Hit>, Fault>(raw@),
        decreases na - i,
    {
        let mut j: usize = 0;
        while j < nb
            invariant
                k.wf(),
                i < na == spec_segs(a@),
                j <= nb == spec_segs(b@),
                spec_raw_hits(k@, a@, b@, eps, turned, i as int, j as int) == Ok::<
                    Seq<Hit>,
                    Fault,
                >(raw@),
            decreases nb - j,
        {
            assert(i + 1 < a.len() && j + 1 < b.len());
            if let Some(e) = meetings_into(
                k,
                a[i],
                a[i + 1],
                b[j],
                b[j + 1],
                eps,
                turned,
                &mut raw,
            ) {
                proof {
                    reveal(spec_poly_hits);
                    lemma_raw_hits_fault(k@, a@, b@, eps, turned, i as int, j + 1, na as int, 0);
                }
                return Err(e);
            }
            j = j + 1;
        }
        i = i + 1;
    }
    ordered_hits(raw)
}

/// Where two segments of tagged polylines cross, or else where they pass within
/// `eps` of each other and are nearest.
pub open spec fn spec_meet(
    ar: Arith,
    a0: Tagged,
    a1: Tagged,
    b0: Tagged,
    b1: Tagged,
    eps: Scalar,
) -> Result<Option<Hit>, Fault> {
    match spec_cut(ar, a0, a1, b0, b1, eps) {
        Some(h) => Ok(Some(h)),
        None => match spec_end_gap(ar, a0.1, a1.1, b0.1, b1.1) {
            Err(e) => Err(e),
            Ok((d, s, t)) => if d.spec_lt(eps) {
                let (ta, pa) = spec_lerp_tag(ar, a0, a1, s);
                let (tb, pb) = spec_lerp_tag(ar, b0, b1, t);
                Ok(Some(Hit { t: ta, u: tb, p: spec_lerp(ar, pa, pb, num(HALF)) }))
            } else {
                Ok(None)
            },
        },
    }
}

fn meet<F: Fn(Op, Scalar, Scalar) -> Scalar>(
    k: &Calc<F>,
    a0: Tagged,
    a1: Tagged,
    b0: Tagged,
    b1: Tagged,
    eps: Scalar,
) -> (r: Result<Option<Hit>, Fault>)
    requires
        k.wf(),
    ensures
        r == spec_meet(k@, a0, a1, b0, b1, eps),
{
    if let Some(h) = cut(k, a0, a1, b0, b1, eps) {
        return Ok(Some(h));
    }
    match end_gap(k, a0.1, a1.1, b0.1, b1.1) {
        Err(e) => Err(e),
        Ok((d, s, t)) => {
            if d.lt(eps) {
                let (ta, pa) = lerp_tag(k, a0, a1, s);
                let (tb, pb) = lerp_tag(k, b0, b1, t);
                Ok(Some(Hit { t: ta, u: tb, p: lerp(k, pa, pb, Scalar { bits: HALF }) }))
            } else {
                Ok(None)
            }
        },
    }
}

/// Where segments `i` and `j` of one polyline meet. Crossings and near-misses
/// each ask for their own separation in parameter, so that neighbouring
/// segments do not report themselves.
pub open spec fn spec_self_pair_hit(ar: Arith, a: Seq<Tagged>, eps: Scalar, i: int, j: int) -> Result<
    Option<Hit>,
    Fault,
> {
    let least = if spec_cut(ar, a[i], a[i + 1], a[j], a[j + 1], eps) is Some {
        num(E4)
    } else {
        num(TENTH)
    };
    match spec_meet(ar, a[i], a[i + 1], a[j], a[j + 1], eps) {
        Err(e) => Err(e),
        Ok(None) => Ok(None),
        Ok(Some(h)) => if least.spec_lt(minus(ar, h.u, h.t)) {
            Ok(Some(h))
        } else {
            Ok(None)
        },
    }
}

/// The meetings of the first `i` segments of `a` with the later ones that do
/// not adjoin them, and of the next segment with those among the first `j`,
/// in that order.
pub open spec fn spec_self_hits(ar: Arith, a: Seq<Tagged>, eps: Scalar, i: int, j: int) -> Result<
    Seq<Hit>,
    Fault,
>
    decreases i, j,
{
    if i >= 0 && j > i + 2 {
        spec_gather(
            spec_self_hits(ar, a, eps, i, j - 1),
            spec_self_pair_hit(ar, a, eps, i, j - 1),
        )
    } else if i > 0 {
        spec_self_hits(ar, a, eps, i - 1, spec_segs(a))
    } else {
        Ok(Seq::empty())
    }
}

proof fn lemma_self_hits_fault(
    ar: Arith,
    a: Seq<Tagged>,
    eps: Scalar,
    i: int,
    j: int,
    i2: int,
    j2: int,
)
    requires
        0 <= i <= i2,
        i + 2 < j <= spec_segs(a),
        j2 <= spec_segs(a),
        i == i2 ==> j <= j2,
        spec_self_hits(ar, a, eps, i, j) is Err,
    ensures
        spec_self_hits(ar, a, eps, i2, j2) == spec_self_hits(ar, a, eps, i, j),
    decreases i2, j2,
{
    if i == i2 && j == j2 {
    } else if j2 > i2 + 2 {
        lemma_self_hits_fault(ar, a, eps, i, j, i2, j2 - 1);
    } else {
        lemma_self_hits_fault(ar, a, eps, i, j, i2 - 1, spec_segs(a));
    }
}

/// All places where one tagged polyline crosses itself or passes within `eps`
/// of itself, in the order of their first parameter.
#[verifier::opaque]
pub open spec fn spec_poly_self_hits(ar: Arith, a: Seq<Tagged>, eps: Scalar) -> Result<
    Seq<Hit>,
    Fault,
> {
    match spec_self_hits(ar, a, eps, spec_segs(a), 0) {
        Err(e) => Err(e),
        Ok(raw) => spec_ordered_hits(raw),
    }
}

/// Self-intersections (crossings and near-misses) of one tagged polyline,
/// thinned so that no two are within `2 * eps`.
pub open spec fn spec_poly_self_intersections(ar: Arith, a: Seq<Tagged>, eps: Scalar) -> Result<
    Seq<Hit>,
    Fault,
> {
    match spec_poly_self_hits(ar, a, eps) {
        Err(e) => Err(e),
        Ok(hits) => Ok(spec_cluster(ar, hits, eps)),
    }
}

pub fn poly_self_intersections<F: Fn(Op, Scalar, Scalar) -> Scalar>(
    k: &Calc<F>,
    a: &Vec<Tagged>,
    eps: Scalar,
) -> (r: Result<Vec<Hit>, Fault>)
    requires
        k.wf(),
    ensures
        viewed(r) == spec_poly_self_intersections(k@, a@, eps),
{
    match poly_self_hits(k, a, eps) {
        Err(e) => Err(e),
        Ok(hits) => Ok(cluster(k, &hits, eps)),
    }
}

/// All places where one tagged polyline crosses itself or passes within `eps`
/// of itself, in the order of their first parameter.
pub fn poly_self_hits<F: Fn(Op, Scalar, Scalar) -> Scalar>(k: &Calc<F>, a: &Vec<Tagged>, eps: Scalar) -> (r:
    Result<Vec<Hit>, Fault>)
    requires
        k.wf(),
    ensures
        viewed(r) == spec_poly_self_hits(k@, a@, eps),
{
    proof {
        reveal(spec_poly_self_hits);
    }
    let mut raw: Vec<Hit> = Vec::new();
    let n: usize = segs(a);
    let mut i: usize = 0;
    while i < n
        invariant
            k.wf(),
            i <= n == spec_segs(a@),
            spec_self_hits(k@, a@, eps, i as int, 0) == Ok::<Seq<Hit>, Fault>(raw@),
        decreases n - i,
    {
        assert(spec_self_hits(k@, a@, eps, i as int, i + 2) == spec_self_hits(
            k@,
            a@,
            eps,
            i as int,
            0,
        ));
        assert(n <= i + 2 ==> spec_self_hits(k@, a@, eps, i as int, n as int) == spec_self_hits(
            k@,
            a@,
            eps,
            i as int,
            0,
        ));
        if n - i > 2 {
            let mut j: usize = i + 2;
            while j < n
                invariant
                    k.wf(),
                    i < n == spec_segs(a@),
                    i + 2 <= j <= n,
                    spec_self_hits(k@, a@, eps, i as int, j as int) == Ok::<Seq<Hit>, Fault>(raw@),
                decreases n - j,
            {
                let crossing = cut(k, a[i], a[i + 1], a[j], a[j + 1], eps).is_some();
                let least = if crossing {
                    Scalar { bits: E4 }
                } else {
                    Scalar { bits: TENTH }
                };
                match meet(k, a[i], a[i + 1], a[j], a[j + 1], eps) {
                    Err(e) => {
                        proof {
                            reveal(spec_poly_self_hits);
                            lemma_self_hits_fault(k@, a@, eps, i as int, j + 1, n as int, 0);
                        }
                        return Err(e);
                    },
                    Ok(None) => {},
                    Ok(Some(h)) => {
                        if least.lt(k.minus(h.u, h.t)) {
                            raw.push(h);
                        }
                    },
                }
                j = j + 1;
            }
        }
        i = i + 1;
    }
    ordered_hits(raw)
}

pub open spec fn spec_third_difference(ar: Arith, a: Scalar, b: Scalar, c: Scalar, d: Scalar) -> Scalar {
    plus(
        ar,
        minus(ar, plus(ar, a.spec_neg(), times(ar, num(THREE), b)), times(ar, num(THREE), c)),
        d,
    )
}

pub open spec fn spec_second_difference(ar: Arith, a: Scalar, b: Scalar, c: Scalar) -> Scalar {
    plus(
        ar,
        minus(ar, times(ar, num(THREE), a), times(ar, num(SIX), b)),
        times(ar, num(THREE), c),
    )
}

pub open spec fn spec_first_difference(ar: Arith, a: Scalar, b: Scalar) -> Scalar {
    plus(ar, times(ar, num(THREE).spec_neg(), a), times(ar, num(THREE), b))
}

/// Exact self-intersection of a cubic, if any, as a parameter pair in
/// ascending order. Solved in closed form: `B(t1) = B(t2)` with `t1 != t2`
/// reduces to a linear system in `s = t1 + t2` and `u = t1^2 + t1*t2 + t2^2`.
#[verifier::opaque]
pub open spec fn spec_self_intersection(ar: Arith, p: Cubic) -> Option<(Scalar, Scalar)> {
    let ax = spec_third_difference(ar, p.p0.x, p.p1.x, p.p2.x, p.p3.x);
    let ay = spec_third_difference(ar, p.p0.y, p.p1.y, p.p2.y, p.p3.y);
    let bx = spec_second_difference(ar, p.p0.x, p.p1.x, p.p2.x);
    let by = spec_second_difference(ar, p.p0.y, p.p1.y, p.p2.y);
    let cx = spec_first_difference(ar, p.p0.x, p.p1.x);
    let cy = spec_first_difference(ar, p.p0.y, p.p1.y);
    let det = minus(ar, times(ar, ax, by), times(ar, ay, bx));
    let u = over(ar, minus(ar, times(ar, bx, cy), times(ar, by, cx)), det);
    let s = over(ar, minus(ar, times(ar, ay, cx), times(ar, ax, cy)), det);
    let q = minus(ar, times(ar, s, s), u);
    let disc = minus(ar, times(ar, s, s), times(ar, num(FOUR), q));
    let r = root(ar, disc);
    let t1 = times(ar, minus(ar, s, r), num(HALF));
    let t2 = times(ar, plus(ar, s, r), num(HALF));
    if spec_vanishes(det) || disc.spec_le(num(ZERO)) {
        None
    } else if num(E6).spec_lt(t1) && t2.spec_lt(num(ONE_LESS_E6)) && num(E6).spec_lt(
        minus(ar, t2, t1),
    ) {
        Some((t1, t2))
    } else {
        None
    }
}

fn third_difference<F: Fn(Op, Scalar, Scalar) -> Scalar>(
    k: &Calc<F>,
    a: Scalar,
    b: Scalar,
    c: Scalar,
    d: Scalar,
) -> (r: Scalar)
    requires
        k.wf(),
    ensures
        r == spec_third_difference(k@, a, b, c, d),
{
    let three = Scalar { bits: THREE };
    k.plus(k.minus(k.plus(a.neg(), k.times(three, b)), k.times(three, c)), d)
}

fn second_difference<F: Fn(Op, Scalar, Scalar) -> Scalar>(
    k: &Calc<F>,
    a: Scalar,
    b: Scalar,
    c: Scalar,
) -> (r: Scalar)
    requires
        k.wf(),
    ensures
        r == spec_second_difference(k@, a, b, c),
{
    let three = Scalar { bits: THREE };
    k.plus(k.minus(k.times(three, a), k.times(Scalar { bits: SIX }, b)), k.times(three, c))
}

fn first_difference<F: Fn(Op, Scalar, Scalar) -> Scalar>(k: &Calc<F>, a: Scalar, b: Scalar) -> (r:
    Scalar)
    requires
        k.wf(),
    ensures
        r == spec_first_difference(k@, a, b),
{
    let three = Scalar { bits: THREE };
    k.plus(k.times(three.neg(), a), k.times(three, b))
}

pub fn self_intersection<F: Fn(Op, Scalar, Scalar) -> Scalar>(k: &Calc<F>, p: Cubic) -> (r: Option<
    (Scalar, Scalar),
>)
    requires
        k.wf(),
    ensures
        r == spec_self_intersection(k@, p),
{
    proof {
        reveal(spec_self_intersection);
    }
    let ax = third_difference(k, p.p0.x, p.p1.x, p.p2.x, p.p3.x);
    let ay = third_difference(k, p.p0.y, p.p1.y, p.p2.y, p.p3.y);
    let bx = second_difference(k, p.p0.x, p.p1.x, p.p2.x);
    let by = second_difference(k, p.p0.y, p.p1.y, p.p2.y);
    let cx = first_difference(k, p.p0.x, p.p1.x);
    let cy = first_difference(k, p.p0.y, p.p1.y);
    let det = k.minus(k.times(ax, by), k.times(ay, bx));
    if vanishes(det) {
        return None;
    }
    let u = k.over(k.minus(k.times(bx, cy), k.times(by, cx)), det);
    let s = k.over(k.minus(k.times(ay, cx), k.times(ax, cy)), det);
    let q = k.minus(k.times(s, s), u);
    let disc = k.minus(k.times(s, s), k.times(Scalar { bits: FOUR }, q));
    if disc.le(Scalar { bits: ZERO }) {
        return None;
    }
    let r = k.root(disc);
    let half = Scalar { bits: HALF };
    let t1 = k.times(k.minus(s, r), half);
    let t2 = k.times(k.plus(s, r), half);
    let e = Scalar { bits: E6 };
    if e.lt(t1) && t2.lt(Scalar { bits: ONE_LESS_E6 }) && e.lt(k.minus(t2, t1)) {
        Some((t1, t2))
    } else {
        None
    }
}

// ---- what the hits say ----

proof fn lemma_thinned_apart(ar: Arith, sorted: Seq<Hit>, reach: Scalar, n: int)
    requires
        0 <= n <= sorted.len(),
    ensures
        ({
            let kept = spec_thinned(ar, sorted, reach, n);
            &&& n > 0 ==> kept.len() > 0
            &&& forall|i: int, j: int|
                0 <= i < j < kept.len() ==> !spec_dist(
                    ar,
                    (#[trigger] kept[i]).p,
                    (#[trigger] kept[j]).p,
                ).spec_lt(reach)
        }),
    decreases n,
{
    if n > 0 {
        lemma_thinned_apart(ar, sorted, reach, n - 1);
        let before = spec_thinned(ar, sorted, reach, n - 1);
        let kept = spec_thinned(ar, sorted, reach, n);
        assert forall|i: int, j: int| 0 <= i < j < kept.len() implies !spec_dist(
            ar,
            (#[trigger] kept[i]).p,
            (#[trigger] kept[j]).p,
        ).spec_lt(reach) by {
            assert(kept[i] == before[i]);
        }
    }
}

/// Putting hits in order loses none and adds none. (Their places are told apart
/// by 64 bits.)
pub proof fn lemma_by_parameter(raw: Seq<Hit>)
    ensures
        spec_by_parameter(raw).len() == raw.len(),
        raw.len() <= u64::MAX ==> forall|h: Hit| #[trigger]
            raw.contains(h) <==> spec_by_parameter(raw).contains(h),
{
    let keys = spec_hit_keys(raw);
    let all = spec_by_parameter(raw);
    lemma_sorted(keys);
    if raw.len() <= u64::MAX {
        assert forall|h: Hit| #[trigger] raw.contains(h) <==> all.contains(h) by {
            if raw.contains(h) {
                let i = choose|i: int| 0 <= i < raw.len() && raw[i] == h;
                assert(keys.contains(keys[i]));
                assert(spec_sorted(keys).contains(keys[i]));
                let m = choose|m: int|
                    0 <= m < spec_sorted(keys).len() && spec_sorted(keys)[m] == keys[i];
                assert(all[m] == h);
            }
            if all.contains(h) {
                let m = choose|m: int| 0 <= m < all.len() && all[m] == h;
                assert(spec_sorted(keys).contains(spec_sorted(keys)[m]));
                assert(keys.contains(spec_sorted(keys)[m]));
                let i = choose|i: int| 0 <= i < keys.len() && keys[i] == spec_sorted(keys)[m];
                assert(raw[i] == h);
            }
        }
    }
}

/// No two hits of a pair of polylines lie within twice `eps`.
pub proof fn law_hits_are_apart(ar: Arith, a: Seq<Tagged>, b: Seq<Tagged>, eps: Scalar)
    ensures
        spec_poly_intersections(ar, a, b, eps) matches Ok(hits) ==> forall|i: int, j: int|
            0 <= i < j < hits.len() ==> !spec_dist(
                ar,
                (#[trigger] hits[i]).p,
                (#[trigger] hits[j]).p,
            ).spec_lt(times(ar, eps, num(TWO))),
{
    if let Ok(hits) = spec_poly_hits(ar, a, b, eps, false) {
        lemma_thinned_apart(ar, hits, times(ar, eps, num(TWO)), hits.len() as int);
    }
}

/// What two segments show is among `hits`.
pub open spec fn is_gathered(found: Result<Option<Hit>, Fault>, hits: Seq<Hit>) -> bool {
    match found {
        Err(_) => false,
        Ok(None) => true,
        Ok(Some(h)) => hits.contains(h),
    }
}

proof fn lemma_gathered_push(found: Result<Option<Hit>, Fault>, hits: Seq<Hit>, h: Hit)
    requires
        is_gathered(found, hits),
    ensures
        is_gathered(found, hits.push(h)),
{
    if let Ok(Some(x)) = found {
        let i = choose|i: int| 0 <= i < hits.len() && hits[i] == x;
        assert(hits.push(h)[i] == x);
    }
}

/// All that two segments show is among `hits`.
pub open spec fn all_gathered(found: Result<Seq<Hit>, Fault>, hits: Seq<Hit>) -> bool {
    match found {
        Err(_) => false,
        Ok(more) => forall|h: Hit| #[trigger] more.contains(h) ==> hits.contains(h),
    }
}

/// The hit is a meeting of some segment of `a` with some segment of `b`.
pub open spec fn is_meeting(
    ar: Arith,
    a: Seq<Tagged>,
    b: Seq<Tagged>,
    eps: Scalar,
    turned: bool,
    h: Hit,
) -> bool {
    exists|i: int, j: int|
        0 <= i < spec_segs(a) && 0 <= j < spec_segs(b) && (#[trigger] spec_pair_hits(
            ar,
            a,
            b,
            eps,
            turned,
            i,
            j,
        ) matches Ok(more) && more.contains(h))
}

/// The four ends and the crossing are five meetings at most.
proof fn lemma_few_meetings(
    ar: Arith,
    a: Seq<Tagged>,
    b: Seq<Tagged>,
    eps: Scalar,
    turned: bool,
    i: int,
    j: int,
)
    ensures
        spec_pair_hits(ar, a, b, eps, turned, i, j) matches Ok(more) ==> more.len() <= 5,
{
}

/// Raw hits are gathered, never lost, and nothing else is.
proof fn lemma_raw_hits(
    ar: Arith,
    a: Seq<Tagged>,
    b: Seq<Tagged>,
    eps: Scalar,
    turned: bool,
    i: int,
    j: int,
)
    requires
        0 <= i <= spec_segs(a),
        0 <= j <= spec_segs(b),
        i < spec_segs(a) || j == 0,
    ensures
        spec_raw_hits(ar, a, b, eps, turned, i, j) matches Ok(raw) ==> {
            &&& raw.len() <= 5 * (i * spec_segs(b) + j)
            &&& forall|x: int, y: int|
                #![trigger spec_pair_hits(ar, a, b, eps, turned, x, y)]
                0 <= x && 0 <= y < spec_segs(b) && (x < i || (x == i && y < j)) ==> all_gathered(
                    spec_pair_hits(ar, a, b, eps, turned, x, y),
                    raw,
                )
            &&& forall|h: Hit| #[trigger]
                raw.contains(h) ==> is_meeting(ar, a, b, eps, turned, h)
        },
    decreases i, j,
{
    if j > 0 {
        lemma_raw_hits(ar, a, b, eps, turned, i, j - 1);
        lemma_few_meetings(ar, a, b, eps, turned, i, j - 1);
        if let Ok(before) = spec_raw_hits(ar, a, b, eps, turned, i, j - 1) {
            if let Ok(more) = spec_pair_hits(ar, a, b, eps, turned, i, j - 1) {
                let raw = before + more;
                lemma_either(before, more);
                assert forall|x: int, y: int|
                    #![trigger spec_pair_hits(ar, a, b, eps, turned, x, y)]
                    0 <= x && 0 <= y < spec_segs(b) && (x < i || (x == i && y < j)) implies all_gathered(
                    spec_pair_hits(ar, a, b, eps, turned, x, y),
                    raw,
                ) by {
                    if x < i || y < j - 1 {
                        assert(all_gathered(spec_pair_hits(ar, a, b, eps, turned, x, y), before));
                    }
                }
                assert forall|h: Hit| #[trigger] raw.contains(h) implies is_meeting(
                    ar,
                    a,
                    b,
                    eps,
                    turned,
                    h,
                ) by {
                    assert(before.contains(h) || more.contains(h));
                }
            }
        }
    } else if i > 0 {
        lemma_raw_hits(ar, a, b, eps, turned, i - 1, spec_segs(b));
        assert((i - 1) * spec_segs(b) + spec_segs(b) == i * spec_segs(b)) by (nonlinear_arith);
    } else {
        assert(i * spec_segs(b) == 0) by (nonlinear_arith)
            requires
                i == 0,
        ;
    }
}

proof fn lemma_either(a: Seq<Hit>, b: Seq<Hit>)
    ensures
        forall|h: Hit| #[trigger] (a + b).contains(h) <==> a.contains(h) || b.contains(h),
{
    let all = a + b;
    assert forall|h: Hit| #[trigger] all.contains(h) <==> a.contains(h) || b.contains(h) by {
        if a.contains(h) {
            let i = choose|i: int| 0 <= i < a.len() && a[i] == h;
            assert(all[i] == h);
        }
        if b.contains(h) {
            let i = choose|i: int| 0 <= i < b.len() && b[i] == h;
            assert(all[a.len() + i] == h);
        }
        if all.contains(h) {
            let i = choose|i: int| 0 <= i < all.len() && all[i] == h;
            if i < a.len() {
                assert(a[i] == h);
            } else {
                assert(b[i - a.len()] == h);
            }
        }
    }
}

/// The hits of two polylines of the length that curves have are all the meetings
/// of their segments, and nothing else.
pub proof fn law_hits_are_meetings(
    ar: Arith,
    a: Seq<Tagged>,
    b: Seq<Tagged>,
    eps: Scalar,
    turned: bool,
)
    requires
        a.len() <= MAX_POINTS,
        b.len() <= MAX_POINTS,
    ensures
        spec_poly_hits(ar, a, b, eps, turned) matches Ok(hits) ==> {
            &&& forall|i: int, j: int|
                #![trigger spec_pair_hits(ar, a, b, eps, turned, i, j)]
                0 <= i < a.len() - 1 && 0 <= j < b.len() - 1 ==> all_gathered(
                    spec_pair_hits(ar, a, b, eps, turned, i, j),
                    hits,
                )
            &&& forall|h: Hit| #[trigger]
                hits.contains(h) ==> is_meeting(ar, a, b, eps, turned, h)
        },
{
    reveal(spec_poly_hits);
    lemma_raw_hits(ar, a, b, eps, turned, spec_segs(a), 0);
    if let Ok(raw) = spec_raw_hits(ar, a, b, eps, turned, spec_segs(a), 0) {
        lemma_raw_few(ar, a, b, eps, turned);
        lemma_by_parameter(raw);
        if let Ok(hits) = spec_poly_hits(ar, a, b, eps, turned) {
            assert forall|h: Hit| #[trigger] hits.contains(h) implies is_meeting(
                ar,
                a,
                b,
                eps,
                turned,
                h,
            ) by {
                assert(raw.contains(h));
            }
            assert forall|i: int, j: int|
                #![trigger spec_pair_hits(ar, a, b, eps, turned, i, j)]
                0 <= i < a.len() - 1 && 0 <= j < b.len() - 1 implies all_gathered(
                spec_pair_hits(ar, a, b, eps, turned, i, j),
                hits,
            ) by {
                assert(all_gathered(spec_pair_hits(ar, a, b, eps, turned, i, j), raw));
            }
        }
    }
}

pub(crate) proof fn lemma_raw_few(ar: Arith, a: Seq<Tagged>, b: Seq<Tagged>, eps: Scalar, turned: bool)
    requires
        a.len() <= MAX_POINTS,
        b.len() <= MAX_POINTS,
    ensures
        spec_raw_hits(ar, a, b, eps, turned, spec_segs(a), 0) matches Ok(raw) ==> raw.len()
            <= u64::MAX,
{
    lemma_raw_hits(ar, a, b, eps, turned, spec_segs(a), 0);
    let (m, n) = (spec_segs(a), spec_segs(b));
    assert(5 * (m * n) <= u64::MAX) by (nonlinear_arith)
        requires
            0 <= m <= 65537,
            0 <= n <= 65537,
    ;
}

/// Two polylines of the length that curves have, whose segments' meetings can be
/// told and have numbers for parameters, have hits.
pub proof fn law_meetings_make_hits(
    ar: Arith,
    a: Seq<Tagged>,
    b: Seq<Tagged>,
    eps: Scalar,
    turned: bool,
)
    ensures
        (forall|i: int, j: int|
            #![trigger spec_pair_hits(ar, a, b, eps, turned, i, j)]
            0 <= i < a.len() - 1 && 0 <= j < b.len() - 1 ==> spec_pair_hits(
                ar,
                a,
                b,
                eps,
                turned,
                i,
                j,
            ) is Ok) && (forall|h: Hit| #[trigger]
            is_meeting(ar, a, b, eps, turned, h) ==> !h.t.spec_is_nan()) ==> spec_poly_hits(
            ar,
            a,
            b,
            eps,
            turned,
        ) is Ok,
{
    reveal(spec_poly_hits);
    if (forall|i: int, j: int|
        #![trigger spec_pair_hits(ar, a, b, eps, turned, i, j)]
        0 <= i < a.len() - 1 && 0 <= j < b.len() - 1 ==> spec_pair_hits(
            ar,
            a,
            b,
            eps,
            turned,
            i,
            j,
        ) is Ok) && (forall|h: Hit| #[trigger]
        is_meeting(ar, a, b, eps, turned, h) ==> !h.t.spec_is_nan()) {
        lemma_raw_ok(ar, a, b, eps, turned, spec_segs(a), 0);
        lemma_raw_hits(ar, a, b, eps, turned, spec_segs(a), 0);
        let raw = spec_raw_hits(ar, a, b, eps, turned, spec_segs(a), 0)->Ok_0;
        assert forall|i: int| 0 <= i < raw.len() implies !(#[trigger] raw[i]).t.spec_is_nan() by {
            assert(raw.contains(raw[i]));
        }
    }
}

proof fn lemma_raw_ok(
    ar: Arith,
    a: Seq<Tagged>,
    b: Seq<Tagged>,
    eps: Scalar,
    turned: bool,
    i: int,
    j: int,
)
    requires
        0 <= i <= spec_segs(a),
        0 <= j <= spec_segs(b),
        i < spec_segs(a) || j == 0,
        forall|x: int, y: int|
            #![trigger spec_pair_hits(ar, a, b, eps, turned, x, y)]
            0 <= x < a.len() - 1 && 0 <= y < b.len() - 1 ==> spec_pair_hits(
                ar,
                a,
                b,
                eps,
                turned,
                x,
                y,
            ) is Ok,
    ensures
        spec_raw_hits(ar, a, b, eps, turned, i, j) is Ok,
    decreases i, j,
{
    if j > 0 {
        lemma_raw_ok(ar, a, b, eps, turned, i, j - 1);
        assert(spec_pair_hits(ar, a, b, eps, turned, i, j - 1) is Ok);
    } else if i > 0 {
        lemma_raw_ok(ar, a, b, eps, turned, i - 1, spec_segs(b));
    }
}

/// What two polylines show is the same from either: the meetings of the one with
/// the other are those of the other with the one.
pub proof fn law_meetings_symmetric(
    ar: Arith,
    a: Seq<Tagged>,
    b: Seq<Tagged>,
    eps: Scalar,
    turned: bool,
    i: int,
    j: int,
)
    ensures
        spec_pair_hits(ar, a, b, eps, turned, i, j) is Ok <==> spec_pair_hits(
            ar,
            b,
            a,
            eps,
            !turned,
            j,
            i,
        ) is Ok,
        spec_pair_hits(ar, a, b, eps, turned, i, j) matches Ok(x) ==> spec_pair_hits(
            ar,
            b,
            a,
            eps,
            !turned,
            j,
            i,
        ) matches Ok(y) && forall|h: Hit| #[trigger] x.contains(h) ==> y.contains(spec_swap(h)),
{
    let (a0, a1, b0, b1) = (a[i], a[i + 1], b[j], b[j + 1]);
    if let Ok(x) = spec_pair_hits(ar, a, b, eps, turned, i, j) {
        let y = spec_pair_hits(ar, b, a, eps, !turned, j, i)->Ok_0;
        let c = spec_crossing(ar, a0, a1, b0, b1, eps, turned);
        let d = spec_crossing(ar, b0, b1, a0, a1, eps, !turned);
        assert(d == spec_swapped(c));
        assert forall|h: Hit| #[trigger] x.contains(h) implies y.contains(spec_swap(h)) by {
            lemma_meetings(ar, a0, a1, b0, b1, eps, turned, h);
            lemma_meetings(ar, b0, b1, a0, a1, eps, !turned, spec_swap(h));
        }
    }
}

/// What the meetings of two segments are.
pub proof fn lemma_meetings(
    ar: Arith,
    a0: Tagged,
    a1: Tagged,
    b0: Tagged,
    b1: Tagged,
    eps: Scalar,
    turned: bool,
    h: Hit,
)
    ensures
        spec_meetings(ar, a0, a1, b0, b1, eps, turned) matches Ok(x) ==> (x.contains(h) <==> {
            ||| spec_crossing(ar, a0, a1, b0, b1, eps, turned) == Some(h)
            ||| spec_near_end(ar, a0, b0, b1, eps) == Some(h)
            ||| spec_near_end(ar, a1, b0, b1, eps) == Some(h)
            ||| spec_swapped(spec_near_end(ar, b0, a0, a1, eps)) == Some(h)
            ||| spec_swapped(spec_near_end(ar, b1, a0, a1, eps)) == Some(h)
        }),
{
    let c0 = spec_crossing(ar, a0, a1, b0, b1, eps, turned);
    let c1 = spec_near_end(ar, a0, b0, b1, eps);
    let c2 = spec_near_end(ar, a1, b0, b1, eps);
    let c3 = spec_swapped(spec_near_end(ar, b0, a0, a1, eps));
    let c4 = spec_swapped(spec_near_end(ar, b1, a0, a1, eps));
    let s0 = spec_with(Seq::empty(), c0);
    let s1 = spec_with(s0, c1);
    let s2 = spec_with(s1, c2);
    let s3 = spec_with(s2, c3);
    lemma_with(Seq::empty(), c0, h);
    lemma_with(s0, c1, h);
    lemma_with(s1, c2, h);
    lemma_with(s2, c3, h);
    lemma_with(s3, c4, h);
}

proof fn lemma_with(hits: Seq<Hit>, more: Option<Hit>, h: Hit)
    ensures
        spec_with(hits, more).contains(h) <==> hits.contains(h) || more == Some(h),
{
    if let Some(x) = more {
        let all = hits.push(x);
        if hits.contains(h) {
            let i = choose|i: int| 0 <= i < hits.len() && hits[i] == h;
            assert(all[i] == h);
        }
        assert(all[hits.len() as int] == x);
        if all.contains(h) {
            let i = choose|i: int| 0 <= i < all.len() && all[i] == h;
            if i < hits.len() {
                assert(hits[i] == h);
            }
        }
    }
}

proof fn lemma_self_hits(ar: Arith, a: Seq<Tagged>, eps: Scalar, i: int, j: int)
    requires
        0 <= i <= spec_segs(a),
        0 <= j <= spec_segs(a),
    ensures
        spec_self_hits(ar, a, eps, i, j) matches Ok(raw) ==> {
            &&& raw.len() <= i * spec_segs(a) + j
            &&& forall|x: int, y: int|
                #![trigger spec_self_pair_hit(ar, a, eps, x, y)]
                0 <= x && x + 2 <= y < spec_segs(a) && (x < i || (x == i && y < j))
                    ==> is_gathered(spec_self_pair_hit(ar, a, eps, x, y), raw)
        },
    decreases i, j,
{
    if j > i + 2 {
        lemma_self_hits(ar, a, eps, i, j - 1);
        if let Ok(before) = spec_self_hits(ar, a, eps, i, j - 1) {
            let next = spec_self_pair_hit(ar, a, eps, i, j - 1);
            if let Ok(Some(h)) = next {
                assert(before.push(h)[before.len() as int] == h);
                assert forall|x: int, y: int|
                    #![trigger spec_self_pair_hit(ar, a, eps, x, y)]
                    0 <= x && x + 2 <= y < spec_segs(a) && (x < i || (x == i && y < j)) implies is_gathered(
                    spec_self_pair_hit(ar, a, eps, x, y),
                    before.push(h),
                ) by {
                    if x < i || y < j - 1 {
                        lemma_gathered_push(spec_self_pair_hit(ar, a, eps, x, y), before, h);
                    }
                }
            }
        }
    } else if i > 0 {
        lemma_self_hits(ar, a, eps, i - 1, spec_segs(a));
        assert((i - 1) * spec_segs(a) + spec_segs(a) == i * spec_segs(a)) by (nonlinear_arith);
    } else {
        assert(i * spec_segs(a) == 0) by (nonlinear_arith)
            requires
                i == 0,
        ;
    }
}

/// Every pair of segments, not adjoining, in which a polyline of the length
/// that curves have meets itself is among its hits.
pub proof fn law_self_meetings_are_hits(ar: Arith, a: Seq<Tagged>, eps: Scalar)
    requires
        a.len() <= MAX_POINTS,
    ensures
        spec_poly_self_hits(ar, a, eps) matches Ok(hits) ==> forall|i: int, j: int|
            #![trigger spec_self_pair_hit(ar, a, eps, i, j)]
            0 <= i && i + 2 <= j < a.len() - 1 ==> is_gathered(
                spec_self_pair_hit(ar, a, eps, i, j),
                hits,
            ),
{
    reveal(spec_poly_self_hits);
    lemma_self_hits(ar, a, eps, spec_segs(a), 0);
    if let Ok(raw) = spec_self_hits(ar, a, eps, spec_segs(a), 0) {
        let n = spec_segs(a);
        assert(n * n <= u64::MAX) by (nonlinear_arith)
            requires
                0 <= n <= 65537,
        ;
        lemma_by_parameter(raw);
        if let Ok(hits) = spec_poly_self_hits(ar, a, eps) {
            assert forall|i: int, j: int|
                #![trigger spec_self_pair_hit(ar, a, eps, i, j)]
                0 <= i && i + 2 <= j < a.len() - 1 implies is_gathered(
                spec_self_pair_hit(ar, a, eps, i, j),
                hits,
            ) by {
                assert(is_gathered(spec_self_pair_hit(ar, a, eps, i, j), raw));
            }
        }
    }
}

} // verus!
