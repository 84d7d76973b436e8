//! Numbers and curves.

use uvec::geom::{
    dist, eval, flatten_cubic_tagged, poly_hits, poly_intersections, poly_self_intersections,
    polygon_len, seg_dist, seg_isect, seg_seg_dist, self_intersection, split, subsegment, Cubic,
    Tagged, MAX_POINTS,
};
use uvec::locate::{point_in_polyline, point_in_polylines, ray_hit, signed_area};
use uvec::order::sort_keys;
use uvec::{flatten_cubic, Calc, Fault, Op, Point, Scalar};

fn num(x: f64) -> Scalar {
    Scalar::from_bits(x.to_bits())
}

fn float(s: Scalar) -> f64 {
    f64::from_bits(s.to_bits())
}

fn machine(op: Op, a: Scalar, b: Scalar) -> Scalar {
    let (x, y) = (float(a), float(b));
    let r = match op {
        Op::Add => x + y,
        Op::Sub => x - y,
        Op::Mul => x * y,
        Op::Div => x / y,
        Op::Sqrt => x.sqrt(),
        Op::Atan2 => x.atan2(y),
    };
    num(if r.is_nan() { f64::NAN } else { r })
}

fn calc() -> Calc<impl Fn(Op, Scalar, Scalar) -> Scalar> {
    Calc::new(machine)
}

fn pt(x: f64, y: f64) -> Point {
    Point::new(num(x), num(y))
}

fn cubic(p: [Point; 4]) -> Cubic {
    Cubic::of(p)
}

fn apart(a: Point, b: Point) -> f64 {
    float(dist(&calc(), a, b))
}

fn at(p: Cubic, t: f64) -> Point {
    eval(&calc(), p, num(t))
}

fn flattened(p: [Point; 4]) -> Vec<Tagged> {
    flatten_cubic_tagged(&calc(), cubic(p), num(0.1))
}

// ---- numbers ----

const SPECIAL: [f64; 13] = [
    0.0,
    -0.0,
    1.0,
    -1.0,
    0.5,
    -2.5,
    1e-300,
    -1e-300,
    5e-324,
    f64::MAX,
    f64::INFINITY,
    f64::NEG_INFINITY,
    f64::NAN,
];

#[test]
fn scalars_compare_as_numbers() {
    for x in SPECIAL {
        assert_eq!(num(x).is_nan(), x.is_nan());
        assert_eq!(num(x).neg().to_bits(), (-x).to_bits());
        assert_eq!(num(x).abs().to_bits(), x.abs().to_bits());
        for y in SPECIAL {
            assert_eq!(num(x).lt(num(y)), x < y, "{x} < {y}");
            assert_eq!(num(x).le(num(y)), x <= y, "{x} <= {y}");
            assert_eq!(num(x).same(num(y)), x == y, "{x} == {y}");
            let (lo, hi) = (float(num(x).min(num(y))), float(num(x).max(num(y))));
            let (wlo, whi) = (x.min(y), x.max(y));
            assert!(lo == wlo || (lo.is_nan() && wlo.is_nan()), "min({x}, {y})");
            assert!(hi == whi || (hi.is_nan() && whi.is_nan()), "max({x}, {y})");
        }
        let (c, w) = (float(num(x).clamp(num(0.0), num(1.0))), x.clamp(0.0, 1.0));
        assert!(c == w || (c.is_nan() && w.is_nan()), "clamp({x})");
    }
}

#[test]
fn points_compute_coordinate_by_coordinate() {
    let k = calc();
    assert_eq!(pt(1.0, 2.0).plus(&k, pt(0.5, -4.0)), pt(1.5, -2.0));
    assert_eq!(pt(1.0, 2.0).minus(&k, pt(0.5, -4.0)), pt(0.5, 6.0));
    assert_eq!(pt(1.0, 2.0).times(&k, num(3.0)), pt(3.0, 6.0));
    assert!(pt(0.0, 1.0).same(pt(-0.0, 1.0)));
    assert!(!pt(f64::NAN, 1.0).same(pt(f64::NAN, 1.0)));
}

#[test]
fn keys_sort_by_rank_then_place() {
    let keys = vec![(3, 0), (-1, 7), (3, 1), (-1, 2), (0, 4)];
    assert_eq!(sort_keys(&keys), vec![(-1, 2), (-1, 7), (0, 4), (3, 0), (3, 1)]);
}

// ---- curves ----

#[test]
fn split_matches_eval() {
    let k = calc();
    let p = cubic([pt(0.0, 0.0), pt(10.0, 20.0), pt(30.0, -5.0), pt(40.0, 10.0)]);
    let (l, r) = split(&k, p, num(0.3));
    assert!(apart(l.p3, at(p, 0.3)) < 1e-12);
    assert!(apart(r.p0, at(p, 0.3)) < 1e-12);
    assert!(apart(at(l, 0.5), at(p, 0.15)) < 1e-9);
    let ss = subsegment(&k, p, num(0.2), num(0.7));
    assert!(apart(ss.p0, at(p, 0.2)) < 1e-9);
    assert!(apart(ss.p3, at(p, 0.7)) < 1e-9);
}

#[test]
fn flatten_deterministic_and_close() {
    let k = calc();
    let p = [pt(0.0, 0.0), pt(0.0, 50.0), pt(50.0, 50.0), pt(50.0, 0.0)];
    let f1 = flatten_cubic(&k, p, num(0.1));
    let f2 = flatten_cubic(&k, p, num(0.1));
    assert_eq!(f1, f2);
    assert_eq!(f1[0], p[0]);
    assert_eq!(*f1.last().unwrap(), p[3]);
    assert!(f1.len() > 4);
}

#[test]
fn line_cross_intersection() {
    // Two straight-line cubics crossing at (5, 5).
    let a = flattened([pt(0.0, 0.0), pt(3.0, 3.0), pt(7.0, 7.0), pt(10.0, 10.0)]);
    let b = flattened([pt(0.0, 10.0), pt(3.0, 7.0), pt(7.0, 3.0), pt(10.0, 0.0)]);
    let hits = poly_intersections(&calc(), &a, &b, num(0.01)).unwrap();
    assert_eq!(hits.len(), 1);
    assert!(apart(hits[0].p, pt(5.0, 5.0)) < 0.01);
}

#[test]
fn disjoint_no_intersection() {
    let a = flattened([pt(0.0, 0.0), pt(1.0, 0.0), pt(2.0, 0.0), pt(3.0, 0.0)]);
    let b = flattened([pt(0.0, 5.0), pt(1.0, 5.0), pt(2.0, 5.0), pt(3.0, 5.0)]);
    assert!(poly_intersections(&calc(), &a, &b, num(0.01)).unwrap().is_empty());
}

#[test]
fn near_miss_reported() {
    let a = flattened([pt(0.0, 0.0), pt(3.0, 0.0), pt(7.0, 0.0), pt(10.0, 0.0)]);
    let b = flattened([pt(0.0, 0.3), pt(3.0, 0.3), pt(7.0, 0.3), pt(10.0, 0.3)]);
    assert!(!poly_intersections(&calc(), &a, &b, num(0.5)).unwrap().is_empty());
    assert!(poly_intersections(&calc(), &a, &b, num(0.2)).unwrap().is_empty());
}

#[test]
fn self_intersection_loop() {
    let k = calc();
    let p = cubic([pt(0.0, 0.0), pt(20.0, 10.0), pt(-10.0, 10.0), pt(10.0, 0.0)]);
    let (t1, t2) = self_intersection(&k, p).expect("loop curve should self-intersect");
    assert!(float(t1) < float(t2));
    assert!(apart(eval(&k, p, t1), eval(&k, p, t2)) < 1e-9);
    // A plain arc does not.
    let arc = cubic([pt(0.0, 0.0), pt(10.0, 10.0), pt(20.0, 10.0), pt(30.0, 0.0)]);
    assert!(self_intersection(&k, arc).is_none());
}

#[test]
fn distances_are_exact_on_simple_figures() {
    let k = calc();
    assert_eq!(dist(&k, pt(0.0, 0.0), pt(3.0, 4.0)), num(5.0));
    assert_eq!(seg_dist(&k, pt(1.0, 2.0), pt(0.0, 0.0), pt(4.0, 0.0)), num(2.0));
    assert_eq!(seg_dist(&k, pt(7.0, 4.0), pt(0.0, 0.0), pt(4.0, 0.0)), num(5.0));
    // A segment of no length is its first end.
    assert_eq!(seg_dist(&k, pt(3.0, 4.0), pt(0.0, 0.0), pt(0.0, 0.0)), num(5.0));
    let p = cubic([pt(0.0, 0.0), pt(3.0, 4.0), pt(3.0, 5.0), pt(5.0, 5.0)]);
    assert_eq!(polygon_len(&k, p), num(8.0));
    assert_eq!(at(p, 0.0), pt(0.0, 0.0));
    assert_eq!(at(p, 0.5), pt(2.875, 4.0));
}

#[test]
fn flattening_a_line_keeps_its_ends_only() {
    let poly = flattened([pt(0.0, 0.0), pt(1.0, 0.0), pt(2.0, 0.0), pt(3.0, 0.0)]);
    assert_eq!(poly, vec![(num(0.0), pt(0.0, 0.0)), (num(1.0), pt(3.0, 0.0))]);
}

#[test]
fn hits_keep_their_distance_and_order() {
    // A zigzag across a line: one hit per crossing, by ascending parameter.
    let zig: Vec<Tagged> = (0..6)
        .map(|i| (num(i as f64 / 5.0), pt(i as f64 * 2.0, if i % 2 == 0 { -1.0 } else { 1.0 })))
        .collect();
    let line = vec![(num(0.0), pt(-1.0, 0.0)), (num(1.0), pt(11.0, 0.0))];
    let hits = poly_intersections(&calc(), &line, &zig, num(0.01)).unwrap();
    let xs: Vec<f64> = hits.iter().map(|h| float(h.p.x)).collect();
    assert_eq!(xs.len(), 5);
    for (i, x) in xs.iter().enumerate() {
        assert!((x - (i as f64 * 2.0 + 1.0)).abs() < 1e-9);
    }
    // With a coarse eps the neighbours are crowded out.
    let few = poly_intersections(&calc(), &line, &zig, num(1.5)).unwrap();
    for (i, a) in few.iter().enumerate() {
        for b in &few[i + 1..] {
            assert!(apart(a.p, b.p) >= 3.0);
        }
    }
}

#[test]
fn self_hits_of_a_polyline() {
    let k = calc();
    let eight = vec![
        (num(0.0), pt(0.0, 0.0)),
        (num(0.25), pt(4.0, 4.0)),
        (num(0.75), pt(4.0, 0.0)),
        (num(1.0), pt(0.0, 4.0)),
    ];
    let hits = poly_self_intersections(&k, &eight, num(0.01)).unwrap();
    assert_eq!(hits.len(), 1);
    assert_eq!(hits[0].p, pt(2.0, 2.0));
    assert_eq!(hits[0].t, num(0.125));
    assert_eq!(hits[0].u, num(0.875));
}

#[test]
fn hits_without_a_number_are_a_fault() {
    let bad = vec![(num(0.0), pt(0.0, 0.0)), (num(1.0), pt(f64::NAN, 1.0))];
    let line = vec![(num(0.0), pt(-1.0, 0.0)), (num(1.0), pt(11.0, 0.0))];
    assert_eq!(poly_intersections(&calc(), &bad, &line, num(0.1)), Err(Fault::NotANumber));
}

// ---- point location ----

fn unit_square() -> Vec<Point> {
    vec![pt(0.0, 0.0), pt(1.0, 0.0), pt(1.0, 1.0), pt(0.0, 1.0)]
}

#[test]
fn rays_use_the_half_open_rule() {
    let k = calc();
    let p = pt(0.0, 0.0);
    assert_eq!(ray_hit(&k, p, pt(2.0, -1.0), pt(2.0, 1.0)), Some((num(2.0), true)));
    assert_eq!(ray_hit(&k, p, pt(2.0, 1.0), pt(2.0, -1.0)), Some((num(2.0), false)));
    // An end on the line counts once: as the upper end of neither.
    assert_eq!(ray_hit(&k, p, pt(2.0, 0.0), pt(2.0, 1.0)), Some((num(2.0), true)));
    assert_eq!(ray_hit(&k, p, pt(2.0, -1.0), pt(2.0, 0.0)), None);
    // Left of the point, and along the ray.
    assert_eq!(ray_hit(&k, p, pt(-2.0, -1.0), pt(-2.0, 1.0)), None);
    assert_eq!(ray_hit(&k, p, pt(1.0, 0.0), pt(2.0, 0.0)), None);
}

#[test]
fn points_are_inside_by_the_even_odd_rule() {
    let k = calc();
    let outer: Vec<Point> =
        unit_square().into_iter().map(|p| p.times(&k, num(4.0))).collect();
    let hole: Vec<Point> =
        unit_square().into_iter().map(|p| p.plus(&k, pt(1.0, 1.0))).collect();
    assert!(point_in_polyline(&k, pt(1.5, 1.5), &outer));
    assert!(!point_in_polyline(&k, pt(5.0, 1.5), &outer));
    assert!(!point_in_polyline(&k, pt(1.0, 1.0), &Vec::new()));
    let both = vec![outer, hole];
    assert!(!point_in_polylines(&k, pt(1.5, 1.5), &both));
    assert!(point_in_polylines(&k, pt(3.0, 3.0), &both));
}

#[test]
fn areas_have_a_sign() {
    let k = calc();
    assert_eq!(signed_area(&k, &unit_square()), num(1.0));
    let back: Vec<Point> = unit_square().into_iter().rev().collect();
    assert_eq!(signed_area(&k, &back), num(-1.0));
    assert_eq!(signed_area(&k, &Vec::new()), num(0.0));
}

#[test]
fn segments_cross_at_any_scale() {
    let k = calc();
    for unit in [1e-9, 5e-8, 1.0, 1e7] {
        let hit = seg_isect(&k, pt(-unit, 0.0), pt(unit, 0.0), pt(0.0, -unit), pt(0.0, unit));
        assert_eq!(hit, Some((num(0.5), num(0.5))), "{unit}");
        let level = seg_isect(&k, pt(-unit, 0.0), pt(unit, 0.0), pt(-unit, unit), pt(unit, unit));
        assert_eq!(level, None, "{unit}");
        let same = seg_isect(&k, pt(-unit, 0.0), pt(unit, 0.0), pt(0.0, 0.0), pt(unit, 0.0));
        assert_eq!(same, None, "{unit}");
    }
    assert_eq!(seg_isect(&k, pt(1.0, 1.0), pt(1.0, 1.0), pt(0.0, 1.0), pt(2.0, 1.0)), None);
    let across = vec![(num(0.0), pt(-5e-8, 0.0)), (num(1.0), pt(5e-8, 0.0))];
    let upward = vec![(num(0.0), pt(0.0, -5e-8)), (num(1.0), pt(0.0, 5e-8))];
    let hits = poly_intersections(&k, &across, &upward, num(1e-9)).unwrap();
    assert_eq!(hits.len(), 1);
    assert_eq!((float(hits[0].t), float(hits[0].u)), (0.5, 0.5));
}

#[test]
fn crossing_segments_are_no_distance_apart() {
    let k = calc();
    let (d, s, t) =
        seg_seg_dist(&k, pt(0.0, 0.0), pt(4.0, 0.0), pt(1.0, -1.0), pt(1.0, 3.0)).unwrap();
    assert_eq!((float(d), float(s), float(t)), (0.0, 0.25, 0.25));
    let (d, s, t) =
        seg_seg_dist(&k, pt(0.0, 0.0), pt(4.0, 0.0), pt(1.0, 2.0), pt(1.0, 3.0)).unwrap();
    assert_eq!((float(d), float(s), float(t)), (2.0, 0.25, 0.0));
}

#[test]
fn rays_see_what_is_just_right_of_their_origin() {
    let k = calc();
    let hit = ray_hit(&k, pt(0.0, 0.0), pt(5e-10, -1.0), pt(5e-10, 1.0));
    assert_eq!(hit, Some((num(5e-10), true)));
    assert_eq!(ray_hit(&k, pt(0.0, 0.0), pt(0.0, -1.0), pt(0.0, 1.0)), None);
    assert_eq!(ray_hit(&k, pt(0.0, 0.0), pt(5e-10, 1.0), pt(5e-10, -1.0)), Some((num(5e-10), false)));
}

#[test]
fn flattened_curves_have_a_limit() {
    let p = [pt(0.0, 0.0), pt(0.0, 60.0), pt(60.0, 60.0), pt(60.0, 0.0)];
    // A negative tolerance is never met, so each piece is halved to the end.
    let most = flatten_cubic(&calc(), p, num(-1.0));
    assert_eq!(most.len(), MAX_POINTS);
    assert_eq!((most[0], most[MAX_POINTS - 1]), (p[0], p[3]));
    let tagged = flatten_cubic_tagged(&calc(), cubic(p), num(-1.0));
    assert!(tagged.windows(2).all(|w| float(w[0].0) < float(w[1].0)));
}

#[test]
fn thinning_keeps_one_of_a_cluster() {
    let k = calc();
    let base = vec![(num(0.0), pt(0.0, 0.0)), (num(1.0), pt(10.0, 0.0))];
    let zig = vec![
        (num(0.0), pt(0.0, -1.0)),
        (num(0.4), pt(0.5, 1.0)),
        (num(0.6), pt(1.0, -1.0)),
        (num(1.0), pt(9.0, 1.0)),
    ];
    let all = poly_hits(&k, &base, &zig, num(0.01), false).unwrap();
    let at: Vec<f64> = all.iter().map(|h| float(h.t) * 10.0).collect();
    assert_eq!(at, vec![0.25, 0.75, 5.0]);
    let few = poly_intersections(&k, &base, &zig, num(0.5)).unwrap();
    assert!(few.len() < all.len());
    for (i, x) in few.iter().enumerate() {
        assert!(few[..i].iter().all(|y| apart(x.p, y.p) >= 1.0 && float(y.t) <= float(x.t)));
    }
}

#[test]
fn a_loop_is_found_at_any_scale() {
    for unit in [1e-9, 1e-7, 1.0, 1e6] {
        let p = cubic([
            pt(0.0, 0.0),
            pt(150.0 * unit, 100.0 * unit),
            pt(-50.0 * unit, 100.0 * unit),
            pt(100.0 * unit, 0.0),
        ]);
        let (t1, t2) = self_intersection(&calc(), p).expect("a double point");
        assert!(float(t1) < float(t2));
        assert!(apart(eval(&calc(), p, t1), eval(&calc(), p, t2)) < 1e-9 * unit);
        let arch = cubic([
            pt(0.0, 0.0),
            pt(0.0, 100.0 * unit),
            pt(100.0 * unit, 100.0 * unit),
            pt(100.0 * unit, 0.0),
        ]);
        assert_eq!(self_intersection(&calc(), arch), None);
        let third = unit / 3.0;
        let stroke = cubic([pt(0.0, 0.0), pt(third, third), pt(2.0 * third, 2.0 * third), pt(unit, unit)]);
        assert_eq!(self_intersection(&calc(), stroke), None);
    }
}

#[test]
fn distances_hold_at_any_scale() {
    let k = calc();
    for unit in [1e-13, 1e-7, 1.0, 1e6] {
        let d = seg_dist(&k, pt(unit, 0.5 * unit), pt(0.0, 0.0), pt(2.0 * unit, 0.0));
        assert!((float(d) - 0.5 * unit).abs() <= 1e-15 * unit, "{unit}");
    }
    assert_eq!(seg_dist(&k, pt(3.0, 4.0), pt(0.0, 0.0), pt(0.0, 0.0)), num(5.0));
}

#[test]
fn a_long_shallow_crossing_is_found() {
    let k = calc();
    let far = 17592186044416.0;
    let (a0, a1) = (pt(0.0, 0.0), pt(far, 0.0));
    let (b0, b1) = (pt(0.0, -0.5), pt(far, 0.5));
    assert_eq!(seg_isect(&k, a0, a1, b0, b1), Some((num(0.5), num(0.5))));
    let tagged = |p: Point, q: Point| vec![(num(0.0), p), (num(1.0), q)];
    let hits = poly_intersections(&k, &tagged(a0, a1), &tagged(b0, b1), num(0.1)).unwrap();
    assert_eq!(hits.len(), 1);
    assert_eq!((hits[0].t, hits[0].u, hits[0].p), (num(0.5), num(0.5), pt(far / 2.0, 0.0)));
    // Segments of one line cross nowhere.
    assert_eq!(seg_isect(&k, a0, a1, pt(3.0, 0.0), pt(9.0, 0.0)), None);
}

#[test]
fn overlapping_segments_meet_at_each_end() {
    let k = calc();
    let tagged = |p: Point, q: Point| vec![(num(0.0), p), (num(1.0), q)];
    let long = tagged(pt(0.0, 0.0), pt(8.0, 0.0));
    let short = tagged(pt(0.0, 0.0), pt(4.0, 0.0));
    let hits = poly_intersections(&k, &long, &short, num(0.25)).unwrap();
    let found: Vec<(f64, f64)> = hits.iter().map(|h| (float(h.t), float(h.u))).collect();
    assert_eq!(found, vec![(0.0, 0.0), (0.5, 1.0)]);
    assert_eq!(hits[1].p, pt(4.0, 0.0));
}

#[test]
fn a_flat_loop_has_a_double_point() {
    let (l, h) = (1.0e6, 1.0e-6);
    let p = cubic([pt(0.0, 0.0), pt(20.0 * l, 10.0 * h), pt(-10.0 * l, 10.0 * h), pt(10.0 * l, 0.0)]);
    let (t, u) = self_intersection(&calc(), p).unwrap();
    assert!(float(t) < float(u));
    let (x, y) = (at(p, float(t)), at(p, float(u)));
    assert!((float(x.x) - float(y.x)).abs() < 1e-9 * l);
    assert!((float(x.y) - float(y.y)).abs() < 1e-9 * h);
}

#[test]
fn parameters_are_exact_fractions() {
    let p = [pt(0.0, 0.0), pt(40.0, 90.0), pt(70.0, -80.0), pt(100.0, 10.0)];
    let tagged = flattened(p);
    assert!(tagged.len() > 4);
    for (t, q) in &tagged {
        let step = float(*t) * 65536.0;
        assert_eq!(step, step.floor());
        assert!(apart(*q, at(cubic(p), float(*t))) < 1e-9);
    }
    // Halved all the way, every step occurs once.
    let all = flatten_cubic_tagged(&calc(), cubic(p), num(-1.0));
    assert_eq!(all.len(), MAX_POINTS);
    assert!(all.iter().enumerate().all(|(i, (t, _))| float(*t) == i as f64 / 65536.0));
}

#[test]
fn crossings_are_found_beyond_the_resolution_of_eps() {
    let k = calc();
    let tagged = |p: Point, q: Point| vec![(num(0.0), p), (num(1.0), q)];
    // So far out the spacing of the numbers is wider than eps.
    let o = 3.0e16;
    let a = tagged(pt(o, o), pt(o + 7.0e8, o + 5.0e8));
    let b = tagged(pt(o + 1.0e8, o + 4.0e8), pt(o + 6.0e8, o - 1.0e8));
    let hits = poly_intersections(&k, &a, &b, num(0.1)).unwrap();
    assert_eq!(hits.len(), 1);
    assert!((float(hits[0].t) - 5.0 / 12.0).abs() < 1e-6);
}
