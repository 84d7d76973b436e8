//! Whole scenes: edits, faces, fills, queries and sub-arrangements, with the
//! numbers of the machine. A raster canvas is the independent baseline.

use std::collections::HashSet;

use rand::{rngs::StdRng, Rng, SeedableRng};
use uvec::{
    BadId, Calc, Curve, CurveId, Fault, FillData, FillError, FillId, HalfEdge, Op, Scalar, VertexId,
};

// ---- the machine's numbers ----

fn num(x: f64) -> Scalar {
    Scalar::from_bits(x.to_bits())
}

fn float(s: Scalar) -> f64 {
    f64::from_bits(s.to_bits())
}

fn machine(op: Op, a: Scalar, b: Scalar) -> Scalar {
    let (x, y) = (float(a), float(b));
    let r = match op {
        Op::Add => x + y,
        Op::Sub => x - y,
        Op::Mul => x * y,
        Op::Div => x / y,
        Op::Sqrt => x.sqrt(),
        Op::Atan2 => x.atan2(y),
    };
    num(if r.is_nan() { f64::NAN } else { r })
}

fn calc() -> Calc<impl Fn(Op, Scalar, Scalar) -> Scalar> {
    Calc::new(machine)
}

#[derive(Clone, Copy, Debug, PartialEq)]
struct Point {
    x: f64,
    y: f64,
}

impl Point {
    fn new(x: f64, y: f64) -> Self {
        Point { x, y }
    }
}

fn into(p: Point) -> uvec::Point {
    uvec::Point::new(num(p.x), num(p.y))
}

fn from(p: uvec::Point) -> Point {
    Point::new(float(p.x), float(p.y))
}

fn into4(p: [Point; 4]) -> [uvec::Point; 4] {
    [into(p[0]), into(p[1]), into(p[2]), into(p[3])]
}

fn from_all(poly: Vec<uvec::Point>) -> Vec<Point> {
    poly.into_iter().map(from).collect()
}

#[derive(Clone, Copy, Debug, PartialEq)]
struct CurveHit {
    curve: CurveId,
    t: f64,
    point: Point,
    dist: f64,
}

/// A scene over the machine's numbers.
struct Scene(uvec::Scene);

impl Scene {
    fn new() -> Self {
        Scene(uvec::Scene::new())
    }
    fn set_snap_distance(&mut self, d: f64) {
        self.0.set_snap_distance(num(d))
    }
    fn set_flatten_tolerance(&mut self, tol: f64) {
        self.0.set_flatten_tolerance(num(tol))
    }
    fn add_curve(&mut self, pts: [Point; 4]) -> Vec<CurveId> {
        self.0.add_curve(&calc(), into4(pts)).unwrap()
    }
    fn add_curve_tagged(&mut self, pts: [Point; 4], tag: u64) -> Vec<CurveId> {
        self.0.add_curve_tagged(&calc(), into4(pts), tag).unwrap()
    }
    fn delete_curve(&mut self, id: CurveId) -> Result<(), BadId> {
        self.0.delete_curve(&calc(), id).unwrap()
    }
    fn replace_curve(&mut self, id: CurveId, pts: [Point; 4]) -> Result<Vec<CurveId>, BadId> {
        self.0.replace_curve(&calc(), id, into4(pts)).unwrap()
    }
    fn move_vertex(&mut self, id: VertexId, to: Point) -> Result<(), BadId> {
        self.0.move_vertex(&calc(), id, into(to)).unwrap()
    }
    fn set_vertex_position(&mut self, id: VertexId, to: Point) -> Result<(), BadId> {
        self.0.set_vertex_position(id, into(to))
    }
    fn commit(&mut self) {
        self.0.commit(&calc()).unwrap()
    }
    fn curve_ids(&self) -> std::vec::IntoIter<CurveId> {
        self.0.curve_ids().into_iter()
    }
    fn vertex_ids(&self) -> std::vec::IntoIter<VertexId> {
        self.0.vertex_ids().into_iter()
    }
    fn fill_ids(&self) -> std::vec::IntoIter<FillId> {
        self.0.fill_ids().into_iter()
    }
    fn curve(&self, id: CurveId) -> Curve {
        self.0.curve(id)
    }
    fn curve_tag(&self, id: CurveId) -> u64 {
        self.0.curve_tag(id)
    }
    fn curve_points(&self, id: CurveId) -> [Point; 4] {
        let p = self.0.curve_points(id);
        [from(p[0]), from(p[1]), from(p[2]), from(p[3])]
    }
    fn curve_polyline(&self, id: CurveId) -> Vec<Point> {
        from_all(self.0.curve_polyline(&calc(), id))
    }
    fn vertex_pos(&self, id: VertexId) -> Point {
        from(self.0.vertex_pos(id))
    }
    fn add_fill(&mut self, p: Point, payload: u64) -> Result<FillId, FillError> {
        self.0.add_fill(&calc(), into(p), payload).unwrap()
    }
    fn delete_fill(&mut self, id: FillId) -> Result<(), BadId> {
        self.0.delete_fill(id)
    }
    fn fill_payload(&self, id: FillId) -> u64 {
        self.0.fill_payload(id)
    }
    fn fill_boundary_curves(&self, id: FillId) -> Vec<CurveId> {
        self.0.fill_boundary_curves(id)
    }
    fn fill_loops_flattened(&self, id: FillId) -> Vec<Vec<Point>> {
        self.0.fill_loops_flattened(&calc(), id).into_iter().map(from_all).collect()
    }
    fn fill_at(&self, p: Point) -> Option<FillId> {
        self.0.fill_at(&calc(), into(p))
    }
    fn face_at(&self, p: Point) -> Option<Vec<Vec<Point>>> {
        let face = self.0.face_at(&calc(), into(p)).unwrap();
        face.map(|polys| polys.into_iter().map(from_all).collect())
    }
    fn trace_face(&self, p: Point) -> Result<Vec<Vec<HalfEdge>>, FillError> {
        self.0.trace_face(&calc(), into(p)).unwrap()
    }
    fn nearest_vertex(&self, p: Point) -> Option<(VertexId, f64)> {
        self.0.nearest_vertex(&calc(), into(p)).unwrap().map(|(v, d)| (v, float(d)))
    }
    fn nearest_curve(&self, p: Point) -> Option<CurveHit> {
        self.0.nearest_curve(&calc(), into(p)).map(|h| CurveHit {
            curve: h.curve,
            t: float(h.t),
            point: from(h.point),
            dist: float(h.dist),
        })
    }
    fn extract(
        &mut self,
        curves: &HashSet<CurveId>,
        fills: &HashSet<FillId>,
    ) -> (Scene, Vec<(CurveId, CurveId)>, Vec<(FillId, FillId)>) {
        let cs: Vec<CurveId> = curves.iter().copied().collect();
        let fs: Vec<FillId> = fills.iter().copied().collect();
        let (scene, cmap, fmap) = self.0.extract(&calc(), &cs, &fs).unwrap();
        (Scene(scene), cmap, fmap)
    }
    fn merge(
        &mut self,
        other: &Scene,
        offset: Point,
    ) -> (Vec<(CurveId, CurveId)>, Vec<(FillId, FillId)>) {
        self.0.merge(&calc(), &other.0, into(offset)).unwrap()
    }
}

fn pt(x: f64, y: f64) -> Point {
    Point::new(x, y)
}

fn line(a: Point, b: Point) -> [Point; 4] {
    let m1 = Point::new(a.x + (b.x - a.x) / 3.0, a.y + (b.y - a.y) / 3.0);
    let m2 = Point::new(a.x + (b.x - a.x) * 2.0 / 3.0, a.y + (b.y - a.y) * 2.0 / 3.0);
    [a, m1, m2, b]
}

fn square(s: &mut Scene, x0: f64, y0: f64, x1: f64, y1: f64) {
    s.add_curve(line(pt(x0, y0), pt(x1, y0)));
    s.add_curve(line(pt(x1, y0), pt(x1, y1)));
    s.add_curve(line(pt(x1, y1), pt(x0, y1)));
    s.add_curve(line(pt(x0, y1), pt(x0, y0)));
}

// ---- a raster canvas ----

const WHITE: u32 = 0xFFFF_FFFF;
const BLACK: u32 = 0xFF00_0000;
const RED: u32 = 0xFFFF_0000;

struct Canvas {
    w: usize,
    h: usize,
    px: Vec<u32>,
}

impl Canvas {
    fn new(w: usize, h: usize, color: u32) -> Self {
        Canvas { w, h, px: vec![color; w * h] }
    }

    fn get(&self, x: i64, y: i64) -> Option<u32> {
        if x < 0 || y < 0 || x >= self.w as i64 || y >= self.h as i64 {
            None
        } else {
            Some(self.px[y as usize * self.w + x as usize])
        }
    }

    fn set(&mut self, x: i64, y: i64, c: u32) {
        if x >= 0 && y >= 0 && x < self.w as i64 && y < self.h as i64 {
            self.px[y as usize * self.w + x as usize] = c;
        }
    }
}

/// Visit every pixel the segment a->b passes through (grid traversal DDA).
fn supercover(a: Point, b: Point, mut plot: impl FnMut(i64, i64)) {
    let (mut x, mut y) = (a.x.floor() as i64, a.y.floor() as i64);
    let (xe, ye) = (b.x.floor() as i64, b.y.floor() as i64);
    plot(x, y);
    let (dx, dy) = (b.x - a.x, b.y - a.y);
    let sx: i64 = if dx > 0.0 { 1 } else { -1 };
    let sy: i64 = if dy > 0.0 { 1 } else { -1 };
    let mut tmx = if dx != 0.0 {
        let next = if dx > 0.0 { (x + 1) as f64 } else { x as f64 };
        (next - a.x) / dx
    } else {
        f64::INFINITY
    };
    let mut tmy = if dy != 0.0 {
        let next = if dy > 0.0 { (y + 1) as f64 } else { y as f64 };
        (next - a.y) / dy
    } else {
        f64::INFINITY
    };
    let tdx = if dx != 0.0 { 1.0 / dx.abs() } else { f64::INFINITY };
    let tdy = if dy != 0.0 { 1.0 / dy.abs() } else { f64::INFINITY };
    let limit = (xe - x).abs() + (ye - y).abs() + 4;
    let mut steps = 0;
    while (x != xe || y != ye) && steps < limit {
        if tmx < tmy {
            x += sx;
            tmx += tdx;
        } else {
            y += sy;
            tmy += tdy;
        }
        plot(x, y);
        steps += 1;
    }
}

fn stroke_polyline(canvas: &mut Canvas, poly: &[Point], color: u32) {
    for seg in poly.windows(2) {
        supercover(seg[0], seg[1], |x, y| canvas.set(x, y, color));
    }
}

/// 4-connected flood fill of `from`-colored pixels starting at (sx, sy).
/// Returns true if the filled region touches the canvas border.
fn flood_fill(canvas: &mut Canvas, sx: i64, sy: i64, from: u32, to: u32) -> bool {
    if canvas.get(sx, sy) != Some(from) {
        return false;
    }
    let mut touched = false;
    let mut stack = vec![(sx, sy)];
    canvas.set(sx, sy, to);
    while let Some((x, y)) = stack.pop() {
        if x == 0 || y == 0 || x == canvas.w as i64 - 1 || y == canvas.h as i64 - 1 {
            touched = true;
        }
        for (nx, ny) in [(x - 1, y), (x + 1, y), (x, y - 1), (x, y + 1)] {
            if canvas.get(nx, ny) == Some(from) {
                canvas.set(nx, ny, to);
                stack.push((nx, ny));
            }
        }
    }
    touched
}

/// Even-odd scanline fill of closed polylines (sampled at pixel centers).
fn scanline_fill(canvas: &mut Canvas, polys: &[Vec<Point>], color: u32) {
    let (mut ymin, mut ymax) = (f64::INFINITY, f64::NEG_INFINITY);
    for poly in polys {
        for p in poly {
            ymin = ymin.min(p.y);
            ymax = ymax.max(p.y);
        }
    }
    let y0 = (ymin.floor().max(0.0)) as i64;
    let y1 = (ymax.ceil().min(canvas.h as f64)) as i64;
    let mut xs: Vec<f64> = Vec::new();
    for y in y0..y1 {
        let yc = y as f64 + 0.5;
        xs.clear();
        for poly in polys {
            let n = poly.len();
            for i in 0..n {
                let (a, b) = (poly[i], poly[(i + 1) % n]);
                let down = a.y <= yc && yc < b.y;
                let up = b.y <= yc && yc < a.y;
                if down || up {
                    xs.push(a.x + (yc - a.y) / (b.y - a.y) * (b.x - a.x));
                }
            }
        }
        xs.sort_by(|a, b| a.partial_cmp(b).unwrap());
        let mut k = 0;
        while k + 1 < xs.len() {
            let (x0, x1) = (xs[k], xs[k + 1]);
            let mut px = (x0 - 0.5).ceil() as i64;
            while (px as f64) + 0.5 < x1 {
                canvas.set(px, y, color);
                px += 1;
            }
            k += 2;
        }
    }
}

// ---- the rules pipeline ----

fn lmid(a: Point, b: Point) -> Point {
    Point::new((a.x + b.x) * 0.5, (a.y + b.y) * 0.5)
}

fn halves(a: Point, b: Point) -> [Point; 4] {
    [a, lmid(a, lmid(a, b)), lmid(lmid(a, b), b), b]
}

fn snappy() -> Scene {
    let mut s = Scene::new();
    s.set_snap_distance(2.0);
    s
}

#[test]
fn x_crossing_splits_both() {
    let mut s = snappy();
    let a = s.add_curve(halves(pt(0.0, 0.0), pt(100.0, 100.0)));
    assert_eq!(a.len(), 1);
    let b = s.add_curve(halves(pt(0.0, 100.0), pt(100.0, 0.0)));
    assert_eq!(b.len(), 2, "new curve should split into two pieces");
    assert_eq!(s.curve_ids().count(), 4);
    assert_eq!(s.vertex_ids().count(), 5);
}

#[test]
fn self_loop_splits_into_three() {
    let mut s = snappy();
    let pieces = s.add_curve([pt(0.0, 0.0), pt(150.0, 100.0), pt(-50.0, 100.0), pt(100.0, 0.0)]);
    assert_eq!(pieces.len(), 3);
    assert_eq!(s.curve_ids().count(), 3);
    // One of the pieces is a closed loop.
    assert_eq!(
        s.curve_ids().filter(|&c| s.curve(c).v0 == s.curve(c).v1).count(),
        1
    );
}

#[test]
fn shared_endpoint_snaps() {
    let mut s = snappy();
    s.add_curve(halves(pt(0.0, 0.0), pt(50.0, 0.0)));
    s.add_curve(halves(pt(50.5, 0.5), pt(100.0, 50.0)));
    assert_eq!(s.curve_ids().count(), 2);
    assert_eq!(s.vertex_ids().count(), 3, "close endpoints should merge");
}

#[test]
fn t_junction_splits_crossed_curve() {
    let mut s = snappy();
    s.add_curve(halves(pt(0.0, 0.0), pt(100.0, 0.0)));
    // Endpoint lands exactly on the middle of the first curve.
    s.add_curve(halves(pt(50.0, 0.0), pt(50.0, 80.0)));
    assert_eq!(s.curve_ids().count(), 3);
    assert_eq!(s.vertex_ids().count(), 4);
}

#[test]
fn degenerate_curve_dropped() {
    let mut s = snappy();
    let pieces = s.add_curve(halves(pt(10.0, 10.0), pt(10.5, 10.2)));
    assert!(pieces.is_empty());
    assert_eq!(s.curve_ids().count(), 0);
    assert_eq!(s.vertex_ids().count(), 0);
}

// ---- faces ----

#[test]
fn square_face() {
    let mut s = Scene::new();
    s.set_snap_distance(1.0);
    square(&mut s, 10.0, 10.0, 110.0, 110.0);
    let loops = s.trace_face(pt(60.0, 60.0)).expect("interior should be enclosed");
    assert_eq!(loops.len(), 1);
    assert_eq!(loops[0].len(), 4);
    assert!(s.trace_face(pt(5.0, 5.0)).is_err(), "outside is unbounded");
}

#[test]
fn square_with_hole() {
    let mut s = Scene::new();
    s.set_snap_distance(1.0);
    square(&mut s, 0.0, 0.0, 100.0, 100.0);
    square(&mut s, 40.0, 40.0, 60.0, 60.0);
    let loops = s.trace_face(pt(10.0, 50.0)).expect("ring should be enclosed");
    assert_eq!(loops.len(), 2, "outer loop plus one hole");
    // Inside the inner square is a separate face with no hole.
    let inner = s.trace_face(pt(50.0, 50.0)).unwrap();
    assert_eq!(inner.len(), 1);
}

#[test]
fn theta_chambers() {
    let mut s = Scene::new();
    s.set_snap_distance(1.0);
    square(&mut s, 0.0, 0.0, 100.0, 100.0);
    // Horizontal chord across the middle.
    s.add_curve(line(pt(0.0, 50.0), pt(100.0, 50.0)));
    let top = s.trace_face(pt(50.0, 25.0)).unwrap();
    let bottom = s.trace_face(pt(50.0, 75.0)).unwrap();
    assert_eq!(top.len(), 1);
    assert_eq!(bottom.len(), 1);
    assert_eq!(top[0].len(), 4);
    assert_eq!(bottom[0].len(), 4);
}

#[test]
fn open_arc_not_enclosed() {
    let mut s = Scene::new();
    s.set_snap_distance(2.0);
    s.set_flatten_tolerance(0.1);
    s.add_curve([
        Point::new(65.64830340614216, 119.0),
        Point::new(52.93828336926242, 58.45697201306852),
        Point::new(92.0, 28.883502183107645),
        Point::new(57.359309409081575, 9.0),
    ]);
    let p = Point::new(61.8125, 38.3125);
    match s.trace_face(p) {
        Ok(_) => panic!("open arc must not enclose anything"),
        Err(e) => assert_eq!(e, FillError::NotEnclosed),
    }
}

// ---- fills ----

// Opaque payloads: any distinct numbers stand in for "different paint".
const PAINT_RED: u64 = 1;
const PAINT_BLUE: u64 = 2;

#[test]
fn fill_recolor_delete() {
    let mut s = Scene::new();
    s.set_snap_distance(1.0);
    square(&mut s, 0.0, 0.0, 100.0, 100.0);
    assert_eq!(s.add_fill(pt(200.0, 200.0), PAINT_RED), Err(FillError::NotEnclosed));
    let f = s.add_fill(pt(50.0, 50.0), PAINT_RED).unwrap();
    // Same face: recolors instead of adding.
    let f2 = s.add_fill(pt(20.0, 80.0), PAINT_BLUE).unwrap();
    assert_eq!(f, f2);
    assert_eq!(s.fill_payload(f), PAINT_BLUE);
    assert_eq!(s.fill_ids().count(), 1);
    s.delete_fill(f).unwrap();
    assert_eq!(s.fill_ids().count(), 0);
}

#[test]
fn fill_dies_when_wall_removed() {
    let mut s = Scene::new();
    s.set_snap_distance(1.0);
    square(&mut s, 0.0, 0.0, 100.0, 100.0);
    let f = s.add_fill(pt(50.0, 50.0), PAINT_RED).unwrap();
    let wall = s.fill_loops_flattened(f); // just to exercise the accessor
    assert_eq!(wall.len(), 1);
    let any_curve = s.curve_ids().next().unwrap();
    s.delete_curve(any_curve).unwrap();
    assert_eq!(s.fill_ids().count(), 0, "fill referenced the wall");
}

#[test]
fn fill_follows_anchor_on_bisection() {
    let mut s = Scene::new();
    s.set_snap_distance(1.0);
    square(&mut s, 0.0, 0.0, 100.0, 100.0);
    let f = s.add_fill(pt(50.0, 25.0), PAINT_RED).unwrap();
    // Bisect the square; the fill keeps the chamber holding its anchor.
    s.add_curve(line(pt(0.0, 50.0), pt(100.0, 50.0)));
    assert_eq!(s.fill_ids().count(), 1);
    let loops = s.fill_loops_flattened(f);
    assert_eq!(loops.len(), 1);
    // All boundary points of the kept chamber are in the top half.
    assert!(loops[0].iter().all(|p| p.y <= 50.5));
}

#[test]
fn hole_appears_when_island_added() {
    let mut s = Scene::new();
    s.set_snap_distance(1.0);
    square(&mut s, 0.0, 0.0, 100.0, 100.0);
    let f = s.add_fill(pt(10.0, 50.0), PAINT_RED).unwrap();
    square(&mut s, 40.0, 40.0, 60.0, 60.0);
    let loops = s.fill_loops_flattened(f);
    assert_eq!(loops.len(), 2, "island becomes a hole");
}

// ---- queries ----

/// nearest_vertex agrees with a brute-force scan over every live vertex.
#[test]
fn nearest_vertex_matches_bruteforce() {
    let mut rng = StdRng::seed_from_u64(0x1111);
    let mut s = Scene::new();
    s.set_snap_distance(1.0);
    for _ in 0..12 {
        let a = pt(rng.gen_range(0.0..100.0), rng.gen_range(0.0..100.0));
        let b = pt(rng.gen_range(0.0..100.0), rng.gen_range(0.0..100.0));
        s.add_curve(line(a, b));
    }
    for _ in 0..200 {
        let p = pt(rng.gen_range(-20.0..120.0), rng.gen_range(-20.0..120.0));
        let got = s.nearest_vertex(p);
        let brute = s
            .vertex_ids()
            .map(|v| (v, s.vertex_pos(v)))
            .map(|(v, q)| (v, ((q.x - p.x).powi(2) + (q.y - p.y).powi(2)).sqrt()))
            .min_by(|a, b| a.1.partial_cmp(&b.1).unwrap());
        match (got, brute) {
            (Some((_, dg)), Some((_, db))) => {
                assert!((dg - db).abs() < 1e-9, "nearest_vertex dist {dg} != brute {db}")
            }
            (None, None) => {}
            _ => panic!("nearest_vertex disagreed on presence"),
        }
    }
}

/// nearest_curve never reports a distance greater than the distance to the
/// nearest vertex (a vertex lies on a curve), and its reported point is actually
/// that far from `p` — i.e. the hit is self-consistent and no closer curve was
/// missed relative to the coarse vertex bound.
#[test]
fn nearest_curve_is_consistent_and_tight() {
    let mut rng = StdRng::seed_from_u64(0x2222);
    let mut s = Scene::new();
    s.set_snap_distance(1.0);
    for _ in 0..10 {
        let a = pt(rng.gen_range(10.0..90.0), rng.gen_range(10.0..90.0));
        let b = pt(rng.gen_range(10.0..90.0), rng.gen_range(10.0..90.0));
        s.add_curve(line(a, b));
    }
    for _ in 0..200 {
        let p = pt(rng.gen_range(0.0..100.0), rng.gen_range(0.0..100.0));
        let hit = s.nearest_curve(p).expect("curves exist");
        // reported point really is `dist` from p
        let d_pt = ((hit.point.x - p.x).powi(2) + (hit.point.y - p.y).powi(2)).sqrt();
        assert!((d_pt - hit.dist).abs() < 1e-9, "hit.point/dist inconsistent");
        // and no vertex is closer than the curve hit (vertices lie ON curves)
        if let Some((_, dv)) = s.nearest_vertex(p) {
            assert!(hit.dist <= dv + 1e-9, "a vertex ({dv}) beat the nearest curve ({})", hit.dist);
        }
        // brute-force min over all polyline segments must match
        let mut brute = f64::INFINITY;
        for c in s.curve_ids() {
            let poly = s.curve_polyline(c);
            for w in poly.windows(2) {
                brute = brute.min(seg_dist_pt(p, w[0], w[1]));
            }
        }
        assert!((hit.dist - brute).abs() < 1e-9, "nearest_curve {} != brute {brute}", hit.dist);
    }
}

/// fill_at / face_at agree with a raster point-in-face oracle on a fixed scene.
#[test]
fn fill_and_face_at_match_raster() {
    const RS: f64 = 6.0;
    const W: usize = 768;
    const H: usize = 768;

    let mut s = Scene::new();
    s.set_snap_distance(1.0);
    square(&mut s, 10.0, 10.0, 50.0, 50.0);
    let fid = s.add_fill(pt(30.0, 30.0), 0xABCD).unwrap();
    // an unfilled but enclosed box, and open space elsewhere
    square(&mut s, 70.0, 70.0, 110.0, 110.0);

    // Raster oracle: stroke all curves, then for a query point flood from it and
    // see if it reaches the border (unbounded => not enclosed).
    let oracle_enclosed = |p: Point| -> bool {
        let mut c = Canvas::new(W, H, WHITE);
        for cid in s.curve_ids() {
            let poly: Vec<Point> =
                s.curve_polyline(cid).iter().map(|q| Point::new(q.x * RS, q.y * RS)).collect();
            stroke_polyline(&mut c, &poly, BLACK);
        }
        let (px, py) = ((p.x * RS) as i64, (p.y * RS) as i64);
        if c.get(px, py) != Some(WHITE) {
            return true; // on a wall; treat as enclosed-ish, not tested below
        }
        !flood_fill(&mut c, px, py, WHITE, RED)
    };

    // Inside the filled box: fill_at finds it, face_at is Some.
    assert_eq!(s.fill_at(pt(30.0, 30.0)), Some(fid));
    assert!(s.face_at(pt(30.0, 30.0)).is_some());
    assert!(oracle_enclosed(pt(30.0, 30.0)));

    // Inside the unfilled-but-enclosed box: no fill, but face_at previews it.
    assert_eq!(s.fill_at(pt(90.0, 90.0)), None);
    assert!(s.face_at(pt(90.0, 90.0)).is_some());
    assert!(oracle_enclosed(pt(90.0, 90.0)));

    // Open space: no fill, no face, oracle agrees it escapes.
    assert_eq!(s.fill_at(pt(120.0, 10.0)), None);
    assert!(s.face_at(pt(120.0, 10.0)).is_none());
    assert!(!oracle_enclosed(pt(120.0, 10.0)));
}

fn seg_dist_pt(p: Point, a: Point, b: Point) -> f64 {
    let (vx, vy) = (b.x - a.x, b.y - a.y);
    let len2 = vx * vx + vy * vy;
    let u = if len2 <= 1e-12 {
        0.0
    } else {
        (((p.x - a.x) * vx + (p.y - a.y) * vy) / len2).clamp(0.0, 1.0)
    };
    let proj = Point::new(a.x + vx * u, a.y + vy * u);
    ((p.x - proj.x).powi(2) + (p.y - proj.y).powi(2)).sqrt()
}

// ---- extract and merge ----

const SUB_RS: f64 = 6.0; // scene to raster scale
const SUB_W: usize = 512;
const SUB_H: usize = 256;

fn magnified(poly: &[Point]) -> Vec<Point> {
    poly.iter().map(|p| Point::new(p.x * SUB_RS, p.y * SUB_RS)).collect()
}
fn payload_color(payload: u64) -> u32 {
    0xFF00_0000 | (payload as u32 & 0x00FF_FFFF)
}

/// A closed square with a fill; returns the fill id.
fn filled_square(s: &mut Scene, x0: f64, y0: f64, x1: f64, y1: f64, payload: u64) -> FillId {
    s.add_curve(line(pt(x0, y0), pt(x1, y0)));
    s.add_curve(line(pt(x1, y0), pt(x1, y1)));
    s.add_curve(line(pt(x1, y1), pt(x0, y1)));
    s.add_curve(line(pt(x0, y1), pt(x0, y0)));
    s.add_fill(pt((x0 + x1) / 2.0, (y0 + y1) / 2.0), payload).unwrap()
}

/// Render exactly the given curves (as black walls) and fills of scene `s`.
fn render_selected(s: &Scene, curves: &[CurveId], fills: &[FillId]) -> Canvas {
    let mut c = Canvas::new(SUB_W, SUB_H, WHITE);
    for &fid in fills {
        let payload = s.fill_payload(fid);
        if payload == 0 {
            continue;
        }
        let polys: Vec<Vec<Point>> =
            s.fill_loops_flattened(fid).iter().map(|p| magnified(p)).collect();
        scanline_fill(&mut c, &polys, payload_color(payload));
    }
    for &cid in curves {
        stroke_polyline(&mut c, &magnified(&s.curve_polyline(cid)), BLACK);
    }
    c
}

fn render_all(s: &Scene) -> Canvas {
    let curves: Vec<_> = s.curve_ids().collect();
    let fills: Vec<_> = s.fill_ids().collect();
    render_selected(s, &curves, &fills)
}

/// Boundary curves of a set of fills (the natural "grow selection to walls").
fn boundary_of(s: &Scene, fills: &[FillId]) -> Vec<CurveId> {
    let mut set: HashSet<CurveId> = HashSet::new();
    for &f in fills {
        set.extend(s.fill_boundary_curves(f));
    }
    let mut v: Vec<_> = set.into_iter().collect();
    v.sort();
    v
}

/// Two squares sharing a wall: extracting one must DUPLICATE the shared wall
/// (kept in C, copied to A) so neither fill loses a boundary.
#[test]
fn extract_shared_wall_duplicates() {
    let mut b = Scene::new();
    b.set_snap_distance(1.0);
    let s1 = filled_square(&mut b, 10.0, 10.0, 40.0, 40.0, 0xFF_0000);
    let s2 = filled_square(&mut b, 40.0, 10.0, 70.0, 40.0, 0x00_00FF);
    assert_eq!(b.curve_ids().count(), 7, "shared wall deduped to one curve");

    let a_curves = boundary_of(&b, &[s1]);
    let c_curves = boundary_of(&b, &[s2]);
    // Ground truth from the ORIGINAL scene, one side masked out each way.
    let ga = render_selected(&b, &a_curves, &[s1]);
    let gc = render_selected(&b, &c_curves, &[s2]);

    let (a, _, _) = b.extract(&a_curves.iter().copied().collect(), &HashSet::from([s1]));

    assert_eq!(render_all(&a).px, ga.px, "A render != B with C erased");
    assert_eq!(render_all(&b).px, gc.px, "C render != B with A erased");
    assert_eq!(a.curve_ids().count(), 4, "A got all four walls (incl. a copy of the shared)");
    assert_eq!(b.curve_ids().count(), 4, "C keeps its four walls (incl. the shared)");
}

/// Fuzz: many disjoint squares, a random subset extracted. Each side's render
/// must match the original masked to that side.
#[test]
fn extract_partition_matches_masked_render_fuzz() {
    let mut rng = StdRng::seed_from_u64(0x5AB6_1234);
    for iter in 0..300 {
        let mut b = Scene::new();
        b.set_snap_distance(1.0);

        // 4x2 grid of well-separated squares (pitch 20, size 6..14, margin >=3).
        let mut fills = Vec::new();
        for gx in 0..4 {
            for gy in 0..2 {
                let x0 = gx as f64 * 20.0 + 3.0;
                let y0 = gy as f64 * 20.0 + 3.0;
                let sz = rng.gen_range(6.0..14.0);
                let payload = ((fills.len() as u64 + 1) * 0x27_35A1) & 0x00FF_FFFF | 0x01_0101;
                fills.push(filled_square(&mut b, x0, y0, x0 + sz, y0 + sz, payload));
            }
        }

        // Random subset -> A; rest -> C.
        let a_fills: Vec<FillId> = fills.iter().copied().filter(|_| rng.gen_bool(0.5)).collect();
        let a_set: HashSet<FillId> = a_fills.iter().copied().collect();
        let c_fills: Vec<FillId> = fills.iter().copied().filter(|f| !a_set.contains(f)).collect();

        let a_curves = boundary_of(&b, &a_fills);
        let c_curves = boundary_of(&b, &c_fills);

        // Ground truth from ORIGINAL b, before extraction.
        let ga = render_selected(&b, &a_curves, &a_fills);
        let gc = render_selected(&b, &c_curves, &c_fills);

        let (a, _, _) = b.extract(&a_curves.iter().copied().collect(), &a_set);

        assert_eq!(render_all(&a).px, ga.px, "iter {iter}: extracted A mismatch");
        assert_eq!(render_all(&b).px, gc.px, "iter {iter}: remainder C mismatch");
    }
}

/// Merge is the practical inverse: extracting a shape and merging it back (at
/// zero offset) re-planarizes the seam and renders identically to the original.
#[test]
fn extract_then_merge_back_round_trips() {
    let mut b = Scene::new();
    b.set_snap_distance(1.0);
    let s1 = filled_square(&mut b, 10.0, 10.0, 40.0, 40.0, 0xFF_0000);
    let _s2 = filled_square(&mut b, 50.0, 10.0, 80.0, 40.0, 0x00_00FF);
    let original = render_all(&b);

    let a_curves = boundary_of(&b, &[s1]);
    let (a, _, _) = b.extract(&a_curves.iter().copied().collect(), &HashSet::from([s1]));
    // b is now C (just the second square). Merge A back at its original place.
    b.merge(&a, Point::new(0.0, 0.0));

    assert_eq!(render_all(&b).px, original.px, "extract+merge-back changed the picture");
    assert_eq!(b.fill_ids().count(), 2, "both fills present after round trip");
}

/// Merge with an offset places a translated copy; the union renders as both.
#[test]
fn merge_with_offset_places_copy() {
    let mut a = Scene::new();
    a.set_snap_distance(1.0);
    filled_square(&mut a, 10.0, 10.0, 30.0, 30.0, 0xFF_0000);

    // Independent baseline: the two squares built directly where they should end up.
    let mut baseline = Scene::new();
    baseline.set_snap_distance(1.0);
    filled_square(&mut baseline, 10.0, 10.0, 30.0, 30.0, 0xFF_0000);
    filled_square(&mut baseline, 50.0, 50.0, 70.0, 70.0, 0xFF_0000);
    let expected = render_all(&baseline);

    // Actual: one square, then merge a translated copy of A on top.
    let mut target = Scene::new();
    target.set_snap_distance(1.0);
    filled_square(&mut target, 10.0, 10.0, 30.0, 30.0, 0xFF_0000);
    target.merge(&a, Point::new(40.0, 40.0));

    assert_eq!(render_all(&target).px, expected.px, "offset merge placed copy wrong");
    assert_eq!(target.fill_ids().count(), 2);
}

// ---- fuzz ----

const BOX_MIN: f64 = 8.0;
const BOX_MAX: f64 = 120.0;
const RS: f64 = 8.0; // scene-to-raster scale
const W: usize = 1024;
const H: usize = 1024;
const MARGIN: i64 = 16; // px; keep seeds away from the border
const SNAP: f64 = 2.0;
const TOL: f64 = 0.1;
// Harness paint convention: payload 0 = transparent (not rendered); otherwise
// the low 24 bits are packed 0xRRGGBB, rendered opaque. uvec itself is agnostic.
const FILL_RED: u64 = 0x00FF_0000;

#[derive(Clone, Debug)]
enum Step {
    AddCurve([Point; 4]),
    ReplaceCurve(usize, [Point; 4]),
    MoveVertex(usize, Point),
    DeleteCurve(usize),
    AddFill(Point),
    DeleteFill(usize),
}

fn build_scene(ops: &[Step]) -> Scene {
    let mut s = Scene::new();
    s.set_snap_distance(SNAP);
    s.set_flatten_tolerance(TOL);
    for op in ops {
        match *op {
            Step::AddCurve(pts) => {
                s.add_curve(pts);
            }
            Step::ReplaceCurve(i, pts) => {
                let ids: Vec<_> = s.curve_ids().collect();
                if !ids.is_empty() {
                    let _ = s.replace_curve(ids[i % ids.len()], pts);
                }
            }
            Step::MoveVertex(i, p) => {
                let ids: Vec<_> = s.vertex_ids().collect();
                if !ids.is_empty() {
                    let _ = s.move_vertex(ids[i % ids.len()], p);
                }
            }
            Step::DeleteCurve(i) => {
                let ids: Vec<_> = s.curve_ids().collect();
                if !ids.is_empty() {
                    let _ = s.delete_curve(ids[i % ids.len()]);
                }
            }
            Step::AddFill(p) => {
                let _ = s.add_fill(p, 0); // transparent
            }
            Step::DeleteFill(i) => {
                let ids: Vec<_> = s.fill_ids().collect();
                if !ids.is_empty() {
                    let _ = s.delete_fill(ids[i % ids.len()]);
                }
            }
        }
    }
    s
}

fn scaled(poly: &[Point]) -> Vec<Point> {
    poly.iter().map(|p| Point::new(p.x * RS, p.y * RS)).collect()
}

fn stroke_scene(s: &Scene, canvas: &mut Canvas) {
    for c in s.curve_ids() {
        let poly = scaled(&s.curve_polyline(c));
        stroke_polyline(canvas, &poly, BLACK);
    }
}

fn render_scene(s: &Scene) -> Canvas {
    let mut canvas = Canvas::new(W, H, WHITE);
    for f in s.fill_ids() {
        let payload = s.fill_payload(f);
        if payload == 0 {
            continue; // transparent
        }
        let c = 0xFF00_0000 | (payload as u32 & 0x00FF_FFFF);
        let polys: Vec<Vec<Point>> =
            s.fill_loops_flattened(f).iter().map(|p| scaled(p)).collect();
        scanline_fill(&mut canvas, &polys, c);
    }
    stroke_scene(s, &mut canvas);
    canvas
}

/// Run one full comparison. Ok(()) means pass (or vacuous: seed unusable).
fn check_case(ops: &[Step], seed: Point) -> Result<(), String> {
    let mut scene = build_scene(ops);
    let mut a = Canvas::new(W, H, WHITE);
    stroke_scene(&scene, &mut a);
    let (px, py) = ((seed.x * RS).floor() as i64, (seed.y * RS).floor() as i64);
    if px < MARGIN || py < MARGIN || px >= W as i64 - MARGIN || py >= H as i64 - MARGIN {
        return Ok(());
    }
    if a.get(px, py) != Some(WHITE) {
        return Ok(()); // seed on a stroke: vacuous
    }
    let touched_border = flood_fill(&mut a, px, py, WHITE, RED);
    let result = scene.add_fill(seed, FILL_RED);
    if touched_border {
        return match result {
            Ok(_) => Err(format!("flood reached border but library filled at {seed:?}")),
            Err(_) => Ok(()),
        };
    }
    if result.is_err() {
        return Err(format!("library says NotEnclosed but flood is bounded at {seed:?}"));
    }
    let b = render_scene(&scene);
    if a.px == b.px {
        return Ok(());
    }
    let diffs: Vec<(usize, usize, u32, u32)> = a
        .px
        .iter()
        .zip(&b.px)
        .enumerate()
        .filter(|(_, (x, y))| x != y)
        .map(|(i, (&x, &y))| (i % W, i / W, x, y))
        .collect();
    // Pixel-pinch tolerance: a pixel the library fills but the flood cannot
    // reach may be a wedge-tip pocket sealed off by strokes at this
    // resolution only. Accept iff every diff is fill-side-only and the flood
    // reaches it at a finer scale (a genuinely mis-filled face stays sealed
    // at every scale).
    if diffs.iter().all(|&(_, _, ca, cb)| ca == WHITE && cb == RED) {
        let px: Vec<(usize, usize)> = diffs.iter().map(|&(x, y, ..)| (x, y)).collect();
        if pockets_open_at_scale(&scene, seed, &px, 2) || pockets_open_at_scale(&scene, seed, &px, 4)
        {
            return Ok(());
        }
    }
    Err(format!("{} differing pixels at seed {seed:?}", diffs.len()))
}

/// Re-raster at `k`-times the base scale and flood from the seed; report
/// whether every listed base-scale diff pixel is reached by the finer flood.
fn pockets_open_at_scale(scene: &Scene, seed: Point, diffs: &[(usize, usize)], k: usize) -> bool {
    let rs = RS * k as f64;
    let mut c = Canvas::new(W * k, H * k, WHITE);
    for cid in scene.curve_ids() {
        let poly: Vec<Point> =
            scene.curve_polyline(cid).iter().map(|p| Point::new(p.x * rs, p.y * rs)).collect();
        stroke_polyline(&mut c, &poly, BLACK);
    }
    let (px, py) = ((seed.x * rs).floor() as i64, (seed.y * rs).floor() as i64);
    if c.get(px, py) != Some(WHITE) {
        return false;
    }
    flood_fill(&mut c, px, py, WHITE, RED);
    diffs.iter().all(|&(x, y)| {
        (0..k).any(|dy| {
            (0..k).any(|dx| c.get((x * k + dx) as i64, (y * k + dy) as i64) == Some(RED))
        })
    })
}

// ---- generation ----

fn gen_point(rng: &mut StdRng) -> Point {
    Point::new(rng.gen_range(BOX_MIN..BOX_MAX), rng.gen_range(BOX_MIN..BOX_MAX))
}

fn gen_curve(rng: &mut StdRng) -> [Point; 4] {
    [gen_point(rng), gen_point(rng), gen_point(rng), gen_point(rng)]
}

fn gen_ops(rng: &mut StdRng) -> Vec<Step> {
    let mut ops = Vec::new();
    for _ in 0..rng.gen_range(1..=8) {
        ops.push(Step::AddCurve(gen_curve(rng)));
    }
    for _ in 0..rng.gen_range(0..=12) {
        let roll = rng.gen_range(0..100);
        let idx = rng.gen_range(0..64usize);
        ops.push(match roll {
            0..=34 => Step::AddCurve(gen_curve(rng)),
            35..=49 => Step::ReplaceCurve(idx, gen_curve(rng)),
            50..=69 => Step::MoveVertex(idx, gen_point(rng)),
            70..=79 => Step::DeleteCurve(idx),
            80..=89 => Step::AddFill(gen_point(rng)),
            _ => Step::DeleteFill(idx),
        });
    }
    ops
}

/// Pick a seed pixel that is not on a stroke, mapped back to scene coords.
fn pick_seed(rng: &mut StdRng, scene: &Scene) -> Option<Point> {
    let mut canvas = Canvas::new(W, H, WHITE);
    stroke_scene(scene, &mut canvas);
    for _ in 0..300 {
        let px = rng.gen_range(MARGIN..W as i64 - MARGIN);
        let py = rng.gen_range(MARGIN..H as i64 - MARGIN);
        if canvas.get(px, py) == Some(WHITE) {
            return Some(Point::new((px as f64 + 0.5) / RS, (py as f64 + 0.5) / RS));
        }
    }
    None
}

// ---- runners ----

fn run_iters(from: usize, to: usize, base: u64) {
    for i in from..to {
        let mut rng = StdRng::seed_from_u64(base ^ (i as u64).wrapping_mul(0x9E37_79B9_7F4A_7C15));
        let ops = gen_ops(&mut rng);
        let scene = build_scene(&ops);
        let Some(seed) = pick_seed(&mut rng, &scene) else {
            continue;
        };
        if let Err(e) = check_case(&ops, seed) {
            panic!("fuzz failure at iteration {i}: {e}\nseed point: {seed:?}\nops:\n{ops:#?}");
        }
    }
}

#[test]
fn repro1() {
    let ops = vec![Step::AddCurve([
        Point::new(65.64830340614216, 119.0),
        Point::new(52.93828336926242, 58.45697201306852),
        Point::new(92.0, 28.883502183107645),
        Point::new(57.359309409081575, 9.0),
    ])];
    let seed = Point::new(61.8125, 38.3125);
    check_case(&ops, seed).unwrap();
}

#[test]
fn repro2() {
    let ops = vec![
        Step::AddCurve([
            Point::new(85.0, 69.0),
            Point::new(105.0, 104.0),
            Point::new(57.0, 79.0),
            Point::new(81.0, 97.0),
        ]),
        Step::AddCurve([
            Point::new(82.0, 18.0),
            Point::new(31.0, 118.0),
            Point::new(17.0, 29.0),
            Point::new(71.0, 61.0),
        ]),
        Step::AddCurve([
            Point::new(85.0, 109.0),
            Point::new(112.0, 12.0),
            Point::new(112.0, 98.0),
            Point::new(84.0, 67.0),
        ]),
        Step::MoveVertex(56, Point::new(78.0, 16.0)),
        Step::AddCurve([
            Point::new(109.0, 82.0),
            Point::new(29.0, 101.0),
            Point::new(40.0, 108.0),
            Point::new(70.0, 56.0),
        ]),
        Step::AddCurve([
            Point::new(66.0, 119.0),
            Point::new(53.0, 58.0),
            Point::new(92.0, 29.0),
            Point::new(57.0, 9.0),
        ]),
    ];
    let seed = Point::new(61.8125, 38.3125);
    check_case(&ops, seed).unwrap();
}

#[test]
fn repro3() {
    let ops = vec![
        Step::AddCurve([
            Point::new(71.0, 106.0),
            Point::new(11.0, 44.0),
            Point::new(34.0, 81.0),
            Point::new(98.0, 101.0),
        ]),
        Step::AddCurve([
            Point::new(114.0, 90.0),
            Point::new(37.0, 35.0),
            Point::new(88.0, 89.0),
            Point::new(115.0, 92.0),
        ]),
        Step::ReplaceCurve(15, [
            Point::new(86.0, 86.0),
            Point::new(15.0, 112.0),
            Point::new(28.0, 55.0),
            Point::new(66.0, 73.0),
        ]),
        Step::AddCurve([
            Point::new(60.0, 119.0),
            Point::new(95.0, 53.0),
            Point::new(93.0, 39.0),
            Point::new(52.0, 57.0),
        ]),
        Step::ReplaceCurve(59, [
            Point::new(106.0, 58.0),
            Point::new(71.0, 72.0),
            Point::new(65.0, 24.0),
            Point::new(99.0, 21.0),
        ]),
        Step::AddCurve([
            Point::new(29.0, 64.0),
            Point::new(16.0, 96.0),
            Point::new(59.0, 103.0),
            Point::new(84.0, 17.0),
        ]),
    ];
    let seed = Point::new(82.6875, 67.3125);
    check_case(&ops, seed).unwrap();
}

#[test]
fn repro4() {
    let ops = vec![
        Step::AddCurve([
            Point::new(29.0, 18.0),
            Point::new(45.0, 15.0),
            Point::new(92.0, 9.0),
            Point::new(8.0, 71.0),
        ]),
        Step::AddCurve([
            Point::new(93.0, 72.0),
            Point::new(91.0, 22.0),
            Point::new(62.0, 83.0),
            Point::new(104.0, 112.0),
        ]),
        Step::AddCurve([
            Point::new(52.0, 82.0),
            Point::new(58.0, 111.0),
            Point::new(105.0, 100.0),
            Point::new(88.0, 75.0),
        ]),
        Step::AddCurve([
            Point::new(83.51258505779585, 36.0),
            Point::new(104.0, 44.0),
            Point::new(70.0, 107.0),
            Point::new(86.0, 34.0),
        ]),
        Step::ReplaceCurve(63, [
            Point::new(59.0, 114.0),
            Point::new(52.0, 89.0),
            Point::new(85.0, 25.0),
            Point::new(42.0, 53.0),
        ]),
        Step::AddCurve([
            Point::new(91.0, 53.0),
            Point::new(25.0, 96.0),
            Point::new(72.0, 111.0),
            Point::new(87.0, 21.0),
        ]),
    ];
    let seed = Point::new(66.0625, 84.8125);
    check_case(&ops, seed).unwrap();
}

#[test]
fn repro5() {
    let ops = vec![
        Step::AddCurve([
            Point::new(43.0, 92.0),
            Point::new(23.0, 104.0),
            Point::new(25.0, 12.0),
            Point::new(103.0, 48.0),
        ]),
        Step::AddCurve([
            Point::new(102.0, 83.0),
            Point::new(9.0, 113.0),
            Point::new(35.0, 78.0),
            Point::new(36.0, 63.0),
        ]),
        Step::AddCurve([
            Point::new(30.0, 42.51450448292847),
            Point::new(111.45678470719959, 20.0),
            Point::new(59.0, 79.0),
            Point::new(87.42007899153623, 40.0),
        ]),
        Step::ReplaceCurve(46, [
            Point::new(74.0, 105.0),
            Point::new(103.0, 38.0),
            Point::new(86.0, 83.0),
            Point::new(100.0, 21.0),
        ]),
    ];
    let seed = Point::new(65.6875, 90.0625);
    check_case(&ops, seed).unwrap();
}

#[test]
fn repro6() {
    let ops = vec![
        Step::AddCurve([
            Point::new(43.0, 92.0),
            Point::new(23.0, 104.0),
            Point::new(25.0, 11.668807898478086),
            Point::new(103.0, 48.0),
        ]),
        Step::AddCurve([
            Point::new(43.0, 81.0),
            Point::new(81.0, 42.0),
            Point::new(94.0, 11.0),
            Point::new(79.0, 64.0),
        ]),
        Step::AddCurve([
            Point::new(102.0, 83.0),
            Point::new(9.0, 113.0),
            Point::new(35.0, 78.44833013864337),
            Point::new(36.0, 63.0),
        ]),
        Step::AddCurve([
            Point::new(30.0, 43.0),
            Point::new(111.0, 20.0),
            Point::new(59.0, 79.0),
            Point::new(87.0, 40.0),
        ]),
        Step::ReplaceCurve(46, [
            Point::new(74.0, 105.0),
            Point::new(103.0, 38.0),
            Point::new(86.0, 83.0),
            Point::new(100.0, 21.0),
        ]),
    ];
    let seed = Point::new(65.6875, 90.0625);
    check_case(&ops, seed).unwrap();
}

#[test]
fn repro7() {
    let ops = vec![
        Step::AddCurve([
            Point::new(49.0, 79.0),
            Point::new(97.0, 86.0),
            Point::new(58.0, 86.0),
            Point::new(76.0, 33.0),
        ]),
        Step::AddCurve([
            Point::new(39.0, 72.0),
            Point::new(25.0, 42.0),
            Point::new(34.0, 82.0),
            Point::new(98.45663501904787, 19.41721936531993),
        ]),
        Step::AddCurve([
            Point::new(51.0, 43.0),
            Point::new(66.0, 47.0),
            Point::new(112.0, 40.0),
            Point::new(80.0, 43.0),
        ]),
        Step::AddCurve([
            Point::new(95.0, 14.0),
            Point::new(55.0, 70.27561542866727),
            Point::new(40.0, 33.0),
            Point::new(119.0, 40.0),
        ]),
        Step::DeleteCurve(50),
        Step::AddCurve([
            Point::new(12.0, 38.0),
            Point::new(71.43739326004234, 19.0),
            Point::new(109.0, 41.0),
            Point::new(98.0, 73.0),
        ]),
        Step::DeleteCurve(50),
        Step::ReplaceCurve(51, [
            Point::new(94.0, 82.0),
            Point::new(98.0, 113.0),
            Point::new(36.0, 106.0),
            Point::new(47.0, 31.0),
        ]),
    ];
    let seed = Point::new(70.3125, 62.8125);
    check_case(&ops, seed).unwrap();
}

#[test]
fn repro8() {
    let ops = vec![
        Step::AddCurve([
            Point::new(111.0, 29.0),
            Point::new(88.0, 29.0),
            Point::new(91.0, 61.0),
            Point::new(20.0, 42.0),
        ]),
        Step::AddCurve([
            Point::new(114.0, 50.0),
            Point::new(116.0, 31.0),
            Point::new(31.0, 86.0),
            Point::new(111.0, 90.0),
        ]),
        Step::ReplaceCurve(13, [
            Point::new(47.0, 14.0),
            Point::new(52.0, 65.0),
            Point::new(8.0, 50.287949054394744),
            Point::new(39.0, 46.0),
        ]),
    ];
    let seed = Point::new(35.6875, 49.4375);
    check_case(&ops, seed).unwrap();
}

#[test]
fn fuzz_smoke() {
    run_iters(0, 100, 0xC0FFEE);
}

// ---- what holds of every scene ----

/// A scene of a few crossing strokes, each with a tag of its own.
fn tangle() -> Scene {
    let mut s = snappy();
    s.add_curve_tagged(halves(pt(0.0, 0.0), pt(100.0, 100.0)), 1);
    s.add_curve_tagged(halves(pt(0.0, 100.0), pt(100.0, 0.0)), 2);
    s.add_curve_tagged([pt(0.0, 30.0), pt(60.0, 120.0), pt(90.0, -40.0), pt(110.0, 60.0)], 3);
    s
}

/// The distance from `p` to the segment from `a` to `b`.
fn off_segment(p: Point, a: Point, b: Point) -> f64 {
    let d = (b.x - a.x, b.y - a.y);
    let len2 = d.0 * d.0 + d.1 * d.1;
    let t = if len2 > 0.0 { ((p.x - a.x) * d.0 + (p.y - a.y) * d.1) / len2 } else { 0.0 };
    let t = t.clamp(0.0, 1.0);
    (p.x - a.x - d.0 * t).hypot(p.y - a.y - d.1 * t)
}

/// No two segments of different curves cross away from the vertices, and no
/// point of one curve lies on another away from a vertex that they share.
fn assert_planar(s: &Scene, snap: f64) {
    let ids: Vec<CurveId> = s.curve_ids().collect();
    let vs: Vec<Point> = s.vertex_ids().map(|v| s.vertex_pos(v)).collect();
    for &a in &ids {
        let pa = s.curve_polyline(a);
        let ca = s.curve(a);
        for &b in ids.iter().filter(|&&b| b != a) {
            let pb = s.curve_polyline(b);
            let cb = s.curve(b);
            for sa in pa.windows(2) {
                for sb in pb.windows(2) {
                    let d1 = (sa[1].x - sa[0].x, sa[1].y - sa[0].y);
                    let d2 = (sb[1].x - sb[0].x, sb[1].y - sb[0].y);
                    let denom = d1.0 * d2.1 - d1.1 * d2.0;
                    let w = (sb[0].x - sa[0].x, sb[0].y - sa[0].y);
                    let u = (w.0 * d2.1 - w.1 * d2.0) / denom;
                    let t = (w.0 * d1.1 - w.1 * d1.0) / denom;
                    let p = Point::new(sa[0].x + d1.0 * u, sa[0].y + d1.1 * u);
                    // Between segments of one line, where they cross is noise.
                    if (0.0..=1.0).contains(&u)
                        && (0.0..=1.0).contains(&t)
                        && off_segment(p, sb[0], sb[1]) < snap / 4.0
                    {
                        let near = vs.iter().any(|v| (v.x - p.x).hypot(v.y - p.y) < snap);
                        assert!(near, "{a:?} crosses {b:?} at {p:?}");
                    }
                }
            }
            let shared: Vec<Point> = [ca.v0, ca.v1]
                .into_iter()
                .filter(|v| *v == cb.v0 || *v == cb.v1)
                .map(|v| s.vertex_pos(v))
                .collect();
            for p in &pa {
                if pb.windows(2).any(|sb| off_segment(*p, sb[0], sb[1]) < snap / 4.0) {
                    let near = shared.iter().any(|v| (v.x - p.x).hypot(v.y - p.y) <= snap * 1.125);
                    assert!(near, "{a:?} lies on {b:?} at {p:?}");
                }
            }
        }
    }
    for (i, a) in vs.iter().enumerate() {
        for b in &vs[i + 1..] {
            assert!((a.x - b.x).hypot(a.y - b.y) >= snap, "{a:?} and {b:?} are not snapped");
        }
    }
}

/// Where the curves run from and to, each written from left to right.
fn spans(s: &Scene) -> Vec<(Point, Point)> {
    let mut all: Vec<(Point, Point)> = s
        .curve_ids()
        .map(|c| {
            let p = s.curve_points(c);
            if p[0].x <= p[3].x { (p[0], p[3]) } else { (p[3], p[0]) }
        })
        .collect();
    all.sort_by(|a, b| (a.0.x, a.1.x).partial_cmp(&(b.0.x, b.1.x)).unwrap());
    all
}

#[test]
fn lines_that_overlap_from_a_vertex_are_welded() {
    let (o, m, e) = (pt(0.0, 0.0), pt(4.0, 0.0), pt(8.0, 0.0));
    for (first, second) in [((o, e), (o, m)), ((o, m), (o, e)), ((e, o), (o, m))] {
        let mut s = Scene::new();
        s.set_snap_distance(1.0);
        s.add_curve(halves(first.0, first.1));
        s.add_curve(halves(second.0, second.1));
        assert_eq!(spans(&s), vec![(o, m), (m, e)]);
        assert_planar(&s, 1.0);
    }
    // Two that overlap in the middle share that part.
    let mut s = Scene::new();
    s.set_snap_distance(1.0);
    s.add_curve(halves(pt(0.0, 0.0), pt(60.0, 0.0)));
    s.add_curve(halves(pt(20.0, 0.0), pt(90.0, 0.0)));
    let xs: Vec<(f64, f64)> = spans(&s).iter().map(|c| (c.0.x, c.1.x)).collect();
    assert_eq!(xs, vec![(0.0, 20.0), (20.0, 60.0), (60.0, 90.0)]);
    assert_planar(&s, 1.0);
}

#[test]
fn an_end_near_a_line_from_its_own_vertex_is_welded() {
    let mut s = snappy();
    s.add_curve(halves(pt(0.0, 0.0), pt(90.0, 0.0)));
    s.add_curve(halves(pt(0.0, 0.0), pt(45.0, 0.3)));
    assert_planar(&s, 2.0);
    let all = spans(&s);
    assert_eq!(all.len(), 2);
    assert_eq!(all[0].1, all[1].0);
    assert!((all[0].1.x - 45.0).abs() < 0.5 && all[0].1.y.abs() < 0.5);
    // Farther off than a quarter of the snap distance, it stays by itself.
    let mut s = snappy();
    s.add_curve(halves(pt(0.0, 0.0), pt(90.0, 0.0)));
    s.add_curve(halves(pt(0.0, 0.0), pt(45.0, 6.0)));
    assert_planar(&s, 2.0);
    assert_eq!(spans(&s), vec![(pt(0.0, 0.0), pt(45.0, 6.0)), (pt(0.0, 0.0), pt(90.0, 0.0))]);
}

#[test]
fn a_long_shallow_crossing_gets_a_vertex() {
    let far = 17592186044416.0;
    let mut s = Scene::new();
    s.set_snap_distance(0.4);
    s.add_curve(halves(pt(0.0, 0.0), pt(far, 0.0)));
    s.add_curve(halves(pt(0.0, -0.5), pt(far, 0.5)));
    assert_eq!(s.curve_ids().count(), 4);
    assert_eq!(s.vertex_ids().count(), 5);
    assert!(s.vertex_ids().any(|v| s.vertex_pos(v) == pt(far / 2.0, 0.0)));
}

#[test]
fn edits_keep_a_scene_planar() {
    let mut s = tangle();
    assert_planar(&s, 2.0);
    let v = s.vertex_ids().next().unwrap();
    s.move_vertex(v, pt(40.0, 90.0)).unwrap();
    assert_planar(&s, 2.0);
    let c = s.curve_ids().next().unwrap();
    s.replace_curve(c, halves(pt(-5.0, 50.0), pt(120.0, 40.0))).unwrap();
    assert_planar(&s, 2.0);
    let c = s.curve_ids().last().unwrap();
    s.delete_curve(c).unwrap();
    assert_planar(&s, 2.0);
}

#[test]
fn tags_ride_through_splits() {
    let s = tangle();
    let tags: HashSet<u64> = s.curve_ids().map(|c| s.curve_tag(c)).collect();
    assert_eq!(tags, HashSet::from([1, 2, 3]));
    assert!(s.curve_ids().filter(|&c| s.curve_tag(c) == 3).count() > 2);
    // A replacement keeps the tag of what it replaces.
    let mut s = snappy();
    let a = s.add_curve_tagged(halves(pt(0.0, 0.0), pt(50.0, 0.0)), 42)[0];
    let b = s.replace_curve(a, halves(pt(0.0, 10.0), pt(50.0, 10.0))).unwrap();
    assert_eq!(b.len(), 1);
    assert_eq!(s.curve_tag(b[0]), 42);
    // Untagged curves and dead ids have none.
    let c = s.add_curve(halves(pt(0.0, 90.0), pt(50.0, 90.0)))[0];
    assert_eq!(s.curve_tag(c), 0);
    assert_eq!(s.curve_tag(a), 0);
    assert_eq!(s.curve_tag(CurveId(999)), 0);
}

#[test]
fn ids_are_never_reused() {
    let mut s = snappy();
    let a = s.add_curve(halves(pt(0.0, 0.0), pt(50.0, 0.0)))[0];
    let before: Vec<VertexId> = s.vertex_ids().collect();
    s.delete_curve(a).unwrap();
    assert_eq!(s.curve_ids().count(), 0);
    assert_eq!(s.vertex_ids().count(), 0, "no vertex without a curve");
    let b = s.add_curve(halves(pt(0.0, 0.0), pt(50.0, 0.0)))[0];
    assert!(b > a);
    assert!(s.vertex_ids().all(|v| !before.contains(&v)));
    assert_eq!(s.delete_curve(a), Err(BadId));
}

#[test]
fn pieces_are_live_and_ascending() {
    let mut s = tangle();
    let live: HashSet<CurveId> = s.curve_ids().collect();
    let pieces = s.add_curve_tagged(halves(pt(-5.0, 52.0), pt(120.0, 47.0)), 9);
    assert!(pieces.len() > 2);
    assert!(pieces.windows(2).all(|w| w[0] < w[1]));
    let now: HashSet<CurveId> = s.curve_ids().collect();
    for p in &pieces {
        assert!(now.contains(p) && !live.contains(p));
        assert_eq!(s.curve_tag(*p), 9);
    }
    assert_eq!(s.curve_ids().filter(|&c| s.curve_tag(c) == 9).count(), pieces.len());
}

#[test]
fn dead_ids_are_refused() {
    let mut s = snappy();
    let line = halves(pt(0.0, 0.0), pt(50.0, 0.0));
    assert_eq!(s.delete_curve(CurveId(0)), Err(BadId));
    assert_eq!(s.replace_curve(CurveId(0), line), Err(BadId));
    assert_eq!(s.move_vertex(VertexId(0), pt(0.0, 0.0)), Err(BadId));
    assert_eq!(s.set_vertex_position(VertexId(0), pt(0.0, 0.0)), Err(BadId));
    assert_eq!(s.delete_fill(FillId(0)), Err(BadId));
    assert!(!s.0.is_curve(CurveId(0)) && !s.0.is_vertex(VertexId(0)) && !s.0.is_fill(FillId(0)));
}

#[test]
fn raw_moves_wait_for_commit() {
    let mut s = snappy();
    let a = s.add_curve_tagged(halves(pt(0.0, 0.0), pt(100.0, 0.0)), 5)[0];
    let b = s.add_curve_tagged(halves(pt(50.0, 20.0), pt(50.0, 80.0)), 6)[0];
    let low = s.curve(b).v0;
    // Dragged across the first curve: nothing is split yet.
    s.set_vertex_position(low, pt(50.0, -40.0)).unwrap();
    assert_eq!(s.vertex_pos(low), pt(50.0, -40.0));
    assert_eq!(s.curve_ids().collect::<Vec<_>>(), vec![a, b]);
    s.commit();
    assert_eq!(s.curve_ids().count(), 4);
    assert_eq!(s.vertex_ids().count(), 5);
    assert_eq!(s.curve_ids().filter(|&c| s.curve_tag(c) == 5).count(), 2);
    assert_eq!(s.curve_ids().filter(|&c| s.curve_tag(c) == 6).count(), 2);
    assert_planar(&s, 2.0);
}

#[test]
fn duplicates_are_dropped() {
    let mut s = snappy();
    let a = s.add_curve(halves(pt(0.0, 0.0), pt(100.0, 0.0)));
    let b = s.add_curve(halves(pt(0.0, 0.1), pt(100.0, 0.1)));
    assert_eq!(a.len(), 1);
    assert!(b.is_empty(), "the later of two coinciding curves goes");
    assert_eq!(s.curve_ids().collect::<Vec<_>>(), a);
}

#[test]
fn defaults_and_settings() {
    let mut s = uvec::Scene::default();
    assert_eq!(s.snap_distance(), num(1e-3));
    assert_eq!(s.flatten_tolerance(), num(0.1));
    s.set_snap_distance(num(2.0));
    s.set_flatten_tolerance(num(0.5));
    assert_eq!(s.snap_distance(), num(2.0));
    assert_eq!(s.flatten_tolerance(), num(0.5));
    assert!(s.has_room() && s.has_fill_room() && s.has_merge_room(&uvec::Scene::new()));
}

#[test]
fn polylines_run_from_vertex_to_vertex_by_stubs() {
    let mut s = snappy();
    let pts = [pt(0.0, 0.0), pt(0.0, 60.0), pt(60.0, 60.0), pt(60.0, 0.0)];
    let c = s.add_curve(pts)[0];
    assert_eq!(s.curve_points(c), pts);
    let poly = s.curve_polyline(c);
    assert_eq!(poly[0], pts[0]);
    assert_eq!(*poly.last().unwrap(), pts[3]);
    let n = poly.len();
    let near = (poly[1].x - pts[0].x).hypot(poly[1].y - pts[0].y);
    let far = (poly[n - 2].x - pts[3].x).hypot(poly[n - 2].y - pts[3].y);
    assert!(near >= 2.0 && far >= 2.0, "{near} {far}");
    // The first point outside the disk is where a stub ends.
    let mut t = Scene::new();
    t.set_snap_distance(2.0);
    t.set_flatten_tolerance(1.0);
    let d = t.add_curve([pt(0.0, 0.0), pt(0.0, 2.0), pt(4.0, 2.0), pt(4.0, 0.0)])[0];
    assert_eq!(t.curve_polyline(d), vec![pt(0.0, 0.0), pt(2.0, 1.5), pt(4.0, 0.0)]);
}

#[test]
fn face_loops_are_closed_walks() {
    let mut s = Scene::new();
    s.set_snap_distance(1.0);
    square(&mut s, 0.0, 0.0, 100.0, 100.0);
    square(&mut s, 40.0, 40.0, 60.0, 60.0);
    s.add_curve(line(pt(60.0, 60.0), pt(70.0, 70.0))); // a spur
    let loops = s.trace_face(pt(10.0, 50.0)).unwrap();
    assert_eq!(loops.len(), 2);
    assert_eq!(loops[1].len(), 6, "four walls, and the spur out and back");
    for lp in &loops {
        let distinct: HashSet<HalfEdge> = lp.iter().copied().collect();
        assert_eq!(distinct.len(), lp.len());
        for (i, &(c, back)) in lp.iter().enumerate() {
            let (d, other) = lp[(i + 1) % lp.len()];
            let end = if back { s.curve(c).v0 } else { s.curve(c).v1 };
            let start = if other { s.curve(d).v1 } else { s.curve(d).v0 };
            assert_eq!(end, start);
        }
    }
}

#[test]
fn nested_islands_are_not_holes() {
    let mut s = Scene::new();
    s.set_snap_distance(1.0);
    square(&mut s, 0.0, 0.0, 100.0, 100.0);
    square(&mut s, 20.0, 20.0, 80.0, 80.0);
    square(&mut s, 40.0, 40.0, 60.0, 60.0);
    assert_eq!(s.trace_face(pt(10.0, 50.0)).unwrap().len(), 2);
    assert_eq!(s.trace_face(pt(30.0, 50.0)).unwrap().len(), 2);
    assert_eq!(s.trace_face(pt(50.0, 50.0)).unwrap().len(), 1);
}

/// A closed curve that starts and ends at `tip` and reaches to the right.
fn teardrop(tip: Point, reach: f64, half: f64) -> [Point; 4] {
    [tip, pt(tip.x + reach, tip.y + half), pt(tip.x + reach, tip.y - half), tip]
}

fn inside(polys: &[Vec<Point>], p: Point) -> bool {
    let mut odd = false;
    for poly in polys {
        for (i, a) in poly.iter().enumerate() {
            let b = poly[(i + 1) % poly.len()];
            if (a.y <= p.y) != (b.y <= p.y) && p.x < a.x + (p.y - a.y) / (b.y - a.y) * (b.x - a.x) {
                odd = !odd;
            }
        }
    }
    odd
}

fn area(poly: &[Point]) -> f64 {
    let n = poly.len();
    (0..n).map(|i| poly[i].x * poly[(i + 1) % n].y - poly[(i + 1) % n].x * poly[i].y).sum::<f64>() / 2.0
}

#[test]
fn curves_that_reach_beyond_the_rightmost_vertex_are_outlined() {
    let mut s = Scene::new();
    s.set_snap_distance(1.0);
    square(&mut s, 0.0, 0.0, 100.0, 100.0);
    s.add_curve(teardrop(pt(30.0, 50.0), 60.0, 30.0));
    s.add_curve(teardrop(pt(30.0, 50.0), 30.0, 8.0));
    let f = s.add_fill(pt(10.0, 50.0), 3).unwrap();
    let polys = s.fill_loops_flattened(f);
    assert_eq!(polys.len(), 2);
    assert!(area(&polys[0]) > 0.0 && area(&polys[1]) < 0.0);
    assert!(inside(&polys, pt(10.0, 50.0)));
    assert!(!inside(&polys, pt(65.0, 50.0)), "between the teardrops");
    assert!(!inside(&polys, pt(45.0, 50.0)), "in the inner one");
    assert_eq!(s.fill_at(pt(10.0, 50.0)), Some(f));
    assert_eq!(s.fill_at(pt(65.0, 50.0)), None);
    assert_eq!(s.fill_at(pt(45.0, 50.0)), None);
    // Between the two drops, and inside the inner one.
    let g = s.add_fill(pt(65.0, 50.0), 4).unwrap();
    assert_eq!(s.fill_loops_flattened(g).len(), 1);
    assert_eq!(s.fill_at(pt(65.0, 50.0)), Some(g));
    assert_eq!(s.fill_at(pt(45.0, 50.0)), None);
}

#[test]
fn islands_inside_a_bulge_are_not_holes() {
    let mut s = Scene::new();
    s.set_snap_distance(1.0);
    square(&mut s, 0.0, 0.0, 100.0, 100.0);
    s.add_curve(teardrop(pt(30.0, 50.0), 60.0, 30.0));
    square(&mut s, 55.0, 46.0, 63.0, 54.0);
    let loops = s.trace_face(pt(10.0, 50.0)).unwrap();
    assert_eq!(loops.len(), 2, "the square is not part of this face");
    let f = s.add_fill(pt(10.0, 50.0), 3).unwrap();
    assert!(!inside(&s.fill_loops_flattened(f), pt(59.0, 50.0)));
    let within = s.trace_face(pt(45.0, 50.0)).unwrap();
    assert_eq!(within.len(), 2, "inside the drop it is a hole");
}

#[test]
fn no_half_edge_occurs_twice_in_a_face() {
    let mut s = Scene::new();
    s.set_snap_distance(1.0);
    square(&mut s, 0.0, 0.0, 100.0, 100.0);
    square(&mut s, 20.0, 20.0, 30.0, 30.0);
    square(&mut s, 60.0, 20.0, 70.0, 30.0);
    s.add_curve(teardrop(pt(20.0, 70.0), 40.0, 20.0));
    s.add_curve(line(pt(80.0, 80.0), pt(90.0, 90.0)));
    s.add_curve(line(pt(0.0, 50.0), pt(10.0, 55.0)));
    let loops = s.trace_face(pt(50.0, 5.0)).unwrap();
    assert_eq!(loops.len(), 5);
    let all: Vec<HalfEdge> = loops.iter().flatten().copied().collect();
    let distinct: HashSet<HalfEdge> = all.iter().copied().collect();
    assert_eq!(all.len(), distinct.len());
    let f = s.add_fill(pt(50.0, 5.0), 9).unwrap();
    let polys = s.fill_loops_flattened(f);
    assert!(area(&polys[0]) > 0.0);
    for poly in &polys[1..] {
        assert!(area(poly) < 1e-9, "{}", area(poly));
        assert!(!inside(&[poly.clone()], pt(50.0, 5.0)));
    }
}

#[test]
fn a_small_face_can_be_filled() {
    let mut s = Scene::new();
    let (a, side) = (pt(0.0, 0.0), 1.1e-3);
    let b = pt(side, 0.0);
    let c = pt(side / 2.0, side * 3f64.sqrt() / 2.0);
    s.add_curve(line(a, b));
    s.add_curve(line(b, c));
    s.add_curve(line(c, a));
    assert_eq!(s.curve_ids().count(), 3);
    let mid = pt(side / 2.0, side / 4.0);
    let f = s.add_fill(mid, 5).unwrap();
    assert_eq!(s.fill_at(mid), Some(f));
    // A spur alone encloses nothing, however long.
    let mut t = Scene::new();
    t.add_curve(line(pt(0.0, 0.0), pt(1.0e3, 0.1)));
    assert_eq!(t.trace_face(pt(-5.0, 0.05)), Err(FillError::NotEnclosed));
}

#[test]
fn a_crossing_beside_a_shared_vertex_is_cut() {
    let mut s = Scene::new();
    s.set_snap_distance(1.0);
    s.add_curve(line(pt(0.0, 0.0), pt(10.0, 0.0)));
    s.add_curve([pt(0.0, 0.0), pt(-10.0, 20.0), pt(2.0, 20.0), pt(0.36, -10.0)]);
    let ids: Vec<CurveId> = s.curve_ids().collect();
    assert_eq!(ids.len(), 3, "the line, the loop above it and the end below");
    // What crosses does so at a vertex that both curves end at.
    for &a in &ids {
        for &b in &ids {
            if a == b {
                continue;
            }
            let (ca, cb) = (s.curve(a), s.curve(b));
            for p in crossings(&s.curve_polyline(a), &s.curve_polyline(b)) {
                let shared = [ca.v0, ca.v1].into_iter().any(|v| {
                    let q = s.vertex_pos(v);
                    (v == cb.v0 || v == cb.v1) && (q.x - p.x).hypot(q.y - p.y) < 1.0
                });
                assert!(shared, "{p:?}");
            }
        }
    }
}

/// Where two polylines cross.
fn crossings(a: &[Point], b: &[Point]) -> Vec<Point> {
    let mut out = Vec::new();
    for s in a.windows(2) {
        for t in b.windows(2) {
            let (dx, dy) = (s[1].x - s[0].x, s[1].y - s[0].y);
            let (ex, ey) = (t[1].x - t[0].x, t[1].y - t[0].y);
            let det = dx * ey - dy * ex;
            if det == 0.0 {
                continue;
            }
            let (wx, wy) = (t[0].x - s[0].x, t[0].y - s[0].y);
            let (u, v) = ((wx * ey - wy * ex) / det, (wx * dy - wy * dx) / det);
            if (0.0..=1.0).contains(&u) && (0.0..=1.0).contains(&v) {
                out.push(pt(s[0].x + u * dx, s[0].y + u * dy));
            }
        }
    }
    out
}

#[test]
fn a_face_is_the_same_from_any_point_in_it() {
    let mut s = Scene::new();
    s.set_snap_distance(1.0);
    square(&mut s, 0.0, 0.0, 100.0, 100.0);
    square(&mut s, 20.0, 20.0, 30.0, 30.0);
    s.add_curve(teardrop(pt(50.0, 60.0), 40.0, 20.0));
    let first = s.trace_face(pt(5.0, 5.0)).unwrap();
    assert_eq!(first.len(), 3);
    for p in [pt(95.0, 5.0), pt(5.0, 95.0), pt(95.0, 95.0), pt(40.0, 25.0), pt(45.0, 60.0)] {
        let loops = s.trace_face(p).unwrap();
        assert_eq!(loops[1..], first[1..], "{p:?}");
        let (a, b) = (&loops[0], &first[0]);
        let turn = b.iter().position(|he| *he == a[0]).unwrap();
        let turned: Vec<HalfEdge> = b[turn..].iter().chain(&b[..turn]).copied().collect();
        assert_eq!(*a, turned, "{p:?}");
    }
}

#[test]
fn a_kept_fill_keeps_its_boundary() {
    let mut s = Scene::new();
    s.set_snap_distance(1.0);
    square(&mut s, 0.0, 0.0, 50.0, 50.0);
    s.add_curve(line(pt(50.0, 0.0), pt(100.0, 0.0)));
    s.add_curve(line(pt(100.0, 0.0), pt(100.0, 50.0)));
    s.add_curve(line(pt(100.0, 50.0), pt(50.0, 50.0)));
    square(&mut s, 10.0, 10.0, 30.0, 30.0);
    square(&mut s, 15.0, 15.0, 25.0, 25.0);
    let kept = s.add_fill(pt(5.0, 5.0), 1).unwrap();
    let other = s.add_fill(pt(75.0, 25.0), 2).unwrap();
    let walls = |s: &Scene| s.0.fill_slots()[kept.0 as usize].as_ref().unwrap().loops.clone();
    let before = walls(&s);
    let polys = s.fill_loops_flattened(kept);
    assert_eq!(polys.len(), 2);
    // The shared wall is copied; the innermost square goes altogether.
    let inner: HashSet<CurveId> = s
        .curve_ids()
        .filter(|&c| s.curve_points(c).iter().all(|p| (15.0..=25.0).contains(&p.x) && (15.0..=25.0).contains(&p.y)))
        .collect();
    assert_eq!(inner.len(), 4);
    s.extract(&inner, &HashSet::from([other]));
    assert_eq!(s.fill_ids().collect::<Vec<_>>(), vec![kept]);
    assert_eq!(walls(&s), before);
    assert_eq!(s.fill_loops_flattened(kept), polys);
    assert!(inner.iter().all(|c| s.curve_ids().all(|d| d != *c)));
}

#[test]
fn rendered_points_are_points_of_the_flattened_curve() {
    let mut s = snappy();
    s.set_flatten_tolerance(1e-3);
    let pts = [pt(0.0, 0.0), pt(10.0, 90.0), pt(80.0, -60.0), pt(60.0, 40.0)];
    let c = s.add_curve(pts)[0];
    let flat = from_all(uvec::flatten_cubic(&calc(), into4(s.curve_points(c)), s.0.flatten_tolerance()));
    let mut rest = flat.iter();
    for p in s.curve_polyline(c) {
        assert!(rest.any(|q| *q == p), "{p:?} in order");
    }
    assert!(s.curve_polyline(c).len() < flat.len());
}

#[test]
fn vertices_are_apart_after_an_edit_of_a_crooked_scene() {
    let mut s = snappy();
    s.add_curve(line(pt(0.0, 0.0), pt(100.0, 0.0)));
    let c = s.add_curve(line(pt(0.0, 40.0), pt(100.0, 40.0)))[0];
    // Left crossing: the second line now passes through the first.
    s.set_vertex_position(s.curve(c).v1, pt(100.0, -40.0)).unwrap();
    s.add_curve(line(pt(1.0, 41.0), pt(101.0, -1.0)));
    s.add_curve(line(pt(99.0, 1.0), pt(99.0, -39.0)));
    let vs: Vec<Point> = s.vertex_ids().map(|v| s.vertex_pos(v)).collect();
    for (i, a) in vs.iter().enumerate() {
        for b in &vs[..i] {
            assert!((a.x - b.x).hypot(a.y - b.y) >= 2.0, "{a:?} {b:?}");
        }
    }
}

#[test]
fn the_nearest_curve_is_found_at_any_scale() {
    let unit = 1e-7;
    let mut s = Scene::new();
    s.set_snap_distance(0.01 * unit);
    let c = s.add_curve(line(pt(0.0, 0.0), pt(2.0 * unit, 0.0)))[0];
    let hit = s.nearest_curve(pt(1.5 * unit, unit)).unwrap();
    assert_eq!(hit.curve, c);
    assert!((hit.t - 0.75).abs() < 1e-9, "{hit:?}");
    assert!((hit.dist - unit).abs() < 1e-9 * unit, "{hit:?}");
}

#[test]
fn a_painted_point_shows_its_paint() {
    let mut s = Scene::new();
    s.set_snap_distance(1.0);
    square(&mut s, 0.0, 0.0, 100.0, 100.0);
    square(&mut s, 40.0, 40.0, 60.0, 60.0);
    for (p, paint) in [(pt(10.0, 10.0), 1), (pt(50.0, 50.0), 2), (pt(90.0, 90.0), 3)] {
        s.add_fill(p, paint).unwrap();
        let f = s.fill_at(p).unwrap();
        assert_eq!(s.fill_payload(f), paint);
    }
    assert_eq!(s.fill_ids().count(), 2, "the last one painted the first face anew");
}

#[test]
fn fill_boundaries_and_deletion() {
    let mut s = Scene::new();
    s.set_snap_distance(1.0);
    square(&mut s, 0.0, 0.0, 100.0, 100.0);
    square(&mut s, 200.0, 0.0, 300.0, 100.0);
    let f = s.add_fill(pt(50.0, 50.0), 7).unwrap();
    let g = s.add_fill(pt(250.0, 50.0), 8).unwrap();
    let walls = s.fill_boundary_curves(f);
    assert_eq!(walls.len(), 4);
    assert!(walls.windows(2).all(|w| w[0] < w[1]));
    s.delete_curve(walls[2]).unwrap();
    assert_eq!(s.fill_ids().collect::<Vec<_>>(), vec![g], "only the fill behind that wall goes");
    assert_eq!(s.fill_payload(g), 8);
    assert_eq!(s.add_fill(pt(50.0, 50.0), 9), Err(FillError::NotEnclosed));
    s.delete_fill(g).unwrap();
    assert_eq!(s.delete_fill(g), Err(BadId));
    let h = s.add_fill(pt(250.0, 50.0), 10).unwrap();
    assert!(h > g, "a fill's id is not reused");
}

#[test]
fn recolouring_follows_fill_at() {
    let mut s = Scene::new();
    s.set_snap_distance(1.0);
    square(&mut s, 0.0, 0.0, 100.0, 100.0);
    let p = pt(20.0, 30.0);
    assert_eq!(s.fill_at(p), None);
    let f = s.add_fill(p, 1).unwrap();
    assert_eq!(s.fill_at(pt(90.0, 90.0)), Some(f));
    assert_eq!(s.add_fill(pt(90.0, 90.0), 2), Ok(f));
    assert_eq!(s.fill_payload(f), 2);
    assert_eq!(s.face_at(pt(150.0, 0.0)), None);
    assert_eq!(s.face_at(p).unwrap(), s.fill_loops_flattened(f));
}

#[test]
fn nearest_within_a_radius() {
    let mut s = snappy();
    assert_eq!(s.nearest_vertex(pt(0.0, 0.0)), None);
    assert!(s.nearest_curve(pt(0.0, 0.0)).is_none());
    let c = s.add_curve(halves(pt(0.0, 0.0), pt(100.0, 0.0)))[0];
    let k = calc();
    let p = into(pt(50.0, 30.0));
    let hit = s.nearest_curve(pt(50.0, 30.0)).unwrap();
    assert_eq!(hit, CurveHit { curve: c, t: 0.5, point: pt(50.0, 0.0), dist: 30.0 });
    assert!(s.0.nearest_curve_within(&k, p, num(30.0)).is_some());
    assert!(s.0.nearest_curve_within(&k, p, num(29.9)).is_none());
    let q = into(pt(3.0, 4.0));
    let v = s.curve(c).v0;
    assert_eq!(s.0.nearest_vertex_within(&k, q, num(5.0)), Ok(Some((v, num(5.0)))));
    assert_eq!(s.0.nearest_vertex_within(&k, q, num(4.0)), Ok(None));
}

#[test]
fn extraction_maps_and_completes() {
    let mut b = Scene::new();
    b.set_snap_distance(1.0);
    let f1 = filled_square(&mut b, 10.0, 10.0, 40.0, 40.0, 11);
    let f2 = filled_square(&mut b, 60.0, 10.0, 90.0, 40.0, 22);
    let walls = b.fill_boundary_curves(f2);
    let shapes: Vec<[Point; 4]> = walls.iter().map(|&c| b.curve_points(c)).collect();
    // The fill alone brings its walls along.
    let (a, cmap, fmap) = b.extract(&HashSet::new(), &HashSet::from([f2, FillId(77)]));
    assert_eq!(fmap, vec![(f2, FillId(0))]);
    assert_eq!(cmap.iter().map(|&(old, _)| old).collect::<Vec<_>>(), walls);
    for (i, &(_, new)) in cmap.iter().enumerate() {
        assert_eq!(a.curve_points(new), shapes[i]);
    }
    assert_eq!(a.fill_payload(FillId(0)), 22);
    assert_eq!(a.fill_boundary_curves(FillId(0)).len(), 4);
    assert_eq!(a.0.snap_distance(), num(1.0));
    assert_eq!(b.fill_ids().collect::<Vec<_>>(), vec![f1]);
    assert!(walls.iter().all(|&c| !b.0.is_curve(c)));
    assert_planar(&a, 1.0);
    // And back again, beside the other.
    let (cback, fback) = b.merge(&a, pt(0.0, 50.0));
    assert_eq!(cback.len(), 4);
    assert_eq!(fback, vec![(FillId(0), FillId(2))]);
    assert_eq!(b.fill_payload(FillId(2)), 22);
    assert_eq!(b.fill_at(pt(75.0, 75.0)), Some(FillId(2)));
    assert_planar(&b, 1.0);
}

#[test]
fn merging_keeps_tags() {
    let mut a = snappy();
    a.add_curve_tagged(halves(pt(0.0, 0.0), pt(100.0, 0.0)), 1);
    let mut b = snappy();
    b.add_curve_tagged(halves(pt(0.0, -50.0), pt(0.0, 50.0)), 2);
    a.merge(&b, pt(50.0, 0.0));
    assert_eq!(a.curve_ids().filter(|&c| a.curve_tag(c) == 1).count(), 2);
    assert_eq!(a.curve_ids().filter(|&c| a.curve_tag(c) == 2).count(), 2);
    assert_eq!(a.vertex_ids().count(), 5);
}

// ---- faults ----

#[test]
fn values_without_a_number_are_a_fault() {
    let k = calc();
    let mut s = snappy();
    s.add_curve(halves(pt(0.0, 0.0), pt(100.0, 0.0)));
    let nan = into(pt(f64::NAN, 0.0));
    assert_eq!(s.0.nearest_vertex(&k, nan), Err(Fault::NotANumber));
    let before: Vec<CurveId> = s.curve_ids().collect();
    let bad = into4(halves(pt(50.0, 0.0), pt(f64::NAN, 50.0)));
    assert_eq!(s.0.add_curve(&k, bad), Err(Fault::NotANumber));
    assert_eq!(s.curve_ids().collect::<Vec<_>>(), before, "the scene stays as it was");
    assert_eq!(s.vertex_ids().count(), 2);
}

/// A scene of `n` loops too small to keep.
fn specks(n: usize) -> uvec::Scene {
    let o = into(pt(0.0, 0.0));
    let speck = Curve { v0: VertexId(0), c0: o, c1: o, v1: VertexId(0), tag: 0 };
    uvec::Scene::from_slots(vec![Some(o)], vec![Some(speck); n], vec![], num(1.0), num(0.1))
        .unwrap()
}

#[test]
fn a_scene_that_does_not_settle_is_a_fault() {
    let mut s = specks(99_999);
    assert_eq!(s.commit(&calc()), Ok(()));
    assert!(s.curve_ids().is_empty() && s.vertex_ids().is_empty());
    let mut t = specks(100_000);
    assert_eq!(t.commit(&calc()), Err(Fault::Unsettled));
    assert_eq!(t.curve_ids().len(), 100_000, "the scene stays as it was");
}

#[test]
fn one_vertex_needs_no_order() {
    let k = calc();
    let slots = vec![Some(into(pt(f64::NAN, 1.0)))];
    let s = uvec::Scene::from_slots(slots, vec![], vec![], num(1.0), num(0.1)).unwrap();
    let (v, d) = s.nearest_vertex(&k, into(pt(0.0, 0.0))).unwrap().unwrap();
    assert_eq!(v, VertexId(0));
    assert!(d.is_nan());
}

// ---- slots ----

type Spot = (u64, u64);
type Slots = (
    Vec<Option<Spot>>,
    Vec<Option<(u32, Spot, Spot, u32, u64)>>,
    Vec<Option<(u64, Spot, Vec<Vec<(u32, bool)>>)>>,
    (u64, u64),
);

fn spot(p: uvec::Point) -> Spot {
    (p.x.to_bits(), p.y.to_bits())
}

fn unspot(p: Spot) -> uvec::Point {
    uvec::Point::new(Scalar::from_bits(p.0), Scalar::from_bits(p.1))
}

fn to_slots(s: &Scene) -> Slots {
    (
        s.0.vertex_slots().iter().map(|v| v.map(spot)).collect(),
        s.0.curve_slots()
            .iter()
            .map(|c| c.map(|c| (c.v0.0, spot(c.c0), spot(c.c1), c.v1.0, c.tag)))
            .collect(),
        s.0.fill_slots()
            .iter()
            .map(|f| {
                f.as_ref().map(|f| {
                    let loops = f.loops.iter();
                    let loops = loops.map(|lp| lp.iter().map(|&(c, b)| (c.0, b)).collect());
                    (f.payload, spot(f.anchor), loops.collect())
                })
            })
            .collect(),
        (s.0.snap_distance().to_bits(), s.0.flatten_tolerance().to_bits()),
    )
}

fn from_slots(slots: Slots) -> Option<Scene> {
    let (verts, curves, fills, (snap, tol)) = slots;
    let curve = |(v0, c0, c1, v1, tag): (u32, Spot, Spot, u32, u64)| Curve {
        v0: VertexId(v0),
        c0: unspot(c0),
        c1: unspot(c1),
        v1: VertexId(v1),
        tag,
    };
    let fill = |(payload, anchor, loops): (u64, Spot, Vec<Vec<(u32, bool)>>)| FillData {
        payload,
        anchor: unspot(anchor),
        loops: loops
            .into_iter()
            .map(|lp| lp.into_iter().map(|(c, b)| (CurveId(c), b)).collect())
            .collect(),
    };
    uvec::Scene::from_slots(
        verts.into_iter().map(|v| v.map(unspot)).collect(),
        curves.into_iter().map(|c| c.map(curve)).collect(),
        fills.into_iter().map(|f| f.map(fill)).collect(),
        Scalar::from_bits(snap),
        Scalar::from_bits(tol),
    )
    .map(Scene)
}

#[test]
fn scene_round_trips_through_json() {
    let mut s = Scene::new();
    s.set_snap_distance(1.0);
    square(&mut s, 0.0, 0.0, 100.0, 100.0);
    // tagged crossing stroke (exercises curve payload + split provenance)
    s.add_curve_tagged(line(Point::new(-10.0, 50.0), Point::new(110.0, 50.0)), 7);
    let fill = s.add_fill(Point::new(25.0, 25.0), 0xABCD).unwrap();

    let json = serde_json::to_string(&to_slots(&s)).unwrap();
    let back: Slots = serde_json::from_str(&json).unwrap();
    assert_eq!(back, to_slots(&s));
    let s2: Scene = from_slots(back).unwrap();

    // Structure preserved.
    assert_eq!(s2.curve_ids().count(), s.curve_ids().count());
    assert_eq!(s2.vertex_ids().count(), s.vertex_ids().count());
    assert_eq!(s2.fill_ids().count(), s.fill_ids().count());

    // Fill payload + geometry preserved (same FillId).
    assert_eq!(s2.fill_payload(fill), 0xABCD);
    assert_eq!(
        s2.fill_loops_flattened(fill).len(),
        s.fill_loops_flattened(fill).len()
    );

    // Curve payloads preserved: the tag-7 stroke split into pieces, all still 7.
    let tagged = s2.curve_ids().filter(|&c| s2.curve_tag(c) == 7).count();
    assert!(tagged >= 2, "tagged stroke survived split with its payload, got {tagged}");

    // The scene put together is still live: further ops work and keep invariants.
    let mut s3 = s2;
    s3.add_curve(line(Point::new(50.0, -10.0), Point::new(50.0, 110.0)));
    assert!(s3.fill_ids().count() >= 1);
}

#[test]
fn slots_out_of_order_are_refused() {
    let mut s = Scene::new();
    s.set_snap_distance(1.0);
    let f = filled_square(&mut s, 0.0, 0.0, 100.0, 100.0, 1);
    assert_eq!(f, FillId(0));
    let good = to_slots(&s);
    // A curve that ends at a dead vertex.
    let mut bad = good.clone();
    let v = s.curve(s.curve_ids().next().unwrap()).v0;
    bad.0[v.0 as usize] = None;
    assert!(from_slots(bad).is_none());
    // A fill along a dead curve.
    let mut bad = good.clone();
    bad.1[s.fill_boundary_curves(f)[0].0 as usize] = None;
    assert!(from_slots(bad).is_none());
    assert!(from_slots(good).is_some());
}

#[test]
fn painting_twice_paints_one_fill() {
    let mut s = snappy();
    let corners = [pt(0.0, 0.0), pt(60.0, 0.0), pt(60.0, 60.0), pt(0.0, 60.0)];
    for i in 0..4 {
        s.add_curve(halves(corners[i], corners[(i + 1) % 4]));
    }
    let face = s.face_at(pt(20.0, 30.0)).unwrap();
    let f = s.add_fill(pt(20.0, 30.0), 7).unwrap();
    assert_eq!(s.fill_loops_flattened(f), face);
    assert_eq!(s.fill_at(pt(20.0, 30.0)), Some(f));
    assert_eq!(s.add_fill(pt(20.0, 30.0), 8), Ok(f));
    assert_eq!(s.fill_payload(f), 8);
    assert_eq!(s.fill_ids().collect::<Vec<_>>(), vec![f]);
    assert_eq!(s.fill_loops_flattened(f), face);
}

#[test]
fn a_level_step_stays_in_a_face() {
    let mut s = snappy();
    let corners = [pt(0.0, 0.0), pt(60.0, 0.0), pt(60.0, 60.0), pt(0.0, 60.0)];
    for i in 0..4 {
        s.add_curve(halves(corners[i], corners[(i + 1) % 4]));
    }
    let inner = [pt(20.0, 20.0), pt(40.0, 20.0), pt(30.0, 40.0)];
    for i in 0..3 {
        s.add_curve(halves(inner[i], inner[(i + 1) % 3]));
    }
    let face = s.trace_face(pt(3.0, 50.0)).unwrap();
    assert_eq!(face.len(), 2);
    for x in [1.0, 10.0, 30.0, 59.0] {
        assert_eq!(s.trace_face(pt(x, 50.0)).unwrap(), face);
    }
    // A step over the triangle comes out in the same face, seen from elsewhere.
    let other = s.trace_face(pt(50.0, 30.0)).unwrap();
    let sets = |f: &Vec<Vec<HalfEdge>>| -> Vec<HashSet<HalfEdge>> {
        f.iter().map(|lp| lp.iter().copied().collect()).collect()
    };
    assert_eq!(sets(&other), sets(&face));
    assert_ne!(sets(&s.trace_face(pt(30.0, 30.0)).unwrap()), sets(&face));
    assert_eq!(s.trace_face(pt(70.0, 50.0)), s.trace_face(pt(90.0, 50.0)));
}

/// Strokes between the points of a coarse grid, each up to `off` away from it:
/// many of them overlap.
fn grid_strokes(seed: u64, snap: f64, off: f64) {
    let mut rng = StdRng::seed_from_u64(seed);
    let mut s = Scene::new();
    s.set_snap_distance(snap);
    for n in 0..14 {
        let mut c = || {
            let (x, y) = (rng.gen_range(0..7) as f64, rng.gen_range(0..7) as f64);
            pt(x * 8.0 + off * rng.gen_range(-1.0..1.0), y * 8.0 + off * rng.gen_range(-1.0..1.0))
        };
        let (a, b, d, e) = (c(), c(), c(), c());
        s.add_curve(if n % 4 == 3 { [a, d, e, b] } else { halves(a, b) });
    }
    assert_planar(&s, snap);
}

#[test]
fn strokes_along_a_grid_are_welded() {
    for seed in 0..24 {
        grid_strokes(seed, [1.0, 0.5, 2.0][seed as usize % 3], 0.0);
    }
}

#[test]
fn strokes_close_to_a_grid_are_welded() {
    for seed in 0..24 {
        grid_strokes(seed, [1.0, 0.5, 2.0][seed as usize % 3], 0.5);
    }
}

#[test]
fn a_kept_fill_stays() {
    let square = |s: &mut Scene, x: f64, y: f64, side: f64| -> Vec<CurveId> {
        let c = [pt(x, y), pt(x + side, y), pt(x + side, y + side), pt(x, y + side)];
        (0..4).flat_map(|i| s.add_curve(halves(c[i], c[(i + 1) % 4]))).collect()
    };
    let mut s = snappy();
    square(&mut s, 0.0, 0.0, 90.0);
    let island = square(&mut s, 40.0, 30.0, 30.0);
    let apart = square(&mut s, 120.0, 0.0, 50.0);
    let kept = s.add_fill(pt(10.0, 50.0), 1).unwrap();
    let inner = s.add_fill(pt(50.0, 50.0), 2).unwrap();
    let loops = s.fill_loops_flattened(kept);
    assert_eq!(loops.len(), 2);
    // The island's walls stay with the fill around it, whoever takes them.
    let mut taken: HashSet<CurveId> = apart.into_iter().collect();
    taken.extend(island);
    let (sub, _, _) = s.extract(&taken, &HashSet::from([inner]));
    assert_eq!(s.fill_ids().collect::<Vec<_>>(), vec![kept]);
    assert_eq!(s.fill_payload(kept), 1);
    assert_eq!(s.fill_loops_flattened(kept), loops);
    assert_eq!(s.curve_ids().count(), 8);
    assert_eq!(sub.curve_ids().count(), 8);
    assert_eq!(sub.fill_ids().count(), 1);
}
