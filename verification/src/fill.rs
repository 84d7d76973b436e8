//! Fills: the faces that have been painted, and keeping them up to date.

use vstd::prelude::*;

use crate::calc::{Arith, Calc, Op};
use crate::error::{BadId, Fault, FillError};
use crate::face::{face_of, law_face_encloses_point, loops_live};
use crate::graph::{curve_live, graph_wf, pick, Arrangement, Curve, CurveId, FillId, Graph};
use crate::islands::blank;
use crate::locate::{crossings_of_all, deep, in_polyline, in_polylines, point_in_polylines};
use crate::point::Point;
use crate::scalar::Scalar;
use crate::scene::{copy_loops, Model, Scene};
use crate::walk::{loop_live, loop_poly, HalfEdge};

verus! {

/// A stored fill.
pub struct FillData {
    /// Opaque caller payload. The library never interprets it.
    pub payload: u64,
    /// The point that the fill was made at.
    pub anchor: Point,
    /// The face's boundary: its outer loop, then its holes.
    pub loops: Vec<Vec<HalfEdge>>,
}

/// What a stored fill holds.
#[verifier::ext_equal]
pub struct Fill {
    pub payload: u64,
    pub anchor: Point,
    pub loops: Seq<Seq<HalfEdge>>,
}

impl FillData {
    pub open spec fn view(&self) -> Fill {
        Fill { payload: self.payload, anchor: self.anchor, loops: deep(self.loops@) }
    }
}

/// What a list of fill slots holds.
pub open spec fn fills_view(fills: Seq<Option<FillData>>) -> Seq<Option<Fill>> {
    fills.map_values(
        |f: Option<FillData>|
            match f {
                None => None,
                Some(d) => Some(d@),
            },
    )
}

pub open spec fn fill_live(m: Model, id: FillId) -> bool {
    id.0 < m.fills.len() && m.fills[id.0 as int] is Some
}

pub open spec fn fill_of(m: Model, id: FillId) -> Fill {
    m.fills[id.0 as int]->0
}

/// Every loop of every live fill runs along live curves.
pub open spec fn fills_wf(g: Graph, fills: Seq<Option<Fill>>) -> bool {
    &&& fills.len() <= u32::MAX
    &&& forall|i: int|
        0 <= i < fills.len() && (#[trigger] fills[i]) is Some ==> loops_live(
            g,
            (fills[i]->0).loops,
        )
}

/// The polylines of a list of loops.
pub open spec fn loop_polys(ar: Arith, g: Graph, loops: Seq<Seq<HalfEdge>>) -> Seq<Seq<Point>> {
    loops.map_values(|lp: Seq<HalfEdge>| loop_poly(ar, g, lp))
}

/// `p` is inside the fill, by the even-odd rule over all its loops together.
pub open spec fn in_fill(ar: Arith, g: Graph, f: Fill, p: Point) -> bool {
    in_polylines(ar, p, loop_polys(ar, g, f.loops))
}

proof fn lemma_odd_once(ar: Arith, p: Point, polys: Seq<Seq<Point>>, n: int)
    requires
        1 <= n <= polys.len(),
        in_polyline(ar, p, polys[0]),
        forall|i: int| 1 <= i < polys.len() ==> !in_polyline(ar, p, #[trigger] polys[i]),
    ensures
        crossings_of_all(ar, p, polys, n) % 2 == 1,
    decreases n,
{
    if n > 1 {
        lemma_odd_once(ar, p, polys, n - 1);
        assert(!in_polyline(ar, p, polys[n - 1]));
    } else {
        assert(crossings_of_all(ar, p, polys, 0) == 0);
    }
}

/// A face covers the point that it was traced at.
pub proof fn law_face_covers_point(ar: Arith, g: Graph, p: Point, payload: u64)
    requires
        graph_wf(g),
    ensures
        face_of(ar, g, p) matches Ok(Ok(loops)) ==> in_fill(
            ar,
            g,
            Fill { payload, anchor: p, loops },
            p,
        ),
{
    law_face_encloses_point(ar, g, p);
    if let Ok(Ok(loops)) = face_of(ar, g, p) {
        let polys = loop_polys(ar, g, loops);
        assert forall|i: int| 1 <= i < polys.len() implies !in_polyline(
            ar,
            p,
            #[trigger] polys[i],
        ) by {
            assert(!in_polyline(ar, p, loop_poly(ar, g, loops[i])));
        }
        lemma_odd_once(ar, p, polys, polys.len() as int);
    }
}

/// The first live fill from the `i`-th slot on that covers `p`.
pub open spec fn fill_hit(ar: Arith, m: Model, p: Point, i: int) -> Option<FillId>
    decreases m.fills.len() - i,
{
    if i >= m.fills.len() {
        None
    } else if m.fills[i] is Some && in_fill(ar, m.g, m.fills[i]->0, p) {
        Some(FillId(i as u32))
    } else {
        fill_hit(ar, m, p, i + 1)
    }
}

/// The ids below `n` of the live fills, in ascending order.
pub open spec fn fills_below(fills: Seq<Option<Fill>>, n: int) -> Seq<FillId>
    decreases n,
{
    if n <= 0 {
        Seq::empty()
    } else {
        let rest = fills_below(fills, n - 1);
        if fills[n - 1] is Some {
            rest.push(FillId((n - 1) as u32))
        } else {
            rest
        }
    }
}

pub open spec fn fill_ids_of(m: Model) -> Seq<FillId> {
    fills_below(m.fills, m.fills.len() as int)
}

/// The curve occurs in one of the loops.
pub open spec fn bounds(loops: Seq<Seq<HalfEdge>>, c: CurveId) -> bool {
    exists|i: int, j: int|
        0 <= i < loops.len() && 0 <= j < loops[i].len() && (#[trigger] loops[i][j]).0 == c
}

pub open spec fn bounding(loops: Seq<Seq<HalfEdge>>) -> spec_fn(CurveId, Curve) -> bool {
    |id: CurveId, c: Curve| bounds(loops, id)
}

/// One fill held against the arrangement: its loops are the face that contains
/// its anchor, and where that is not enclosed it is gone. Its payload and
/// anchor stay.
pub open spec fn refill(ar: Arith, g: Graph, f: Option<Fill>) -> Result<Option<Fill>, Fault> {
    match f {
        None => Ok(None),
        Some(fill) => match face_of(ar, g, fill.anchor) {
            Err(e) => Err(e),
            Ok(Err(_)) => Ok(None),
            Ok(Ok(loops)) => Ok(Some(Fill { loops, ..fill })),
        },
    }
}

/// The first `n` fills held against the arrangement.
pub open spec fn refilled_below(ar: Arith, g: Graph, fills: Seq<Option<Fill>>, n: int) -> Result<
    Seq<Option<Fill>>,
    Fault,
>
    decreases n,
{
    if n <= 0 {
        Ok(Seq::empty())
    } else {
        match refilled_below(ar, g, fills, n - 1) {
            Err(e) => Err(e),
            Ok(before) => match refill(ar, g, fills[n - 1]) {
                Err(e) => Err(e),
                Ok(f) => Ok(before.push(f)),
            },
        }
    }
}

/// All fills held against the arrangement.
pub open spec fn refilled(ar: Arith, g: Graph, fills: Seq<Option<Fill>>) -> Result<
    Seq<Option<Fill>>,
    Fault,
> {
    refilled_below(ar, g, fills, fills.len() as int)
}

proof fn lemma_refilled_below(ar: Arith, g: Graph, fills: Seq<Option<Fill>>, n: int)
    requires
        graph_wf(g),
        0 <= n <= fills.len(),
    ensures
        refilled_below(ar, g, fills, n) matches Ok(now) ==> now.len() == n && forall|i: int|
            #![trigger now[i]]
            0 <= i < n ==> refill(ar, g, fills[i]) == Ok::<Option<Fill>, Fault>(now[i]) && (
            now[i] matches Some(f) ==> loops_live(g, f.loops)),
    decreases n,
{
    if n > 0 {
        lemma_refilled_below(ar, g, fills, n - 1);
        if let Some(f) = fills[n - 1] {
            law_face_encloses_point(ar, g, f.anchor);
        }
        if let Ok(now) = refilled_below(ar, g, fills, n) {
            let before = refilled_below(ar, g, fills, n - 1)->Ok_0;
            assert forall|i: int| #![trigger now[i]] 0 <= i < n implies refill(ar, g, fills[i])
                == Ok::<Option<Fill>, Fault>(now[i]) && (now[i] matches Some(f) ==> loops_live(
                g,
                f.loops,
            )) by {
                if i < n - 1 {
                    assert(now[i] == before[i]);
                }
            }
        }
    }
}

/// Fills that have been held against the arrangement are in order, each is the
/// face that contains its anchor, with its payload and anchor as before, and
/// no fill comes back.
pub proof fn law_refilled(ar: Arith, g: Graph, fills: Seq<Option<Fill>>)
    requires
        graph_wf(g),
        fills.len() <= u32::MAX,
    ensures
        refilled(ar, g, fills) matches Ok(now) ==> {
            &&& now.len() == fills.len()
            &&& fills_wf(g, now)
            &&& forall|i: int|
                #![trigger now[i]]
                0 <= i < now.len() ==> match now[i] {
                    Some(f) => {
                        &&& fills[i] is Some
                        &&& f.payload == (fills[i]->0).payload
                        &&& f.anchor == (fills[i]->0).anchor
                        &&& face_of(ar, g, f.anchor) == Ok::<
                            Result<Seq<Seq<HalfEdge>>, FillError>,
                            Fault,
                        >(Ok(f.loops))
                    },
                    None => fills[i] is None || face_of(ar, g, (fills[i]->0).anchor) == Ok::<
                        Result<Seq<Seq<HalfEdge>>, FillError>,
                        Fault,
                    >(Err(FillError::NotEnclosed)),
                }
        },
{
    lemma_refilled_below(ar, g, fills, fills.len() as int);
    if let Ok(now) = refilled(ar, g, fills) {
        assert forall|i: int| #![trigger now[i]] 0 <= i < now.len() implies match now[i] {
            Some(f) => {
                &&& fills[i] is Some
                &&& f.payload == (fills[i]->0).payload
                &&& f.anchor == (fills[i]->0).anchor
                &&& face_of(ar, g, f.anchor) == Ok::<Result<Seq<Seq<HalfEdge>>, FillError>, Fault>(
                    Ok(f.loops),
                )
            },
            None => fills[i] is None || face_of(ar, g, (fills[i]->0).anchor) == Ok::<
                Result<Seq<Seq<HalfEdge>>, FillError>,
                Fault,
            >(Err(FillError::NotEnclosed)),
        } by {
            assert(refill(ar, g, fills[i]) == Ok::<Option<Fill>, Fault>(now[i]));
            if let Some(fill) = fills[i] {
                if let Ok(Err(e)) = face_of(ar, g, fill.anchor) {
                    assert(e == FillError::NotEnclosed);
                }
            }
        }
    }
}

impl Arrangement {
    /// The polylines of a list of loops.
    pub(crate) fn fill_polys<F: Fn(Op, Scalar, Scalar) -> Scalar>(
        &self,
        k: &Calc<F>,
        loops: &Vec<Vec<HalfEdge>>,
    ) -> (r: Vec<Vec<Point>>)
        requires
            k.wf(),
            graph_wf(self@),
            loops_live(self@, deep(loops@)),
        ensures
            deep(r@) == loop_polys(k@, self@, deep(loops@)),
    {
        let ghost want = loop_polys(k@, self@, deep(loops@));
        let mut out: Vec<Vec<Point>> = Vec::new();
        let n: usize = loops.len();
        let mut i: usize = 0;
        assert(deep(out@) =~= want.take(0));
        while i < n
            invariant
                k.wf(),
                graph_wf(self@),
                loops_live(self@, deep(loops@)),
                i <= n == loops@.len(),
                want == loop_polys(k@, self@, deep(loops@)),
                deep(out@) == want.take(i as int),
            decreases n - i,
        {
            assert(deep(loops@)[i as int] == loops@[i as int]@);
            let ghost before = out@;
            let poly = self.loop_polyline(k, &loops[i]);
            out.push(poly);
            i = i + 1;
            assert(deep(out@) =~= deep(before).push(poly@));
            assert(want.take(i as int) =~= want.take(i - 1).push(want[i - 1]));
        }
        assert(want.take(n as int) =~= want);
        out
    }

    /// The loops that every fill should have, or none where the fill is to go.
    /// Empty slots stay empty.
    pub(crate) fn retrace<F: Fn(Op, Scalar, Scalar) -> Scalar>(
        &self,
        k: &Calc<F>,
        fills: &Vec<Option<FillData>>,
    ) -> (r: Result<Vec<Option<FillData>>, Fault>)
        requires
            k.wf(),
            graph_wf(self@),
        ensures
            match r {
                Err(e) => refilled(k@, self@, fills_view(fills@)) == Err::<
                    Seq<Option<Fill>>,
                    Fault,
                >(e),
                Ok(now) => refilled(k@, self@, fills_view(fills@)) == Ok::<
                    Seq<Option<Fill>>,
                    Fault,
                >(fills_view(now@)),
            },
    {
        let ghost all = fills_view(fills@);
        let mut out: Vec<Option<FillData>> = Vec::new();
        let n: usize = fills.len();
        let mut i: usize = 0;
        assert(fills_view(out@) =~= Seq::<Option<Fill>>::empty());
        while i < n
            invariant
                k.wf(),
                graph_wf(self@),
                i <= n == fills@.len(),
                all == fills_view(fills@),
                refilled_below(k@, self@, all, i as int) == Ok::<Seq<Option<Fill>>, Fault>(
                    fills_view(out@),
                ),
            decreases n - i,
        {
            let ghost before = out@;
            let ghost f = fills@[i as int];
            assert(all[i as int] == match f {
                None => None::<Fill>,
                Some(d) => Some(d@),
            });
            proof {
                lemma_refill_fault(k@, self@, all, i + 1, n as int);
            }
            let next = match &fills[i] {
                None => None,
                Some(d) => match self.trace_face(k, d.anchor) {
                    Err(e) => {
                        return Err(e);
                    },
                    Ok(Err(_)) => None,
                    Ok(Ok(loops)) => Some(FillData { payload: d.payload, anchor: d.anchor, loops }),
                },
            };
            out.push(next);
            i = i + 1;
            assert(fills_view(out@) =~= fills_view(before).push(
                match next {
                    None => None::<Fill>,
                    Some(d) => Some(d@),
                },
            ));
        }
        Ok(out)
    }
}

/// Once there is a fault, more fills do not mend it.
proof fn lemma_refill_fault(ar: Arith, g: Graph, fills: Seq<Option<Fill>>, i: int, n: int)
    requires
        0 <= i <= n,
    ensures
        refilled_below(ar, g, fills, i) is Err ==> refilled_below(ar, g, fills, n)
            == refilled_below(ar, g, fills, i),
    decreases n - i,
{
    if i < n {
        lemma_refill_fault(ar, g, fills, i, n - 1);
    }
}

// ---- painting ----

/// The scene after a fill at `p`: if `p` is inside an existing fill, that has
/// the new payload; else the face that contains `p` is a new fill.
pub open spec fn painted(ar: Arith, m: Model, p: Point, payload: u64) -> Result<
    Result<(Model, FillId), FillError>,
    Fault,
> {
    match fill_hit(ar, m, p, 0) {
        Some(id) => Ok(
            Ok(
                (
                    Model {
                        fills: m.fills.update(
                            id.0 as int,
                            Some(Fill { payload, ..fill_of(m, id) }),
                        ),
                        ..m
                    },
                    id,
                ),
            ),
        ),
        None => match face_of(ar, m.g, p) {
            Err(e) => Err(e),
            Ok(Err(e)) => Ok(Err(e)),
            Ok(Ok(loops)) => Ok(
                Ok(
                    (
                        Model { fills: m.fills.push(Some(Fill { payload, anchor: p, loops })), ..m },
                        FillId(m.fills.len() as u32),
                    ),
                ),
            ),
        },
    }
}

/// What is found is a live fill that covers the point, and no earlier one does.
pub proof fn lemma_fill_hit(ar: Arith, m: Model, p: Point, i: int)
    requires
        0 <= i <= m.fills.len() <= u32::MAX,
    ensures
        match fill_hit(ar, m, p, i) {
            Some(id) => {
                &&& i <= id.0
                &&& fill_live(m, id)
                &&& in_fill(ar, m.g, fill_of(m, id), p)
                &&& forall|j: int|
                    i <= j < id.0 && (#[trigger] m.fills[j]) is Some ==> !in_fill(
                        ar,
                        m.g,
                        m.fills[j]->0,
                        p,
                    )
            },
            None => forall|j: int|
                i <= j < m.fills.len() && (#[trigger] m.fills[j]) is Some ==> !in_fill(
                    ar,
                    m.g,
                    m.fills[j]->0,
                    p,
                ),
        },
    decreases m.fills.len() - i,
{
    if i < m.fills.len() {
        if m.fills[i] is Some && in_fill(ar, m.g, m.fills[i]->0, p) {
        } else {
            lemma_fill_hit(ar, m, p, i + 1);
        }
    }
}

impl Scene {
    /// Op 2: attempt to add a fill at `p`, tagged with an opaque `payload`. If
    /// `p` is already inside an existing fill, that fill's payload is updated
    /// instead. Fails when the face containing `p` is unbounded.
    pub fn add_fill<F: Fn(Op, Scalar, Scalar) -> Scalar>(
        &mut self,
        k: &Calc<F>,
        p: Point,
        payload: u64,
    ) -> (r: Result<Result<FillId, FillError>, Fault>)
        requires
            k.wf(),
            old(self).wf(),
            old(self)@.fills.len() < u32::MAX,
        ensures
            final(self).wf(),
            match painted(k@, old(self)@, p, payload) {
                Err(e) => r == Err::<Result<FillId, FillError>, Fault>(e) && final(self)@ == old(self)@,
                Ok(Err(e)) => r == Ok::<Result<FillId, FillError>, Fault>(Err(e)) && final(self)@
                    == old(self)@,
                Ok(Ok((m, id))) => r == Ok::<Result<FillId, FillError>, Fault>(Ok(id)) && final(self)@ == m,
            },
    {
        let ghost m = self@;
        proof {
            lemma_fill_hit(k@, m, p, 0);
            law_face_encloses_point(k@, m.g, p);
        }
        if let Some(id) = self.fill_at(k, p) {
            let i: usize = id.0 as usize;
            assert(m.fills[i as int] is Some);
            if let Some(d) = &self.fills[i] {
                let loops = copy_loops(&d.loops);
                let anchor = d.anchor;
                self.fills.set(i, Some(FillData { payload, anchor, loops }));
                assert(self@.fills =~= m.fills.update(
                    i as int,
                    Some(Fill { payload, ..fill_of(m, id) }),
                ));
            }
            return Ok(Ok(id));
        }
        match self.arr.trace_face(k, p) {
            Err(e) => Err(e),
            Ok(Err(e)) => Ok(Err(e)),
            Ok(Ok(loops)) => {
                let id = FillId(self.fills.len() as u32);
                let ghost lps = deep(loops@);
                self.fills.push(Some(FillData { payload, anchor: p, loops }));
                assert(self@.fills =~= m.fills.push(
                    Some(Fill { payload, anchor: p, loops: lps }),
                ));
                Ok(Ok(id))
            },
        }
    }

    /// Whether the scene has ids left for one more fill.
    pub fn has_fill_room(&self) -> (r: bool)
        ensures
            r == (self@.fills.len() < u32::MAX),
    {
        (self.fills.len() as u64) < u32::MAX as u64
    }

    /// Op 4: delete a fill.
    pub fn delete_fill(&mut self, id: FillId) -> (r: Result<(), BadId>)
        requires
            old(self).wf(),
        ensures
            final(self).wf(),
            if fill_live(old(self)@, id) {
                &&& r == Ok::<(), BadId>(())
                &&& final(self)@ == (Model {
                    fills: old(self)@.fills.update(id.0 as int, None),
                    ..old(self)@
                })
            } else {
                r == Err::<(), BadId>(BadId) && final(self)@ == old(self)@
            },
    {
        let ghost m = self@;
        if !self.is_fill(id) {
            return Err(BadId);
        }
        self.fills.set(id.0 as usize, None);
        assert(self@.fills =~= m.fills.update(id.0 as int, None));
        Ok(())
    }

    pub fn is_fill(&self, id: FillId) -> (r: bool)
        ensures
            r == fill_live(self@, id),
    {
        (id.0 as usize) < self.fills.len() && self.fills[id.0 as usize].is_some()
    }

    /// The ids of the live fills, in ascending order.
    pub fn fill_ids(&self) -> (r: Vec<FillId>)
        requires
            self.wf(),
        ensures
            r@ == fill_ids_of(self@),
    {
        let mut out: Vec<FillId> = Vec::new();
        let n: usize = self.fills.len();
        let mut i: usize = 0;
        while i < n
            invariant
                i <= n == self@.fills.len() <= u32::MAX,
                n == self.fills@.len(),
                out@ == fills_below(self@.fills, i as int),
            decreases n - i,
        {
            assert(self@.fills[i as int] is Some <==> self.fills@[i as int] is Some);
            if self.fills[i].is_some() {
                out.push(FillId(i as u32));
            }
            i = i + 1;
        }
        out
    }

    /// The opaque payload of a fill.
    pub fn fill_payload(&self, id: FillId) -> (r: u64)
        requires
            fill_live(self@, id),
        ensures
            r == fill_of(self@, id).payload,
    {
        match &self.fills[id.0 as usize] {
            Some(d) => d.payload,
            None => 0,
        }
    }

    /// The distinct curves that bound a fill (outer loop and any holes), in
    /// ascending order.
    pub fn fill_boundary_curves(&self, id: FillId) -> (r: Vec<CurveId>)
        requires
            self.wf(),
            fill_live(self@, id),
        ensures
            r@ == pick(
                self@.g.curves,
                bounding(fill_of(self@, id).loops),
                self@.g.curves.len() as int,
            ),
    {
        let ghost g = self@.g;
        let ghost loops = fill_of(self@, id).loops;
        let n: usize = self.arr.curves.len();
        let mut bits = blank(n);
        proof {
            assert(self@.fills[id.0 as int] is Some);
            assert(self@.fills[id.0 as int] == Some(self.fills@[id.0 as int]->0@));
        }
        if let Some(d) = &self.fills[id.0 as usize] {
            mark_loops(&d.loops, &mut bits, Ghost(g));
        }
        let mut out: Vec<CurveId> = Vec::new();
        let mut i: usize = 0;
        while i < n
            invariant
                i <= n == g.curves.len() <= u32::MAX,
                self@.g == g,
                bits@.len() == n,
                forall|x: int|
                    #![trigger bits@[x]]
                    0 <= x < n ==> (bits@[x] <==> bounds(loops, CurveId(x as u32))),
                out@ == pick(g.curves, bounding(loops), i as int),
            decreases n - i,
        {
            let b = bits[i];
            if b && self.arr.curves[i].is_some() {
                out.push(CurveId(i as u32));
            }
            i = i + 1;
        }
        out
    }

    /// The fill's boundary loops as closed polylines (outer loop first, then
    /// holes), flattened with the scene tolerance. Render with the even-odd
    /// rule over all loops together.
    pub fn fill_loops_flattened<F: Fn(Op, Scalar, Scalar) -> Scalar>(&self, k: &Calc<F>, id: FillId) -> (r:
        Vec<Vec<Point>>)
        requires
            k.wf(),
            self.wf(),
            fill_live(self@, id),
        ensures
            deep(r@) == loop_polys(k@, self@.g, fill_of(self@, id).loops),
    {
        proof {
            assert(self@.fills[id.0 as int] is Some);
            assert(self@.fills[id.0 as int] == Some(self.fills@[id.0 as int]->0@));
        }
        match &self.fills[id.0 as usize] {
            Some(d) => self.arr.fill_polys(k, &d.loops),
            None => Vec::new(),
        }
    }

    /// The fill currently covering `p`: the same point-location test that
    /// `add_fill` uses to decide a recolor.
    pub fn fill_at<F: Fn(Op, Scalar, Scalar) -> Scalar>(&self, k: &Calc<F>, p: Point) -> (r: Option<
        FillId,
    >)
        requires
            k.wf(),
            self.wf(),
        ensures
            r == fill_hit(k@, self@, p, 0),
    {
        let n: usize = self.fills.len();
        let mut i: usize = 0;
        while i < n
            invariant
                k.wf(),
                self.wf(),
                i <= n == self@.fills.len() <= u32::MAX,
                n == self.fills@.len(),
                fill_hit(k@, self@, p, 0) == fill_hit(k@, self@, p, i as int),
            decreases n - i,
        {
            let id = FillId(i as u32);
            if self.is_fill(id) {
                let polys = self.fill_loops_flattened(k, id);
                if point_in_polylines(k, p, &polys) {
                    return Some(id);
                }
            }
            i = i + 1;
        }
        None
    }
}

/// Marks the curves of all loops.
pub(crate) fn mark_loops(loops: &Vec<Vec<HalfEdge>>, bits: &mut Vec<bool>, Ghost(g): Ghost<Graph>)
    requires
        loops_live(g, deep(loops@)),
        graph_wf(g),
        old(bits)@.len() == g.curves.len(),
    ensures
        final(bits)@.len() == g.curves.len(),
        forall|x: int|
            #![trigger final(bits)@[x]]
            0 <= x < g.curves.len() ==> (final(bits)@[x] <==> old(bits)@[x] || bounds(
                deep(loops@),
                CurveId(x as u32),
            )),
{
    let ghost d = deep(loops@);
    let ghost start = bits@;
    let n: usize = loops.len();
    let mut i: usize = 0;
    while i < n
        invariant
            i <= n == loops@.len(),
            d == deep(loops@),
            loops_live(g, d),
            graph_wf(g),
            bits@.len() == g.curves.len() == start.len(),
            forall|x: int|
                #![trigger bits@[x]]
                0 <= x < g.curves.len() ==> (bits@[x] <==> start[x] || bounds(
                    d.take(i as int),
                    CurveId(x as u32),
                )),
        decreases n - i,
    {
        let lp = &loops[i];
        assert(d[i as int] == lp@);
        assert(loop_live(g, d[i as int]));
        let ghost before = bits@;
        let m: usize = lp.len();
        let mut j: usize = 0;
        while j < m
            invariant
                j <= m == lp@.len(),
                loop_live(g, lp@),
                graph_wf(g),
                bits@.len() == g.curves.len() == before.len(),
                forall|x: int|
                    #![trigger bits@[x]]
                    0 <= x < g.curves.len() ==> (bits@[x] <==> before[x] || exists|b: int|
                        0 <= b < j && (#[trigger] lp@[b]).0 == CurveId(x as u32)),
            decreases m - j,
        {
            let ghost mid = bits@;
            assert(curve_live(g, lp@[j as int].0));
            bits.set(lp[j].0.0 as usize, true);
            assert forall|x: int| #![trigger bits@[x]] 0 <= x < g.curves.len() implies (bits@[x]
                <==> before[x] || exists|b: int|
                0 <= b < j + 1 && (#[trigger] lp@[b]).0 == CurveId(x as u32)) by {
                if mid[x] && !before[x] {
                    let b = choose|b: int|
                        0 <= b < j && (#[trigger] lp@[b]).0 == CurveId(x as u32);
                    assert(lp@[b].0 == CurveId(x as u32));
                }
                if lp@[j as int].0 == CurveId(x as u32) {
                    assert(bits@[x]);
                } else {
                    assert(bits@[x] == mid[x]);
                }
            }
            j = j + 1;
        }
        let ghost t0 = d.take(i as int);
        let ghost t1 = d.take(i + 1);
        assert forall|x: int| #![trigger bits@[x]] 0 <= x < g.curves.len() implies (bits@[x]
            <==> start[x] || bounds(t1, CurveId(x as u32))) by {
            let c = CurveId(x as u32);
            if bounds(t0, c) {
                let (a, b) = choose|a: int, b: int|
                    0 <= a < t0.len() && 0 <= b < t0[a].len() && (#[trigger] t0[a][b]).0 == c;
                assert(t1[a][b].0 == c);
            }
            if exists|b: int| 0 <= b < m && (#[trigger] lp@[b]).0 == c {
                let b = choose|b: int| 0 <= b < m && (#[trigger] lp@[b]).0 == c;
                assert(t1[i as int][b].0 == c);
            }
            if bounds(t1, c) {
                let (a, b) = choose|a: int, b: int|
                    0 <= a < t1.len() && 0 <= b < t1[a].len() && (#[trigger] t1[a][b]).0 == c;
                if a < i {
                    assert(t0[a][b].0 == c);
                } else {
                    assert(lp@[b].0 == c);
                }
            }
        }
        i = i + 1;
    }
    assert(d.take(n as int) =~= d);
}

} // verus!
