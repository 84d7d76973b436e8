//! Points and displacements.

use vstd::prelude::*;

use crate::calc::{minus, plus, times, Arith, Calc, Op};
use crate::scalar::Scalar;

verus! {

/// A 2D point in scene coordinates.
#[derive(Clone, Copy, Debug, PartialEq, Eq, Structural)]
pub struct Point {
    pub x: Scalar,
    pub y: Scalar,
}

impl Point {
    /// Equality of both coordinates as numbers.
    pub open spec fn spec_same(self, other: Point) -> bool {
        self.x.spec_same(other.x) && self.y.spec_same(other.y)
    }

    pub fn new(x: Scalar, y: Scalar) -> (r: Point)
        ensures
            r == (Point { x, y }),
    {
        Point { x, y }
    }

    /// Equality of both coordinates as numbers.
    pub fn same(self, other: Point) -> (r: bool)
        ensures
            r == self.spec_same(other),
    {
        self.x.same(other.x) && self.y.same(other.y)
    }

    /// `self + o`, coordinate by coordinate.
    pub fn plus<F: Fn(Op, Scalar, Scalar) -> Scalar>(self, k: &Calc<F>, o: Point) -> (r: Point)
        requires
            k.wf(),
        ensures
            r == spec_plus(k@, self, o),
    {
        Point { x: k.plus(self.x, o.x), y: k.plus(self.y, o.y) }
    }

    /// `self - o`, coordinate by coordinate.
    pub fn minus<F: Fn(Op, Scalar, Scalar) -> Scalar>(self, k: &Calc<F>, o: Point) -> (r: Point)
        requires
            k.wf(),
        ensures
            r == spec_minus(k@, self, o),
    {
        Point { x: k.minus(self.x, o.x), y: k.minus(self.y, o.y) }
    }

    /// `self * s`, coordinate by coordinate.
    pub fn times<F: Fn(Op, Scalar, Scalar) -> Scalar>(self, k: &Calc<F>, s: Scalar) -> (r: Point)
        requires
            k.wf(),
        ensures
            r == spec_times(k@, self, s),
    {
        Point { x: k.times(self.x, s), y: k.times(self.y, s) }
    }
}

pub open spec fn spec_plus(ar: Arith, a: Point, b: Point) -> Point {
    Point { x: plus(ar, a.x, b.x), y: plus(ar, a.y, b.y) }
}

pub open spec fn spec_minus(ar: Arith, a: Point, b: Point) -> Point {
    Point { x: minus(ar, a.x, b.x), y: minus(ar, a.y, b.y) }
}

pub open spec fn spec_times(ar: Arith, a: Point, s: Scalar) -> Point {
    Point { x: times(ar, a.x, s), y: times(ar, a.y, s) }
}

} // verus!
