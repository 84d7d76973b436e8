//! The arithmetic that the geometry is computed with.

use vstd::prelude::*;

use crate::scalar::Scalar;

verus! {

/// An operation on numbers. `Sqrt` looks at its first operand only; `Atan2`
/// takes the ordinate first.
#[derive(Clone, Copy, Debug, PartialEq, Eq, Structural)]
pub enum Op {
    Add,
    Sub,
    Mul,
    Div,
    Sqrt,
    Atan2,
}

/// What each operation yields.
pub type Arith = spec_fn(Op, Scalar, Scalar) -> Scalar;

/// A calculator: the arithmetic unit that every computed coordinate, length
/// and angle comes from. The library decides on the numbers; the unit, which
/// the caller supplies, works them out.
pub struct Calc<F> {
    pub unit: F,
    /// What the unit computes.
    pub ar: Ghost<Arith>,
}

/// The arithmetic that a unit computes which has one result for any operands.
pub open spec fn yield_of<F: Fn(Op, Scalar, Scalar) -> Scalar>(unit: F) -> Arith {
    |op: Op, a: Scalar, b: Scalar| choose|r: Scalar| call_ensures(unit, (op, a, b), r)
}

impl<F: Fn(Op, Scalar, Scalar) -> Scalar> Calc<F> {
    pub open spec fn view(&self) -> Arith {
        self.ar@
    }

    /// The unit takes every pair of operands and always gives what its
    /// arithmetic says.
    pub open spec fn wf(&self) -> bool {
        &&& forall|op: Op, a: Scalar, b: Scalar| #[trigger] call_requires(self.unit, (op, a, b))
        &&& forall|op: Op, a: Scalar, b: Scalar, r: Scalar| #[trigger]
            call_ensures(self.unit, (op, a, b), r) ==> r == (self@)(op, a, b)
    }

    /// A calculator with a unit that takes every pair of operands and always
    /// gives the same result for the same operands.
    pub fn new(unit: F) -> (r: Self)
        ensures
            r.unit == unit,
            r@ == yield_of(unit),
    {
        Calc { unit, ar: Ghost(yield_of(unit)) }
    }

    /// A calculator with a unit that is known to compute `ar`.
    pub fn exact(unit: F, Ghost(ar): Ghost<Arith>) -> (r: Self)
        requires
            forall|op: Op, a: Scalar, b: Scalar| #[trigger] call_requires(unit, (op, a, b)),
            forall|op: Op, a: Scalar, b: Scalar, r: Scalar| #[trigger]
                call_ensures(unit, (op, a, b), r) ==> r == ar(op, a, b),
        ensures
            r.unit == unit,
            r@ == ar,
            r.wf(),
    {
        Calc { unit, ar: Ghost(ar) }
    }

    /// The sum `a + b`.
    pub fn plus(&self, a: Scalar, b: Scalar) -> (r: Scalar)
        requires
            self.wf(),
        ensures
            r == plus(self@, a, b),
    {
        (self.unit)(Op::Add, a, b)
    }

    /// The difference `a - b`.
    pub fn minus(&self, a: Scalar, b: Scalar) -> (r: Scalar)
        requires
            self.wf(),
        ensures
            r == minus(self@, a, b),
    {
        (self.unit)(Op::Sub, a, b)
    }

    /// The product `a * b`.
    pub fn times(&self, a: Scalar, b: Scalar) -> (r: Scalar)
        requires
            self.wf(),
        ensures
            r == times(self@, a, b),
    {
        (self.unit)(Op::Mul, a, b)
    }

    /// The quotient `a / b`.
    pub fn over(&self, a: Scalar, b: Scalar) -> (r: Scalar)
        requires
            self.wf(),
        ensures
            r == over(self@, a, b),
    {
        (self.unit)(Op::Div, a, b)
    }

    /// The square root of `a`.
    pub fn root(&self, a: Scalar) -> (r: Scalar)
        requires
            self.wf(),
        ensures
            r == root(self@, a),
    {
        (self.unit)(Op::Sqrt, a, a)
    }

    /// The angle of the direction `(x, y)`.
    pub fn angle(&self, y: Scalar, x: Scalar) -> (r: Scalar)
        requires
            self.wf(),
        ensures
            r == angle(self@, y, x),
    {
        (self.unit)(Op::Atan2, y, x)
    }
}

/// The sum `a + b`.
pub open spec fn plus(ar: Arith, a: Scalar, b: Scalar) -> Scalar {
    ar(Op::Add, a, b)
}

/// The difference `a - b`.
pub open spec fn minus(ar: Arith, a: Scalar, b: Scalar) -> Scalar {
    ar(Op::Sub, a, b)
}

/// The product `a * b`.
pub open spec fn times(ar: Arith, a: Scalar, b: Scalar) -> Scalar {
    ar(Op::Mul, a, b)
}

/// The quotient `a / b`.
pub open spec fn over(ar: Arith, a: Scalar, b: Scalar) -> Scalar {
    ar(Op::Div, a, b)
}

/// The square root of `a`.
pub open spec fn root(ar: Arith, a: Scalar) -> Scalar {
    ar(Op::Sqrt, a, a)
}

/// The angle of the direction `(x, y)`.
pub open spec fn angle(ar: Arith, y: Scalar, x: Scalar) -> Scalar {
    ar(Op::Atan2, y, x)
}

/// A unit has one result for any operands, where all its results are what some
/// arithmetic yields.
pub proof fn law_unit_in_order<F: Fn(Op, Scalar, Scalar) -> Scalar>(unit: F, ar: Arith)
    requires
        forall|op: Op, a: Scalar, b: Scalar, r: Scalar| #[trigger]
            call_ensures(unit, (op, a, b), r) ==> r == ar(op, a, b),
    ensures
        forall|op: Op, a: Scalar, b: Scalar, r: Scalar| #[trigger]
            call_ensures(unit, (op, a, b), r) ==> r == (yield_of(unit))(op, a, b),
{
    assert forall|op: Op, a: Scalar, b: Scalar, r: Scalar| #[trigger]
        call_ensures(unit, (op, a, b), r) implies r == (yield_of(unit))(op, a, b) by {
        let c = choose|c: Scalar| call_ensures(unit, (op, a, b), c);
        assert(call_ensures(unit, (op, a, b), c));
    }
}

} // verus!
