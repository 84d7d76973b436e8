//! What can go wrong.

use vstd::prelude::*;

verus! {

/// Failure to add a fill.
#[derive(Clone, Copy, Debug, PartialEq, Eq, Structural)]
pub enum FillError {
    /// The point is not enclosed by curves (its face is unbounded).
    NotEnclosed,
}

/// The given id does not refer to a live object.
#[derive(Clone, Copy, Debug, PartialEq, Eq, Structural)]
pub struct BadId;

/// The geometry left an operation without an answer.
#[derive(Clone, Copy, Debug, PartialEq, Eq, Structural)]
pub enum Fault {
    /// Values had to be put in order, and one of them is not a number.
    NotANumber,
    /// The split/snap pipeline did not come to rest.
    Unsettled,
}

/// The outcome of an operation that yields a list.
pub open spec fn viewed<T>(r: Result<Vec<T>, Fault>) -> Result<Seq<T>, Fault> {
    match r {
        Ok(v) => Ok(v@),
        Err(e) => Err(e),
    }
}

} // verus!
