//! A minimal vector-graphics data model: a planar arrangement of cubic bezier
//! curves with face-based fills. Curves never cross: intersections are resolved
//! by splitting curves and snapping nearby vertices together.
//!
//! The library holds no floating-point arithmetic of its own. A number is a
//! [`Scalar`], the bits of an IEEE double; comparing numbers is done here, and
//! the six operations of [`Op`] come from the caller, wrapped in a [`Calc`].

pub mod around;
pub mod calc;
pub mod cuts;
pub mod effects;
pub mod error;
pub mod face;
pub mod fill;
pub mod finds;
pub mod geom;
pub mod graft;
pub mod graph;
pub mod ink;
pub mod integrate;
pub mod islands;
pub mod kept;
pub mod laws;
pub mod lineage;
pub mod locate;
pub mod meets;
pub mod order;
pub mod parts;
pub mod pipeline;
pub mod planar;
pub mod point;
pub mod query;
pub mod ringed;
pub mod scalar;
pub mod scene;
pub mod shape;
pub mod subgraph;
pub mod walk;

pub use calc::{Calc, Op};
pub use error::{BadId, Fault, FillError};
pub use fill::FillData;
pub use geom::flatten_cubic;
pub use graph::{Curve, CurveId, FillId, VertexId};
pub use point::Point;
pub use query::CurveHit;
pub use scalar::Scalar;
pub use scene::Scene;
pub use walk::HalfEdge;
