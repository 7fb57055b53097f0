//! A piecewise-linear function y(x): a store of (domain key, range value)
//! control points, an evaluator that interpolates between the two points
//! bracketing a query (clamping outside the domain, zero when empty), and a
//! cursor that evaluates at consecutive domain positions.
//!
//! Domain keys are `i64`; range values are exact rationals ([`Rat`]), so the
//! interpolated value at every query is pinned down exactly by the contracts.

pub mod pwline;
pub mod rat;

pub use crate::pwline::PwLine;
pub use crate::pwline::PwLineIter;
pub use crate::pwline::POINT_BOUND;
pub use crate::rat::Rat;
pub use crate::rat::Ratg;
