//! Patch / window indexing engine for N-dimensional sliding-window
//! operations: geometry from kernel shape, stride, dilation and padding;
//! partition of the output space into one valid hyper-rectangle and
//! disjoint invalid shells; and per-output-position tap iterators.
use vstd::prelude::*;

pub mod arith;
pub mod geometry;
pub mod model;
pub mod iter;
pub mod laws;
pub mod patch;
pub mod zones;

verus! {

/// Marker for the axis-change optimisation pass. The pass itself walks a
/// dataflow graph owned by the surrounding optimiser and is not part of the
/// indexing engine.
#[derive(Debug)]
pub struct ChangeAxes;

} // verus!
