//! Exact core of a recursive ray tracer: integer-grid bounding boxes, the
//! median-split bounding volume hierarchy and its nearest-hit traversal, and
//! the checker-floor tiling rule.
use vstd::prelude::*;

pub mod aabb;
pub mod bvh;
pub mod checker;

verus! {

} // verus!
