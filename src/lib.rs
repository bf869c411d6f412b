//! The discrete core of a path tracer: the bookkeeping and split choices of a
//! bounding volume hierarchy built by the surface area heuristic, the walk
//! over it for one ray, the bounce-cap decisions of the path integrator, how
//! the image is cut into bands of rows, and which face of a surface a ray hits.
//!
//! Geometry and colour are floating-point work and stay with the caller, who
//! hands this library order keys and outcomes and takes its decisions back.
use vstd::prelude::*;

pub mod bvh;
pub mod hittable;
pub mod integrator;
pub mod render;
pub mod traversal;

verus! {

} // verus!
