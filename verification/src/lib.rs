//! Verified core of a 2D particle physics engine: base-5 quad-tree addressing,
//! a generic quad tree with lazy post-order iteration, particle id bookkeeping
//! and the plain-data side of the renderer.
use vstd::prelude::*;

pub mod math;
pub mod quad_tree;
pub mod particle;
pub mod ddvt;
pub mod world;
pub mod channel;
pub mod pool;
pub mod world_renderer;

verus! {

} // verus!
