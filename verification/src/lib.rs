//! A growth simulation: a mesh of point masses (nodes) joined by springs
//! (edges) that relaxes, repels itself, grows, and subdivides over discrete
//! ticks, producing a branching coral-like structure.
//!
//! All geometry is carried in fixed-point milli-units (one world unit is
//! 1000 milli-units), so every quantity is an integer and every step of the
//! physics is stated and proved exactly.

use vstd::prelude::*;

pub mod codec;
pub mod color;
pub mod config;
pub mod forces;
pub mod geom;
pub mod grid;
pub mod growth;
pub mod integrate;
pub mod raster;
pub mod repulse;
pub mod seed;
pub mod sim;
pub mod state;

verus! {

/// Largest magnitude a position coordinate can take, in milli-units.
/// Chosen so that a squared distance between any two in-range points,
/// summed over three axes, still fits in `i64`.
pub const POS_LIMIT: i64 = 800_000_000;

/// Largest magnitude a velocity coordinate can take, in milli-units per
/// tick. Force accumulation saturates here; the bound is far beyond
/// anything a run can reach.
pub const VEL_LIMIT: i64 = 1_000_000_000_000;

/// Largest rest length an edge can reach; growth saturates here.
pub const LEN_CAP: i64 = 2_000_000_000_000_000;

/// Largest measured edge length: above the distance between any two
/// in-range positions.
pub const CURLEN_CAP: i64 = 4_000_000_000;

} // verus!
