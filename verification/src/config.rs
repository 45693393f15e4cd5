//! Tunable parameters of the simulation, gathered in one structure that is
//! handed to the constructor, so that runs and tests can vary them.
//!
//! Lengths and speeds are in milli-units; the gain factors (`stick_k`,
//! `avoid_k`) and the damping ratio are per-mille. The well-formedness
//! predicate [`Config::wf`] bounds every field so that all derived
//! arithmetic in the engine stays in range.

use vstd::prelude::*;

verus! {

#[derive(Clone, Copy, PartialEq, Eq, Structural, Debug)]
pub struct Config {
    /// Spring gain of the stick force, per-mille.
    pub stick_k: i64,
    /// Gain of the short-range repulsion force, per-mille.
    pub avoid_k: i64,
    /// Velocity damping ratio, `damp_num / damp_den`, applied every tick.
    pub damp_num: i64,
    pub damp_den: i64,
    /// Rest length at which an edge stops growing and may subdivide.
    pub max_len: i64,
    /// Cell radius of the spatial index and the crowding radius.
    pub close_dist: i64,
    /// Range of the repulsion force; at most `close_dist`.
    pub push_dist: i64,
    /// Rest-length growth per tick when fully crowded.
    pub grow_speed: i64,
    /// Rest-length growth per tick when uncrowded.
    pub max_speed: i64,
    /// Downward pull per tick on trunk nodes.
    pub gravity: i64,
    /// Height above which a node sheds its trunk flag.
    pub grav_top: i64,
    /// A node whose `dead` counter exceeds this no longer yields to pushes.
    pub too_dead: i64,
    /// Crowding count above which both endpoints must sit for growth to stop.
    pub too_crowded: usize,
    /// Crowding threshold is raised by this much above `grav_top`.
    pub crowd_raise: usize,
    /// Crowding count below which growth jumps straight to `max_speed`.
    pub min_crowd: usize,
    /// The first this many nodes are anchored: no gravity, no vertical drift.
    pub trunk_shield: usize,
    /// Node counts below this skip the chunked repulsion pass.
    pub small_count: usize,
    /// Number of chunks the repulsion pass is split into.
    pub num_chunks: usize,
}

impl Config {
    /// Field bounds under which every computation of the engine fits in
    /// its integer type.
    pub open spec fn wf(self) -> bool {
        &&& 0 <= self.stick_k <= 1000
        &&& 0 <= self.avoid_k <= 1000
        &&& 0 <= self.damp_num <= self.damp_den
        &&& 1 <= self.damp_den <= 1000
        &&& 4 <= self.max_len <= 1_000_000
        &&& 1 <= self.close_dist <= 1_000_000
        &&& 0 <= self.push_dist <= self.close_dist
        &&& 0 <= self.grow_speed <= 1_000_000
        &&& self.grow_speed <= self.max_speed <= 1_000_000
        &&& 0 <= self.gravity <= 1_000_000
        &&& -crate::POS_LIMIT <= self.grav_top <= crate::POS_LIMIT
        &&& self.min_crowd < self.too_crowded
        &&& self.too_crowded + self.crowd_raise <= 1_000_000
        &&& 1 <= self.num_chunks <= 1_000_000
    }

    /// The standard parameter set, as a spec value.
    pub open spec fn spec_standard() -> Config {
        Config {
            stick_k: 90,
            avoid_k: 20,
            damp_num: 750,
            damp_den: 1000,
            max_len: 500,
            close_dist: 2000,
            push_dist: 800,
            grow_speed: 10,
            max_speed: 20,
            gravity: 10,
            grav_top: 10_000,
            too_dead: 100,
            too_crowded: 34,
            crowd_raise: 20,
            min_crowd: 5,
            trunk_shield: 10,
            small_count: 40,
            num_chunks: 10,
        }
    }

    /// The standard parameter set.
    pub fn standard() -> (r: Config)
        ensures
            r == Config::spec_standard(),
            r.wf(),
    {
        Config {
            stick_k: 90,
            avoid_k: 20,
            damp_num: 750,
            damp_den: 1000,
            max_len: 500,
            close_dist: 2000,
            push_dist: 800,
            grow_speed: 10,
            max_speed: 20,
            gravity: 10,
            grav_top: 10_000,
            too_dead: 100,
            too_crowded: 34,
            crowd_raise: 20,
            min_crowd: 5,
            trunk_shield: 10,
            small_count: 40,
            num_chunks: 10,
        }
    }
}

} // verus!
