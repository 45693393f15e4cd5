//! One simulation step: the five phases of a tick, in order, and the
//! guarantees that hold across any number of ticks.

use vstd::prelude::*;
use crate::config::Config;
use crate::forces::spec_adjust;
use crate::forces::lemma_adjust_upto_props;
use crate::repulse::spec_repulse;
use crate::growth::spec_grow;
use crate::growth::spec_split;
use crate::growth::lemma_split_upto_props;
use crate::integrate::spec_move;
use crate::state::State;
use crate::state::Model;

verus! {

/// One whole tick: the counter advances (sticking at its ceiling), then
/// stick forces, repulsion, growth, subdivision and integration run in
/// order.
pub open spec fn spec_tick(m: Model) -> Model {
    let m1 = Model { time: if m.time < i32::MAX { m.time + 1 } else { m.time }, ..m };
    spec_move(spec_split(spec_grow(spec_repulse(spec_adjust(m1)))))
}

impl State {
    /// Advance the simulation exactly one step. The node, edge and face
    /// arrays never shrink, and the tick counter never goes back: the
    /// structure only grows.
    pub fn tick(&mut self)
        requires
            old(self).wf(),
        ensures
            final(self).wf(),
            final(self)@ == spec_tick(old(self)@),
            final(self)@.nodes.len() >= old(self)@.nodes.len(),
            final(self)@.edges.len() >= old(self)@.edges.len(),
            final(self)@.tris.len() >= old(self)@.tris.len(),
            final(self)@.time >= old(self)@.time,
            final(self)@.cfg == old(self)@.cfg,
    {
        let ghost m0 = self@;
        let ghost m1 = Model { time: if m0.time < i32::MAX { m0.time + 1 } else { m0.time }, ..m0 };
        if self.time < i32::MAX {
            self.time = self.time + 1;
        }
        proof {
            assert(self@ == m1);
        }
        self.adjust();
        self.push_multi();
        self.edge_grow();
        self.edge_split();
        self.move_things();
        proof {
            let ma = spec_adjust(m1);
            lemma_adjust_upto_props(m1, m1.edges.len() as int);
            let mr = spec_repulse(ma);
            let mg = spec_grow(mr);
            lemma_split_upto_props(mg, mg.edges.len() as int);
        }
    }
}

/// Seed a standard ring of ten nodes and run one hundred ticks.
pub fn just_once() {
    let cfg = Config::standard();
    let mut state = State::init(cfg);
    state.start(10);
    let mut i: usize = 0;
    while i < 100
        invariant
            state.wf(),
        decreases 100 - i,
    {
        state.tick();
        i = i + 1;
    }
}

} // verus!
