//! The integrator: once the forces of a tick are accumulated, every node
//! applies gravity (if it is a trunk node outside the anchored root),
//! damps its velocity, moves, and ages.
//!
//! The first `trunk_shield` nodes are anchored: their vertical velocity is
//! zeroed instead. A trunk node that has risen above `grav_top` sheds its
//! trunk flag for good.

use vstd::prelude::*;
use crate::config::Config;
use crate::geom::V3;
use crate::geom::spec_clamp;
use crate::geom::spec_div_trunc;
use crate::geom::lemma_div_trunc_bound;
use crate::geom::div_trunc_i64;
use crate::geom::sat_add_i64;
use crate::geom::v3_sat_add;
use crate::state::State;
use crate::state::Model;
use crate::state::Node;
use crate::state::wf_model;
use crate::state::node_ok;
use crate::POS_LIMIT;
use crate::VEL_LIMIT;

verus! {

/// One node's integration step: the new node and its new velocity.
pub open spec fn spec_move_node(cfg: Config, i: int, nd: Node, v: V3) -> (Node, V3) {
    let sheds = i >= cfg.trunk_shield && nd.pos.y > cfg.grav_top;
    let trunk2 = if sheds { false } else { nd.trunk };
    let vy = if i < cfg.trunk_shield {
        0
    } else if trunk2 {
        spec_clamp(v.y + cfg.gravity, VEL_LIMIT as int)
    } else {
        v.y as int
    };
    let v2 = V3 {
        x: spec_div_trunc(v.x * cfg.damp_num, cfg.damp_den as int) as i64,
        y: spec_div_trunc(vy * cfg.damp_num, cfg.damp_den as int) as i64,
        z: spec_div_trunc(v.z * cfg.damp_num, cfg.damp_den as int) as i64,
    };
    let p2 = V3 {
        x: spec_clamp(nd.pos.x + v2.x, POS_LIMIT as int) as i64,
        y: spec_clamp(nd.pos.y + v2.y, POS_LIMIT as int) as i64,
        z: spec_clamp(nd.pos.z + v2.z, POS_LIMIT as int) as i64,
    };
    let age2 = if nd.age == usize::MAX {
        nd.age
    } else {
        (nd.age + 1) as usize
    };
    (Node { pos: p2, trunk: trunk2, age: age2, ..nd }, v2)
}

/// One integration step keeps position, velocity and links in range.
pub proof fn lemma_move_node_ok(cfg: Config, i: int, nd: Node, v: V3)
    requires
        cfg.wf(),
        nd.pos.in_range(POS_LIMIT as int),
        v.in_range(VEL_LIMIT as int),
    ensures
        spec_move_node(cfg, i, nd, v).1.in_range(VEL_LIMIT as int),
        spec_move_node(cfg, i, nd, v).0.pos.in_range(POS_LIMIT as int),
        spec_move_node(cfg, i, nd, v).0.left == nd.left,
        spec_move_node(cfg, i, nd, v).0.right == nd.right,
{
    let sheds = i >= cfg.trunk_shield && nd.pos.y > cfg.grav_top;
    let trunk2 = if sheds { false } else { nd.trunk };
    let vy = if i < cfg.trunk_shield {
        0
    } else if trunk2 {
        spec_clamp(v.y + cfg.gravity, VEL_LIMIT as int)
    } else {
        v.y as int
    };
    assert(-VEL_LIMIT <= vy <= VEL_LIMIT);
    assert(-(VEL_LIMIT as int) * cfg.damp_den <= v.x * cfg.damp_num <= (VEL_LIMIT as int) * cfg.damp_den) by (nonlinear_arith)
        requires
            -VEL_LIMIT <= v.x <= VEL_LIMIT,
            0 <= cfg.damp_num <= cfg.damp_den,
            1 <= cfg.damp_den,
    ;
    assert(-(VEL_LIMIT as int) * cfg.damp_den <= vy * cfg.damp_num <= (VEL_LIMIT as int) * cfg.damp_den) by (nonlinear_arith)
        requires
            -VEL_LIMIT <= vy <= VEL_LIMIT,
            0 <= cfg.damp_num <= cfg.damp_den,
            1 <= cfg.damp_den,
    ;
    assert(-(VEL_LIMIT as int) * cfg.damp_den <= v.z * cfg.damp_num <= (VEL_LIMIT as int) * cfg.damp_den) by (nonlinear_arith)
        requires
            -VEL_LIMIT <= v.z <= VEL_LIMIT,
            0 <= cfg.damp_num <= cfg.damp_den,
            1 <= cfg.damp_den,
    ;
    lemma_div_trunc_bound(v.x * cfg.damp_num, cfg.damp_den as int, VEL_LIMIT as int);
    lemma_div_trunc_bound(vy * cfg.damp_num, cfg.damp_den as int, VEL_LIMIT as int);
    lemma_div_trunc_bound(v.z * cfg.damp_num, cfg.damp_den as int, VEL_LIMIT as int);
}

/// The whole integration pass: every node steps independently.
pub open spec fn spec_move(m: Model) -> Model {
    Model {
        nodes: Seq::new(m.nodes.len(), |i: int| spec_move_node(m.cfg, i, m.nodes[i], m.vels[i]).0),
        vels: Seq::new(m.vels.len(), |i: int| spec_move_node(m.cfg, i, m.nodes[i], m.vels[i]).1),
        ..m
    }
}

impl State {
    /// Integrate all nodes: gravity on unshielded trunk nodes, damping,
    /// motion, ageing.
    pub fn move_things(&mut self)
        requires
            old(self).wf(),
        ensures
            final(self).wf(),
            final(self)@ == spec_move(old(self)@),
    {
        let ghost m0 = self@;
        let n = self.pts.len();
        let mut i: usize = 0;
        while i < n
            invariant
                wf_model(m0),
                n == m0.nodes.len(),
                i <= n,
                self.time == old(self).time,
                self.cfg == m0.cfg,
                self.edges@ == m0.edges,
                self.tris@ == m0.tris,
                self.pts@.len() == n,
                self.vels@.len() == n,
                forall|j: int| i <= j < n ==> #[trigger] self.pts@[j] == m0.nodes[j],
                forall|j: int| i <= j < n ==> #[trigger] self.vels@[j] == m0.vels[j],
                forall|j: int| 0 <= j < i ==> #[trigger] self.pts@[j] == spec_move_node(m0.cfg, j, m0.nodes[j], m0.vels[j]).0,
                forall|j: int| 0 <= j < i ==> #[trigger] self.vels@[j] == spec_move_node(m0.cfg, j, m0.nodes[j], m0.vels[j]).1,
            decreases n - i,
        {
            proof {
                assert(node_ok(m0.nodes[i as int], n as int));
                assert(m0.vels[i as int].in_range(VEL_LIMIT as int));
            }
            let nd = self.pts[i];
            let v = self.vels[i];
            let mut trunk2 = nd.trunk;
            if i >= self.cfg.trunk_shield && nd.pos.y > self.cfg.grav_top {
                trunk2 = false;
            }
            let vy: i64 = if i < self.cfg.trunk_shield {
                0
            } else if trunk2 {
                sat_add_i64(v.y, self.cfg.gravity, VEL_LIMIT)
            } else {
                v.y
            };
            proof {
                assert(-(VEL_LIMIT as int) * self.cfg.damp_den <= v.x * self.cfg.damp_num <= (VEL_LIMIT as int) * self.cfg.damp_den) by (nonlinear_arith)
                    requires
                        -VEL_LIMIT <= v.x <= VEL_LIMIT,
                        0 <= self.cfg.damp_num <= self.cfg.damp_den,
                        1 <= self.cfg.damp_den,
                ;
                assert(-(VEL_LIMIT as int) * self.cfg.damp_den <= vy * self.cfg.damp_num <= (VEL_LIMIT as int) * self.cfg.damp_den) by (nonlinear_arith)
                    requires
                        -VEL_LIMIT <= vy <= VEL_LIMIT,
                        0 <= self.cfg.damp_num <= self.cfg.damp_den,
                        1 <= self.cfg.damp_den,
                ;
                assert(-(VEL_LIMIT as int) * self.cfg.damp_den <= v.z * self.cfg.damp_num <= (VEL_LIMIT as int) * self.cfg.damp_den) by (nonlinear_arith)
                    requires
                        -VEL_LIMIT <= v.z <= VEL_LIMIT,
                        0 <= self.cfg.damp_num <= self.cfg.damp_den,
                        1 <= self.cfg.damp_den,
                ;
                lemma_div_trunc_bound(v.x * self.cfg.damp_num, self.cfg.damp_den as int, VEL_LIMIT as int);
                lemma_div_trunc_bound(vy * self.cfg.damp_num, self.cfg.damp_den as int, VEL_LIMIT as int);
                lemma_div_trunc_bound(v.z * self.cfg.damp_num, self.cfg.damp_den as int, VEL_LIMIT as int);
            }
            let v2 = V3 {
                x: div_trunc_i64(v.x * self.cfg.damp_num, self.cfg.damp_den),
                y: div_trunc_i64(vy * self.cfg.damp_num, self.cfg.damp_den),
                z: div_trunc_i64(v.z * self.cfg.damp_num, self.cfg.damp_den),
            };
            let p2 = v3_sat_add(nd.pos, v2, POS_LIMIT);
            let age2: usize = if nd.age == usize::MAX {
                nd.age
            } else {
                nd.age + 1
            };
            let nd2 = Node { pos: p2, trunk: trunk2, age: age2, ..nd };
            self.pts.set(i, nd2);
            self.vels.set(i, v2);
            proof {
                assert(self.pts@[i as int] == spec_move_node(m0.cfg, i as int, m0.nodes[i as int], m0.vels[i as int]).0);
                assert(self.vels@[i as int] == spec_move_node(m0.cfg, i as int, m0.nodes[i as int], m0.vels[i as int]).1);
            }
            i = i + 1;
        }
        proof {
            let m2 = spec_move(m0);
            assert(self@.nodes =~= m2.nodes);
            assert(self@.vels =~= m2.vels);
            assert(self@ == m2);
            assert forall|j: int| 0 <= j < self@.nodes.len() implies node_ok(
                #[trigger] self@.nodes[j],
                n as int,
            ) by {
                assert(node_ok(m0.nodes[j], n as int));
                lemma_move_node_ok(m0.cfg, j, m0.nodes[j], m0.vels[j]);
                assert(self@.nodes[j] == spec_move_node(m0.cfg, j, m0.nodes[j], m0.vels[j]).0);
            }
            assert forall|j: int| 0 <= j < self@.vels.len() implies (#[trigger] self@.vels[j]).in_range(
                VEL_LIMIT as int,
            ) by {
                assert(node_ok(m0.nodes[j], n as int));
                lemma_move_node_ok(m0.cfg, j, m0.nodes[j], m0.vels[j]);
                assert(self@.vels[j] == spec_move_node(m0.cfg, j, m0.nodes[j], m0.vels[j]).1);
            }
        }
    }
}

} // verus!
