//! The stick (spring) force: every tick, each edge pulls or pushes its two
//! endpoints toward its rest length, and caches its measured length.
//!
//! Endpoints that coincide exactly get no impulse: a direction cannot be
//! taken from a zero vector, so the pair is skipped for that tick.

use vstd::prelude::*;
use crate::config::Config;
use crate::geom::V3;
use crate::geom::spec_clamp;
use crate::geom::spec_div_trunc;
use crate::geom::spec_dist;
use crate::geom::sqrt_floor;
use crate::geom::lemma_sqrt_floor;
use crate::geom::lemma_dist_bound;
use crate::geom::lemma_div_trunc_bound;
use crate::geom::v3_sub;
use crate::geom::v3_neg;
use crate::geom::v3_zero;
use crate::geom::v3_sat_add;
use crate::geom::dist_points;
use crate::geom::div_trunc_i64;
use crate::geom::div_trunc_i128;
use crate::state::State;
use crate::state::Model;
use crate::state::Edge;
use crate::state::wf_model;
use crate::state::edge_ok;
use crate::state::node_ok;
use crate::POS_LIMIT;
use crate::VEL_LIMIT;
use crate::LEN_CAP;
use crate::CURLEN_CAP;

verus! {

/// Largest magnitude a stick impulse component can take.
pub const STICK_IMPULSE_CAP: i64 = 1_100_000_000_000_000;

/// The impulse a stick pass adds to endpoint `a` of an edge from `pa` to
/// `pb` with rest length `len`; endpoint `b` receives its negation.
///
/// It is the unit vector from `a` to `b` (in per-mille), times the length
/// error `len - mag`, times the spring gain, divided down by the two
/// per-mille scales and the half split between the endpoints.
pub open spec fn spec_stick_impulse(cfg: Config, pa: V3, pb: V3, len: int) -> V3 {
    let mag = spec_dist(pa, pb);
    if mag == 0 {
        V3 { x: 0, y: 0, z: 0 }
    } else {
        let ux = spec_div_trunc((pb.x - pa.x) * 1000, mag);
        let uy = spec_div_trunc((pb.y - pa.y) * 1000, mag);
        let uz = spec_div_trunc((pb.z - pa.z) * 1000, mag);
        V3 {
            x: spec_div_trunc(-(ux * ((len - mag) * cfg.stick_k)), 2_000_000) as i64,
            y: spec_div_trunc(-(uy * ((len - mag) * cfg.stick_k)), 2_000_000) as i64,
            z: spec_div_trunc(-(uz * ((len - mag) * cfg.stick_k)), 2_000_000) as i64,
        }
    }
}

/// Executable stick impulse; also returns the measured length, exact per
/// [`spec_dist`].
pub fn stick_impulse(cfg: &Config, pa: V3, pb: V3, len: i64) -> (r: (V3, i64))
    requires
        cfg.wf(),
        pa.in_range(POS_LIMIT as int),
        pb.in_range(POS_LIMIT as int),
        0 < len <= LEN_CAP,
    ensures
        r.0 == spec_stick_impulse(*cfg, pa, pb, len as int),
        r.1 as int == spec_dist(pa, pb),
        0 <= r.1 <= CURLEN_CAP,
        r.0.in_range(STICK_IMPULSE_CAP as int),
{
    let mag: i64 = dist_points(pa, pb);
    if mag == 0 {
        return (v3_zero(), 0);
    }
    let d = v3_sub(pb, pa);
    proof {
        assert((pa.x - pb.x) * (pa.x - pb.x) == d.x * d.x) by (nonlinear_arith)
            requires
                d.x == pb.x - pa.x,
        ;
        assert((pa.y - pb.y) * (pa.y - pb.y) == d.y * d.y) by (nonlinear_arith)
            requires
                d.y == pb.y - pa.y,
        ;
        assert((pa.z - pb.z) * (pa.z - pb.z) == d.z * d.z) by (nonlinear_arith)
            requires
                d.z == pb.z - pa.z,
        ;
        assert(0 <= d.x * d.x && 0 <= d.y * d.y && 0 <= d.z * d.z) by (nonlinear_arith);
        let s = ((pa.x - pb.x) * (pa.x - pb.x)) + ((pa.y - pb.y) * (pa.y - pb.y)) + ((pa.z - pb.z) * (pa.z - pb.z));
        assert(s == d.x * d.x + d.y * d.y + d.z * d.z);
        lemma_sqrt_floor(s as nat);
        assert(mag as int == sqrt_floor(s as nat) as int);
        assert(mag * mag <= s);
        assert(s < (mag + 1) * (mag + 1));
        assert(-mag <= d.x <= mag && -mag <= d.y <= mag && -mag <= d.z <= mag) by (nonlinear_arith)
            requires
                d.x * d.x <= s,
                d.y * d.y <= s,
                d.z * d.z <= s,
                s < (mag + 1) * (mag + 1),
                0 <= mag,
                0 <= d.x * d.x,
                0 <= d.y * d.y,
                0 <= d.z * d.z,
        ;
        assert(-(mag * 1000) <= d.x * 1000 <= mag * 1000) by (nonlinear_arith)
            requires
                -mag <= d.x <= mag,
                0 <= mag,
        ;
        assert(-(mag * 1000) <= d.y * 1000 <= mag * 1000) by (nonlinear_arith)
            requires
                -mag <= d.y <= mag,
                0 <= mag,
        ;
        assert(-(mag * 1000) <= d.z * 1000 <= mag * 1000) by (nonlinear_arith)
            requires
                -mag <= d.z <= mag,
                0 <= mag,
        ;
        lemma_div_trunc_bound(d.x * 1000, mag as int, 1000);
        lemma_div_trunc_bound(d.y * 1000, mag as int, 1000);
        lemma_div_trunc_bound(d.z * 1000, mag as int, 1000);
    }
    let ux: i64 = div_trunc_i64(d.x * 1000, mag);
    let uy: i64 = div_trunc_i64(d.y * 1000, mag);
    let uz: i64 = div_trunc_i64(d.z * 1000, mag);
    proof {
        assert(-2_100_000_000_000_000_000i128 <= ((len as i128) - (mag as i128)) * (cfg.stick_k as i128) <= 2_100_000_000_000_000_000i128) by (nonlinear_arith)
            requires
                -4_000_000_001 <= (len as i128) - (mag as i128) <= 2_000_000_000_000_000i128,
                0 <= cfg.stick_k <= 1000,
        ;
    }
    let delta_k: i128 = ((len as i128) - (mag as i128)) * (cfg.stick_k as i128);
    proof {
        assert(-2_100_000_000_000_000_000_000i128 <= (ux as i128) * delta_k <= 2_100_000_000_000_000_000_000i128) by (nonlinear_arith)
            requires
                -1000 <= ux <= 1000,
                -2_100_000_000_000_000_000i128 <= delta_k <= 2_100_000_000_000_000_000i128,
        ;
        assert(-2_100_000_000_000_000_000_000i128 <= (uy as i128) * delta_k <= 2_100_000_000_000_000_000_000i128) by (nonlinear_arith)
            requires
                -1000 <= uy <= 1000,
                -2_100_000_000_000_000_000i128 <= delta_k <= 2_100_000_000_000_000_000i128,
        ;
        assert(-2_100_000_000_000_000_000_000i128 <= (uz as i128) * delta_k <= 2_100_000_000_000_000_000_000i128) by (nonlinear_arith)
            requires
                -1000 <= uz <= 1000,
                -2_100_000_000_000_000_000i128 <= delta_k <= 2_100_000_000_000_000_000i128,
        ;
    }
    let px: i128 = (ux as i128) * delta_k;
    let py: i128 = (uy as i128) * delta_k;
    let pz: i128 = (uz as i128) * delta_k;
    proof {
        assert((STICK_IMPULSE_CAP as int) * 2_000_000 == 2_200_000_000_000_000_000_000int) by (nonlinear_arith)
            requires
                STICK_IMPULSE_CAP == 1_100_000_000_000_000i64,
        ;
        lemma_div_trunc_bound(-px, 2_000_000, STICK_IMPULSE_CAP as int);
        lemma_div_trunc_bound(-py, 2_000_000, STICK_IMPULSE_CAP as int);
        lemma_div_trunc_bound(-pz, 2_000_000, STICK_IMPULSE_CAP as int);
    }
    let qx: i128 = div_trunc_i128(-px, 2_000_000);
    let qy: i128 = div_trunc_i128(-py, 2_000_000);
    let qz: i128 = div_trunc_i128(-pz, 2_000_000);
    let imp = V3 { x: qx as i64, y: qy as i64, z: qz as i64 };
    (imp, mag)
}

/// One step of the stick pass: edge `i` refreshes its measured length and
/// applies its impulse pair, `+imp` to endpoint `a`, `-imp` to endpoint
/// `b`, each accumulation clamped to the velocity range.
pub open spec fn spec_adjust_step(m: Model, i: int) -> Model {
    let e = m.edges[i];
    let pa = m.nodes[e.a as int].pos;
    let pb = m.nodes[e.b as int].pos;
    let mag = spec_dist(pa, pb);
    let imp = spec_stick_impulse(m.cfg, pa, pb, e.len as int);
    let e2 = Edge { curlen: mag as i64, ..e };
    let va = m.vels[e.a as int];
    let v1 = m.vels.update(e.a as int, V3 {
        x: spec_clamp(va.x + imp.x, VEL_LIMIT as int) as i64,
        y: spec_clamp(va.y + imp.y, VEL_LIMIT as int) as i64,
        z: spec_clamp(va.z + imp.z, VEL_LIMIT as int) as i64,
    });
    let vb = v1[e.b as int];
    let v2 = v1.update(e.b as int, V3 {
        x: spec_clamp(vb.x - imp.x, VEL_LIMIT as int) as i64,
        y: spec_clamp(vb.y - imp.y, VEL_LIMIT as int) as i64,
        z: spec_clamp(vb.z - imp.z, VEL_LIMIT as int) as i64,
    });
    Model { edges: m.edges.update(i, e2), vels: v2, ..m }
}

/// The stick pass applied to the first `k` edges, in index order.
pub open spec fn spec_adjust_upto(m: Model, k: int) -> Model
    decreases k,
{
    if k <= 0 {
        m
    } else {
        spec_adjust_step(spec_adjust_upto(m, k - 1), k - 1)
    }
}

/// The whole stick pass.
pub open spec fn spec_adjust(m: Model) -> Model {
    spec_adjust_upto(m, m.edges.len() as int)
}

/// Shape of the stick pass: it only rewrites velocities and the cached
/// `curlen` of each processed edge, and it preserves well-formedness.
pub proof fn lemma_adjust_upto_props(m: Model, k: int)
    requires
        wf_model(m),
        0 <= k <= m.edges.len(),
    ensures
        ({
            let m2 = spec_adjust_upto(m, k);
            &&& m2.time == m.time
            &&& m2.cfg == m.cfg
            &&& m2.nodes == m.nodes
            &&& m2.tris == m.tris
            &&& m2.edges.len() == m.edges.len()
            &&& m2.vels.len() == m.vels.len()
            &&& forall|j: int| 0 <= j < m.edges.len() ==> {
                let e = #[trigger] m2.edges[j];
                let e0 = m.edges[j];
                e.a == e0.a && e.b == e0.b && e.len == e0.len && e.age == e0.age
            }
            &&& forall|j: int| k <= j < m.edges.len() ==> #[trigger] m2.edges[j] == m.edges[j]
            &&& wf_model(m2)
        }),
    decreases k,
{
    if k > 0 {
        lemma_adjust_upto_props(m, k - 1);
        let m1 = spec_adjust_upto(m, k - 1);
        let m2 = spec_adjust_step(m1, k - 1);
        let e = m1.edges[k - 1];
        assert(edge_ok(m.edges[k - 1], m.nodes.len() as int));
        assert(node_ok(m.nodes[e.a as int], m.nodes.len() as int));
        assert(node_ok(m.nodes[e.b as int], m.nodes.len() as int));
        lemma_dist_bound(m1.nodes[e.a as int].pos, m1.nodes[e.b as int].pos);
        assert(m2.edges =~= m1.edges.update(k - 1, Edge {
            curlen: spec_dist(m1.nodes[e.a as int].pos, m1.nodes[e.b as int].pos) as i64,
            ..e
        }));
        assert forall|j: int| 0 <= j < m2.edges.len() implies edge_ok(
            #[trigger] m2.edges[j],
            m2.nodes.len() as int,
        ) by {
            assert(edge_ok(m.edges[j], m.nodes.len() as int));
            if j != k - 1 {
                assert(m2.edges[j] == m1.edges[j]);
            }
        }
        assert forall|j: int| 0 <= j < m2.vels.len() implies (#[trigger] m2.vels[j]).in_range(
            VEL_LIMIT as int,
        ) by {
            if j != e.a as int && j != e.b as int {
                assert(m2.vels[j] == m1.vels[j]);
            }
        }
    }
}

/// Whether the stick pass of edge `i` stays strictly inside the velocity
/// range, so that no clamping happens at either endpoint.
pub open spec fn stick_unsaturated(m: Model, i: int) -> bool {
    let e = m.edges[i];
    let pa = m.nodes[e.a as int].pos;
    let pb = m.nodes[e.b as int].pos;
    let imp = spec_stick_impulse(m.cfg, pa, pb, e.len as int);
    let va = m.vels[e.a as int];
    let vb = m.vels[e.b as int];
    &&& -VEL_LIMIT <= va.x + imp.x <= VEL_LIMIT
    &&& -VEL_LIMIT <= va.y + imp.y <= VEL_LIMIT
    &&& -VEL_LIMIT <= va.z + imp.z <= VEL_LIMIT
    &&& -VEL_LIMIT <= vb.x - imp.x <= VEL_LIMIT
    &&& -VEL_LIMIT <= vb.y - imp.y <= VEL_LIMIT
    &&& -VEL_LIMIT <= vb.z - imp.z <= VEL_LIMIT
}

/// Conservation of the stick force: for an edge with distinct endpoints
/// whose accumulations stay inside the velocity range, the two endpoint
/// velocity deltas of its stick step sum to exactly zero on every axis.
pub proof fn lemma_stick_conservation(m: Model, i: int)
    requires
        wf_model(m),
        0 <= i < m.edges.len(),
        m.edges[i].a != m.edges[i].b,
        stick_unsaturated(m, i),
    ensures
        ({
            let m2 = spec_adjust_step(m, i);
            let a = m.edges[i].a as int;
            let b = m.edges[i].b as int;
            &&& (m2.vels[a].x - m.vels[a].x) + (m2.vels[b].x - m.vels[b].x) == 0
            &&& (m2.vels[a].y - m.vels[a].y) + (m2.vels[b].y - m.vels[b].y) == 0
            &&& (m2.vels[a].z - m.vels[a].z) + (m2.vels[b].z - m.vels[b].z) == 0
        }),
{
    let e = m.edges[i];
    let a = e.a as int;
    let b = e.b as int;
    assert(edge_ok(e, m.nodes.len() as int));
    let m2 = spec_adjust_step(m, i);
    let imp = spec_stick_impulse(m.cfg, m.nodes[a].pos, m.nodes[b].pos, e.len as int);
    assert(m2.vels[a].x == m.vels[a].x + imp.x);
    assert(m2.vels[b].x == m.vels[b].x - imp.x);
    assert(m2.vels[a].y == m.vels[a].y + imp.y);
    assert(m2.vels[b].y == m.vels[b].y - imp.y);
    assert(m2.vels[a].z == m.vels[a].z + imp.z);
    assert(m2.vels[b].z == m.vels[b].z - imp.z);
}

impl State {
    /// The stick pass over every edge, in index order: refresh each
    /// edge's measured length and apply its impulse pair.
    pub fn adjust(&mut self)
        requires
            old(self).wf(),
        ensures
            final(self).wf(),
            final(self)@ == spec_adjust(old(self)@),
    {
        let ghost m0 = self@;
        let n = self.edges.len();
        let mut i: usize = 0;
        while i < n
            invariant
                wf_model(m0),
                n == m0.edges.len(),
                i <= n,
                self@ == spec_adjust_upto(m0, i as int),
            decreases n - i,
        {
            proof {
                lemma_adjust_upto_props(m0, i as int);
                assert(edge_ok(self@.edges[i as int], self@.nodes.len() as int));
            }
            let e = self.edges[i];
            let pa = self.pts[e.a].pos;
            let pb = self.pts[e.b].pos;
            proof {
                assert(node_ok(self@.nodes[e.a as int], self@.nodes.len() as int));
                assert(node_ok(self@.nodes[e.b as int], self@.nodes.len() as int));
            }
            let r = stick_impulse(&self.cfg, pa, pb, e.len);
            let imp = r.0;
            let mag = r.1;
            let mut e2 = e;
            e2.curlen = mag;
            self.edges.set(i, e2);
            let va = self.vels[e.a];
            self.vels.set(e.a, v3_sat_add(va, imp, VEL_LIMIT));
            let vb = self.vels[e.b];
            let nimp = v3_neg(imp);
            self.vels.set(e.b, v3_sat_add(vb, nimp, VEL_LIMIT));
            proof {
                let prev = spec_adjust_upto(m0, i as int);
                let stepped = spec_adjust_step(prev, i as int);
                assert(self@.edges =~= stepped.edges);
                assert(self@.vels =~= stepped.vels);
                assert(self@ == stepped);
                assert(spec_adjust_upto(m0, i as int + 1) == stepped);
            }
            i = i + 1;
        }
        proof {
            lemma_adjust_upto_props(m0, n as int);
        }
    }
}

} // verus!
