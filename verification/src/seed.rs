//! Seeding of a fresh state: a ring of nodes, or an explicit triangle fan.
//!
//! The ring sits in the y = 0 plane on the perimeter of a square, with
//! every other node inset towards the centre. The zig-zag keeps any three
//! consecutive nodes off a common line, so the first tick moves every
//! node.

use vstd::prelude::*;
use crate::config::Config;
use crate::geom::V3;
use crate::geom::spec_dist;
use crate::geom::dist_points;
use crate::geom::v3_zero;
use crate::state::State;
use crate::state::Node;
use crate::state::Edge;
use crate::state::Tri;
use crate::POS_LIMIT;

verus! {

/// Half the side of the square the seed ring sits on, in milli-units.
pub const RING_RADIUS: i64 = 2000;

/// How far every other ring node is pulled towards the centre.
pub const RING_INSET: i64 = 200;

/// Distance of ring node `k` (of `num`) along the square's perimeter.
pub open spec fn ring_t(k: int, num: int) -> int {
    (k * 8 * RING_RADIUS) / num
}

/// Inward offset of ring node `k`: alternates 0 and [`RING_INSET`].
pub open spec fn ring_inset(k: int) -> int {
    if k % 2 == 1 {
        RING_INSET as int
    } else {
        0
    }
}

/// Position of ring node `k` of `num`: the point `ring_t(k, num)` along
/// the square perimeter, pulled inward by `ring_inset(k)`.
pub open spec fn spec_ring_pos(k: int, num: int) -> V3 {
    let t = ring_t(k, num);
    let off = ring_inset(k);
    let r = RING_RADIUS as int;
    if t < 2 * r {
        V3 { x: (r - off) as i64, y: 0, z: (r - t) as i64 }
    } else if t < 4 * r {
        V3 { x: (r - (t - 2 * r)) as i64, y: 0, z: (-r + off) as i64 }
    } else if t < 6 * r {
        V3 { x: (-r + off) as i64, y: 0, z: (-r + (t - 4 * r)) as i64 }
    } else {
        V3 { x: (-r + (t - 6 * r)) as i64, y: 0, z: (r - off) as i64 }
    }
}

/// Ring node `k` of `num`: at its ring position, linked to its two ring
/// neighbours, trunk-flagged, with fresh counters.
pub open spec fn spec_ring_node(k: int, num: int) -> Node {
    Node {
        pos: spec_ring_pos(k, num),
        nclose: 0,
        siblings: 2,
        age: 0,
        dead: 0,
        left: (((k + num - 1) % num) as usize),
        right: (((k + 1) % num) as usize),
        trunk: true,
    }
}

/// Ring edge `k` of `num`: joins node `k` to node `k + 1 (mod num)`, rest
/// length a quarter of the subdivision length, measured length exact.
pub open spec fn spec_ring_edge(cfg: Config, k: int, num: int) -> Edge {
    Edge {
        a: k as usize,
        b: ((k + 1) % num) as usize,
        age: 0,
        len: (cfg.max_len / 4) as i64,
        curlen: spec_dist(spec_ring_pos(k, num), spec_ring_pos((k + 1) % num, num)) as i64,
    }
}

/// Executable ring position, exact per [`spec_ring_pos`].
pub fn ring_pos(k: usize, num: usize) -> (r: V3)
    requires
        k < num,
        3 <= num <= 1_000_000,
    ensures
        r == spec_ring_pos(k as int, num as int),
        r.in_range(POS_LIMIT as int),
{
    let t: i64 = (((k as u64) * (8 * RING_RADIUS as u64)) / (num as u64)) as i64;
    proof {
        assert(k as u64 * (8 * RING_RADIUS as u64) <= 1_000_000u64 * 16_000u64) by (nonlinear_arith)
            requires
                k as u64 <= 1_000_000u64,
        ;
        assert(t as int == ring_t(k as int, num as int));
        assert(0 <= ring_t(k as int, num as int) < 16_000) by {
            assert((k as int) * 8 * 2000 < (num as int) * 16_000) by (nonlinear_arith)
                requires
                    0 <= k < num,
            ;
            assert(0 <= ((k as int) * 8 * 2000) / (num as int)) by (nonlinear_arith)
                requires
                    0 <= k,
                    0 < num,
            ;
            assert(((k as int) * 8 * 2000) / (num as int) < 16_000) by (nonlinear_arith)
                requires
                    0 <= (k as int) * 8 * 2000,
                    0 < num,
                    (k as int) * 8 * 2000 < (num as int) * 16_000,
            ;
        }
    }
    let off: i64 = if k % 2 == 1 { RING_INSET } else { 0 };
    let r: i64 = RING_RADIUS;
    if t < 2 * r {
        V3 { x: r - off, y: 0, z: r - t }
    } else if t < 4 * r {
        V3 { x: r - (t - 2 * r), y: 0, z: -r + off }
    } else if t < 6 * r {
        V3 { x: -r + off, y: 0, z: -r + (t - 4 * r) }
    } else {
        V3 { x: -r + (t - 6 * r), y: 0, z: r - off }
    }
}

impl State {
    /// Seed a fresh state with a ring of `num` nodes joined by `num`
    /// edges. Must be called on a state that holds no nodes yet.
    pub fn start(&mut self, num: usize)
        requires
            old(self).wf(),
            old(self)@.nodes.len() == 0,
            old(self)@.edges.len() == 0,
            old(self)@.tris.len() == 0,
            3 <= num <= 1_000_000,
        ensures
            final(self).wf(),
            final(self)@.cfg == old(self)@.cfg,
            final(self)@.time == old(self)@.time,
            final(self)@.nodes.len() == num,
            final(self)@.vels.len() == num,
            final(self)@.edges.len() == num,
            final(self)@.tris.len() == 0,
            forall|k: int| 0 <= k < num ==> final(self)@.nodes[k] == spec_ring_node(k, num as int),
            forall|k: int| 0 <= k < num ==> final(self)@.vels[k] == (V3 { x: 0, y: 0, z: 0 }),
            forall|k: int| 0 <= k < num ==> final(self)@.edges[k] == spec_ring_edge(old(self)@.cfg, k, num as int),
    {
        let ghost cfg = self.cfg;
        let ghost t0 = self.time;
        let mut k: usize = 0;
        while k < num
            invariant
                self.cfg == cfg,
                self.time == t0,
                cfg.wf(),
                k <= num,
                3 <= num <= 1_000_000,
                self.pts@.len() == k,
                self.vels@.len() == k,
                self.edges@.len() == 0,
                self.tris@.len() == 0,
                forall|j: int| 0 <= j < k ==> (#[trigger] self.pts@[j]) == spec_ring_node(j, num as int),
                forall|j: int| 0 <= j < k ==> (#[trigger] self.pts@[j]).pos.in_range(POS_LIMIT as int),
                forall|j: int| 0 <= j < k ==> (#[trigger] self.vels@[j]) == (V3 { x: 0, y: 0, z: 0 }),
            decreases num - k,
        {
            let left: usize = if k == 0 { num - 1 } else { k - 1 };
            let right: usize = if k + 1 == num { 0 } else { k + 1 };
            proof {
                assert(left as int == (k + num - 1) % (num as int)) by (nonlinear_arith)
                    requires
                        0 <= k < num,
                        left as int == (if k == 0 { num - 1 } else { k - 1 }),
                        3 <= num,
                ;
                assert(right as int == (k + 1) % (num as int)) by (nonlinear_arith)
                    requires
                        0 <= k < num,
                        right as int == (if k + 1 == num { 0int } else { k + 1 }),
                        3 <= num,
                ;
            }
            let p = ring_pos(k, num);
            self.pts.push(Node {
                pos: p,
                nclose: 0,
                siblings: 2,
                age: 0,
                dead: 0,
                left,
                right,
                trunk: true,
            });
            self.vels.push(v3_zero());
            k = k + 1;
        }
        let rest: i64 = self.cfg.max_len / 4;
        let mut k: usize = 0;
        while k < num
            invariant
                self.cfg == cfg,
                self.time == t0,
                cfg.wf(),
                rest as int == cfg.max_len / 4,
                k <= num,
                3 <= num <= 1_000_000,
                self.pts@.len() == num,
                self.vels@.len() == num,
                self.tris@.len() == 0,
                forall|j: int| 0 <= j < num ==> (#[trigger] self.pts@[j]) == spec_ring_node(j, num as int),
                forall|j: int| 0 <= j < num ==> (#[trigger] self.pts@[j]).pos.in_range(POS_LIMIT as int),
                forall|j: int| 0 <= j < num ==> (#[trigger] self.vels@[j]) == (V3 { x: 0, y: 0, z: 0 }),
                self.edges@.len() == k,
                forall|j: int| 0 <= j < k ==> (#[trigger] self.edges@[j]) == spec_ring_edge(cfg, j, num as int),
                forall|j: int| 0 <= j < k ==> crate::state::edge_ok(#[trigger] self.edges@[j], num as int),
            decreases num - k,
        {
            let b: usize = if k + 1 == num { 0 } else { k + 1 };
            proof {
                assert(b as int == (k + 1) % (num as int)) by (nonlinear_arith)
                    requires
                        0 <= k < num,
                        b as int == (if k + 1 == num { 0int } else { k + 1 }),
                        3 <= num,
                ;
                assert(self.pts@[k as int] == spec_ring_node(k as int, num as int));
                assert(self.pts@[b as int] == spec_ring_node(b as int, num as int));
                assert(self.pts@[k as int].pos == spec_ring_pos(k as int, num as int));
                assert(self.pts@[b as int].pos == spec_ring_pos((k as int + 1) % (num as int), num as int));
            }
            let pa = self.pts[k].pos;
            let pb = self.pts[b].pos;
            let curlen: i64 = dist_points(pa, pb);
            proof {
                assert(1 <= cfg.max_len / 4 <= 250_000) by (nonlinear_arith)
                    requires
                        4 <= cfg.max_len <= 1_000_000,
                ;
            }
            self.edges.push(Edge { a: k, b, age: 0, len: rest, curlen });
            k = k + 1;
        }
    }

    /// Seed one explicit triangle: three nodes around `(cx, 0, cz)`, three
    /// edges, and one face. `rad` is the triangle's scale in milli-units.
    ///
    /// The measured length cached on each new edge is the distance
    /// between the state's first two nodes, not the edge's own
    /// endpoints; the cache is refreshed by the first tick's stick pass
    /// before anything reads it.
    pub fn add_triangle(&mut self, rad: i64, cx: i64, cz: i64)
        requires
            old(self).wf(),
            0 < rad <= 1_000_000,
            -1_000_000 <= cx <= 1_000_000,
            -1_000_000 <= cz <= 1_000_000,
            old(self)@.nodes.len() + 3 <= usize::MAX,
        ensures
            final(self).wf(),
            final(self)@.cfg == old(self)@.cfg,
            final(self)@.time == old(self)@.time,
            final(self)@.nodes.len() == old(self)@.nodes.len() + 3,
            final(self)@.vels.len() == old(self)@.vels.len() + 3,
            final(self)@.edges.len() == old(self)@.edges.len() + 3,
            final(self)@.tris.len() == old(self)@.tris.len() + 1,
            final(self)@.nodes =~= old(self)@.nodes + seq![
                spec_fan_node(old(self)@.nodes.len() as int, 0, rad as int, cx as int, cz as int),
                spec_fan_node(old(self)@.nodes.len() as int, 1, rad as int, cx as int, cz as int),
                spec_fan_node(old(self)@.nodes.len() as int, 2, rad as int, cx as int, cz as int),
            ],
            final(self)@.vels =~= old(self)@.vels + seq![
                V3 { x: 0, y: 0, z: 0 }, V3 { x: 0, y: 0, z: 0 }, V3 { x: 0, y: 0, z: 0 },
            ],
            final(self)@.tris =~= old(self)@.tris.push(Tri {
                a: old(self)@.nodes.len() as usize,
                b: (old(self)@.nodes.len() + 1) as usize,
                c: (old(self)@.nodes.len() + 2) as usize,
            }),
            forall|j: int| 0 <= j < old(self)@.edges.len() ==> final(self)@.edges[j] == old(self)@.edges[j],
            forall|j: int| 0 <= j < 3 ==> (#[trigger] final(self)@.edges[old(self)@.edges.len() + j]).len == old(self)@.cfg.max_len / 4,
            forall|j: int| 0 <= j < 3 ==> (#[trigger] final(self)@.edges[old(self)@.edges.len() + j]).age == 0,
            final(self)@.edges[old(self)@.edges.len() as int].a == old(self)@.nodes.len(),
            final(self)@.edges[old(self)@.edges.len() as int].b == old(self)@.nodes.len() + 1,
            final(self)@.edges[old(self)@.edges.len() as int + 1].a == old(self)@.nodes.len() + 1,
            final(self)@.edges[old(self)@.edges.len() as int + 1].b == old(self)@.nodes.len() + 2,
            final(self)@.edges[old(self)@.edges.len() as int + 2].a == old(self)@.nodes.len(),
            final(self)@.edges[old(self)@.edges.len() as int + 2].b == old(self)@.nodes.len() + 2,
    {
        let n0: usize = self.pts.len();
        let p0 = fan_pos(0, rad, cx, cz);
        let p1 = fan_pos(1, rad, cx, cz);
        let p2 = fan_pos(2, rad, cx, cz);
        self.pts.push(Node {
            pos: p0, nclose: 0, siblings: 2, age: 0, dead: 0, left: n0 + 1, right: n0 + 2, trunk: true,
        });
        self.vels.push(v3_zero());
        self.pts.push(Node {
            pos: p1, nclose: 0, siblings: 2, age: 0, dead: 0, left: n0 + 2, right: n0, trunk: true,
        });
        self.vels.push(v3_zero());
        self.pts.push(Node {
            pos: p2, nclose: 0, siblings: 2, age: 0, dead: 0, left: n0, right: n0 + 1, trunk: true,
        });
        self.vels.push(v3_zero());
        self.tris.push(Tri { a: n0, b: n0 + 1, c: n0 + 2 });
        let rest: i64 = self.cfg.max_len / 4;
        proof {
            let n = old(self)@.nodes.len() as int;
            if n > 0 {
                assert(crate::state::node_ok(old(self)@.nodes[0], n));
            }
            if n > 1 {
                assert(crate::state::node_ok(old(self)@.nodes[1], n));
            }
            assert(self.pts@[0].pos.in_range(POS_LIMIT as int));
            assert(self.pts@[1].pos.in_range(POS_LIMIT as int));
        }
        let curlen: i64 = dist_points(self.pts[0].pos, self.pts[1].pos);
        proof {
            assert(1 <= self.cfg.max_len / 4 <= 250_000) by (nonlinear_arith)
                requires
                    4 <= self.cfg.max_len <= 1_000_000,
            ;
        }
        self.edges.push(Edge { a: n0, b: n0 + 1, age: 0, len: rest, curlen });
        self.edges.push(Edge { a: n0 + 1, b: n0 + 2, age: 0, len: rest, curlen });
        self.edges.push(Edge { a: n0, b: n0 + 2, age: 0, len: rest, curlen });
        proof {
            let m = self@;
            let oldm = old(self)@;
            let n = m.nodes.len() as int;
            assert forall|i: int| 0 <= i < m.edges.len() implies crate::state::edge_ok(
                #[trigger] m.edges[i],
                n,
            ) by {
                if i < oldm.edges.len() {
                    assert(m.edges[i] == oldm.edges[i]);
                    assert(crate::state::edge_ok(oldm.edges[i], oldm.nodes.len() as int));
                }
            }
            assert forall|i: int| 0 <= i < m.nodes.len() implies crate::state::node_ok(
                #[trigger] m.nodes[i],
                n,
            ) by {
                if i < oldm.nodes.len() {
                    assert(m.nodes[i] == oldm.nodes[i]);
                    assert(crate::state::node_ok(oldm.nodes[i], oldm.nodes.len() as int));
                }
            }
            assert forall|i: int| 0 <= i < m.tris.len() implies crate::state::tri_ok(
                #[trigger] m.tris[i],
                n,
            ) by {
                if i < oldm.tris.len() {
                    assert(m.tris[i] == oldm.tris[i]);
                    assert(crate::state::tri_ok(oldm.tris[i], oldm.nodes.len() as int));
                }
            }
            assert forall|i: int| 0 <= i < m.vels.len() implies (#[trigger] m.vels[i]).in_range(
                crate::VEL_LIMIT as int,
            ) by {
                if i < oldm.vels.len() {
                    assert(m.vels[i] == oldm.vels[i]);
                    assert(oldm.vels[i].in_range(crate::VEL_LIMIT as int));
                }
            }
        }
    }
}

/// Position of corner `j` (0, 1 or 2) of a seed triangle of scale `rad`
/// centred on `(cx, 0, cz)`. Corner 0 sits at twice the scale; the sine
/// and cosine of the two remaining corners' angles are fixed-point
/// constants (866/1000 and -500/1000).
pub open spec fn spec_fan_pos(j: int, rad: int, cx: int, cz: int) -> V3 {
    if j == 0 {
        V3 { x: cx as i64, y: 0, z: (cz + 2 * rad) as i64 }
    } else if j == 1 {
        V3 { x: (cx + 866 * rad / 1000) as i64, y: 0, z: (cz - 500 * rad / 1000) as i64 }
    } else {
        V3 { x: (cx - 866 * rad / 1000) as i64, y: 0, z: (cz - 500 * rad / 1000) as i64 }
    }
}

/// Corner `j` of a seed triangle whose first node index is `n0`, with the
/// three corners linked into a ring.
pub open spec fn spec_fan_node(n0: int, j: int, rad: int, cx: int, cz: int) -> Node {
    Node {
        pos: spec_fan_pos(j, rad, cx, cz),
        nclose: 0,
        siblings: 2,
        age: 0,
        dead: 0,
        left: (if j == 0 { n0 + 1 } else if j == 1 { n0 + 2 } else { n0 }) as usize,
        right: (if j == 0 { n0 + 2 } else if j == 1 { n0 } else { n0 + 1 }) as usize,
        trunk: true,
    }
}

/// Executable triangle-corner position, exact per [`spec_fan_pos`].
fn fan_pos(j: usize, rad: i64, cx: i64, cz: i64) -> (r: V3)
    requires
        j < 3,
        0 < rad <= 1_000_000,
        -1_000_000 <= cx <= 1_000_000,
        -1_000_000 <= cz <= 1_000_000,
    ensures
        r == spec_fan_pos(j as int, rad as int, cx as int, cz as int),
        r.in_range(POS_LIMIT as int),
{
    if j == 0 {
        V3 { x: cx, y: 0, z: cz + 2 * rad }
    } else if j == 1 {
        V3 { x: cx + 866 * rad / 1000, y: 0, z: cz - 500 * rad / 1000 }
    } else {
        V3 { x: cx - 866 * rad / 1000, y: 0, z: cz - 500 * rad / 1000 }
    }
}

/// A state seeded with a ring of `num` nodes under the given parameters.
pub fn new_state(cfg: Config, num: usize) -> (r: State)
    requires
        cfg.wf(),
        3 <= num <= 1_000_000,
    ensures
        r.wf(),
        r@.cfg == cfg,
        r@.time == 0,
        r@.nodes.len() == num,
        r@.edges.len() == num,
        r@.tris.len() == 0,
{
    let mut st = State::init(cfg);
    st.start(num);
    st
}

} // verus!
