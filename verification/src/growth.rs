//! The growth policy: every tick each edge's rest length grows at a rate
//! throttled by how crowded its endpoints are, and an edge whose rest
//! length and measured length have both reached `max_len` subdivides: a
//! new node appears at its midpoint, the ring links are rewired around
//! it, and a face is recorded.
//!
//! The subdivision loop runs over the edge count captured before the
//! loop, so edges created by a split are not reconsidered in the same
//! tick.

use vstd::prelude::*;
use vstd::set_lib::set_int_range;
use vstd::set_lib::lemma_int_range;
use vstd::set_lib::lemma_len_subset;
use crate::config::Config;
use crate::geom::V3;
use crate::geom::spec_div_trunc;
use crate::geom::lemma_half_between;
use crate::geom::div_trunc_i64;
use crate::geom::v3_zero;
use crate::state::State;
use crate::state::Model;
use crate::state::Node;
use crate::state::Edge;
use crate::state::Tri;
use crate::state::wf_model;
use crate::state::edge_ok;
use crate::state::node_ok;
use crate::state::tri_ok;
use crate::POS_LIMIT;
use crate::VEL_LIMIT;
use crate::LEN_CAP;

verus! {

/// A counter bumped by one, sticking at its ceiling.
pub open spec fn spec_bump(a: usize) -> usize {
    if a == usize::MAX {
        a
    } else {
        (a + 1) as usize
    }
}

/// How one edge grows in one tick: its age advances; if its rest length
/// is still below `max_len` and its endpoints are not both over the
/// crowding threshold, the rest length gains an amount interpolated
/// between `grow_speed` (crowded) and `max_speed` (uncrowded) from the
/// less crowded endpoint, saturating at [`LEN_CAP`].
pub open spec fn spec_grow_edge(cfg: Config, nodes: Seq<Node>, e: Edge) -> Edge {
    let e1 = Edge { age: spec_bump(e.age), ..e };
    if e.len > cfg.max_len {
        e1
    } else {
        let na = nodes[e.a as int];
        let nb = nodes[e.b as int];
        let raised = na.pos.y > cfg.grav_top || nb.pos.y > cfg.grav_top;
        let maxc: int = if raised {
            cfg.too_crowded + cfg.crowd_raise
        } else {
            cfg.too_crowded as int
        };
        if na.nclose > maxc && nb.nclose > maxc {
            e1
        } else {
            let least: int = if na.nclose <= nb.nclose {
                na.nclose as int
            } else {
                nb.nclose as int
            };
            let inc: int = if least <= cfg.min_crowd {
                cfg.max_speed as int
            } else {
                cfg.grow_speed + spec_div_trunc(
                    (cfg.max_speed - cfg.grow_speed) * (least - cfg.min_crowd),
                    maxc - cfg.min_crowd,
                )
            };
            Edge {
                len: (if e1.len + inc <= LEN_CAP { e1.len + inc } else { LEN_CAP as int }) as i64,
                ..e1
            }
        }
    }
}

/// The whole growth pass: every edge grows independently.
pub open spec fn spec_grow(m: Model) -> Model {
    Model {
        edges: Seq::new(m.edges.len(), |i: int| spec_grow_edge(m.cfg, m.nodes, m.edges[i])),
        ..m
    }
}

/// Growth keeps an edge well-formed and touches only `len` and `age`.
pub proof fn lemma_grow_edge_ok(cfg: Config, nodes: Seq<Node>, e: Edge, n: int)
    requires
        cfg.wf(),
        edge_ok(e, n),
    ensures
        edge_ok(spec_grow_edge(cfg, nodes, e), n),
        spec_grow_edge(cfg, nodes, e).a == e.a,
        spec_grow_edge(cfg, nodes, e).b == e.b,
        spec_grow_edge(cfg, nodes, e).curlen == e.curlen,
        spec_grow_edge(cfg, nodes, e).len >= e.len,
{
    let e2 = spec_grow_edge(cfg, nodes, e);
    if e2.len != e.len {
        let na = nodes[e.a as int];
        let nb = nodes[e.b as int];
        let raised = na.pos.y > cfg.grav_top || nb.pos.y > cfg.grav_top;
        let maxc: int = if raised {
            cfg.too_crowded + cfg.crowd_raise
        } else {
            cfg.too_crowded as int
        };
        let least: int = if na.nclose <= nb.nclose {
            na.nclose as int
        } else {
            nb.nclose as int
        };
        if least > cfg.min_crowd {
            assert(0 <= (cfg.max_speed - cfg.grow_speed) * (least - cfg.min_crowd)) by (nonlinear_arith)
                requires
                    0 <= cfg.max_speed - cfg.grow_speed,
                    0 < least - cfg.min_crowd,
            ;
            assert(0 <= spec_div_trunc(
                (cfg.max_speed - cfg.grow_speed) * (least - cfg.min_crowd),
                maxc - cfg.min_crowd,
            )) by (nonlinear_arith)
                requires
                    0 <= (cfg.max_speed - cfg.grow_speed) * (least - cfg.min_crowd),
                    0 < maxc - cfg.min_crowd,
            ;
        }
    }
}

impl State {
    /// The growth pass over every edge.
    pub fn edge_grow(&mut self)
        requires
            old(self).wf(),
        ensures
            final(self).wf(),
            final(self)@ == spec_grow(old(self)@),
    {
        let ghost m0 = self@;
        let n = self.edges.len();
        let mut i: usize = 0;
        while i < n
            invariant
                wf_model(m0),
                n == m0.edges.len(),
                i <= n,
                self.time == old(self).time,
                self.cfg == m0.cfg,
                self.pts@ == m0.nodes,
                self.vels@ == m0.vels,
                self.tris@ == m0.tris,
                self.edges@.len() == n,
                forall|j: int| i <= j < n ==> #[trigger] self.edges@[j] == m0.edges[j],
                forall|j: int| 0 <= j < i ==> #[trigger] self.edges@[j] == spec_grow_edge(m0.cfg, m0.nodes, m0.edges[j]),
            decreases n - i,
        {
            proof {
                assert(edge_ok(m0.edges[i as int], m0.nodes.len() as int));
            }
            let e = self.edges[i];
            let age2: usize = if e.age == usize::MAX { e.age } else { e.age + 1 };
            let mut e2 = e;
            e2.age = age2;
            if e.len <= self.cfg.max_len {
                let na = self.pts[e.a];
                let nb = self.pts[e.b];
                let raised = na.pos.y > self.cfg.grav_top || nb.pos.y > self.cfg.grav_top;
                let maxc: usize = if raised {
                    self.cfg.too_crowded + self.cfg.crowd_raise
                } else {
                    self.cfg.too_crowded
                };
                if !(na.nclose > maxc && nb.nclose > maxc) {
                    let least: usize = if na.nclose <= nb.nclose { na.nclose } else { nb.nclose };
                    let inc128: i128 = if least <= self.cfg.min_crowd {
                        self.cfg.max_speed as i128
                    } else {
                        let diff: u128 = (self.cfg.max_speed - self.cfg.grow_speed) as u128;
                        let above: u128 = (least - self.cfg.min_crowd) as u128;
                        let den: u128 = (maxc - self.cfg.min_crowd) as u128;
                        proof {
                            assert(diff * above <= 1_000_000u128 * 0xFFFF_FFFF_FFFF_FFFFu128) by (nonlinear_arith)
                                requires
                                    diff <= 1_000_000u128,
                                    above <= 0xFFFF_FFFF_FFFF_FFFFu128,
                            ;
                            assert((diff * above) as int == (cfg_speed_num(self.cfg, least as int))) by (nonlinear_arith)
                                requires
                                    diff == self.cfg.max_speed - self.cfg.grow_speed,
                                    above == least - self.cfg.min_crowd,
                                    cfg_speed_num(self.cfg, least as int) == (self.cfg.max_speed - self.cfg.grow_speed) * (least - self.cfg.min_crowd),
                            ;
                        }
                        let q: u128 = (diff * above) / den;
                        proof {
                            assert(q as int == spec_div_trunc(cfg_speed_num(self.cfg, least as int), (maxc - self.cfg.min_crowd) as int));
                        }
                        (self.cfg.grow_speed as i128) + (q as i128)
                    };
                    let sum: i128 = (e2.len as i128) + inc128;
                    let len2: i64 = if sum <= LEN_CAP as i128 { sum as i64 } else { LEN_CAP };
                    e2.len = len2;
                }
            }
            self.edges.set(i, e2);
            proof {
                lemma_grow_edge_ok(m0.cfg, m0.nodes, m0.edges[i as int], m0.nodes.len() as int);
                assert(self.edges@[i as int] == spec_grow_edge(m0.cfg, m0.nodes, m0.edges[i as int]));
            }
            i = i + 1;
        }
        proof {
            let m2 = spec_grow(m0);
            assert(self@.edges =~= m2.edges);
            assert(self@ == m2);
            assert forall|j: int| 0 <= j < self@.edges.len() implies edge_ok(
                #[trigger] self@.edges[j],
                self@.nodes.len() as int,
            ) by {
                assert(edge_ok(m0.edges[j], m0.nodes.len() as int));
                lemma_grow_edge_ok(m0.cfg, m0.nodes, m0.edges[j], m0.nodes.len() as int);
            }
        }
    }
}

/// The numerator of the growth interpolation, named so proofs can carry
/// it across contexts.
pub open spec fn cfg_speed_num(cfg: Config, least: int) -> int {
    (cfg.max_speed - cfg.grow_speed) * (least - cfg.min_crowd)
}

/// An edge subdivides when both its rest length and its last measured
/// length have reached `max_len`.
pub open spec fn spec_split_cond(cfg: Config, e: Edge) -> bool {
    e.len >= cfg.max_len && e.curlen >= cfg.max_len
}

/// The midpoint of two positions, each axis truncated toward `pa`.
pub open spec fn spec_mid(pa: V3, pb: V3) -> V3 {
    V3 {
        x: (pa.x + spec_div_trunc(pb.x - pa.x, 2)) as i64,
        y: (pa.y + spec_div_trunc(pb.y - pa.y, 2)) as i64,
        z: (pa.z + spec_div_trunc(pb.z - pa.z, 2)) as i64,
    }
}

/// One subdivision step on edge `i`. If the edge does not qualify,
/// nothing changes. Otherwise a new node appears at the midpoint
/// (trunk-flagged if either endpoint is), the endpoints' ring links are
/// rewired through it, a face `(new, a, b)` is recorded, the edge is
/// halved onto `(a, new)`, and two fresh half-length edges `(new, b)` and
/// `(a, b)` are appended.
pub open spec fn spec_split_step(m: Model, i: int) -> Model {
    let e = m.edges[i];
    if !spec_split_cond(m.cfg, e) {
        m
    } else {
        let a = e.a as int;
        let b = e.b as int;
        let npt = m.nodes.len() as int;
        let npos = spec_mid(m.nodes[a].pos, m.nodes[b].pos);
        let trunk = m.nodes[a].trunk || m.nodes[b].trunk;
        let newnode = Node {
            pos: npos,
            nclose: 0,
            siblings: 2,
            age: 0,
            dead: 0,
            left: e.a,
            right: e.b,
            trunk,
        };
        let nodes1 = m.nodes.push(newnode);
        let nodes2 = nodes1.update(a, Node {
            siblings: spec_bump(nodes1[a].siblings),
            right: npt as usize,
            ..nodes1[a]
        });
        let nodes3 = nodes2.update(b, Node {
            siblings: spec_bump(nodes2[b].siblings),
            left: npt as usize,
            ..nodes2[b]
        });
        let half = spec_div_trunc(e.len as int, 2) as i64;
        let edges1 = m.edges.update(i, Edge { len: half, b: npt as usize, age: 0, ..e });
        let edges2 = edges1.push(Edge { len: half, curlen: 0, age: 0, a: npt as usize, b: e.b });
        let edges3 = edges2.push(Edge { len: half, curlen: 0, age: 0, a: e.a, b: e.b });
        Model {
            nodes: nodes3,
            vels: m.vels.push(V3 { x: 0, y: 0, z: 0 }),
            edges: edges3,
            tris: m.tris.push(Tri { a: npt as usize, b: e.a, c: e.b }),
            ..m
        }
    }
}

/// The subdivision pass applied to the first `k` edge slots, in index
/// order.
pub open spec fn spec_split_upto(m: Model, k: int) -> Model
    decreases k,
{
    if k <= 0 {
        m
    } else {
        spec_split_step(spec_split_upto(m, k - 1), k - 1)
    }
}

/// The whole subdivision pass, over the edge count captured at entry.
pub open spec fn spec_split(m: Model) -> Model {
    spec_split_upto(m, m.edges.len() as int)
}

/// Shape of one subdivision step: well-formedness is preserved, the
/// arrays only grow, and a qualifying edge contributes exactly one node,
/// two edges and one face.
pub proof fn lemma_split_step_props(m: Model, i: int)
    requires
        wf_model(m),
        0 <= i < m.edges.len(),
    ensures
        ({
            let m2 = spec_split_step(m, i);
            &&& wf_model(m2)
            &&& m2.time == m.time
            &&& m2.cfg == m.cfg
            &&& m2.edges.len() >= m.edges.len()
            &&& m2.nodes.len() >= m.nodes.len()
            &&& m2.tris.len() >= m.tris.len()
            &&& m2.vels.len() == m2.nodes.len()
            &&& (spec_split_cond(m.cfg, m.edges[i]) ==> {
                &&& m2.nodes.len() == m.nodes.len() + 1
                &&& m2.edges.len() == m.edges.len() + 2
                &&& m2.tris.len() == m.tris.len() + 1
            })
            &&& (!spec_split_cond(m.cfg, m.edges[i]) ==> m2 == m)
        }),
{
    let e = m.edges[i];
    assert(edge_ok(e, m.nodes.len() as int));
    if spec_split_cond(m.cfg, e) {
        let m2 = spec_split_step(m, i);
        let a = e.a as int;
        let b = e.b as int;
        let npt = m.nodes.len() as int;
        assert(node_ok(m.nodes[a], npt));
        assert(node_ok(m.nodes[b], npt));
        lemma_half_between(m.nodes[b].pos.x - m.nodes[a].pos.x);
        lemma_half_between(m.nodes[b].pos.y - m.nodes[a].pos.y);
        lemma_half_between(m.nodes[b].pos.z - m.nodes[a].pos.z);
        assert(spec_mid(m.nodes[a].pos, m.nodes[b].pos).in_range(POS_LIMIT as int));
        assert(1 <= spec_div_trunc(e.len as int, 2) <= LEN_CAP) by (nonlinear_arith)
            requires
                4 <= m.cfg.max_len <= e.len <= LEN_CAP,
                spec_div_trunc(e.len as int, 2) == (e.len as int) / 2,
        ;
        assert forall|j: int| 0 <= j < m2.nodes.len() implies node_ok(
            #[trigger] m2.nodes[j],
            m2.nodes.len() as int,
        ) by {
            if j < npt {
                assert(node_ok(m.nodes[j], npt));
            }
        }
        assert forall|j: int| 0 <= j < m2.edges.len() implies edge_ok(
            #[trigger] m2.edges[j],
            m2.nodes.len() as int,
        ) by {
            if j < m.edges.len() && j != i {
                assert(m2.edges[j] == m.edges[j]);
                assert(edge_ok(m.edges[j], npt));
            }
        }
        assert forall|j: int| 0 <= j < m2.tris.len() implies tri_ok(
            #[trigger] m2.tris[j],
            m2.nodes.len() as int,
        ) by {
            if j < m.tris.len() {
                assert(m2.tris[j] == m.tris[j]);
                assert(tri_ok(m.tris[j], npt));
            }
        }
        assert forall|j: int| 0 <= j < m2.vels.len() implies (#[trigger] m2.vels[j]).in_range(
            VEL_LIMIT as int,
        ) by {
            if j < m.vels.len() {
                assert(m2.vels[j] == m.vels[j]);
            }
        }
    }
}

/// Shape of the subdivision pass up to `k`: well-formedness is kept and
/// the three arrays never shrink.
pub proof fn lemma_split_upto_props(m: Model, k: int)
    requires
        wf_model(m),
        0 <= k <= m.edges.len(),
    ensures
        ({
            let m2 = spec_split_upto(m, k);
            &&& wf_model(m2)
            &&& m2.time == m.time
            &&& m2.cfg == m.cfg
            &&& m2.edges.len() >= m.edges.len()
            &&& m2.nodes.len() >= m.nodes.len()
            &&& m2.tris.len() >= m.tris.len()
        }),
    decreases k,
{
    if k > 0 {
        lemma_split_upto_props(m, k - 1);
        lemma_split_step_props(spec_split_upto(m, k - 1), k - 1);
    }
}

/// Mutually inverse ring links: following `right` and then `left` (or
/// the other way round) from any node returns to it. Together with
/// finiteness this makes every `right` orbit a cycle.
pub open spec fn links_inverse(nodes: Seq<Node>) -> bool {
    forall|i: int| 0 <= i < nodes.len() ==> {
        let nd = #[trigger] nodes[i];
        &&& nd.left < nodes.len()
        &&& nd.right < nodes.len()
        &&& nodes[nd.right as int].left == i
        &&& nodes[nd.left as int].right == i
    }
}

/// The node reached from `i` after `k` steps along `right`.
pub open spec fn right_iter(nodes: Seq<Node>, i: int, k: nat) -> int
    decreases k,
{
    if k == 0 {
        i
    } else {
        nodes[right_iter(nodes, i, (k - 1) as nat)].right as int
    }
}

/// With consistent links, every iterate is a valid index.
pub proof fn lemma_iter_in_range(nodes: Seq<Node>, i: int, k: nat)
    requires
        links_inverse(nodes),
        0 <= i < nodes.len(),
    ensures
        0 <= right_iter(nodes, i, k) < nodes.len(),
    decreases k,
{
    if k > 0 {
        lemma_iter_in_range(nodes, i, (k - 1) as nat);
    }
}

/// With mutually inverse links, `left` walks the orbit backwards: two
/// equal iterates pull back to an orbit that revisits its start.
proof fn lemma_iter_shift(nodes: Seq<Node>, i: int, a: nat, b: nat)
    requires
        links_inverse(nodes),
        0 <= i < nodes.len(),
        a <= b,
        right_iter(nodes, i, a) == right_iter(nodes, i, b),
    ensures
        right_iter(nodes, i, ((b - a) as nat)) == i,
    decreases a,
{
    if a == 0 {
    } else {
        let pa = right_iter(nodes, i, (a - 1) as nat);
        let pb = right_iter(nodes, i, (b - 1) as nat);
        lemma_iter_in_range(nodes, i, (a - 1) as nat);
        lemma_iter_in_range(nodes, i, (b - 1) as nat);
        assert(nodes[nodes[pa].right as int].left == pa);
        assert(nodes[nodes[pb].right as int].left == pb);
        assert(pa == pb);
        lemma_iter_shift(nodes, i, (a - 1) as nat, (b - 1) as nat);
    }
}

/// In a mesh whose ring links are mutually inverse, following `right`
/// from any node returns to it within as many steps as there are nodes.
pub proof fn lemma_ring_traversal_returns(nodes: Seq<Node>, i: int)
    requires
        links_inverse(nodes),
        0 <= i < nodes.len(),
    ensures
        exists|k: nat| 1 <= k <= nodes.len() && right_iter(nodes, i, k) == i,
{
    let len = nodes.len() as int;
    if !(exists|k: nat| 1 <= k <= nodes.len() && right_iter(nodes, i, k) == i) {
        let s = Seq::new((len + 1) as nat, |k: int| right_iter(nodes, i, k as nat));
        assert forall|a: int, b: int| 0 <= a < b < s.len() implies s[a] != s[b] by {
            if s[a] == s[b] {
                lemma_iter_shift(nodes, i, a as nat, b as nat);
                let k = ((b - a) as nat);
                assert(1 <= k <= nodes.len() && right_iter(nodes, i, k) == i);
            }
        }
        assert(s.no_duplicates());
        s.unique_seq_to_set();
        assert(s.to_set().len() == len + 1);
        assert forall|x: int| s.to_set().contains(x) implies set_int_range(0, len).contains(x) by {
            let idx = choose|idx: int| 0 <= idx < s.len() && s[idx] == x;
            lemma_iter_in_range(nodes, i, idx as nat);
        }
        lemma_int_range(0, len);
        lemma_len_subset(s.to_set(), set_int_range(0, len));
        assert(false);
    }
}

/// Subdividing an edge that lies on the ring (its endpoints are
/// ring-adjacent in its own orientation) keeps the ring links mutually
/// inverse: the new node is spliced between the two endpoints and no
/// other link moves.
#[verifier::rlimit(80)]
pub proof fn lemma_split_preserves_ring(m: Model, i: int)
    requires
        wf_model(m),
        m.nodes.len() < usize::MAX,
        0 <= i < m.edges.len(),
        spec_split_cond(m.cfg, m.edges[i]),
        links_inverse(m.nodes),
        m.edges[i].a != m.edges[i].b,
        m.nodes[m.edges[i].a as int].right == m.edges[i].b,
        m.nodes[m.edges[i].b as int].left == m.edges[i].a,
    ensures
        links_inverse(spec_split_step(m, i).nodes),
{
    let e = m.edges[i];
    let a = e.a as int;
    let b = e.b as int;
    let npt = m.nodes.len() as int;
    let nodes2 = spec_split_step(m, i).nodes;
    assert(edge_ok(e, npt));
    let npos = spec_mid(m.nodes[a].pos, m.nodes[b].pos);
    let trunk = m.nodes[a].trunk || m.nodes[b].trunk;
    let newnode = Node {
        pos: npos,
        nclose: 0,
        siblings: 2,
        age: 0,
        dead: 0,
        left: e.a,
        right: e.b,
        trunk,
    };
    let nodes_p = m.nodes.push(newnode);
    let nodes_a = nodes_p.update(a, Node {
        siblings: spec_bump(nodes_p[a].siblings),
        right: npt as usize,
        ..nodes_p[a]
    });
    let nodes_b = nodes_a.update(b, Node {
        siblings: spec_bump(nodes_a[b].siblings),
        left: npt as usize,
        ..nodes_a[b]
    });
    assert(nodes2 == nodes_b);
    assert(nodes2.len() == npt + 1);
    assert(m.nodes[m.nodes[a].left as int].right == a);
    assert(m.nodes[m.nodes[b].right as int].left == b);
    assert forall|j: int| 0 <= j < nodes2.len() implies {
        let nd = #[trigger] nodes2[j];
        &&& nd.left < nodes2.len()
        &&& nd.right < nodes2.len()
        &&& nodes2[nd.right as int].left == j
        &&& nodes2[nd.left as int].right == j
    } by {
        if j == npt {
            assert(nodes2[j].left == e.a && nodes2[j].right == e.b);
            assert(nodes2[a].right == npt as usize);
            assert(nodes2[b].left == npt as usize);
        } else if j == a {
            let la = m.nodes[a].left as int;
            assert(m.nodes[la].right == a);
            assert(la != a);
            assert(nodes2[a].left == m.nodes[a].left);
            assert(nodes2[a].right == npt as usize);
            assert(nodes2[npt].left == e.a);
            if la == b {
                assert(nodes2[b].right == m.nodes[b].right);
                assert(m.nodes[b].right == a as usize);
            } else {
                assert(nodes2[la] == m.nodes[la]);
            }
        } else if j == b {
            let rb = m.nodes[b].right as int;
            assert(m.nodes[rb].left == b);
            assert(rb != b);
            assert(nodes2[b].right == m.nodes[b].right);
            assert(nodes2[b].left == npt as usize);
            assert(nodes2[npt].right == e.b);
            if rb == a {
                assert(nodes2[a].left == m.nodes[a].left);
                assert(m.nodes[a].left == b as usize);
            } else {
                assert(nodes2[rb] == m.nodes[rb]);
            }
        } else {
            let nd = m.nodes[j];
            assert(nodes2[j] == nd);
            let rj = nd.right as int;
            let lj = nd.left as int;
            assert(m.nodes[rj].left == j);
            assert(m.nodes[lj].right == j);
            assert(rj != b);
            assert(lj != a);
            if rj == a {
                assert(nodes2[a].left == m.nodes[a].left);
            } else {
                assert(nodes2[rj].left == m.nodes[rj].left);
            }
            if lj == b {
                assert(nodes2[b].right == m.nodes[b].right);
            } else {
                assert(nodes2[lj].right == m.nodes[lj].right);
            }
        }
    }
}

impl State {
    /// The subdivision pass: every edge slot that existed when the pass
    /// began is examined once, and subdivides if it qualifies.
    pub fn edge_split(&mut self)
        requires
            old(self).wf(),
        ensures
            final(self).wf(),
            final(self)@ == spec_split(old(self)@),
    {
        let ghost m0 = self@;
        let len0 = self.edges.len();
        let mut i: usize = 0;
        while i < len0
            invariant
                wf_model(m0),
                len0 == m0.edges.len(),
                i <= len0,
                self@ == spec_split_upto(m0, i as int),
            decreases len0 - i,
        {
            proof {
                lemma_split_upto_props(m0, i as int);
                assert(edge_ok(self@.edges[i as int], self@.nodes.len() as int));
            }
            let e = self.edges[i];
            if e.len >= self.cfg.max_len && e.curlen >= self.cfg.max_len {
                let npt = self.pts.len();
                let na = self.pts[e.a];
                let nb = self.pts[e.b];
                proof {
                    assert(node_ok(self@.nodes[e.a as int], self@.nodes.len() as int));
                    assert(node_ok(self@.nodes[e.b as int], self@.nodes.len() as int));
                    lemma_half_between(nb.pos.x - na.pos.x);
                    lemma_half_between(nb.pos.y - na.pos.y);
                    lemma_half_between(nb.pos.z - na.pos.z);
                }
                let npos = V3 {
                    x: na.pos.x + div_trunc_i64(nb.pos.x - na.pos.x, 2),
                    y: na.pos.y + div_trunc_i64(nb.pos.y - na.pos.y, 2),
                    z: na.pos.z + div_trunc_i64(nb.pos.z - na.pos.z, 2),
                };
                let trunk = na.trunk || nb.trunk;
                self.pts.push(Node {
                    pos: npos,
                    nclose: 0,
                    siblings: 2,
                    age: 0,
                    dead: 0,
                    left: e.a,
                    right: e.b,
                    trunk,
                });
                self.vels.push(v3_zero());
                self.tris.push(Tri { a: npt, b: e.a, c: e.b });
                let na2 = self.pts[e.a];
                let sib_a: usize = if na2.siblings == usize::MAX { na2.siblings } else { na2.siblings + 1 };
                self.pts.set(e.a, Node { siblings: sib_a, right: npt, ..na2 });
                let nb2 = self.pts[e.b];
                let sib_b: usize = if nb2.siblings == usize::MAX { nb2.siblings } else { nb2.siblings + 1 };
                self.pts.set(e.b, Node { siblings: sib_b, left: npt, ..nb2 });
                let half: i64 = div_trunc_i64(e.len, 2);
                self.edges.set(i, Edge { len: half, b: npt, age: 0, ..e });
                self.edges.push(Edge { len: half, curlen: 0, age: 0, a: npt, b: e.b });
                self.edges.push(Edge { len: half, curlen: 0, age: 0, a: e.a, b: e.b });
                proof {
                    let prev = spec_split_upto(m0, i as int);
                    let stepped = spec_split_step(prev, i as int);
                    assert(self@.nodes =~= stepped.nodes);
                    assert(self@.vels =~= stepped.vels);
                    assert(self@.edges =~= stepped.edges);
                    assert(self@.tris =~= stepped.tris);
                    assert(self@ == stepped);
                }
            } else {
                proof {
                    let prev = spec_split_upto(m0, i as int);
                    assert(spec_split_step(prev, i as int) == prev);
                }
            }
            i = i + 1;
        }
        proof {
            lemma_split_upto_props(m0, len0 as int);
        }
    }
}

} // verus!

