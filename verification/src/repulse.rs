//! The repulsion pass: every node scans its spatial-index candidates,
//! counts how many sit within the crowding radius, and pushes away from
//! those within the repulsion radius.
//!
//! Following the message-passing design of the dispatcher, workers never
//! write shared state: the scan emits `(target, delta)` messages and
//! `(node, count)` messages, and a single merge step afterwards folds
//! them into the velocity array and the crowding counts, in a fixed
//! order. A pair at exactly zero distance has no direction to push
//! along and is skipped (it still counts as crowding).

use vstd::prelude::*;
use vstd::arithmetic::div_mod::lemma_fundamental_div_mod;
use crate::config::Config;
use crate::geom::V3;
use crate::geom::spec_clamp;
use crate::geom::spec_div_trunc;
use crate::geom::sqrt_floor;
use crate::geom::lemma_sqrt_floor;
use crate::geom::lemma_div_trunc_bound;
use crate::geom::v3_sub;
use crate::geom::sqnorm;
use crate::geom::isqrt;
use crate::geom::div_trunc_i64;
use crate::geom::v3_sat_add;
use crate::grid::Grid;
use crate::grid::spec_mins;
use crate::grid::spec_candidates;
use crate::grid::spec_cell;
use crate::grid::spec_key_items_upto;
use crate::grid::mins_ok;
use crate::grid::get_mins;
use crate::grid::build_grid;
use crate::grid::candidates;
use crate::state::State;
use crate::state::Model;
use crate::state::Node;
use crate::state::wf_model;
use crate::state::node_ok;
use crate::POS_LIMIT;
use crate::VEL_LIMIT;

verus! {

/// The grid origin as a vector.
pub open spec fn spec_mins_v3(nodes: Seq<Node>) -> V3 {
    let t = spec_mins(nodes);
    V3 { x: t.0 as i64, y: t.1 as i64, z: t.2 as i64 }
}

/// The messages and the crowding contribution of the ordered pair
/// `(i, j)`: nothing for `i` itself or its ring neighbours; beyond the
/// repulsion radius only a possible crowding count; a push split between
/// the nodes, unless one is dead beyond `too_dead`, in which case the
/// live one absorbs the whole push and the dead one does not move.
pub open spec fn spec_pair(cfg: Config, nodes: Seq<Node>, i: int, j: int) -> (Seq<(usize, V3)>, int) {
    let pi = nodes[i];
    let pj = nodes[j];
    if j == i || pi.left == j || pi.right == j {
        (Seq::empty(), 0)
    } else {
        let dx = pj.pos.x - pi.pos.x;
        let dy = pj.pos.y - pi.pos.y;
        let dz = pj.pos.z - pi.pos.z;
        let sq = dx * dx + dy * dy + dz * dz;
        if sq > cfg.push_dist * cfg.push_dist {
            (Seq::empty(), if sq < cfg.close_dist * cfg.close_dist { 1 as int } else { 0 as int })
        } else if pi.dead > cfg.too_dead && pj.dead > cfg.too_dead {
            (Seq::empty(), 1)
        } else if sq == 0 {
            (Seq::empty(), 1)
        } else {
            let dist = sqrt_floor(sq as nat) as int;
            let ux = spec_div_trunc(dx * 1000, dist);
            let uy = spec_div_trunc(dy * 1000, dist);
            let uz = spec_div_trunc(dz * 1000, dist);
            let bx = ux * ((cfg.push_dist - dist) * cfg.avoid_k);
            let by = uy * ((cfg.push_dist - dist) * cfg.avoid_k);
            let bz = uz * ((cfg.push_dist - dist) * cfg.avoid_k);
            if pi.dead > cfg.too_dead {
                (
                    seq![
                        (
                            j as usize,
                            V3 {
                                x: spec_div_trunc(bx, 1_000_000) as i64,
                                y: spec_div_trunc(by, 1_000_000) as i64,
                                z: spec_div_trunc(bz, 1_000_000) as i64,
                            },
                        ),
                    ],
                    1,
                )
            } else if pj.dead > cfg.too_dead {
                (
                    seq![
                        (
                            i as usize,
                            V3 {
                                x: spec_div_trunc(-bx, 1_000_000) as i64,
                                y: spec_div_trunc(-by, 1_000_000) as i64,
                                z: spec_div_trunc(-bz, 1_000_000) as i64,
                            },
                        ),
                    ],
                    1,
                )
            } else {
                (
                    seq![
                        (
                            i as usize,
                            V3 {
                                x: spec_div_trunc(-bx, 2_000_000) as i64,
                                y: spec_div_trunc(-by, 2_000_000) as i64,
                                z: spec_div_trunc(-bz, 2_000_000) as i64,
                            },
                        ),
                        (
                            j as usize,
                            V3 {
                                x: spec_div_trunc(bx, 2_000_000) as i64,
                                y: spec_div_trunc(by, 2_000_000) as i64,
                                z: spec_div_trunc(bz, 2_000_000) as i64,
                            },
                        ),
                    ],
                    1,
                )
            }
        }
    }
}

/// Messages and count accumulated over the first `t` candidates of node
/// `i`.
pub open spec fn spec_scan_pairs(
    cfg: Config,
    nodes: Seq<Node>,
    i: int,
    cands: Seq<usize>,
    t: int,
) -> (Seq<(usize, V3)>, int)
    decreases t,
{
    if t <= 0 {
        (Seq::empty(), 0)
    } else {
        let prev = spec_scan_pairs(cfg, nodes, i, cands, t - 1);
        let pr = spec_pair(cfg, nodes, i, cands[t - 1] as int);
        (prev.0 + pr.0, prev.1 + pr.1)
    }
}

/// The whole scan of node `i`: messages in candidate order, and its new
/// crowding count.
pub open spec fn spec_node_scan(cfg: Config, mins: V3, nodes: Seq<Node>, i: int) -> (Seq<(usize, V3)>, int) {
    let cands = spec_candidates(cfg, mins, nodes, i);
    spec_scan_pairs(cfg, nodes, i, cands, cands.len() as int)
}

/// All messages of nodes `lo..hi`, in node order.
pub open spec fn spec_range_msgs(cfg: Config, mins: V3, nodes: Seq<Node>, lo: int, hi: int) -> Seq<(usize, V3)>
    decreases hi - lo,
{
    if hi <= lo {
        Seq::empty()
    } else {
        spec_range_msgs(cfg, mins, nodes, lo, hi - 1) + spec_node_scan(cfg, mins, nodes, hi - 1).0
    }
}

/// Folding messages into the velocity array, in order, each accumulation
/// clamped to the velocity range; a target outside the array is ignored.
pub open spec fn spec_apply_msgs(vels: Seq<V3>, msgs: Seq<(usize, V3)>, t: int) -> Seq<V3>
    decreases t,
{
    if t <= 0 {
        vels
    } else {
        let v1 = spec_apply_msgs(vels, msgs, t - 1);
        let idx = msgs[t - 1].0 as int;
        let d = msgs[t - 1].1;
        if idx < v1.len() {
            v1.update(idx, V3 {
                x: spec_clamp(v1[idx].x + d.x, VEL_LIMIT as int) as i64,
                y: spec_clamp(v1[idx].y + d.y, VEL_LIMIT as int) as i64,
                z: spec_clamp(v1[idx].z + d.z, VEL_LIMIT as int) as i64,
            })
        } else {
            v1
        }
    }
}

/// Folding crowding counts into the node array; a target outside the
/// array is ignored.
pub open spec fn spec_apply_closes(nodes: Seq<Node>, closes: Seq<(usize, usize)>, t: int) -> Seq<Node>
    decreases t,
{
    if t <= 0 {
        nodes
    } else {
        let n1 = spec_apply_closes(nodes, closes, t - 1);
        let idx = closes[t - 1].0 as int;
        if idx < n1.len() {
            n1.update(idx, Node { nclose: closes[t - 1].1, ..n1[idx] })
        } else {
            n1
        }
    }
}

/// The whole repulsion pass: every node's crowding count is recomputed
/// from its scan, and every emitted push is folded into the velocities
/// in scan order.
pub open spec fn spec_repulse(m: Model) -> Model {
    let mins = spec_mins_v3(m.nodes);
    let msgs = spec_range_msgs(m.cfg, mins, m.nodes, 0, m.nodes.len() as int);
    Model {
        nodes: Seq::new(
            m.nodes.len(),
            |i: int| Node { nclose: spec_node_scan(m.cfg, mins, m.nodes, i).1 as usize, ..m.nodes[i] },
        ),
        vels: spec_apply_msgs(m.vels, msgs, msgs.len() as int),
        ..m
    }
}

/// Every bucket element is an index below `k`.
pub proof fn lemma_key_items_elems(
    cfg: Config,
    mins: V3,
    nodes: Seq<Node>,
    key: (int, int, int),
    k: int,
)
    requires
        0 <= k,
    ensures
        forall|t: int| 0 <= t < spec_key_items_upto(cfg, mins, nodes, key, k).len() ==> (
        #[trigger] spec_key_items_upto(cfg, mins, nodes, key, k)[t]) < k,
    decreases k,
{
    if k > 0 {
        lemma_key_items_elems(cfg, mins, nodes, key, k - 1);
        let rest = spec_key_items_upto(cfg, mins, nodes, key, k - 1);
        let whole = spec_key_items_upto(cfg, mins, nodes, key, k);
        assert forall|t: int| 0 <= t < whole.len() implies whole[t] < k by {
            if spec_cell(cfg, mins, nodes[k - 1].pos) == key {
                assert(whole == rest.push((k - 1) as usize));
                if t < rest.len() {
                    assert(whole[t] == rest[t]);
                } else {
                    assert(whole[t] == (k - 1) as usize);
                }
            } else {
                assert(whole == rest);
            }
        }
    }
}

/// Every candidate is a valid node index.
pub proof fn lemma_candidates_elems(cfg: Config, mins: V3, nodes: Seq<Node>, i: int)
    requires
        0 <= i < nodes.len(),
    ensures
        forall|t: int| 0 <= t < spec_candidates(cfg, mins, nodes, i).len() ==> (
        #[trigger] spec_candidates(cfg, mins, nodes, i)[t]) < nodes.len(),
{
    let n = nodes.len() as int;
    let h = crate::grid::spec_cell(cfg, mins, nodes[i].pos);
    let nb = crate::grid::spec_nbr(cfg, mins, nodes[i].pos);
    lemma_key_items_elems(cfg, mins, nodes, h, n);
    lemma_key_items_elems(cfg, mins, nodes, (nb.0, h.1, h.2), n);
    lemma_key_items_elems(cfg, mins, nodes, (nb.0, nb.1, h.2), n);
    lemma_key_items_elems(cfg, mins, nodes, (nb.0, nb.1, nb.2), n);
    lemma_key_items_elems(cfg, mins, nodes, (nb.0, h.1, nb.2), n);
    lemma_key_items_elems(cfg, mins, nodes, (h.0, nb.1, h.2), n);
    lemma_key_items_elems(cfg, mins, nodes, (h.0, nb.1, nb.2), n);
    lemma_key_items_elems(cfg, mins, nodes, (h.0, h.1, nb.2), n);
}

/// The executable pair test: append the pair's messages and return its
/// crowding contribution, exactly per [`spec_pair`].
pub fn push_two(cfg: &Config, pts: &Vec<Node>, i: usize, j: usize, msgs: &mut Vec<(usize, V3)>) -> (cnt: usize)
    requires
        cfg.wf(),
        i < pts@.len(),
        j < pts@.len(),
        pts@[i as int].pos.in_range(POS_LIMIT as int),
        pts@[j as int].pos.in_range(POS_LIMIT as int),
    ensures
        final(msgs)@ == old(msgs)@ + spec_pair(*cfg, pts@, i as int, j as int).0,
        cnt as int == spec_pair(*cfg, pts@, i as int, j as int).1,
        cnt <= 1,
{
    let ghost pr = spec_pair(*cfg, pts@, i as int, j as int);
    let pi = pts[i];
    let pj = pts[j];
    if j == i || pi.left == j || pi.right == j {
        proof {
            assert(msgs@ =~= old(msgs)@ + pr.0);
        }
        return 0;
    }
    let d = v3_sub(pj.pos, pi.pos);
    let sq: i64 = sqnorm(d);
    proof {
        assert(0 <= cfg.push_dist * cfg.push_dist <= 1_000_000_000_000int) by (nonlinear_arith)
            requires
                0 <= cfg.push_dist <= 1_000_000,
        ;
        assert(0 <= cfg.close_dist * cfg.close_dist <= 1_000_000_000_000int) by (nonlinear_arith)
            requires
                0 <= cfg.close_dist <= 1_000_000,
        ;
    }
    let push_sq: i64 = cfg.push_dist * cfg.push_dist;
    let close_sq: i64 = cfg.close_dist * cfg.close_dist;
    if sq > push_sq {
        proof {
            assert(msgs@ =~= old(msgs)@ + pr.0);
        }
        if sq < close_sq {
            return 1;
        } else {
            return 0;
        }
    }
    if pi.dead > cfg.too_dead && pj.dead > cfg.too_dead {
        proof {
            assert(msgs@ =~= old(msgs)@ + pr.0);
        }
        return 1;
    }
    if sq == 0 {
        proof {
            assert(msgs@ =~= old(msgs)@ + pr.0);
        }
        return 1;
    }
    let dr: u64 = isqrt(sq as u64);
    proof {
        lemma_sqrt_floor(sq as nat);
        assert(0 <= d.x * d.x && 0 <= d.y * d.y && 0 <= d.z * d.z) by (nonlinear_arith);
        assert(sq == d.x * d.x + d.y * d.y + d.z * d.z);
        assert(dr <= 1_000_001) by (nonlinear_arith)
            requires
                dr * dr <= sq as u64,
                0 < sq <= 1_000_000_000_000i64,
        ;
    }
    let dist: i64 = dr as i64;
    proof {
        assert(dist as nat == sqrt_floor(sq as nat));
        assert(dist * dist <= sq < (dist + 1) * (dist + 1));
        assert(1 <= dist <= cfg.push_dist) by (nonlinear_arith)
            requires
                dist * dist <= sq,
                sq < (dist + 1) * (dist + 1),
                0 < sq,
                sq <= cfg.push_dist * cfg.push_dist,
                0 <= dist,
                0 <= cfg.push_dist,
        ;
        assert(-dist <= d.x <= dist && -dist <= d.y <= dist && -dist <= d.z <= dist) by (nonlinear_arith)
            requires
                d.x * d.x <= sq,
                d.y * d.y <= sq,
                d.z * d.z <= sq,
                sq < (dist + 1) * (dist + 1),
                0 <= dist,
                0 <= d.x * d.x,
                0 <= d.y * d.y,
                0 <= d.z * d.z,
        ;
        assert(-(dist * 1000) <= d.x * 1000 <= dist * 1000) by (nonlinear_arith)
            requires
                -dist <= d.x <= dist,
                0 <= dist,
        ;
        assert(-(dist * 1000) <= d.y * 1000 <= dist * 1000) by (nonlinear_arith)
            requires
                -dist <= d.y <= dist,
                0 <= dist,
        ;
        assert(-(dist * 1000) <= d.z * 1000 <= dist * 1000) by (nonlinear_arith)
            requires
                -dist <= d.z <= dist,
                0 <= dist,
        ;
        lemma_div_trunc_bound(d.x * 1000, dist as int, 1000);
        lemma_div_trunc_bound(d.y * 1000, dist as int, 1000);
        lemma_div_trunc_bound(d.z * 1000, dist as int, 1000);
    }
    let ux: i64 = div_trunc_i64(d.x * 1000, dist);
    let uy: i64 = div_trunc_i64(d.y * 1000, dist);
    let uz: i64 = div_trunc_i64(d.z * 1000, dist);
    proof {
        assert(0 <= (cfg.push_dist - dist) * cfg.avoid_k <= 1_000_000_000int) by (nonlinear_arith)
            requires
                0 <= cfg.push_dist - dist <= 1_000_000,
                0 <= cfg.avoid_k <= 1000,
        ;
    }
    let factor: i64 = (cfg.push_dist - dist) * cfg.avoid_k;
    proof {
        assert(-1_000_000_000_000int <= ux * factor <= 1_000_000_000_000int) by (nonlinear_arith)
            requires
                -1000 <= ux <= 1000,
                0 <= factor <= 1_000_000_000,
        ;
        assert(-1_000_000_000_000int <= uy * factor <= 1_000_000_000_000int) by (nonlinear_arith)
            requires
                -1000 <= uy <= 1000,
                0 <= factor <= 1_000_000_000,
        ;
        assert(-1_000_000_000_000int <= uz * factor <= 1_000_000_000_000int) by (nonlinear_arith)
            requires
                -1000 <= uz <= 1000,
                0 <= factor <= 1_000_000_000,
        ;
    }
    let bx: i64 = ux * factor;
    let by: i64 = uy * factor;
    let bz: i64 = uz * factor;
    if pi.dead > cfg.too_dead {
        let dv = V3 {
            x: div_trunc_i64(bx, 1_000_000),
            y: div_trunc_i64(by, 1_000_000),
            z: div_trunc_i64(bz, 1_000_000),
        };
        msgs.push((j, dv));
        proof {
            assert(msgs@ =~= old(msgs)@ + pr.0);
        }
        return 1;
    }
    if pj.dead > cfg.too_dead {
        let dv = V3 {
            x: div_trunc_i64(-bx, 1_000_000),
            y: div_trunc_i64(-by, 1_000_000),
            z: div_trunc_i64(-bz, 1_000_000),
        };
        msgs.push((i, dv));
        proof {
            assert(msgs@ =~= old(msgs)@ + pr.0);
        }
        return 1;
    }
    let dvi = V3 {
        x: div_trunc_i64(-bx, 2_000_000),
        y: div_trunc_i64(-by, 2_000_000),
        z: div_trunc_i64(-bz, 2_000_000),
    };
    let dvj = V3 {
        x: div_trunc_i64(bx, 2_000_000),
        y: div_trunc_i64(by, 2_000_000),
        z: div_trunc_i64(bz, 2_000_000),
    };
    msgs.push((i, dvi));
    msgs.push((j, dvj));
    proof {
        assert(msgs@ =~= old(msgs)@ + pr.0);
    }
    1
}

/// The executable scan of one node over its candidates, exactly per
/// [`spec_node_scan`].
pub fn calc_one(g: &Grid, cfg: &Config, mins: V3, pts: &Vec<Node>, i: usize, msgs: &mut Vec<(usize, V3)>) -> (cnt: usize)
    requires
        g.wf(*cfg, mins, pts@),
        cfg.wf(),
        mins_ok(mins, pts@),
        i < pts@.len(),
        pts@.len() <= usize::MAX,
        forall|t: int| 0 <= t < pts@.len() ==> (#[trigger] pts@[t]).pos.in_range(POS_LIMIT as int),
    ensures
        final(msgs)@ == old(msgs)@ + spec_node_scan(*cfg, mins, pts@, i as int).0,
        cnt as int == spec_node_scan(*cfg, mins, pts@, i as int).1,
{
    proof {
        assert(pts@[i as int].pos.in_range(POS_LIMIT as int));
    }
    let cs = candidates(g, cfg, mins, pts, i);
    proof {
        lemma_candidates_elems(*cfg, mins, pts@, i as int);
    }
    let ghost cands = spec_candidates(*cfg, mins, pts@, i as int);
    let mut cnt: usize = 0;
    let mut t: usize = 0;
    while t < cs.len()
        invariant
            cfg.wf(),
            i < pts@.len(),
            pts@.len() <= usize::MAX,
            forall|u: int| 0 <= u < pts@.len() ==> (#[trigger] pts@[u]).pos.in_range(POS_LIMIT as int),
            cs@ == cands,
            forall|u: int| 0 <= u < cands.len() ==> (#[trigger] cands[u]) < pts@.len(),
            t <= cs@.len(),
            cnt <= t,
            msgs@ == old(msgs)@ + spec_scan_pairs(*cfg, pts@, i as int, cands, t as int).0,
            cnt as int == spec_scan_pairs(*cfg, pts@, i as int, cands, t as int).1,
        decreases cs@.len() - t,
    {
        let j = cs[t];
        proof {
            assert(cands[t as int] < pts@.len());
            assert(pts@[j as int].pos.in_range(POS_LIMIT as int));
        }
        let ghost before = msgs@;
        let c = push_two(cfg, pts, i, j, msgs);
        cnt = cnt + c;
        proof {
            let pr = spec_pair(*cfg, pts@, i as int, j as int);
            let prev = spec_scan_pairs(*cfg, pts@, i as int, cands, t as int);
            let next = spec_scan_pairs(*cfg, pts@, i as int, cands, t as int + 1);
            assert(next.0 == prev.0 + pr.0);
            assert(msgs@ =~= old(msgs)@ + next.0);
        }
        t = t + 1;
    }
    cnt
}

/// One worker's job: the messages and counts of nodes `lo..hi`.
pub fn calc_chunk(g: &Grid, cfg: &Config, mins: V3, pts: &Vec<Node>, lo: usize, hi: usize) -> (r: (
    Vec<(usize, V3)>,
    Vec<(usize, usize)>,
))
    requires
        g.wf(*cfg, mins, pts@),
        cfg.wf(),
        mins_ok(mins, pts@),
        lo <= hi <= pts@.len(),
        pts@.len() <= usize::MAX,
        forall|t: int| 0 <= t < pts@.len() ==> (#[trigger] pts@[t]).pos.in_range(POS_LIMIT as int),
    ensures
        r.0@ == spec_range_msgs(*cfg, mins, pts@, lo as int, hi as int),
        r.1@.len() == hi - lo,
        forall|t: int| 0 <= t < hi - lo ==> (#[trigger] r.1@[t]).0 == lo + t && r.1@[t].1 as int
            == spec_node_scan(*cfg, mins, pts@, lo + t).1,
{
    let mut msgs: Vec<(usize, V3)> = Vec::new();
    let mut closes: Vec<(usize, usize)> = Vec::new();
    let mut i: usize = lo;
    while i < hi
        invariant
            g.wf(*cfg, mins, pts@),
            cfg.wf(),
            mins_ok(mins, pts@),
            lo <= i <= hi <= pts@.len(),
            pts@.len() <= usize::MAX,
            forall|t: int| 0 <= t < pts@.len() ==> (#[trigger] pts@[t]).pos.in_range(POS_LIMIT as int),
            msgs@ == spec_range_msgs(*cfg, mins, pts@, lo as int, i as int),
            closes@.len() == i - lo,
            forall|t: int| 0 <= t < i - lo ==> (#[trigger] closes@[t]).0 == lo + t && closes@[t].1 as int
                == spec_node_scan(*cfg, mins, pts@, lo + t).1,
        decreases hi - i,
    {
        let ghost before = msgs@;
        let cnt = calc_one(g, cfg, mins, pts, i, &mut msgs);
        closes.push((i, cnt));
        proof {
            assert(spec_range_msgs(*cfg, mins, pts@, lo as int, i as int + 1)
                == spec_range_msgs(*cfg, mins, pts@, lo as int, i as int) + spec_node_scan(
                *cfg,
                mins,
                pts@,
                i as int,
            ).0);
            assert(msgs@ =~= spec_range_msgs(*cfg, mins, pts@, lo as int, i as int + 1));
        }
        i = i + 1;
    }
    (msgs, closes)
}

/// Ranges of the message stream concatenate.
pub proof fn lemma_range_concat(cfg: Config, mins: V3, nodes: Seq<Node>, a: int, b: int, c: int)
    requires
        a <= b <= c,
    ensures
        spec_range_msgs(cfg, mins, nodes, a, c) == spec_range_msgs(cfg, mins, nodes, a, b)
            + spec_range_msgs(cfg, mins, nodes, b, c),
    decreases c - b,
{
    if c == b {
        assert(spec_range_msgs(cfg, mins, nodes, a, b) + spec_range_msgs(cfg, mins, nodes, b, c)
            =~= spec_range_msgs(cfg, mins, nodes, a, c));
    } else {
        lemma_range_concat(cfg, mins, nodes, a, b, c - 1);
        assert((spec_range_msgs(cfg, mins, nodes, a, b) + spec_range_msgs(cfg, mins, nodes, b, c - 1))
            + spec_node_scan(cfg, mins, nodes, c - 1).0 =~= spec_range_msgs(cfg, mins, nodes, a, b)
            + (spec_range_msgs(cfg, mins, nodes, b, c - 1) + spec_node_scan(cfg, mins, nodes, c - 1).0));
    }
}

/// Folding counts at distinct ascending targets updates each node once.
pub proof fn lemma_apply_closes_exact(nodes: Seq<Node>, closes: Seq<(usize, usize)>, t: int)
    requires
        0 <= t <= closes.len(),
        closes.len() <= nodes.len(),
        forall|u: int| 0 <= u < closes.len() ==> (#[trigger] closes[u]).0 == u,
    ensures
        spec_apply_closes(nodes, closes, t).len() == nodes.len(),
        forall|j: int| 0 <= j < nodes.len() ==> #[trigger] spec_apply_closes(nodes, closes, t)[j]
            == (if j < t { Node { nclose: closes[j].1, ..nodes[j] } } else { nodes[j] }),
    decreases t,
{
    if t > 0 {
        lemma_apply_closes_exact(nodes, closes, t - 1);
    }
}

impl State {
    /// Fold a message stream into the velocities, in order.
    fn merge_msgs(&mut self, msgs: &Vec<(usize, V3)>)
        requires
            old(self).wf(),
        ensures
            final(self).wf(),
            final(self)@ == (Model {
                vels: spec_apply_msgs(old(self)@.vels, msgs@, msgs@.len() as int),
                ..old(self)@
            }),
    {
        let ghost m0 = self@;
        let mut t: usize = 0;
        while t < msgs.len()
            invariant
                wf_model(m0),
                t <= msgs@.len(),
                self.time == old(self).time,
                self.cfg == m0.cfg,
                self.pts@ == m0.nodes,
                self.edges@ == m0.edges,
                self.tris@ == m0.tris,
                self.vels@ == spec_apply_msgs(m0.vels, msgs@, t as int),
                self.vels@.len() == m0.vels.len(),
                forall|u: int| 0 <= u < self.vels@.len() ==> (#[trigger] self.vels@[u]).in_range(VEL_LIMIT as int),
            decreases msgs@.len() - t,
        {
            let idx = msgs[t].0;
            let d = msgs[t].1;
            if idx < self.vels.len() {
                let v = self.vels[idx];
                self.vels.set(idx, v3_sat_add(v, d, VEL_LIMIT));
            }
            t = t + 1;
        }
    }

    /// Fold a count stream into the nodes' crowding counts, in order.
    fn merge_closes(&mut self, closes: &Vec<(usize, usize)>)
        requires
            old(self).wf(),
        ensures
            final(self).wf(),
            final(self)@ == (Model {
                nodes: spec_apply_closes(old(self)@.nodes, closes@, closes@.len() as int),
                ..old(self)@
            }),
    {
        let ghost m0 = self@;
        let mut t: usize = 0;
        while t < closes.len()
            invariant
                wf_model(m0),
                t <= closes@.len(),
                self.time == old(self).time,
                self.cfg == m0.cfg,
                self.vels@ == m0.vels,
                self.edges@ == m0.edges,
                self.tris@ == m0.tris,
                self.pts@ == spec_apply_closes(m0.nodes, closes@, t as int),
                self.pts@.len() == m0.nodes.len(),
                forall|u: int| 0 <= u < self.pts@.len() ==> node_ok(#[trigger] self.pts@[u], self.pts@.len() as int),
            decreases closes@.len() - t,
        {
            let idx = closes[t].0;
            if idx < self.pts.len() {
                let nd = self.pts[idx];
                self.pts.set(idx, Node { nclose: closes[t].1, ..nd });
            }
            t = t + 1;
        }
    }

    /// The single-threaded repulsion pass: scan every node in turn and
    /// fold its messages in as they come.
    pub fn push_away(&mut self)
        requires
            old(self).wf(),
        ensures
            final(self).wf(),
            final(self)@ == spec_repulse(old(self)@),
    {
        let ghost m0 = self@;
        proof {
            assert forall|j: int| 0 <= j < self.pts@.len() implies (#[trigger] self.pts@[j]).pos.in_range(
                POS_LIMIT as int,
            ) by {
                assert(node_ok(m0.nodes[j], m0.nodes.len() as int));
            }
        }
        let mins = get_mins(&self.pts);
        proof {
            assert(mins == spec_mins_v3(m0.nodes));
        }
        let g = build_grid(&self.cfg, &self.pts, mins);
        let len = self.pts.len();
        let r = calc_chunk(&g, &self.cfg, mins, &self.pts, 0, len);
        self.merge_msgs(&r.0);
        self.merge_closes(&r.1);
        proof {
            let m2 = spec_repulse(m0);
            lemma_apply_closes_exact(m0.nodes, r.1@, r.1@.len() as int);
            assert(self@.nodes =~= m2.nodes);
            assert(self@.vels == m2.vels);
            assert(self@ == m2);
        }
    }

    /// The chunked repulsion pass: below the small-size threshold it
    /// falls back to the single-threaded scan; otherwise the node range
    /// is split into `num_chunks` contiguous chunks, each producing its
    /// message and count streams independently, and a single merge step
    /// folds the streams in chunk order. The result equals the
    /// single-threaded pass.
    pub fn push_multi(&mut self)
        requires
            old(self).wf(),
        ensures
            final(self).wf(),
            final(self)@ == spec_repulse(old(self)@),
    {
        let ghost m0 = self@;
        if self.pts.len() < self.cfg.small_count {
            self.push_away();
            return;
        }
        proof {
            assert forall|j: int| 0 <= j < self.pts@.len() implies (#[trigger] self.pts@[j]).pos.in_range(
                POS_LIMIT as int,
            ) by {
                assert(node_ok(m0.nodes[j], m0.nodes.len() as int));
            }
        }
        let mins = get_mins(&self.pts);
        proof {
            assert(mins == spec_mins_v3(m0.nodes));
        }
        let g = build_grid(&self.cfg, &self.pts, mins);
        let len = self.pts.len();
        let nc = self.cfg.num_chunks;
        let chunk = len / nc;
        proof {
            lemma_fundamental_div_mod(len as int, nc as int);
            vstd::arithmetic::div_mod::lemma_mod_bound(len as int, nc as int);
            assert((nc as int) * (chunk as int) <= len as int);
        }
        let mut msgs: Vec<(usize, V3)> = Vec::new();
        let mut closes: Vec<(usize, usize)> = Vec::new();
        let mut c: usize = 0;
        let mut done: usize = 0;
        while c < nc
            invariant
                wf_model(m0),
                self@ == m0,
                g.wf(m0.cfg, mins, m0.nodes),
                mins_ok(mins, m0.nodes),
                self.cfg == m0.cfg,
                mins == spec_mins_v3(m0.nodes),
                len == m0.nodes.len(),
                len <= usize::MAX,
                forall|j: int| 0 <= j < m0.nodes.len() ==> (#[trigger] m0.nodes[j]).pos.in_range(POS_LIMIT as int),
                nc == m0.cfg.num_chunks,
                1 <= nc,
                chunk == len / nc,
                (nc as int) * (chunk as int) <= len as int,
                c <= nc,
                done as int == (if c < nc { (c as int) * (chunk as int) } else { len as int }),
                done <= len,
                msgs@ == spec_range_msgs(m0.cfg, mins, m0.nodes, 0, done as int),
                closes@.len() == done,
                forall|t: int| 0 <= t < done ==> (#[trigger] closes@[t]).0 == t && closes@[t].1 as int
                    == spec_node_scan(m0.cfg, mins, m0.nodes, t).1,
            decreases nc - c,
        {
            let lo = done;
            proof {
                assert((c as int + 1) * (chunk as int) == (c as int) * (chunk as int) + chunk as int) by (nonlinear_arith);
                assert((c as int + 1) * (chunk as int) <= (nc as int) * (chunk as int)) by (nonlinear_arith)
                    requires
                        c as int + 1 <= nc as int,
                        0 <= chunk as int,
                ;
            }
            let hi: usize = if c + 1 == nc {
                len
            } else {
                lo + chunk
            };
            let r = calc_chunk(&g, &self.cfg, mins, &self.pts, lo, hi);
            let ghost msgs0 = msgs@;
            let ghost closes0 = closes@;
            let mut u: usize = 0;
            while u < r.0.len()
                invariant
                    u <= r.0@.len(),
                    msgs@ == msgs0 + r.0@.subrange(0, u as int),
                decreases r.0@.len() - u,
            {
                msgs.push(r.0[u]);
                proof {
                    assert(msgs@ =~= msgs0 + r.0@.subrange(0, u as int + 1));
                }
                u = u + 1;
            }
            let mut u: usize = 0;
            while u < r.1.len()
                invariant
                    u <= r.1@.len(),
                    closes@ == closes0 + r.1@.subrange(0, u as int),
                decreases r.1@.len() - u,
            {
                closes.push(r.1[u]);
                proof {
                    assert(closes@ =~= closes0 + r.1@.subrange(0, u as int + 1));
                }
                u = u + 1;
            }
            proof {
                assert(r.0@.subrange(0, r.0@.len() as int) =~= r.0@);
                assert(r.1@.subrange(0, r.1@.len() as int) =~= r.1@);
                lemma_range_concat(m0.cfg, mins, m0.nodes, 0, lo as int, hi as int);
                assert(msgs@ == spec_range_msgs(m0.cfg, mins, m0.nodes, 0, hi as int));
                assert forall|t: int| 0 <= t < hi implies (#[trigger] closes@[t]).0 == t && closes@[t].1 as int
                    == spec_node_scan(m0.cfg, mins, m0.nodes, t).1 by {
                    if t < lo {
                        assert(closes@[t] == closes0[t]);
                    } else {
                        assert(closes@[t] == r.1@[t - lo as int]);
                    }
                }
            }
            done = hi;
            c = c + 1;
        }
        self.merge_msgs(&msgs);
        self.merge_closes(&closes);
        proof {
            let m2 = spec_repulse(m0);
            lemma_apply_closes_exact(m0.nodes, closes@, closes@.len() as int);
            assert(self@.nodes =~= m2.nodes);
            assert(self@.vels == m2.vels);
            assert(self@ == m2);
        }
    }
}

} // verus!
