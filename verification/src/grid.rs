//! The spatial index: node positions bucketed into a uniform grid of
//! cubic cells whose side is twice the crowding radius.
//!
//! A query for a node scans its home cell plus, per axis, the one
//! neighbouring cell on the side the node sits closer to. That scan is
//! guaranteed to reach every node strictly within the crowding radius;
//! anything farther that slips in is filtered by the caller's
//! squared-distance tests.

use vstd::prelude::*;
use vstd::arithmetic::div_mod::lemma_fundamental_div_mod;
use vstd::arithmetic::div_mod::lemma_fundamental_div_mod_converse;
use vstd::arithmetic::div_mod::lemma_mod_bound;
use crate::config::Config;
use crate::geom::V3;
use crate::state::Node;
use crate::POS_LIMIT;

verus! {

/// One grid cell: its integer coordinates and the indices of the nodes
/// whose positions fall in it, in ascending order.
pub struct GridCell {
    pub cx: i64,
    pub cy: i64,
    pub cz: i64,
    pub items: Vec<usize>,
}

impl GridCell {
    /// The cell's coordinate triple.
    pub open spec fn key(self) -> (int, int, int) {
        (self.cx as int, self.cy as int, self.cz as int)
    }
}

/// The spatial index over one tick's node positions.
pub struct Grid {
    pub cells: Vec<GridCell>,
}

/// The per-axis minimum over all node positions, never above zero: the
/// grid's origin.
pub open spec fn spec_mins_upto(nodes: Seq<Node>, k: int) -> (int, int, int)
    decreases k,
{
    if k <= 0 {
        (0, 0, 0)
    } else {
        let p = spec_mins_upto(nodes, k - 1);
        let q = nodes[k - 1].pos;
        (
            if q.x < p.0 { q.x as int } else { p.0 },
            if q.y < p.1 { q.y as int } else { p.1 },
            if q.z < p.2 { q.z as int } else { p.2 },
        )
    }
}

/// The grid origin for a node sequence.
pub open spec fn spec_mins(nodes: Seq<Node>) -> (int, int, int) {
    spec_mins_upto(nodes, nodes.len() as int)
}

/// `mins` lies at or below zero and at or below every coordinate.
pub open spec fn mins_ok(mins: V3, nodes: Seq<Node>) -> bool {
    &&& -POS_LIMIT <= mins.x <= 0
    &&& -POS_LIMIT <= mins.y <= 0
    &&& -POS_LIMIT <= mins.z <= 0
    &&& forall|j: int| 0 <= j < nodes.len() ==> {
        &&& mins.x <= (#[trigger] nodes[j]).pos.x
        &&& mins.y <= nodes[j].pos.y
        &&& mins.z <= nodes[j].pos.z
    }
}

/// The minima up to `k` stay in range and below the first `k` coordinates.
pub proof fn lemma_mins_upto_ok(nodes: Seq<Node>, k: int)
    requires
        0 <= k <= nodes.len(),
        forall|j: int| 0 <= j < nodes.len() ==> (#[trigger] nodes[j]).pos.in_range(POS_LIMIT as int),
    ensures
        ({
            let p = spec_mins_upto(nodes, k);
            &&& -POS_LIMIT <= p.0 <= 0
            &&& -POS_LIMIT <= p.1 <= 0
            &&& -POS_LIMIT <= p.2 <= 0
            &&& forall|j: int| 0 <= j < k ==> {
                &&& p.0 <= (#[trigger] nodes[j]).pos.x
                &&& p.1 <= nodes[j].pos.y
                &&& p.2 <= nodes[j].pos.z
            }
        }),
    decreases k,
{
    if k > 0 {
        lemma_mins_upto_ok(nodes, k - 1);
    }
}

/// Executable per-axis minima, exact per [`spec_mins`].
pub fn get_mins(pts: &Vec<Node>) -> (r: V3)
    requires
        forall|j: int| 0 <= j < pts@.len() ==> (#[trigger] pts@[j]).pos.in_range(POS_LIMIT as int),
    ensures
        (r.x as int, r.y as int, r.z as int) == spec_mins(pts@),
        mins_ok(r, pts@),
{
    let mut mx: i64 = 0;
    let mut my: i64 = 0;
    let mut mz: i64 = 0;
    let mut k: usize = 0;
    while k < pts.len()
        invariant
            k <= pts@.len(),
            forall|j: int| 0 <= j < pts@.len() ==> (#[trigger] pts@[j]).pos.in_range(POS_LIMIT as int),
            (mx as int, my as int, mz as int) == spec_mins_upto(pts@, k as int),
            -POS_LIMIT <= mx <= 0,
            -POS_LIMIT <= my <= 0,
            -POS_LIMIT <= mz <= 0,
        decreases pts@.len() - k,
    {
        proof {
            assert(pts@[k as int].pos.in_range(POS_LIMIT as int));
        }
        let p = pts[k].pos;
        if p.x < mx {
            mx = p.x;
        }
        if p.y < my {
            my = p.y;
        }
        if p.z < mz {
            mz = p.z;
        }
        k = k + 1;
    }
    proof {
        lemma_mins_upto_ok(pts@, pts@.len() as int);
    }
    V3 { x: mx, y: my, z: mz }
}

/// The cell a position falls in, relative to the grid origin.
pub open spec fn spec_cell(cfg: Config, mins: V3, p: V3) -> (int, int, int) {
    let cell = 2 * cfg.close_dist as int;
    ((p.x - mins.x) / cell, (p.y - mins.y) / cell, (p.z - mins.z) / cell)
}

/// The node indices whose position falls in `key`, among the first `k`,
/// in ascending order.
pub open spec fn spec_key_items_upto(
    cfg: Config,
    mins: V3,
    nodes: Seq<Node>,
    key: (int, int, int),
    k: int,
) -> Seq<usize>
    decreases k,
{
    if k <= 0 {
        Seq::empty()
    } else {
        let rest = spec_key_items_upto(cfg, mins, nodes, key, k - 1);
        if spec_cell(cfg, mins, nodes[k - 1].pos) == key {
            rest.push((k - 1) as usize)
        } else {
            rest
        }
    }
}

/// All node indices whose position falls in `key`, in ascending order.
pub open spec fn spec_key_items(cfg: Config, mins: V3, nodes: Seq<Node>, key: (int, int, int)) -> Seq<usize> {
    spec_key_items_upto(cfg, mins, nodes, key, nodes.len() as int)
}

/// Membership in the bucket sequence: exactly the indices below `k`
/// whose cell is `key`.
pub proof fn lemma_key_items_mem(
    cfg: Config,
    mins: V3,
    nodes: Seq<Node>,
    key: (int, int, int),
    k: int,
    j: usize,
)
    requires
        0 <= k <= nodes.len(),
        nodes.len() <= usize::MAX,
    ensures
        spec_key_items_upto(cfg, mins, nodes, key, k).contains(j) <==> (j < k && spec_cell(
            cfg,
            mins,
            nodes[j as int].pos,
        ) == key),
    decreases k,
{
    if k > 0 {
        lemma_key_items_mem(cfg, mins, nodes, key, k - 1, j);
        let rest = spec_key_items_upto(cfg, mins, nodes, key, k - 1);
        let whole = spec_key_items_upto(cfg, mins, nodes, key, k);
        if spec_cell(cfg, mins, nodes[k - 1].pos) == key {
            assert(whole == rest.push((k - 1) as usize));
            if j < k && spec_cell(cfg, mins, nodes[j as int].pos) == key {
                if j as int == k - 1 {
                    assert(whole[whole.len() - 1] == j);
                    assert(whole.contains(j));
                } else {
                    assert(rest.contains(j));
                    let w = choose|w: int| 0 <= w < rest.len() && rest[w] == j;
                    assert(whole[w] == j);
                    assert(whole.contains(j));
                }
            }
            if whole.contains(j) {
                let w = choose|w: int| 0 <= w < whole.len() && whole[w] == j;
                if w < rest.len() {
                    assert(rest[w] == j);
                    assert(rest.contains(j));
                }
            }
        } else {
            assert(whole == rest);
        }
    }
}

/// No two cells share a key.
pub open spec fn keys_distinct(cells: Seq<GridCell>) -> bool {
    forall|c1: int, c2: int| 0 <= c1 < c2 < cells.len() ==> (#[trigger] cells[c1]).key() != (
    #[trigger] cells[c2]).key()
}

/// Every one of the first `upto` nodes has a cell for its key.
pub open spec fn grid_covers(cells: Seq<GridCell>, cfg: Config, mins: V3, nodes: Seq<Node>, upto: int) -> bool {
    forall|t: int| 0 <= t < upto ==> exists|c: int| 0 <= c < cells.len() && (#[trigger] cells[c]).key()
        == spec_cell(cfg, mins, (#[trigger] nodes[t]).pos)
}

/// The first `filled` cells hold exactly their buckets.
pub open spec fn items_exact(cells: Seq<GridCell>, cfg: Config, mins: V3, nodes: Seq<Node>, filled: int) -> bool {
    forall|c: int| 0 <= c < filled ==> (#[trigger] cells[c]).items@ == spec_key_items(
        cfg,
        mins,
        nodes,
        cells[c].key(),
    )
}

impl Grid {
    /// The index's invariant against the node sequence it was built
    /// from: distinct cell keys, each holding exactly its bucket, and a
    /// cell for every node.
    pub open spec fn wf(self, cfg: Config, mins: V3, nodes: Seq<Node>) -> bool {
        &&& keys_distinct(self.cells@)
        &&& grid_covers(self.cells@, cfg, mins, nodes, nodes.len() as int)
        &&& items_exact(self.cells@, cfg, mins, nodes, self.cells@.len() as int)
    }

    /// Find the cell with the given coordinates, if any.
    pub fn find_cell(&self, kx: i64, ky: i64, kz: i64) -> (r: Option<usize>)
        ensures
            match r {
                Some(c) => c < self.cells@.len() && self.cells@[c as int].key() == (kx as int, ky as int, kz as int),
                None => forall|c: int| 0 <= c < self.cells@.len() ==> (#[trigger] self.cells@[c]).key()
                    != (kx as int, ky as int, kz as int),
            },
    {
        let mut c: usize = 0;
        while c < self.cells.len()
            invariant
                c <= self.cells@.len(),
                forall|d: int| 0 <= d < c ==> (#[trigger] self.cells@[d]).key() != (kx as int, ky as int, kz as int),
            decreases self.cells@.len() - c,
        {
            let cell = &self.cells[c];
            if cell.cx == kx && cell.cy == ky && cell.cz == kz {
                return Some(c);
            }
            c = c + 1;
        }
        None
    }
}

/// The executable cell of one position.
pub fn cell_of(cfg: &Config, mins: V3, p: V3) -> (r: (i64, i64, i64))
    requires
        cfg.wf(),
        p.in_range(POS_LIMIT as int),
        -POS_LIMIT <= mins.x <= 0,
        -POS_LIMIT <= mins.y <= 0,
        -POS_LIMIT <= mins.z <= 0,
        mins.x <= p.x,
        mins.y <= p.y,
        mins.z <= p.z,
    ensures
        (r.0 as int, r.1 as int, r.2 as int) == spec_cell(*cfg, mins, p),
        0 <= r.0 <= 2 * POS_LIMIT,
        0 <= r.1 <= 2 * POS_LIMIT,
        0 <= r.2 <= 2 * POS_LIMIT,
{
    let cell: u64 = (2 * cfg.close_dist) as u64;
    let rx: u64 = ((p.x - mins.x) as u64) / cell;
    let ry: u64 = ((p.y - mins.y) as u64) / cell;
    let rz: u64 = ((p.z - mins.z) as u64) / cell;
    proof {
        assert(rx as int == (p.x - mins.x) / (2 * cfg.close_dist as int));
        assert(ry as int == (p.y - mins.y) / (2 * cfg.close_dist as int));
        assert(rz as int == (p.z - mins.z) / (2 * cfg.close_dist as int));
        assert(rx as int <= (p.x - mins.x)) by (nonlinear_arith)
            requires
                rx as int == (p.x - mins.x) / (2 * cfg.close_dist as int),
                0 <= p.x - mins.x,
                2 <= 2 * cfg.close_dist as int,
        ;
        assert(ry as int <= (p.y - mins.y)) by (nonlinear_arith)
            requires
                ry as int == (p.y - mins.y) / (2 * cfg.close_dist as int),
                0 <= p.y - mins.y,
                2 <= 2 * cfg.close_dist as int,
        ;
        assert(rz as int <= (p.z - mins.z)) by (nonlinear_arith)
            requires
                rz as int == (p.z - mins.z) / (2 * cfg.close_dist as int),
                0 <= p.z - mins.z,
                2 <= 2 * cfg.close_dist as int,
        ;
    }
    (rx as i64, ry as i64, rz as i64)
}

/// Build the index: collect the distinct cell keys, then fill each
/// cell's bucket in ascending node order.
pub fn build_grid(cfg: &Config, pts: &Vec<Node>, mins: V3) -> (g: Grid)
    requires
        cfg.wf(),
        mins_ok(mins, pts@),
        forall|j: int| 0 <= j < pts@.len() ==> (#[trigger] pts@[j]).pos.in_range(POS_LIMIT as int),
    ensures
        g.wf(*cfg, mins, pts@),
{
    let mut g = Grid { cells: Vec::new() };
    let mut j: usize = 0;
    while j < pts.len()
        invariant
            cfg.wf(),
            mins_ok(mins, pts@),
            forall|t: int| 0 <= t < pts@.len() ==> (#[trigger] pts@[t]).pos.in_range(POS_LIMIT as int),
            j <= pts@.len(),
            keys_distinct(g.cells@),
            grid_covers(g.cells@, *cfg, mins, pts@, j as int),
        decreases pts@.len() - j,
    {
        proof {
            assert(pts@[j as int].pos.in_range(POS_LIMIT as int));
            assert(mins.x <= pts@[j as int].pos.x);
        }
        let key = cell_of(cfg, mins, pts[j].pos);
        let found = g.find_cell(key.0, key.1, key.2);
        let ghost g0 = g.cells@;
        match found {
            Some(ci) => {
                proof {
                    assert(g.cells@[ci as int].key() == spec_cell(*cfg, mins, pts@[j as int].pos));
                }
            },
            None => {
                g.cells.push(GridCell { cx: key.0, cy: key.1, cz: key.2, items: Vec::new() });
                proof {
                    let last = g.cells@.len() - 1;
                    assert(g.cells@[last].key() == spec_cell(*cfg, mins, pts@[j as int].pos));
                    assert forall|c1: int, c2: int| 0 <= c1 < c2 < g.cells@.len() implies (
                    #[trigger] g.cells@[c1]).key() != (#[trigger] g.cells@[c2]).key() by {
                        if c2 < last {
                            assert(g.cells@[c1] == g0[c1] && g.cells@[c2] == g0[c2]);
                        } else {
                            assert(g.cells@[c1] == g0[c1]);
                            assert(g0[c1].key() != (key.0 as int, key.1 as int, key.2 as int));
                        }
                    }
                }
            },
        }
        proof {
            assert forall|t: int| 0 <= t < j + 1 implies exists|c: int| 0 <= c < g.cells@.len()
                && (#[trigger] g.cells@[c]).key() == spec_cell(*cfg, mins, (#[trigger] pts@[t]).pos) by {
                if t < j {
                    let c = choose|c: int| 0 <= c < g0.len() && (#[trigger] g0[c]).key()
                        == spec_cell(*cfg, mins, pts@[t].pos);
                    assert(g.cells@[c].key() == spec_cell(*cfg, mins, pts@[t].pos));
                } else {
                    assert(exists|c: int| 0 <= c < g.cells@.len() && (#[trigger] g.cells@[c]).key()
                        == spec_cell(*cfg, mins, pts@[j as int].pos));
                }
            }
            assert(grid_covers(g.cells@, *cfg, mins, pts@, j + 1));
        }
        j = j + 1;
    }
    let ncells = g.cells.len();
    let mut c: usize = 0;
    while c < ncells
        invariant
            cfg.wf(),
            mins_ok(mins, pts@),
            forall|t: int| 0 <= t < pts@.len() ==> (#[trigger] pts@[t]).pos.in_range(POS_LIMIT as int),
            c <= ncells,
            ncells == g.cells@.len(),
            keys_distinct(g.cells@),
            grid_covers(g.cells@, *cfg, mins, pts@, pts@.len() as int),
            items_exact(g.cells@, *cfg, mins, pts@, c as int),
        decreases ncells - c,
    {
        let ghost key = g.cells@[c as int].key();
        let kx = g.cells[c].cx;
        let ky = g.cells[c].cy;
        let kz = g.cells[c].cz;
        let mut items: Vec<usize> = Vec::new();
        let mut t: usize = 0;
        while t < pts.len()
            invariant
                cfg.wf(),
                mins_ok(mins, pts@),
                forall|u: int| 0 <= u < pts@.len() ==> (#[trigger] pts@[u]).pos.in_range(POS_LIMIT as int),
                t <= pts@.len(),
                key == (kx as int, ky as int, kz as int),
                items@ == spec_key_items_upto(*cfg, mins, pts@, key, t as int),
            decreases pts@.len() - t,
        {
            proof {
                assert(pts@[t as int].pos.in_range(POS_LIMIT as int));
                assert(mins.x <= pts@[t as int].pos.x);
            }
            let k2 = cell_of(cfg, mins, pts[t].pos);
            if k2.0 == kx && k2.1 == ky && k2.2 == kz {
                items.push(t);
            }
            t = t + 1;
        }
        let ghost g1 = g.cells@;
        g.cells.set(c, GridCell { cx: kx, cy: ky, cz: kz, items });
        proof {
            assert(g.cells@[c as int].key() == key);
            assert forall|c1: int, c2: int| 0 <= c1 < c2 < g.cells@.len() implies (
            #[trigger] g.cells@[c1]).key() != (#[trigger] g.cells@[c2]).key() by {
                assert(g.cells@[c1].key() == g1[c1].key());
                assert(g.cells@[c2].key() == g1[c2].key());
                assert(g1[c1].key() != g1[c2].key());
            }
            assert(keys_distinct(g.cells@));
            assert forall|t: int| 0 <= t < pts@.len() implies exists|d: int| 0 <= d < g.cells@.len()
                && (#[trigger] g.cells@[d]).key() == spec_cell(*cfg, mins, (#[trigger] pts@[t]).pos) by {
                let d = choose|d: int| 0 <= d < g1.len() && (#[trigger] g1[d]).key()
                    == spec_cell(*cfg, mins, pts@[t].pos);
                assert(g.cells@[d].key() == g1[d].key());
            }
            assert(grid_covers(g.cells@, *cfg, mins, pts@, pts@.len() as int));
            assert forall|d: int| 0 <= d < c + 1 implies (#[trigger] g.cells@[d]).items@
                == spec_key_items(*cfg, mins, pts@, g.cells@[d].key()) by {
                if d < c {
                    assert(g.cells@[d] == g1[d]);
                }
            }
            assert(items_exact(g.cells@, *cfg, mins, pts@, c + 1));
        }
        c = c + 1;
    }
    g
}

/// The neighbouring cell index on one axis: the adjacent cell on the
/// side of the cell's centre that the offset sits on, clamped at zero.
pub open spec fn spec_nbr_axis(off: int, cell: int) -> int {
    let c = off / cell;
    if 2 * (off % cell) >= cell {
        c + 1
    } else if c > 0 {
        c - 1
    } else {
        c
    }
}

/// The neighbour cell triple for a position.
pub open spec fn spec_nbr(cfg: Config, mins: V3, p: V3) -> (int, int, int) {
    let cell = 2 * cfg.close_dist as int;
    (
        spec_nbr_axis(p.x - mins.x, cell),
        spec_nbr_axis(p.y - mins.y, cell),
        spec_nbr_axis(p.z - mins.z, cell),
    )
}

/// The candidate neighbour indices for node `i`: the buckets of its home
/// cell and of the up-to-seven distinct neighbouring cells its scan
/// visits, concatenated in scan order.
pub open spec fn spec_candidates(cfg: Config, mins: V3, nodes: Seq<Node>, i: int) -> Seq<usize> {
    let h = spec_cell(cfg, mins, nodes[i].pos);
    let n = spec_nbr(cfg, mins, nodes[i].pos);
    let s1 = spec_key_items(cfg, mins, nodes, h);
    let s2 = if n.0 != h.0 { s1 + spec_key_items(cfg, mins, nodes, (n.0, h.1, h.2)) } else { s1 };
    let s3 = if n.0 != h.0 && n.1 != h.1 { s2 + spec_key_items(cfg, mins, nodes, (n.0, n.1, h.2)) } else { s2 };
    let s4 = if n.0 != h.0 && n.1 != h.1 && n.2 != h.2 { s3 + spec_key_items(cfg, mins, nodes, (n.0, n.1, n.2)) } else { s3 };
    let s5 = if n.0 != h.0 && n.2 != h.2 { s4 + spec_key_items(cfg, mins, nodes, (n.0, h.1, n.2)) } else { s4 };
    let s6 = if n.1 != h.1 { s5 + spec_key_items(cfg, mins, nodes, (h.0, n.1, h.2)) } else { s5 };
    let s7 = if n.1 != h.1 && n.2 != h.2 { s6 + spec_key_items(cfg, mins, nodes, (h.0, n.1, n.2)) } else { s6 };
    if n.2 != h.2 { s7 + spec_key_items(cfg, mins, nodes, (h.0, h.1, n.2)) } else { s7 }
}

/// Concatenation on the right keeps membership.
pub proof fn lemma_concat_keep(s: Seq<usize>, t: Seq<usize>, j: usize)
    requires
        s.contains(j),
    ensures
        (s + t).contains(j),
{
    let w = choose|w: int| 0 <= w < s.len() && s[w] == j;
    assert((s + t)[w] == j);
}

/// A key no cell carries has an empty bucket, in a grid that covers all
/// nodes.
pub proof fn lemma_key_items_absent(
    cells: Seq<GridCell>,
    cfg: Config,
    mins: V3,
    nodes: Seq<Node>,
    key: (int, int, int),
)
    requires
        nodes.len() <= usize::MAX,
        grid_covers(cells, cfg, mins, nodes, nodes.len() as int),
        forall|c: int| 0 <= c < cells.len() ==> (#[trigger] cells[c]).key() != key,
    ensures
        spec_key_items(cfg, mins, nodes, key) == Seq::<usize>::empty(),
{
    let s = spec_key_items(cfg, mins, nodes, key);
    if s.len() > 0 {
        let j = s[0];
        assert(s.contains(j));
        lemma_key_items_mem(cfg, mins, nodes, key, nodes.len() as int, j);
        assert(spec_cell(cfg, mins, nodes[j as int].pos) == key);
        assert(exists|c: int| 0 <= c < cells.len() && (#[trigger] cells[c]).key() == spec_cell(
            cfg,
            mins,
            nodes[j as int].pos,
        ));
        assert(false);
    }
    assert(s =~= Seq::<usize>::empty());
}

/// Append the bucket of one cell key to an accumulator.
fn append_bucket(g: &Grid, cfg: &Config, mins: V3, pts: &Vec<Node>, out: &mut Vec<usize>, kx: i64, ky: i64, kz: i64)
    requires
        g.wf(*cfg, mins, pts@),
        pts@.len() <= usize::MAX,
    ensures
        final(out)@ == old(out)@ + spec_key_items(*cfg, mins, pts@, (kx as int, ky as int, kz as int)),
{
    let ghost key = (kx as int, ky as int, kz as int);
    match g.find_cell(kx, ky, kz) {
        Some(c) => {
            proof {
                assert(g.cells@[c as int].items@ == spec_key_items(*cfg, mins, pts@, key));
            }
            let cell = &g.cells[c];
            let mut t: usize = 0;
            while t < cell.items.len()
                invariant
                    cell.items@ == spec_key_items(*cfg, mins, pts@, key),
                    t <= cell.items@.len(),
                    out@ == old(out)@ + cell.items@.subrange(0, t as int),
                decreases cell.items@.len() - t,
            {
                out.push(cell.items[t]);
                proof {
                    assert(out@ =~= old(out)@ + cell.items@.subrange(0, t as int + 1));
                }
                t = t + 1;
            }
            proof {
                assert(cell.items@.subrange(0, cell.items@.len() as int) =~= cell.items@);
            }
        },
        None => {
            proof {
                lemma_key_items_absent(g.cells@, *cfg, mins, pts@, key);
                assert(out@ =~= old(out)@ + spec_key_items(*cfg, mins, pts@, key));
            }
        },
    }
}

/// The executable neighbour cell of one position, exact per [`spec_nbr`].
pub fn nbr_of(cfg: &Config, mins: V3, p: V3) -> (r: (i64, i64, i64))
    requires
        cfg.wf(),
        p.in_range(POS_LIMIT as int),
        -POS_LIMIT <= mins.x <= 0,
        -POS_LIMIT <= mins.y <= 0,
        -POS_LIMIT <= mins.z <= 0,
        mins.x <= p.x,
        mins.y <= p.y,
        mins.z <= p.z,
    ensures
        (r.0 as int, r.1 as int, r.2 as int) == spec_nbr(*cfg, mins, p),
        -1 <= r.0 <= 2 * POS_LIMIT + 1,
        -1 <= r.1 <= 2 * POS_LIMIT + 1,
        -1 <= r.2 <= 2 * POS_LIMIT + 1,
{
    let cell: u64 = (2 * cfg.close_dist) as u64;
    let home = cell_of(cfg, mins, p);
    let rx: u64 = ((p.x - mins.x) as u64) % cell;
    let ry: u64 = ((p.y - mins.y) as u64) % cell;
    let rz: u64 = ((p.z - mins.z) as u64) % cell;
    proof {
        assert(rx as int == (p.x - mins.x) % (2 * cfg.close_dist as int));
        assert(ry as int == (p.y - mins.y) % (2 * cfg.close_dist as int));
        assert(rz as int == (p.z - mins.z) % (2 * cfg.close_dist as int));
        lemma_mod_bound(p.x - mins.x, 2 * cfg.close_dist as int);
        lemma_mod_bound(p.y - mins.y, 2 * cfg.close_dist as int);
        lemma_mod_bound(p.z - mins.z, 2 * cfg.close_dist as int);
    }
    let nx: i64 = if 2 * rx >= cell {
        home.0 + 1
    } else if home.0 > 0 {
        home.0 - 1
    } else {
        home.0
    };
    let ny: i64 = if 2 * ry >= cell {
        home.1 + 1
    } else if home.1 > 0 {
        home.1 - 1
    } else {
        home.1
    };
    let nz: i64 = if 2 * rz >= cell {
        home.2 + 1
    } else if home.2 > 0 {
        home.2 - 1
    } else {
        home.2
    };
    (nx, ny, nz)
}

/// The executable candidate scan for node `i`, exact per
/// [`spec_candidates`].
pub fn candidates(g: &Grid, cfg: &Config, mins: V3, pts: &Vec<Node>, i: usize) -> (r: Vec<usize>)
    requires
        g.wf(*cfg, mins, pts@),
        cfg.wf(),
        mins_ok(mins, pts@),
        i < pts@.len(),
        pts@.len() <= usize::MAX,
        pts@[i as int].pos.in_range(POS_LIMIT as int),
    ensures
        r@ == spec_candidates(*cfg, mins, pts@, i as int),
{
    let p = pts[i].pos;
    let h = cell_of(cfg, mins, p);
    let n = nbr_of(cfg, mins, p);
    let mut out: Vec<usize> = Vec::new();
    append_bucket(g, cfg, mins, pts, &mut out, h.0, h.1, h.2);
    if n.0 != h.0 {
        append_bucket(g, cfg, mins, pts, &mut out, n.0, h.1, h.2);
        if n.1 != h.1 {
            append_bucket(g, cfg, mins, pts, &mut out, n.0, n.1, h.2);
            if n.2 != h.2 {
                append_bucket(g, cfg, mins, pts, &mut out, n.0, n.1, n.2);
            }
        }
        if n.2 != h.2 {
            append_bucket(g, cfg, mins, pts, &mut out, n.0, h.1, n.2);
        }
    }
    if n.1 != h.1 {
        append_bucket(g, cfg, mins, pts, &mut out, h.0, n.1, h.2);
        if n.2 != h.2 {
            append_bucket(g, cfg, mins, pts, &mut out, h.0, n.1, n.2);
        }
    }
    if n.2 != h.2 {
        append_bucket(g, cfg, mins, pts, &mut out, h.0, h.1, n.2);
    }
    proof {
        assert(out@ =~= spec_candidates(*cfg, mins, pts@, i as int));
    }
    out
}

/// Per-axis coverage: an offset strictly within `close` of `oi` falls
/// either in `oi`'s cell or in the one neighbouring cell its scan visits.
pub proof fn lemma_axis_cover(oi: int, oj: int, close: int)
    requires
        1 <= close,
        0 <= oi,
        0 <= oj,
        -close < oi - oj < close,
    ensures
        oj / (2 * close) == oi / (2 * close) || oj / (2 * close) == spec_nbr_axis(oi, 2 * close),
{
    let cell = 2 * close;
    lemma_fundamental_div_mod(oi, cell);
    lemma_mod_bound(oi, cell);
    let ci = oi / cell;
    let ri = oi % cell;
    assert(oi == cell * ci + ri);
    assert(0 <= ri < cell);
    assert(0 <= ci) by (nonlinear_arith)
        requires
            oi == cell * ci + ri,
            0 <= oi,
            0 <= ri < cell,
            2 <= cell,
    ;
    if 2 * ri >= cell {
        assert(ri >= close);
        assert(oj > cell * ci);
        assert(oj < cell * ci + ri + close <= cell * ci + cell + close < cell * ci + 2 * cell);
        if oj < cell * ci + cell {
            assert(oj == ci * cell + (oj - cell * ci)) by (nonlinear_arith);
            lemma_fundamental_div_mod_converse(oj, cell, ci, oj - cell * ci);
        } else {
            assert(cell * (ci + 1) == cell * ci + cell) by (nonlinear_arith);
            assert(0 <= oj - cell * (ci + 1) < cell);
            assert(oj == (ci + 1) * cell + (oj - cell * (ci + 1))) by (nonlinear_arith);
            lemma_fundamental_div_mod_converse(oj, cell, ci + 1, oj - (cell * (ci + 1)));
        }
    } else {
        assert(ri < close);
        assert(oj < cell * ci + ri + close < cell * ci + cell);
        if ci == 0 {
            assert(cell * ci == 0) by (nonlinear_arith)
                requires
                    ci == 0,
            ;
            assert(oj < cell);
            lemma_fundamental_div_mod_converse(oj, cell, 0, oj);
        } else {
            assert(oj > cell * ci + ri - close > cell * ci - cell);
            assert(cell * ci - cell == cell * (ci - 1)) by (nonlinear_arith);
            if oj >= cell * ci {
                assert(0 <= oj - cell * ci < cell);
                assert(oj == ci * cell + (oj - cell * ci)) by (nonlinear_arith);
                lemma_fundamental_div_mod_converse(oj, cell, ci, oj - cell * ci);
            } else {
                assert(0 <= oj - cell * (ci - 1) < cell);
                assert(oj == (ci - 1) * cell + (oj - cell * (ci - 1))) by (nonlinear_arith);
                lemma_fundamental_div_mod_converse(oj, cell, ci - 1, oj - cell * (ci - 1));
            }
        }
    }
}

/// The scan's guarantee: every node strictly within `close_dist` of node
/// `i` appears among its candidates. Farther nodes may appear too; the
/// caller filters by squared distance.
pub proof fn lemma_candidates_cover(cfg: Config, mins: V3, nodes: Seq<Node>, i: int, j: int)
    requires
        cfg.wf(),
        mins_ok(mins, nodes),
        nodes.len() <= usize::MAX,
        0 <= i < nodes.len(),
        0 <= j < nodes.len(),
        nodes[i].pos.in_range(POS_LIMIT as int),
        nodes[j].pos.in_range(POS_LIMIT as int),
        ({
            let pi = nodes[i].pos;
            let pj = nodes[j].pos;
            ((pi.x - pj.x) * (pi.x - pj.x)) + ((pi.y - pj.y) * (pi.y - pj.y)) + ((pi.z - pj.z) * (pi.z - pj.z))
                < cfg.close_dist * cfg.close_dist
        }),
    ensures
        spec_candidates(cfg, mins, nodes, i).contains(j as usize),
{
    let pi = nodes[i].pos;
    let pj = nodes[j].pos;
    let close = cfg.close_dist as int;
    let cell = 2 * close;
    let sq = ((pi.x - pj.x) * (pi.x - pj.x)) + ((pi.y - pj.y) * (pi.y - pj.y)) + ((pi.z - pj.z) * (pi.z - pj.z));
    assert(0 <= (pi.x - pj.x) * (pi.x - pj.x) && 0 <= (pi.y - pj.y) * (pi.y - pj.y) && 0 <= (pi.z - pj.z) * (pi.z - pj.z)) by (nonlinear_arith);
    assert(-close < pi.x - pj.x < close) by (nonlinear_arith)
        requires
            (pi.x - pj.x) * (pi.x - pj.x) <= sq,
            sq < close * close,
            0 < close,
    ;
    assert(-close < pi.y - pj.y < close) by (nonlinear_arith)
        requires
            (pi.y - pj.y) * (pi.y - pj.y) <= sq,
            sq < close * close,
            0 < close,
    ;
    assert(-close < pi.z - pj.z < close) by (nonlinear_arith)
        requires
            (pi.z - pj.z) * (pi.z - pj.z) <= sq,
            sq < close * close,
            0 < close,
    ;
    lemma_axis_cover(pi.x - mins.x, pj.x - mins.x, close);
    lemma_axis_cover(pi.y - mins.y, pj.y - mins.y, close);
    lemma_axis_cover(pi.z - mins.z, pj.z - mins.z, close);
    let h = spec_cell(cfg, mins, pi);
    let n = spec_nbr(cfg, mins, pi);
    let kj = spec_cell(cfg, mins, pj);
    assert(kj.0 == h.0 || kj.0 == n.0);
    assert(kj.1 == h.1 || kj.1 == n.1);
    assert(kj.2 == h.2 || kj.2 == n.2);
    lemma_key_items_mem(cfg, mins, nodes, kj, nodes.len() as int, j as usize);
    assert(spec_key_items(cfg, mins, nodes, kj).contains(j as usize));
    let s1 = spec_key_items(cfg, mins, nodes, h);
    let s2 = if n.0 != h.0 { s1 + spec_key_items(cfg, mins, nodes, (n.0, h.1, h.2)) } else { s1 };
    let s3 = if n.0 != h.0 && n.1 != h.1 { s2 + spec_key_items(cfg, mins, nodes, (n.0, n.1, h.2)) } else { s2 };
    let s4 = if n.0 != h.0 && n.1 != h.1 && n.2 != h.2 { s3 + spec_key_items(cfg, mins, nodes, (n.0, n.1, n.2)) } else { s3 };
    let s5 = if n.0 != h.0 && n.2 != h.2 { s4 + spec_key_items(cfg, mins, nodes, (n.0, h.1, n.2)) } else { s4 };
    let s6 = if n.1 != h.1 { s5 + spec_key_items(cfg, mins, nodes, (h.0, n.1, h.2)) } else { s5 };
    let s7 = if n.1 != h.1 && n.2 != h.2 { s6 + spec_key_items(cfg, mins, nodes, (h.0, n.1, n.2)) } else { s6 };
    let s8 = if n.2 != h.2 { s7 + spec_key_items(cfg, mins, nodes, (h.0, h.1, n.2)) } else { s7 };
    assert(s8 == spec_candidates(cfg, mins, nodes, i));
    let jx = j as usize;
    if kj == h {
        assert(s1.contains(jx));
    } else if kj.0 != h.0 && kj.1 == h.1 && kj.2 == h.2 {
        assert(kj == (n.0, h.1, h.2) && n.0 != h.0);
        let t = spec_key_items(cfg, mins, nodes, (n.0, h.1, h.2));
        let u = choose|u: int| 0 <= u < t.len() && t[u] == jx;
        assert(s2 == s1 + t);
        assert(s2[s1.len() + u] == jx);
        assert(s2.contains(jx));
    } else if kj.0 != h.0 && kj.1 != h.1 && kj.2 == h.2 {
        assert(kj == (n.0, n.1, h.2) && n.0 != h.0 && n.1 != h.1);
        let t = spec_key_items(cfg, mins, nodes, (n.0, n.1, h.2));
        let u = choose|u: int| 0 <= u < t.len() && t[u] == jx;
        assert(s3 == s2 + t);
        assert(s3[s2.len() + u] == jx);
        assert(s3.contains(jx));
    } else if kj.0 != h.0 && kj.1 != h.1 && kj.2 != h.2 {
        assert(kj == (n.0, n.1, n.2) && n.0 != h.0 && n.1 != h.1 && n.2 != h.2);
        let t = spec_key_items(cfg, mins, nodes, (n.0, n.1, n.2));
        let u = choose|u: int| 0 <= u < t.len() && t[u] == jx;
        assert(s4 == s3 + t);
        assert(s4[s3.len() + u] == jx);
        assert(s4.contains(jx));
    } else if kj.0 != h.0 && kj.1 == h.1 && kj.2 != h.2 {
        assert(kj == (n.0, h.1, n.2) && n.0 != h.0 && n.2 != h.2);
        let t = spec_key_items(cfg, mins, nodes, (n.0, h.1, n.2));
        let u = choose|u: int| 0 <= u < t.len() && t[u] == jx;
        assert(s5 == s4 + t);
        assert(s5[s4.len() + u] == jx);
        assert(s5.contains(jx));
    } else if kj.0 == h.0 && kj.1 != h.1 && kj.2 == h.2 {
        assert(kj == (h.0, n.1, h.2) && n.1 != h.1);
        let t = spec_key_items(cfg, mins, nodes, (h.0, n.1, h.2));
        let u = choose|u: int| 0 <= u < t.len() && t[u] == jx;
        assert(s6 == s5 + t);
        assert(s6[s5.len() + u] == jx);
        assert(s6.contains(jx));
    } else if kj.0 == h.0 && kj.1 != h.1 && kj.2 != h.2 {
        assert(kj == (h.0, n.1, n.2) && n.1 != h.1 && n.2 != h.2);
        let t = spec_key_items(cfg, mins, nodes, (h.0, n.1, n.2));
        let u = choose|u: int| 0 <= u < t.len() && t[u] == jx;
        assert(s7 == s6 + t);
        assert(s7[s6.len() + u] == jx);
        assert(s7.contains(jx));
    } else {
        assert(kj.0 == h.0 && kj.1 == h.1 && kj.2 != h.2);
        assert(kj == (h.0, h.1, n.2) && n.2 != h.2);
        let t = spec_key_items(cfg, mins, nodes, (h.0, h.1, n.2));
        let u = choose|u: int| 0 <= u < t.len() && t[u] == jx;
        assert(s8 == s7 + t);
        assert(s8[s7.len() + u] == jx);
        assert(s8.contains(jx));
    }
    if s1.contains(jx) {
        if n.0 != h.0 {
            lemma_concat_keep(s1, spec_key_items(cfg, mins, nodes, (n.0, h.1, h.2)), jx);
        }
        assert(s2.contains(jx));
    }
    if s2.contains(jx) {
        if n.0 != h.0 && n.1 != h.1 {
            lemma_concat_keep(s2, spec_key_items(cfg, mins, nodes, (n.0, n.1, h.2)), jx);
        }
        assert(s3.contains(jx));
    }
    if s3.contains(jx) {
        if n.0 != h.0 && n.1 != h.1 && n.2 != h.2 {
            lemma_concat_keep(s3, spec_key_items(cfg, mins, nodes, (n.0, n.1, n.2)), jx);
        }
        assert(s4.contains(jx));
    }
    if s4.contains(jx) {
        if n.0 != h.0 && n.2 != h.2 {
            lemma_concat_keep(s4, spec_key_items(cfg, mins, nodes, (n.0, h.1, n.2)), jx);
        }
        assert(s5.contains(jx));
    }
    if s5.contains(jx) {
        if n.1 != h.1 {
            lemma_concat_keep(s5, spec_key_items(cfg, mins, nodes, (h.0, n.1, h.2)), jx);
        }
        assert(s6.contains(jx));
    }
    if s6.contains(jx) {
        if n.1 != h.1 && n.2 != h.2 {
            lemma_concat_keep(s6, spec_key_items(cfg, mins, nodes, (h.0, n.1, n.2)), jx);
        }
        assert(s7.contains(jx));
    }
    if s7.contains(jx) {
        if n.2 != h.2 {
            lemma_concat_keep(s7, spec_key_items(cfg, mins, nodes, (h.0, h.1, n.2)), jx);
        }
        assert(s8.contains(jx));
    }
}

} // verus!
