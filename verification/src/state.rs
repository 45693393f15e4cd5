//! The simulation state: nodes, edges, triangles, and the invariants that
//! every tick preserves.
//!
//! Nodes are identified by their index into an append-only array; indices
//! are never reused, so edge endpoints and the `left`/`right` ring links
//! stay valid for the life of a run.

use vstd::prelude::*;
use crate::config::Config;
use crate::geom::V3;
use crate::LEN_CAP;
use crate::CURLEN_CAP;
use crate::POS_LIMIT;
use crate::VEL_LIMIT;

verus! {

/// A point mass of the mesh.
#[derive(Clone, Copy, PartialEq, Eq, Structural, Debug)]
pub struct Node {
    /// Position in milli-units.
    pub pos: V3,
    /// Number of neighbours within `close_dist`, recomputed every tick.
    pub nclose: usize,
    /// Number of edges that have ever ended here.
    pub siblings: usize,
    /// Ticks since creation.
    pub age: usize,
    /// Ticks of near-zero motion while crowded; this variant never
    /// advances it, so it stays at its decoded or seeded value.
    pub dead: i64,
    /// Ring links: the neighbouring node indices on the growth front.
    pub left: usize,
    pub right: usize,
    /// Whether the node is subject to gravity.
    pub trunk: bool,
}

/// A spring joining two nodes.
#[derive(Clone, Copy, PartialEq, Eq, Structural, Debug)]
pub struct Edge {
    pub a: usize,
    pub b: usize,
    /// Ticks since creation or last subdivision.
    pub age: usize,
    /// Target rest length in milli-units; grows over time.
    pub len: i64,
    /// Actual length measured by the last stick pass, cached for the
    /// subdivision test.
    pub curlen: i64,
}

/// A mesh face recorded at subdivision time; append-only.
#[derive(Clone, Copy, PartialEq, Eq, Structural, Debug)]
pub struct Tri {
    pub a: usize,
    pub b: usize,
    pub c: usize,
}

/// The mathematical value of a [`State`]: the same data as sequences and
/// unbounded integers.
pub ghost struct Model {
    pub time: int,
    pub cfg: Config,
    pub nodes: Seq<Node>,
    pub vels: Seq<V3>,
    pub edges: Seq<Edge>,
    pub tris: Seq<Tri>,
}

/// An edge whose endpoints and lengths are in range for a mesh of `n` nodes.
pub open spec fn edge_ok(e: Edge, n: int) -> bool {
    &&& e.a < n
    &&& e.b < n
    &&& 0 < e.len <= LEN_CAP
    &&& 0 <= e.curlen <= CURLEN_CAP
}

/// A node whose links and position are in range for a mesh of `n` nodes.
pub open spec fn node_ok(nd: Node, n: int) -> bool {
    &&& nd.left < n
    &&& nd.right < n
    &&& nd.pos.in_range(POS_LIMIT as int)
}

/// A face whose corners are in range for a mesh of `n` nodes.
pub open spec fn tri_ok(t: Tri, n: int) -> bool {
    &&& t.a < n
    &&& t.b < n
    &&& t.c < n
}

/// Well-formedness of a model: the invariant that `init`, `start` and
/// every tick phase establish and preserve.
pub open spec fn wf_model(m: Model) -> bool {
    &&& m.cfg.wf()
    &&& 0 <= m.time
    &&& m.vels.len() == m.nodes.len()
    &&& forall|i: int| 0 <= i < m.nodes.len() ==> node_ok(#[trigger] m.nodes[i], m.nodes.len() as int)
    &&& forall|i: int| 0 <= i < m.vels.len() ==> (#[trigger] m.vels[i]).in_range(VEL_LIMIT as int)
    &&& forall|i: int| 0 <= i < m.edges.len() ==> edge_ok(#[trigger] m.edges[i], m.nodes.len() as int)
    &&& forall|i: int| 0 <= i < m.tris.len() ==> tri_ok(#[trigger] m.tris[i], m.nodes.len() as int)
}

/// The full simulation state.
#[derive(Clone)]
pub struct State {
    /// Ticks elapsed since the initial seeding.
    pub time: i32,
    /// The tunable parameters this state was created with.
    pub cfg: Config,
    /// All point masses, append-only.
    pub pts: Vec<Node>,
    /// Per-node accumulated velocity, parallel to `pts`.
    pub vels: Vec<V3>,
    /// All springs, append-only.
    pub edges: Vec<Edge>,
    /// All recorded faces, append-only.
    pub tris: Vec<Tri>,
}

impl View for State {
    type V = Model;

    open spec fn view(&self) -> Model {
        Model {
            time: self.time as int,
            cfg: self.cfg,
            nodes: self.pts@,
            vels: self.vels@,
            edges: self.edges@,
            tris: self.tris@,
        }
    }
}

impl State {
    /// The state invariant; see [`wf_model`].
    pub open spec fn wf(self) -> bool {
        wf_model(self@)
    }

    /// A fresh, empty state carrying the given parameters.
    pub fn init(cfg: Config) -> (r: State)
        requires
            cfg.wf(),
        ensures
            r.wf(),
            r@.time == 0,
            r@.cfg == cfg,
            r@.nodes.len() == 0,
            r@.vels.len() == 0,
            r@.edges.len() == 0,
            r@.tris.len() == 0,
    {
        State { time: 0, cfg, pts: Vec::new(), vels: Vec::new(), edges: Vec::new(), tris: Vec::new() }
    }

    /// Position of node `i`.
    pub fn pos(&self, i: usize) -> (r: V3)
        requires
            i < self@.nodes.len(),
        ensures
            r == self@.nodes[i as int].pos,
    {
        self.pts[i].pos
    }

    /// The two endpoint indices of edge `e`.
    pub fn edge_pts(&self, e: usize) -> (r: (usize, usize))
        requires
            e < self@.edges.len(),
        ensures
            r.0 == self@.edges[e as int].a,
            r.1 == self@.edges[e as int].b,
    {
        (self.edges[e].a, self.edges[e].b)
    }

    /// Number of edges.
    pub fn num_edges(&self) -> (r: usize)
        ensures
            r == self@.edges.len(),
    {
        self.edges.len()
    }

    /// Number of nodes.
    pub fn num_nodes(&self) -> (r: usize)
        ensures
            r == self@.nodes.len(),
    {
        self.pts.len()
    }

    /// Number of recorded faces.
    pub fn num_tris(&self) -> (r: usize)
        ensures
            r == self@.tris.len(),
    {
        self.tris.len()
    }

    /// All node positions, in index order.
    pub fn coords(&self) -> (r: Vec<V3>)
        ensures
            r@.len() == self@.nodes.len(),
            forall|i: int| 0 <= i < r@.len() ==> r@[i] == self@.nodes[i].pos,
    {
        let mut out: Vec<V3> = Vec::new();
        let mut i: usize = 0;
        while i < self.pts.len()
            invariant
                i <= self.pts.len(),
                out@.len() == i,
                forall|j: int| 0 <= j < i ==> out@[j] == self.pts@[j].pos,
            decreases self.pts.len() - i,
        {
            out.push(self.pts[i].pos);
            i = i + 1;
        }
        out
    }

    /// The counts a status line reports: edges, nodes, and the tick counter.
    pub fn info(&self) -> (r: (usize, usize, i32))
        ensures
            r.0 == self@.edges.len(),
            r.1 == self@.nodes.len(),
            r.2 as int == self@.time,
    {
        (self.edges.len(), self.pts.len(), self.time)
    }
}

impl PartialEq for State {
    /// Field-wise equality, element by element.
    fn eq(&self, other: &State) -> (r: bool) {
        if self.time != other.time {
            return false;
        }
        if self.cfg != other.cfg {
            return false;
        }
        if self.pts.len() != other.pts.len() || self.vels.len() != other.vels.len()
            || self.edges.len() != other.edges.len() || self.tris.len() != other.tris.len() {
            return false;
        }
        let mut i: usize = 0;
        while i < self.pts.len()
            invariant
                i <= self.pts.len(),
                self.pts.len() == other.pts.len(),
                forall|j: int| 0 <= j < i ==> self.pts@[j] == other.pts@[j],
            decreases self.pts.len() - i,
        {
            if self.pts[i] != other.pts[i] {
                return false;
            }
            i = i + 1;
        }
        let mut i: usize = 0;
        while i < self.vels.len()
            invariant
                i <= self.vels.len(),
                self.vels.len() == other.vels.len(),
                forall|j: int| 0 <= j < i ==> self.vels@[j] == other.vels@[j],
            decreases self.vels.len() - i,
        {
            if self.vels[i] != other.vels[i] {
                return false;
            }
            i = i + 1;
        }
        let mut i: usize = 0;
        while i < self.edges.len()
            invariant
                i <= self.edges.len(),
                self.edges.len() == other.edges.len(),
                forall|j: int| 0 <= j < i ==> self.edges@[j] == other.edges@[j],
            decreases self.edges.len() - i,
        {
            if self.edges[i] != other.edges[i] {
                return false;
            }
            i = i + 1;
        }
        let mut i: usize = 0;
        while i < self.tris.len()
            invariant
                i <= self.tris.len(),
                self.tris.len() == other.tris.len(),
                forall|j: int| 0 <= j < i ==> self.tris@[j] == other.tris@[j],
            decreases self.tris.len() - i,
        {
            if self.tris[i] != other.tris[i] {
                return false;
            }
            i = i + 1;
        }
        proof {
            assert(self.pts@ =~= other.pts@);
            assert(self.vels@ =~= other.vels@);
            assert(self.edges@ =~= other.edges@);
            assert(self.tris@ =~= other.tris@);
        }
        true
    }
}

impl vstd::std_specs::cmp::PartialEqSpecImpl for State {
    open spec fn obeys_eq_spec() -> bool {
        true
    }

    open spec fn eq_spec(&self, other: &State) -> bool {
        self@ == other@
    }
}

} // verus!
