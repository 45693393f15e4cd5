use grow::config::Config;
use grow::geom::V3;
use grow::seed::new_state;
use grow::state::{Edge, Node, State};

fn two_node_state(len: i64, curlen: i64, gap: i64) -> State {
    let cfg = Config::standard();
    let mut st = State::init(cfg);
    st.pts.push(Node {
        pos: V3 { x: 0, y: 0, z: 0 },
        nclose: 0,
        siblings: 2,
        age: 0,
        dead: 0,
        left: 1,
        right: 1,
        trunk: false,
    });
    st.pts.push(Node {
        pos: V3 { x: gap, y: 0, z: 0 },
        nclose: 0,
        siblings: 2,
        age: 0,
        dead: 0,
        left: 0,
        right: 0,
        trunk: false,
    });
    st.vels.push(V3 { x: 0, y: 0, z: 0 });
    st.vels.push(V3 { x: 0, y: 0, z: 0 });
    st.edges.push(Edge { a: 0, b: 1, age: 0, len, curlen });
    st
}

#[test]
fn start_ring_counts_and_links() {
    let st = new_state(Config::standard(), 10);
    assert_eq!(st.num_nodes(), 10);
    assert_eq!(st.num_edges(), 10);
    assert_eq!(st.num_tris(), 0);
    assert!(st.is_well_formed());
    for k in 0..10usize {
        let nd = st.pts[k];
        assert_eq!(nd.right, (k + 1) % 10);
        assert_eq!(nd.left, (k + 10 - 1) % 10);
        assert!(nd.trunk);
        // ring links are mutually inverse
        assert_eq!(st.pts[nd.right].left, k);
        assert_eq!(st.pts[nd.left].right, k);
    }
    for k in 0..10usize {
        let (a, b) = st.edge_pts(k);
        assert_eq!(a, k);
        assert_eq!(b, (k + 1) % 10);
    }
}

#[test]
fn one_tick_moves_every_node_a_little() {
    let mut st = new_state(Config::standard(), 10);
    let before = st.coords();
    st.tick();
    assert_eq!(st.num_edges(), 10);
    assert_eq!(st.num_nodes(), 10);
    assert_eq!(st.num_tris(), 0);
    let (edges, nodes, time) = st.info();
    assert_eq!(edges, 10);
    assert_eq!(nodes, 10);
    assert_eq!(time, 1);
    let after = st.coords();
    for k in 0..10usize {
        let dx = after[k].x - before[k].x;
        let dy = after[k].y - before[k].y;
        let dz = after[k].z - before[k].z;
        assert!(dx != 0 || dy != 0 || dz != 0, "node {} did not move", k);
        assert!(dx.abs() <= 200 && dy.abs() <= 200 && dz.abs() <= 200);
    }
}

#[test]
fn counts_never_shrink_over_many_ticks() {
    let mut st = new_state(Config::standard(), 10);
    let mut nodes = st.num_nodes();
    let mut edges = st.num_edges();
    let mut tris = st.num_tris();
    for _ in 0..30 {
        st.tick();
        assert!(st.num_nodes() >= nodes);
        assert!(st.num_edges() >= edges);
        assert!(st.num_tris() >= tris);
        nodes = st.num_nodes();
        edges = st.num_edges();
        tris = st.num_tris();
        assert!(st.is_well_formed());
    }
}

#[test]
fn overlong_edge_splits_exactly_once() {
    let mut st = two_node_state(500, 600, 600);
    assert!(st.is_well_formed());
    st.tick();
    assert_eq!(st.num_nodes(), 3);
    assert_eq!(st.num_edges(), 3);
    assert_eq!(st.num_tris(), 1);
    // The new node sits between the old endpoints on the ring.
    assert_eq!(st.pts[0].right, 2);
    assert_eq!(st.pts[2].left, 0);
    assert_eq!(st.pts[2].right, 1);
    assert_eq!(st.pts[1].left, 2);
    // Ring links stay mutually inverse after the split.
    for k in 0..3usize {
        let nd = st.pts[k];
        assert_eq!(st.pts[nd.right].left, k);
        assert_eq!(st.pts[nd.left].right, k);
    }
    let (a0, b0) = st.edge_pts(0);
    assert_eq!((a0, b0), (0, 2));
    let (a1, b1) = st.edge_pts(1);
    assert_eq!((a1, b1), (2, 1));
    let (a2, b2) = st.edge_pts(2);
    assert_eq!((a2, b2), (0, 1));
    let t = st.tris[0];
    assert_eq!((t.a, t.b, t.c), (2, 0, 1));
}

#[test]
fn short_edge_does_not_split() {
    let mut st = two_node_state(100, 600, 600);
    st.tick();
    assert_eq!(st.num_nodes(), 2);
    assert_eq!(st.num_edges(), 1);
    assert_eq!(st.num_tris(), 0);
}

#[test]
fn stick_pass_conserves_velocity() {
    let mut st = two_node_state(500, 600, 600);
    st.adjust();
    // Equal and opposite impulses: the velocity deltas cancel.
    assert_eq!(st.vels[0].x + st.vels[1].x, 0);
    assert_eq!(st.vels[0].y + st.vels[1].y, 0);
    assert_eq!(st.vels[0].z + st.vels[1].z, 0);
    assert!(st.vels[0].x != 0, "a stretched edge must pull its endpoints");
    // The measured length is cached on the edge.
    assert_eq!(st.edges[0].curlen, 600);
}

#[test]
fn growth_is_throttled_by_crowding() {
    let mut st = two_node_state(100, 100, 100);
    // Uncrowded endpoints grow at full speed.
    st.edge_grow();
    assert_eq!(st.edges[0].len, 120);
    // Both endpoints over the crowding threshold stop growth.
    st.pts[0].nclose = 35;
    st.pts[1].nclose = 35;
    st.edge_grow();
    assert_eq!(st.edges[0].len, 120);
    // A partly crowded edge grows at an interpolated rate:
    // 10 + 10 * (20 - 5) / (34 - 5) = 15.
    st.pts[0].nclose = 20;
    st.pts[1].nclose = 21;
    st.edge_grow();
    assert_eq!(st.edges[0].len, 135);
}

#[test]
fn just_once_runs() {
    grow::sim::just_once();
}

#[test]
fn ring_traversal_closes_after_the_first_split() {
    let mut st = new_state(Config::standard(), 10);
    let mut split_seen = false;
    for _ in 0..100 {
        st.tick();
        if st.num_nodes() > 10 {
            split_seen = true;
            break;
        }
    }
    assert!(split_seen, "the seed ring must subdivide within a hundred ticks");
    let n = st.num_nodes();
    // Links are still mutually inverse...
    for k in 0..n {
        let nd = st.pts[k];
        assert_eq!(st.pts[nd.right].left, k);
        assert_eq!(st.pts[nd.left].right, k);
    }
    // ...so following `right` from any node returns to it.
    for start in 0..n {
        let mut cur = start;
        let mut steps = 0usize;
        loop {
            cur = st.pts[cur].right;
            steps += 1;
            if cur == start || steps > n {
                break;
            }
        }
        assert_eq!(cur, start, "the ring does not close from node {}", start);
    }
}
