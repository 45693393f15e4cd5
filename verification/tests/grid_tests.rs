use grow::config::Config;
use grow::geom::V3;
use grow::grid::{build_grid, candidates, get_mins};
use grow::state::Node;

fn node_at(x: i64, y: i64, z: i64) -> Node {
    Node {
        pos: V3 { x, y, z },
        nclose: 0,
        siblings: 2,
        age: 0,
        dead: 0,
        left: 0,
        right: 0,
        trunk: false,
    }
}

/// A small deterministic pseudo-random generator for test layouts.
struct Lcg(u64);

impl Lcg {
    fn next(&mut self) -> u64 {
        self.0 = self.0.wrapping_mul(6364136223846793005).wrapping_add(1442695040888963407);
        self.0 >> 16
    }

    fn coord(&mut self, span: i64) -> i64 {
        (self.next() % (2 * span as u64 + 1)) as i64 - span
    }
}

#[test]
fn candidate_scan_covers_brute_force_neighbours() {
    let cfg = Config::standard();
    let close_sq = cfg.close_dist * cfg.close_dist;
    let mut rng = Lcg(42);
    for round in 0..4u64 {
        let n = 20 + 10 * round as usize;
        let mut pts: Vec<Node> = Vec::new();
        for _ in 0..n {
            pts.push(node_at(rng.coord(5000), rng.coord(5000), rng.coord(5000)));
        }
        let mins = get_mins(&pts);
        let g = build_grid(&cfg, &pts, mins);
        for i in 0..n {
            let cands = candidates(&g, &cfg, mins, &pts, i);
            for j in 0..n {
                let dx = pts[i].pos.x - pts[j].pos.x;
                let dy = pts[i].pos.y - pts[j].pos.y;
                let dz = pts[i].pos.z - pts[j].pos.z;
                if dx * dx + dy * dy + dz * dz < close_sq {
                    assert!(
                        cands.contains(&j),
                        "round {}: node {} missing from the scan of node {}",
                        round,
                        j,
                        i
                    );
                }
            }
        }
    }
}

#[test]
fn grid_origin_is_the_coordinate_minimum_clamped_to_zero() {
    let pts = vec![node_at(500, -300, 40), node_at(-20, 700, 90)];
    let mins = get_mins(&pts);
    assert_eq!((mins.x, mins.y, mins.z), (-20, -300, 0));
}
