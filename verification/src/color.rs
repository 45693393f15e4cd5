//! Display colours and texture coordinates for the rendering
//! collaborator: deterministic functions of an edge's age, a node's age,
//! the global tick counter and a caller-chosen hue offset.
//!
//! Colours are per-mille RGB triples and hues are milli-degrees, so the
//! whole derivation is integer arithmetic.

use vstd::prelude::*;
use crate::geom::V3;
use crate::geom::spec_div_trunc;
use crate::geom::spec_rem_trunc;
use crate::geom::div_trunc_i64;
use crate::geom::rem_trunc_i64;
use crate::state::State;
use crate::state::edge_ok;

verus! {

/// Hue/saturation/lightness to per-mille RGB, hue in milli-degrees.
pub open spec fn spec_hsl(h: int, s: int, l: int) -> V3 {
    let dl = if 2 * l - 1000 >= 0 { 2 * l - 1000 } else { 1000 - 2 * l };
    let c = spec_div_trunc((1000 - dl) * s, 1000);
    let tq = spec_rem_trunc(spec_div_trunc(h, 60), 2000);
    let dt = if tq - 1000 >= 0 { tq - 1000 } else { 1000 - tq };
    let x = spec_div_trunc(c * (1000 - dt), 1000);
    let m = l - spec_div_trunc(c, 2);
    if h < 60_000 {
        V3 { x: (c + m) as i64, y: (x + m) as i64, z: m as i64 }
    } else if h < 120_000 {
        V3 { x: (x + m) as i64, y: (c + m) as i64, z: m as i64 }
    } else if h < 180_000 {
        V3 { x: m as i64, y: (c + m) as i64, z: (x + m) as i64 }
    } else if h < 240_000 {
        V3 { x: m as i64, y: (x + m) as i64, z: (c + m) as i64 }
    } else if h < 300_000 {
        V3 { x: (x + m) as i64, y: m as i64, z: (c + m) as i64 }
    } else {
        V3 { x: c as i64, y: 0, z: x as i64 }
    }
}

/// Executable conversion, exact per [`spec_hsl`].
pub fn hsl(h: i64, s: i64, l: i64) -> (r: V3)
    requires
        -400_000 <= h <= 400_000,
        0 <= s <= 1000,
        0 <= l <= 1000,
    ensures
        r == spec_hsl(h as int, s as int, l as int),
{
    let dl: i64 = if 2 * l - 1000 >= 0 {
        2 * l - 1000
    } else {
        1000 - 2 * l
    };
    proof {
        assert(0 <= (1000 - dl) * s <= 1_000_000int) by (nonlinear_arith)
            requires
                0 <= 1000 - dl <= 1000,
                0 <= s <= 1000,
        ;
        crate::geom::lemma_div_trunc_bound((1000 - dl) * s as int, 1000, 1000);
    }
    let c: i64 = div_trunc_i64((1000 - dl) * s, 1000);
    proof {
        assert(0 <= spec_div_trunc((1000 - dl) * s, 1000));
    }
    let tq: i64 = rem_trunc_i64(div_trunc_i64(h, 60), 2000);
    let dt: i64 = if tq - 1000 >= 0 {
        tq - 1000
    } else {
        1000 - tq
    };
    proof {
        assert(0 <= c * (1000 - dt) <= 4_000_000int || -4_000_000int <= c * (1000 - dt) <= 0) by (nonlinear_arith)
            requires
                0 <= c <= 1000,
                -3000 <= 1000 - dt <= 1000,
        ;
    }
    let x: i64 = div_trunc_i64(c * (1000 - dt), 1000);
    let m: i64 = l - div_trunc_i64(c, 2);
    if h < 60_000 {
        V3 { x: c + m, y: x + m, z: m }
    } else if h < 120_000 {
        V3 { x: x + m, y: c + m, z: m }
    } else if h < 180_000 {
        V3 { x: m, y: c + m, z: x + m }
    } else if h < 240_000 {
        V3 { x: m, y: x + m, z: c + m }
    } else if h < 300_000 {
        V3 { x: x + m, y: m, z: c + m }
    } else {
        V3 { x: c, y: 0, z: x }
    }
}

/// The age fraction of a part aged `age` at tick `time`, in per-mille.
pub open spec fn spec_age_frac(age: int, time: int) -> int {
    spec_div_trunc(1000 * age, time)
}

/// The display hue and colour of edge `i` at tick `time` with hue offset
/// `off`: the hue winds down as the edge ages relative to the run.
pub open spec fn spec_edge_color(age: int, time: int, off: int) -> V3 {
    let h = spec_rem_trunc(324_000 - 180 * spec_age_frac(age, time) + off, 360_000);
    spec_hsl(h, 1000, 300)
}

impl State {
    /// Display colour of edge `i`, offset by `off` milli-degrees. The
    /// tick counter must have advanced at least once, as the hue is a
    /// fraction of it.
    pub fn edge_color(&self, i: usize, off: i64) -> (r: V3)
        requires
            self.wf(),
            i < self@.edges.len(),
            self@.time >= 1,
            -360_000 <= off <= 360_000,
        ensures
            r == spec_edge_color(self@.edges[i as int].age as int, self@.time, off as int),
    {
        proof {
            assert(edge_ok(self@.edges[i as int], self@.nodes.len() as int));
        }
        let age = self.edges[i].age;
        let q: i128 = ((age as u128) * 1000 / (self.time as u128)) as i128;
        proof {
            assert((age as u128) * 1000 == (age as int) * 1000) by (nonlinear_arith);
            assert(((age as int) * 1000) / (self.time as int) == spec_div_trunc(
                1000 * (age as int),
                self.time as int,
            ));
            assert(0 <= q <= (age as int) * 1000) by (nonlinear_arith)
                requires
                    q == ((age as int) * 1000) / (self.time as int),
                    0 <= (age as int) * 1000,
                    1 <= self.time as int,
            ;
        }
        let h0: i128 = 324_000 - 180 * q + (off as i128);
        let ghost hv = 324_000 - 180 * spec_age_frac(age as int, self@.time) + off;
        proof {
            assert(h0 == hv);
        }
        let h: i64 = rem_trunc_i128_360(h0);
        hsl(h, 1000, 300)
    }

    /// Texture coordinates for every node: its per-mille age fraction
    /// and its trunk flag as 1000 or 0.
    pub fn coord_colors(&self) -> (r: Vec<(i64, i64)>)
        requires
            self.wf(),
            self@.time >= 1,
        ensures
            r@.len() == self@.nodes.len(),
            forall|j: int| 0 <= j < r@.len() ==> (#[trigger] r@[j]).0 == crate::geom::spec_clamp(
                1000 - spec_age_frac(self@.nodes[j].age as int, self@.time),
                1_000_000_000_000,
            ) && r@[j].1 == (if self@.nodes[j].trunk { 1000int } else { 0int }),
    {
        let mut out: Vec<(i64, i64)> = Vec::new();
        let mut j: usize = 0;
        while j < self.pts.len()
            invariant
                self.wf(),
                self@.time >= 1,
                j <= self@.nodes.len(),
                out@.len() == j,
                forall|k: int| 0 <= k < j ==> (#[trigger] out@[k]).0 == crate::geom::spec_clamp(
                    1000 - spec_age_frac(self@.nodes[k].age as int, self@.time),
                    1_000_000_000_000,
                ) && out@[k].1 == (if self@.nodes[k].trunk { 1000int } else { 0int }),
            decreases self@.nodes.len() - j,
        {
            let age = self.pts[j].age;
            let q: i128 = ((age as u128) * 1000 / (self.time as u128)) as i128;
            proof {
                assert((age as u128) * 1000 == (age as int) * 1000) by (nonlinear_arith);
                assert(((age as int) * 1000) / (self.time as int) == spec_div_trunc(
                    1000 * (age as int),
                    self.time as int,
                ));
                assert(0 <= q <= (age as int) * 1000) by (nonlinear_arith)
                    requires
                        q == ((age as int) * 1000) / (self.time as int),
                        0 <= (age as int) * 1000,
                        1 <= self.time as int,
                ;
            }
            let frac: i128 = 1000 - q;
            let fr: i64 = if frac < -1_000_000_000_000i128 {
                -1_000_000_000_000
            } else if frac > 1_000_000_000_000i128 {
                1_000_000_000_000
            } else {
                frac as i64
            };
            let tr: i64 = if self.pts[j].trunk {
                1000
            } else {
                0
            };
            out.push((fr, tr));
            j = j + 1;
        }
        out
    }
}

/// Truncating remainder of a wide hue accumulator by a full circle.
fn rem_trunc_i128_360(a: i128) -> (r: i64)
    requires
        -0x4000_0000_0000_0000_0000_0000i128 <= a <= 0x4000_0000_0000_0000_0000_0000i128,
    ensures
        r as int == spec_rem_trunc(a as int, 360_000),
        -360_000 < r < 360_000,
{
    if a >= 0 {
        let m: u128 = (a as u128) % 360_000;
        proof {
            assert(m as int == (a as int) % 360_000);
            vstd::arithmetic::div_mod::lemma_fundamental_div_mod(a as int, 360_000);
            vstd::arithmetic::div_mod::lemma_mod_bound(a as int, 360_000);
        }
        m as i64
    } else {
        let m: u128 = ((-a) as u128) % 360_000;
        proof {
            assert(m as int == ((-a) as int) % 360_000);
            vstd::arithmetic::div_mod::lemma_fundamental_div_mod(-a as int, 360_000);
            vstd::arithmetic::div_mod::lemma_mod_bound(-a as int, 360_000);
            assert(360_000int * (-(((-a) as int) / 360_000)) == -(360_000int * (((-a) as int)
                / 360_000))) by (nonlinear_arith);
        }
        -(m as i64)
    }
}

} // verus!
