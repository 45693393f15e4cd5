//! The snapshot codec: a flat little-endian binary image of the whole
//! simulation state, written and read back without loss.
//!
//! Layout: the tick counter, then the three array lengths, then the
//! node, velocity, edge and face arrays, each element a fixed number of
//! bytes. Signed values are stored with a bias of 2^63 so that every
//! field is a plain base-256 numeral. Decoding validates everything —
//! lengths, field ranges, the state invariant — and reports an error
//! rather than ever panicking.

use vstd::prelude::*;
use vstd::arithmetic::div_mod::lemma_fundamental_div_mod;
use vstd::arithmetic::div_mod::lemma_div_denominator;
use vstd::arithmetic::div_mod::lemma_basic_div;
use vstd::arithmetic::div_mod::lemma_mod_bound;
use vstd::arithmetic::div_mod::lemma_div_pos_is_pos;
use crate::config::Config;
use crate::geom::V3;
use crate::state::State;
use crate::state::Model;
use crate::state::Node;
use crate::state::Edge;
use crate::state::Tri;
use crate::state::wf_model;
use crate::state::node_ok;
use crate::state::edge_ok;
use crate::state::tri_ok;

verus! {

/// Bytes of one node record.
pub const NODE_BYTES: usize = 73;

/// Bytes of one velocity record.
pub const VEL_BYTES: usize = 24;

/// Bytes of one edge record.
pub const EDGE_BYTES: usize = 40;

/// Bytes of one face record.
pub const TRI_BYTES: usize = 24;

/// Bytes of the header: the tick counter and the three array lengths.
pub const HEAD_BYTES: usize = 32;

/// The bias added to a signed value to store it as an unsigned numeral.
pub const SIGN_BIAS: i128 = 0x8000_0000_0000_0000;

/// The value of an 8-byte little-endian chunk.
pub open spec fn le_val(s: Seq<u8>) -> int {
    s[0] + 0x100 * s[1] + 0x1_0000 * s[2] + 0x100_0000 * s[3] + 0x1_0000_0000 * s[4]
        + 0x100_0000_0000 * s[5] + 0x1_0000_0000_0000 * s[6] + 0x100_0000_0000_0000 * s[7]
}

/// The place value of byte `i` in a little-endian 64-bit numeral.
pub open spec fn byte_pow(i: int) -> int {
    if i == 0 {
        1
    } else if i == 1 {
        0x100
    } else if i == 2 {
        0x1_0000
    } else if i == 3 {
        0x100_0000
    } else if i == 4 {
        0x1_0000_0000
    } else if i == 5 {
        0x100_0000_0000
    } else if i == 6 {
        0x1_0000_0000_0000
    } else {
        0x100_0000_0000_0000
    }
}

/// Byte `i` of the little-endian encoding of `v`.
pub open spec fn u64_byte(v: u64, i: int) -> u8 {
    (((v as int) / byte_pow(i)) % 0x100) as u8
}

/// The eight little-endian bytes of a 64-bit value.
pub open spec fn enc_u64(v: u64) -> Seq<u8> {
    Seq::new(8, |i: int| u64_byte(v, i))
}

/// The biased numeral of a signed value.
pub open spec fn bias_of(v: i64) -> u64 {
    (v + SIGN_BIAS) as u64
}

/// The signed value of a biased numeral.
pub open spec fn unbias(w: int) -> int {
    w - SIGN_BIAS
}

/// The eight little-endian bytes of a signed value, biased.
pub open spec fn enc_i64(v: i64) -> Seq<u8> {
    enc_u64(bias_of(v))
}

/// Little-endian encoding reads back to the value it was written from.
pub proof fn lemma_u64_round(v: u64)
    ensures
        le_val(enc_u64(v)) == v,
{
    let x = v as int;
    lemma_fundamental_div_mod(x, 0x100);
    lemma_fundamental_div_mod(x / 0x100, 0x100);
    lemma_fundamental_div_mod(x / 0x1_0000, 0x100);
    lemma_fundamental_div_mod(x / 0x100_0000, 0x100);
    lemma_fundamental_div_mod(x / 0x1_0000_0000, 0x100);
    lemma_fundamental_div_mod(x / 0x100_0000_0000, 0x100);
    lemma_fundamental_div_mod(x / 0x1_0000_0000_0000, 0x100);
    lemma_fundamental_div_mod(x / 0x100_0000_0000_0000, 0x100);
    lemma_div_denominator(x, 0x100, 0x100);
    lemma_div_denominator(x, 0x1_0000, 0x100);
    lemma_div_denominator(x, 0x100_0000, 0x100);
    lemma_div_denominator(x, 0x1_0000_0000, 0x100);
    lemma_div_denominator(x, 0x100_0000_0000, 0x100);
    lemma_div_denominator(x, 0x1_0000_0000_0000, 0x100);
    lemma_div_denominator(x, 0x100_0000_0000_0000, 0x100);
    lemma_basic_div(x / 0x100_0000_0000_0000 / 0x100, 0x1);
    assert(x / 0x100_0000_0000_0000 / 0x100 == x / 0x1_0000_0000_0000_0000);
    assert(0 <= x < 0x1_0000_0000_0000_0000);
    lemma_basic_div(x, 0x1_0000_0000_0000_0000);
    assert(x / 0x1_0000_0000_0000_0000 == 0);
    lemma_mod_bound(x, 0x100);
    lemma_mod_bound(x / 0x100, 0x100);
    lemma_mod_bound(x / 0x1_0000, 0x100);
    lemma_mod_bound(x / 0x100_0000, 0x100);
    lemma_mod_bound(x / 0x1_0000_0000, 0x100);
    lemma_mod_bound(x / 0x100_0000_0000, 0x100);
    lemma_mod_bound(x / 0x1_0000_0000_0000, 0x100);
    lemma_mod_bound(x / 0x100_0000_0000_0000, 0x100);
    lemma_div_pos_is_pos(x, 0x100);
    lemma_div_pos_is_pos(x / 0x100, 0x100);
    lemma_div_pos_is_pos(x / 0x1_0000, 0x100);
    lemma_div_pos_is_pos(x / 0x100_0000, 0x100);
    lemma_div_pos_is_pos(x / 0x1_0000_0000, 0x100);
    lemma_div_pos_is_pos(x / 0x100_0000_0000, 0x100);
    lemma_div_pos_is_pos(x / 0x1_0000_0000_0000, 0x100);
}

/// Biasing reads back to the value it was biased from.
pub proof fn lemma_i64_round(v: i64)
    ensures
        le_val(enc_i64(v)) == bias_of(v),
        unbias(bias_of(v) as int) == v,
{
    lemma_u64_round(bias_of(v));
}

/// Read the 64-bit little-endian value at `off`.
pub fn read_u64(bytes: &Vec<u8>, off: usize) -> (r: u64)
    requires
        off + 8 <= bytes@.len(),
    ensures
        r as int == le_val(bytes@.subrange(off as int, off as int + 8)),
{
    let n = bytes.len();
    proof {
        assert(off + 8 <= n);
    }
    let b0 = bytes[off] as u64;
    let b1 = bytes[off + 1] as u64;
    let b2 = bytes[off + 2] as u64;
    let b3 = bytes[off + 3] as u64;
    let b4 = bytes[off + 4] as u64;
    let b5 = bytes[off + 5] as u64;
    let b6 = bytes[off + 6] as u64;
    let b7 = bytes[off + 7] as u64;
    proof {
        assert(b0 <= 255 && b1 <= 255 && b2 <= 255 && b3 <= 255 && b4 <= 255 && b5 <= 255 && b6
            <= 255 && b7 <= 255);
        assert(b0 + 0x100 * b1 + 0x1_0000 * b2 + 0x100_0000 * b3 + 0x1_0000_0000 * b4
            + 0x100_0000_0000 * b5 + 0x1_0000_0000_0000 * b6 + 0x100_0000_0000_0000 * b7
            <= 0xFFFF_FFFF_FFFF_FFFF);
    }
    let r: u64 = b0 + 0x100 * b1 + 0x1_0000 * b2 + 0x100_0000 * b3 + 0x1_0000_0000 * b4
        + 0x100_0000_0000 * b5 + 0x1_0000_0000_0000 * b6 + 0x100_0000_0000_0000 * b7;
    proof {
        let s = bytes@.subrange(off as int, off as int + 8);
        assert(s[0] == bytes@[off as int] && s[1] == bytes@[off as int + 1] && s[2] == bytes@[off as int
            + 2] && s[3] == bytes@[off as int + 3] && s[4] == bytes@[off as int + 4] && s[5]
            == bytes@[off as int + 5] && s[6] == bytes@[off as int + 6] && s[7] == bytes@[off as int
            + 7]);
    }
    r
}

/// Append the eight little-endian bytes of a 64-bit value.
pub fn write_u64(out: &mut Vec<u8>, v: u64)
    ensures
        final(out)@ == old(out)@ + enc_u64(v),
{
    out.push((v % 0x100) as u8);
    out.push(((v / 0x100) % 0x100) as u8);
    out.push(((v / 0x1_0000) % 0x100) as u8);
    out.push(((v / 0x100_0000) % 0x100) as u8);
    out.push(((v / 0x1_0000_0000) % 0x100) as u8);
    out.push(((v / 0x100_0000_0000) % 0x100) as u8);
    out.push(((v / 0x1_0000_0000_0000) % 0x100) as u8);
    out.push(((v / 0x100_0000_0000_0000) % 0x100) as u8);
    proof {
        assert(out@ =~= old(out)@ + enc_u64(v));
    }
}

/// Append a signed value, biased.
pub fn write_i64(out: &mut Vec<u8>, v: i64)
    ensures
        final(out)@ == old(out)@ + enc_i64(v),
{
    let w: u64 = ((v as i128) + SIGN_BIAS) as u64;
    write_u64(out, w);
}

/// Read the signed value at `off`.
pub fn read_i64(bytes: &Vec<u8>, off: usize) -> (r: i64)
    requires
        off + 8 <= bytes@.len(),
    ensures
        r as int == unbias(le_val(bytes@.subrange(off as int, off as int + 8))),
{
    let w = read_u64(bytes, off);
    let r: i64 = ((w as i128) - SIGN_BIAS) as i64;
    r
}

/// The 24 bytes of a vector record.
pub open spec fn enc_v3(v: V3) -> Seq<u8> {
    enc_i64(v.x) + enc_i64(v.y) + enc_i64(v.z)
}

/// The 73 bytes of a node record.
pub open spec fn enc_node(nd: Node) -> Seq<u8> {
    enc_v3(nd.pos) + enc_u64(nd.nclose as u64) + enc_u64(nd.siblings as u64) + enc_u64(
        nd.age as u64,
    ) + enc_i64(nd.dead) + enc_u64(nd.left as u64) + enc_u64(nd.right as u64) + seq![
        if nd.trunk {
            1u8
        } else {
            0u8
        },
    ]
}

/// The 40 bytes of an edge record.
pub open spec fn enc_edge(e: Edge) -> Seq<u8> {
    enc_u64(e.a as u64) + enc_u64(e.b as u64) + enc_u64(e.age as u64) + enc_i64(e.len) + enc_i64(
        e.curlen,
    )
}

/// The 24 bytes of a face record.
pub open spec fn enc_tri(t: Tri) -> Seq<u8> {
    enc_u64(t.a as u64) + enc_u64(t.b as u64) + enc_u64(t.c as u64)
}

/// The concatenated records of the first `k` nodes.
pub open spec fn nodes_bytes(nodes: Seq<Node>, k: int) -> Seq<u8>
    decreases k,
{
    if k <= 0 {
        Seq::empty()
    } else {
        nodes_bytes(nodes, k - 1) + enc_node(nodes[k - 1])
    }
}

/// The concatenated records of the first `k` velocities.
pub open spec fn vels_bytes(vels: Seq<V3>, k: int) -> Seq<u8>
    decreases k,
{
    if k <= 0 {
        Seq::empty()
    } else {
        vels_bytes(vels, k - 1) + enc_v3(vels[k - 1])
    }
}

/// The concatenated records of the first `k` edges.
pub open spec fn edges_bytes(edges: Seq<Edge>, k: int) -> Seq<u8>
    decreases k,
{
    if k <= 0 {
        Seq::empty()
    } else {
        edges_bytes(edges, k - 1) + enc_edge(edges[k - 1])
    }
}

/// The concatenated records of the first `k` faces.
pub open spec fn tris_bytes(tris: Seq<Tri>, k: int) -> Seq<u8>
    decreases k,
{
    if k <= 0 {
        Seq::empty()
    } else {
        tris_bytes(tris, k - 1) + enc_tri(tris[k - 1])
    }
}

/// The whole snapshot: tick counter, the three array lengths, then the
/// node, velocity, edge and face records. The parameters of the run are
/// not part of the snapshot; decoding takes them as an argument.
pub open spec fn spec_encode(m: Model) -> Seq<u8> {
    enc_i64(m.time as i64) + enc_u64(m.nodes.len() as u64) + enc_u64(m.edges.len() as u64)
        + enc_u64(m.tris.len() as u64) + nodes_bytes(m.nodes, m.nodes.len() as int) + vels_bytes(
        m.vels,
        m.vels.len() as int,
    ) + edges_bytes(m.edges, m.edges.len() as int) + tris_bytes(m.tris, m.tris.len() as int)
}

/// A vector record read back from its 24 bytes.
pub open spec fn dec_v3(s: Seq<u8>) -> V3 {
    V3 {
        x: unbias(le_val(s.subrange(0, 8))) as i64,
        y: unbias(le_val(s.subrange(8, 16))) as i64,
        z: unbias(le_val(s.subrange(16, 24))) as i64,
    }
}

/// A node record read back from its 73 bytes.
pub open spec fn dec_node(s: Seq<u8>) -> Node {
    Node {
        pos: dec_v3(s.subrange(0, 24)),
        nclose: le_val(s.subrange(24, 32)) as usize,
        siblings: le_val(s.subrange(32, 40)) as usize,
        age: le_val(s.subrange(40, 48)) as usize,
        dead: unbias(le_val(s.subrange(48, 56))) as i64,
        left: le_val(s.subrange(56, 64)) as usize,
        right: le_val(s.subrange(64, 72)) as usize,
        trunk: s[72] != 0,
    }
}

/// The unsigned fields of a node record fit their types, and its flag
/// byte is canonical.
pub open spec fn node_chunk_ok(s: Seq<u8>) -> bool {
    &&& le_val(s.subrange(24, 32)) <= usize::MAX
    &&& le_val(s.subrange(32, 40)) <= usize::MAX
    &&& le_val(s.subrange(40, 48)) <= usize::MAX
    &&& le_val(s.subrange(56, 64)) <= usize::MAX
    &&& le_val(s.subrange(64, 72)) <= usize::MAX
    &&& (s[72] == 0 || s[72] == 1)
}

/// An edge record read back from its 40 bytes.
pub open spec fn dec_edge(s: Seq<u8>) -> Edge {
    Edge {
        a: le_val(s.subrange(0, 8)) as usize,
        b: le_val(s.subrange(8, 16)) as usize,
        age: le_val(s.subrange(16, 24)) as usize,
        len: unbias(le_val(s.subrange(24, 32))) as i64,
        curlen: unbias(le_val(s.subrange(32, 40))) as i64,
    }
}

/// The unsigned fields of an edge record fit their types.
pub open spec fn edge_chunk_ok(s: Seq<u8>) -> bool {
    &&& le_val(s.subrange(0, 8)) <= usize::MAX
    &&& le_val(s.subrange(8, 16)) <= usize::MAX
    &&& le_val(s.subrange(16, 24)) <= usize::MAX
}

/// A face record read back from its 24 bytes.
pub open spec fn dec_tri(s: Seq<u8>) -> Tri {
    Tri {
        a: le_val(s.subrange(0, 8)) as usize,
        b: le_val(s.subrange(8, 16)) as usize,
        c: le_val(s.subrange(16, 24)) as usize,
    }
}

/// The fields of a face record fit their types.
pub open spec fn tri_chunk_ok(s: Seq<u8>) -> bool {
    &&& le_val(s.subrange(0, 8)) <= usize::MAX
    &&& le_val(s.subrange(8, 16)) <= usize::MAX
    &&& le_val(s.subrange(16, 24)) <= usize::MAX
}

/// The model a byte image describes under the given parameters, before
/// any validation.
pub open spec fn spec_raw_model(cfg: Config, s: Seq<u8>) -> Model {
    let n = le_val(s.subrange(8, 16));
    let e = le_val(s.subrange(16, 24));
    let t = le_val(s.subrange(24, 32));
    let vels_off = 32 + n * 73;
    let edges_off = vels_off + n * 24;
    let tris_off = edges_off + e * 40;
    Model {
        time: unbias(le_val(s.subrange(0, 8))),
        cfg,
        nodes: Seq::new(n as nat, |k: int| dec_node(s.subrange(32 + k * 73, 32 + k * 73 + 73))),
        vels: Seq::new(n as nat, |k: int| dec_v3(s.subrange(vels_off + k * 24, vels_off + k * 24 + 24))),
        edges: Seq::new(e as nat, |k: int| dec_edge(s.subrange(edges_off + k * 40, edges_off + k * 40 + 40))),
        tris: Seq::new(t as nat, |k: int| dec_tri(s.subrange(tris_off + k * 24, tris_off + k * 24 + 24))),
    }
}

/// Whether a byte image is a valid snapshot under the given parameters.
pub open spec fn spec_image_ok(cfg: Config, s: Seq<u8>) -> bool {
    &&& s.len() >= 32
    &&& ({
        let n = le_val(s.subrange(8, 16));
        let e = le_val(s.subrange(16, 24));
        let t = le_val(s.subrange(24, 32));
        let time = unbias(le_val(s.subrange(0, 8)));
        &&& 0 <= time <= i32::MAX
        &&& n <= usize::MAX
        &&& e <= usize::MAX
        &&& t <= usize::MAX
        &&& s.len() == 32 + n * 97 + e * 40 + t * 24
        &&& (forall|k: int| 0 <= k < n ==> node_chunk_ok(#[trigger] s.subrange(32 + k * 73, 32 + k * 73 + 73)))
        &&& (forall|k: int| 0 <= k < e ==> edge_chunk_ok(
            #[trigger] s.subrange(32 + n * 97 + k * 40, 32 + n * 97 + k * 40 + 40),
        ))
        &&& (forall|k: int| 0 <= k < t ==> tri_chunk_ok(
            #[trigger] s.subrange(32 + n * 97 + e * 40 + k * 24, 32 + n * 97 + e * 40 + k * 24 + 24),
        ))
        &&& wf_model(spec_raw_model(cfg, s))
    })
}

/// What decoding yields: the described model, if the image is valid.
pub open spec fn spec_decode(cfg: Config, s: Seq<u8>) -> Option<Model> {
    if spec_image_ok(cfg, s) {
        Some(spec_raw_model(cfg, s))
    } else {
        None
    }
}

/// Why a snapshot image was rejected.
#[derive(Clone, Copy, PartialEq, Eq, Structural, Debug)]
pub enum DecodeError {
    /// The image is shorter than its header, or its length does not
    /// match the lengths the header declares.
    Truncated,
    /// A field does not fit its type: a counter beyond the platform's
    /// index range, a tick counter out of range, or a flag byte that is
    /// neither zero nor one.
    BadValue,
    /// The records parse but break the state invariant.
    Invalid,
}

/// Record `j` of a node list sits at offset `73 * j` of its bytes.
pub proof fn lemma_nodes_slice(nodes: Seq<Node>, n: int, j: int)
    requires
        0 <= j < n <= nodes.len(),
    ensures
        nodes_bytes(nodes, n).len() == 73 * n,
        nodes_bytes(nodes, n).subrange(73 * j, 73 * j + 73) == enc_node(nodes[j]),
    decreases n,
{
    let whole = nodes_bytes(nodes, n);
    let prev = nodes_bytes(nodes, n - 1);
    if j == n - 1 {
        lemma_nodes_slice_len(nodes, n - 1);
        assert(whole.subrange(73 * j, 73 * j + 73) =~= enc_node(nodes[j]));
    } else {
        lemma_nodes_slice(nodes, n - 1, j);
        assert(whole.subrange(73 * j, 73 * j + 73) =~= prev.subrange(73 * j, 73 * j + 73));
    }
}

/// Length of a node list's bytes.
pub proof fn lemma_nodes_slice_len(nodes: Seq<Node>, k: int)
    requires
        0 <= k <= nodes.len(),
    ensures
        nodes_bytes(nodes, k).len() == 73 * k,
    decreases k,
{
    if k > 0 {
        lemma_nodes_slice_len(nodes, k - 1);
    }
}

/// Record `j` of a velocity list sits at offset `24 * j` of its bytes.
pub proof fn lemma_vels_slice(vels: Seq<V3>, n: int, j: int)
    requires
        0 <= j < n <= vels.len(),
    ensures
        vels_bytes(vels, n).len() == 24 * n,
        vels_bytes(vels, n).subrange(24 * j, 24 * j + 24) == enc_v3(vels[j]),
    decreases n,
{
    let whole = vels_bytes(vels, n);
    let prev = vels_bytes(vels, n - 1);
    if j == n - 1 {
        lemma_vels_slice_len(vels, n - 1);
        assert(whole.subrange(24 * j, 24 * j + 24) =~= enc_v3(vels[j]));
    } else {
        lemma_vels_slice(vels, n - 1, j);
        assert(whole.subrange(24 * j, 24 * j + 24) =~= prev.subrange(24 * j, 24 * j + 24));
    }
}

/// Length of a velocity list's bytes.
pub proof fn lemma_vels_slice_len(vels: Seq<V3>, k: int)
    requires
        0 <= k <= vels.len(),
    ensures
        vels_bytes(vels, k).len() == 24 * k,
    decreases k,
{
    if k > 0 {
        lemma_vels_slice_len(vels, k - 1);
    }
}

/// Record `j` of an edge list sits at offset `40 * j` of its bytes.
pub proof fn lemma_edges_slice(edges: Seq<Edge>, n: int, j: int)
    requires
        0 <= j < n <= edges.len(),
    ensures
        edges_bytes(edges, n).len() == 40 * n,
        edges_bytes(edges, n).subrange(40 * j, 40 * j + 40) == enc_edge(edges[j]),
    decreases n,
{
    let whole = edges_bytes(edges, n);
    let prev = edges_bytes(edges, n - 1);
    if j == n - 1 {
        lemma_edges_slice_len(edges, n - 1);
        assert(whole.subrange(40 * j, 40 * j + 40) =~= enc_edge(edges[j]));
    } else {
        lemma_edges_slice(edges, n - 1, j);
        assert(whole.subrange(40 * j, 40 * j + 40) =~= prev.subrange(40 * j, 40 * j + 40));
    }
}

/// Length of an edge list's bytes.
pub proof fn lemma_edges_slice_len(edges: Seq<Edge>, k: int)
    requires
        0 <= k <= edges.len(),
    ensures
        edges_bytes(edges, k).len() == 40 * k,
    decreases k,
{
    if k > 0 {
        lemma_edges_slice_len(edges, k - 1);
    }
}

/// Record `j` of a face list sits at offset `24 * j` of its bytes.
pub proof fn lemma_tris_slice(tris: Seq<Tri>, n: int, j: int)
    requires
        0 <= j < n <= tris.len(),
    ensures
        tris_bytes(tris, n).len() == 24 * n,
        tris_bytes(tris, n).subrange(24 * j, 24 * j + 24) == enc_tri(tris[j]),
    decreases n,
{
    let whole = tris_bytes(tris, n);
    let prev = tris_bytes(tris, n - 1);
    if j == n - 1 {
        lemma_tris_slice_len(tris, n - 1);
        assert(whole.subrange(24 * j, 24 * j + 24) =~= enc_tri(tris[j]));
    } else {
        lemma_tris_slice(tris, n - 1, j);
        assert(whole.subrange(24 * j, 24 * j + 24) =~= prev.subrange(24 * j, 24 * j + 24));
    }
}

/// Length of a face list's bytes.
pub proof fn lemma_tris_slice_len(tris: Seq<Tri>, k: int)
    requires
        0 <= k <= tris.len(),
    ensures
        tris_bytes(tris, k).len() == 24 * k,
    decreases k,
{
    if k > 0 {
        lemma_tris_slice_len(tris, k - 1);
    }
}

/// A vector record reads back exactly.
pub proof fn lemma_v3_round(v: V3)
    ensures
        enc_v3(v).len() == 24,
        dec_v3(enc_v3(v)) == v,
{
    let s = enc_v3(v);
    assert(s.subrange(0, 8) =~= enc_i64(v.x));
    assert(s.subrange(8, 16) =~= enc_i64(v.y));
    assert(s.subrange(16, 24) =~= enc_i64(v.z));
    lemma_i64_round(v.x);
    lemma_i64_round(v.y);
    lemma_i64_round(v.z);
}

/// A node record reads back exactly, and its fields are in range.
pub proof fn lemma_node_round(nd: Node)
    ensures
        enc_node(nd).len() == 73,
        dec_node(enc_node(nd)) == nd,
        node_chunk_ok(enc_node(nd)),
{
    let s = enc_node(nd);
    assert(s.subrange(0, 24) =~= enc_v3(nd.pos));
    assert(s.subrange(24, 32) =~= enc_u64(nd.nclose as u64));
    assert(s.subrange(32, 40) =~= enc_u64(nd.siblings as u64));
    assert(s.subrange(40, 48) =~= enc_u64(nd.age as u64));
    assert(s.subrange(48, 56) =~= enc_i64(nd.dead));
    assert(s.subrange(56, 64) =~= enc_u64(nd.left as u64));
    assert(s.subrange(64, 72) =~= enc_u64(nd.right as u64));
    assert(s[72] == (if nd.trunk { 1u8 } else { 0u8 }));
    lemma_v3_round(nd.pos);
    lemma_u64_round(nd.nclose as u64);
    lemma_u64_round(nd.siblings as u64);
    lemma_u64_round(nd.age as u64);
    lemma_i64_round(nd.dead);
    lemma_u64_round(nd.left as u64);
    lemma_u64_round(nd.right as u64);
}

/// An edge record reads back exactly, and its fields are in range.
pub proof fn lemma_edge_round(e: Edge)
    ensures
        enc_edge(e).len() == 40,
        dec_edge(enc_edge(e)) == e,
        edge_chunk_ok(enc_edge(e)),
{
    let s = enc_edge(e);
    assert(s.subrange(0, 8) =~= enc_u64(e.a as u64));
    assert(s.subrange(8, 16) =~= enc_u64(e.b as u64));
    assert(s.subrange(16, 24) =~= enc_u64(e.age as u64));
    assert(s.subrange(24, 32) =~= enc_i64(e.len));
    assert(s.subrange(32, 40) =~= enc_i64(e.curlen));
    lemma_u64_round(e.a as u64);
    lemma_u64_round(e.b as u64);
    lemma_u64_round(e.age as u64);
    lemma_i64_round(e.len);
    lemma_i64_round(e.curlen);
}

/// A face record reads back exactly, and its fields are in range.
pub proof fn lemma_tri_round(t: Tri)
    ensures
        enc_tri(t).len() == 24,
        dec_tri(enc_tri(t)) == t,
        tri_chunk_ok(enc_tri(t)),
{
    let s = enc_tri(t);
    assert(s.subrange(0, 8) =~= enc_u64(t.a as u64));
    assert(s.subrange(8, 16) =~= enc_u64(t.b as u64));
    assert(s.subrange(16, 24) =~= enc_u64(t.c as u64));
    lemma_u64_round(t.a as u64);
    lemma_u64_round(t.b as u64);
    lemma_u64_round(t.c as u64);
}

/// Where each section of the encoded image lies.
#[verifier::rlimit(100)]
pub proof fn lemma_encode_layout(m: Model)
    requires
        m.vels.len() == m.nodes.len(),
    ensures
        ({
            let s = spec_encode(m);
            let n = m.nodes.len() as int;
            let e = m.edges.len() as int;
            let t = m.tris.len() as int;
            &&& s.len() == 32 + 97 * n + 40 * e + 24 * t
            &&& s.subrange(0, 8) == enc_i64(m.time as i64)
            &&& s.subrange(8, 16) == enc_u64(m.nodes.len() as u64)
            &&& s.subrange(16, 24) == enc_u64(m.edges.len() as u64)
            &&& s.subrange(24, 32) == enc_u64(m.tris.len() as u64)
            &&& (forall|k: int| 0 <= k < n ==> #[trigger] s.subrange(32 + k * 73, 32 + k * 73 + 73)
                == enc_node(m.nodes[k]))
            &&& (forall|k: int| 0 <= k < n ==> #[trigger] s.subrange(
                32 + n * 73 + k * 24,
                32 + n * 73 + k * 24 + 24,
            ) == enc_v3(m.vels[k]))
            &&& (forall|k: int| 0 <= k < e ==> #[trigger] s.subrange(
                32 + n * 97 + k * 40,
                32 + n * 97 + k * 40 + 40,
            ) == enc_edge(m.edges[k]))
            &&& (forall|k: int| 0 <= k < t ==> #[trigger] s.subrange(
                32 + n * 97 + e * 40 + k * 24,
                32 + n * 97 + e * 40 + k * 24 + 24,
            ) == enc_tri(m.tris[k]))
        }),
{
    let s = spec_encode(m);
    let n = m.nodes.len() as int;
    let e = m.edges.len() as int;
    let t = m.tris.len() as int;
    let nb = nodes_bytes(m.nodes, n);
    let vb = vels_bytes(m.vels, n);
    let eb = edges_bytes(m.edges, e);
    let tb = tris_bytes(m.tris, t);
    lemma_nodes_slice_len(m.nodes, n);
    lemma_vels_slice_len(m.vels, n);
    lemma_edges_slice_len(m.edges, e);
    lemma_tris_slice_len(m.tris, t);
    assert(s.subrange(0, 8) =~= enc_i64(m.time as i64));
    assert(s.subrange(8, 16) =~= enc_u64(m.nodes.len() as u64));
    assert(s.subrange(16, 24) =~= enc_u64(m.edges.len() as u64));
    assert(s.subrange(24, 32) =~= enc_u64(m.tris.len() as u64));
    assert forall|k: int| 0 <= k < n implies #[trigger] s.subrange(32 + k * 73, 32 + k * 73 + 73)
        == enc_node(m.nodes[k]) by {
        lemma_nodes_slice(m.nodes, n, k);
        assert(s.subrange(32 + k * 73, 32 + k * 73 + 73) =~= nb.subrange(73 * k, 73 * k + 73));
    }
    assert forall|k: int| 0 <= k < n implies #[trigger] s.subrange(
        32 + n * 73 + k * 24,
        32 + n * 73 + k * 24 + 24,
    ) == enc_v3(m.vels[k]) by {
        lemma_vels_slice(m.vels, n, k);
        assert(s.subrange(32 + n * 73 + k * 24, 32 + n * 73 + k * 24 + 24) =~= vb.subrange(
            24 * k,
            24 * k + 24,
        ));
    }
    assert forall|k: int| 0 <= k < e implies #[trigger] s.subrange(
        32 + n * 97 + k * 40,
        32 + n * 97 + k * 40 + 40,
    ) == enc_edge(m.edges[k]) by {
        lemma_edges_slice(m.edges, e, k);
        assert(s.subrange(32 + n * 97 + k * 40, 32 + n * 97 + k * 40 + 40) =~= eb.subrange(
            40 * k,
            40 * k + 40,
        ));
    }
    assert forall|k: int| 0 <= k < t implies #[trigger] s.subrange(
        32 + n * 97 + e * 40 + k * 24,
        32 + n * 97 + e * 40 + k * 24 + 24,
    ) == enc_tri(m.tris[k]) by {
        lemma_tris_slice(m.tris, t, k);
        assert(s.subrange(32 + n * 97 + e * 40 + k * 24, 32 + n * 97 + e * 40 + k * 24 + 24)
            =~= tb.subrange(24 * k, 24 * k + 24));
    }
}

/// Round trip: decoding an encoded snapshot, under the parameters the
/// state carries, restores the state exactly.
#[verifier::rlimit(100)]
pub proof fn lemma_snapshot_round_trip(m: Model)
    requires
        wf_model(m),
        m.time <= i32::MAX,
        m.nodes.len() <= usize::MAX,
        m.edges.len() <= usize::MAX,
        m.tris.len() <= usize::MAX,
    ensures
        spec_decode(m.cfg, spec_encode(m)) == Some(m),
{
    let s = spec_encode(m);
    let n = m.nodes.len() as int;
    let e = m.edges.len() as int;
    let t = m.tris.len() as int;
    lemma_encode_layout(m);
    lemma_i64_round(m.time as i64);
    lemma_u64_round(m.nodes.len() as u64);
    lemma_u64_round(m.edges.len() as u64);
    lemma_u64_round(m.tris.len() as u64);
    assert(unbias(le_val(s.subrange(0, 8))) == m.time);
    assert(le_val(s.subrange(8, 16)) == n);
    assert(le_val(s.subrange(16, 24)) == e);
    assert(le_val(s.subrange(24, 32)) == t);
    let raw = spec_raw_model(m.cfg, s);
    assert forall|k: int| 0 <= k < n implies #[trigger] raw.nodes[k] == m.nodes[k] by {
        lemma_node_round(m.nodes[k]);
    }
    assert forall|k: int| 0 <= k < n implies #[trigger] raw.vels[k] == m.vels[k] by {
        lemma_v3_round(m.vels[k]);
    }
    assert forall|k: int| 0 <= k < e implies #[trigger] raw.edges[k] == m.edges[k] by {
        lemma_edge_round(m.edges[k]);
    }
    assert forall|k: int| 0 <= k < t implies #[trigger] raw.tris[k] == m.tris[k] by {
        lemma_tri_round(m.tris[k]);
    }
    assert(raw.nodes =~= m.nodes);
    assert(raw.vels =~= m.vels);
    assert(raw.edges =~= m.edges);
    assert(raw.tris =~= m.tris);
    assert(raw == m);
    assert forall|k: int| 0 <= k < n implies node_chunk_ok(#[trigger] s.subrange(
        32 + k * 73,
        32 + k * 73 + 73,
    )) by {
        lemma_node_round(m.nodes[k]);
    }
    assert forall|k: int| 0 <= k < e implies edge_chunk_ok(#[trigger] s.subrange(
        32 + n * 97 + k * 40,
        32 + n * 97 + k * 40 + 40,
    )) by {
        lemma_edge_round(m.edges[k]);
    }
    assert forall|k: int| 0 <= k < t implies tri_chunk_ok(#[trigger] s.subrange(
        32 + n * 97 + e * 40 + k * 24,
        32 + n * 97 + e * 40 + k * 24 + 24,
    )) by {
        lemma_tri_round(m.tris[k]);
    }
    assert(spec_image_ok(m.cfg, s));
}

/// Exact executable check of the parameter bounds.
pub fn check_config(cfg: &Config) -> (r: bool)
    ensures
        r == cfg.wf(),
{
    if !(0 <= cfg.stick_k && cfg.stick_k <= 1000) {
        return false;
    }
    if !(0 <= cfg.avoid_k && cfg.avoid_k <= 1000) {
        return false;
    }
    if !(1 <= cfg.damp_den && cfg.damp_den <= 1000) {
        return false;
    }
    if !(0 <= cfg.damp_num && cfg.damp_num <= cfg.damp_den) {
        return false;
    }
    if !(4 <= cfg.max_len && cfg.max_len <= 1_000_000) {
        return false;
    }
    if !(1 <= cfg.close_dist && cfg.close_dist <= 1_000_000) {
        return false;
    }
    if !(0 <= cfg.push_dist && cfg.push_dist <= cfg.close_dist) {
        return false;
    }
    if !(0 <= cfg.grow_speed && cfg.grow_speed <= 1_000_000) {
        return false;
    }
    if !(cfg.grow_speed <= cfg.max_speed && cfg.max_speed <= 1_000_000) {
        return false;
    }
    if !(0 <= cfg.gravity && cfg.gravity <= 1_000_000) {
        return false;
    }
    if !(-crate::POS_LIMIT <= cfg.grav_top && cfg.grav_top <= crate::POS_LIMIT) {
        return false;
    }
    if !(cfg.too_crowded <= 1_000_000 && cfg.crowd_raise <= 1_000_000) {
        return false;
    }
    if !(cfg.too_crowded + cfg.crowd_raise <= 1_000_000) {
        return false;
    }
    if !(cfg.min_crowd < cfg.too_crowded) {
        return false;
    }
    if !(1 <= cfg.num_chunks && cfg.num_chunks <= 1_000_000) {
        return false;
    }
    true
}

impl State {
    /// Exact executable check of the whole state invariant.
    pub fn is_well_formed(&self) -> (r: bool)
        ensures
            r == self.wf(),
    {
        if !check_config(&self.cfg) {
            return false;
        }
        if self.time < 0 {
            return false;
        }
        if self.vels.len() != self.pts.len() {
            return false;
        }
        let n = self.pts.len();
        let mut i: usize = 0;
        while i < n
            invariant
                n == self.pts@.len(),
                i <= n,
                forall|j: int| 0 <= j < i ==> node_ok(#[trigger] self.pts@[j], n as int),
            decreases n - i,
        {
            let nd = self.pts[i];
            if nd.left >= n || nd.right >= n {
                proof {
                    assert((i as int) < self@.nodes.len());
                    assert(!node_ok(self@.nodes[i as int], self@.nodes.len() as int));
                    assert(!wf_model(self@));
                }
                return false;
            }
            if nd.pos.x < -crate::POS_LIMIT || nd.pos.x > crate::POS_LIMIT || nd.pos.y
                < -crate::POS_LIMIT || nd.pos.y > crate::POS_LIMIT || nd.pos.z < -crate::POS_LIMIT
                || nd.pos.z > crate::POS_LIMIT {
                proof {
                    assert((i as int) < self@.nodes.len());
                    assert(!node_ok(self@.nodes[i as int], self@.nodes.len() as int));
                    assert(!wf_model(self@));
                }
                return false;
            }
            i = i + 1;
        }
        let mut i: usize = 0;
        while i < self.vels.len()
            invariant
                i <= self.vels@.len(),
                forall|j: int| 0 <= j < i ==> (#[trigger] self.vels@[j]).in_range(crate::VEL_LIMIT as int),
            decreases self.vels@.len() - i,
        {
            let v = self.vels[i];
            if v.x < -crate::VEL_LIMIT || v.x > crate::VEL_LIMIT || v.y < -crate::VEL_LIMIT || v.y
                > crate::VEL_LIMIT || v.z < -crate::VEL_LIMIT || v.z > crate::VEL_LIMIT {
                proof {
                    assert((i as int) < self@.vels.len());
                    assert(!self@.vels[i as int].in_range(crate::VEL_LIMIT as int));
                    assert(!wf_model(self@));
                }
                return false;
            }
            i = i + 1;
        }
        let mut i: usize = 0;
        while i < self.edges.len()
            invariant
                n == self.pts@.len(),
                i <= self.edges@.len(),
                forall|j: int| 0 <= j < i ==> edge_ok(#[trigger] self.edges@[j], n as int),
            decreases self.edges@.len() - i,
        {
            let e = self.edges[i];
            if e.a >= n || e.b >= n {
                proof {
                    assert(!edge_ok(self@.edges[i as int], self@.nodes.len() as int));
                    assert(!wf_model(self@));
                }
                return false;
            }
            if e.len <= 0 || e.len > crate::LEN_CAP || e.curlen < 0 || e.curlen > crate::CURLEN_CAP {
                proof {
                    assert(!edge_ok(self@.edges[i as int], self@.nodes.len() as int));
                    assert(!wf_model(self@));
                }
                return false;
            }
            i = i + 1;
        }
        let mut i: usize = 0;
        while i < self.tris.len()
            invariant
                n == self.pts@.len(),
                i <= self.tris@.len(),
                forall|j: int| 0 <= j < i ==> tri_ok(#[trigger] self.tris@[j], n as int),
            decreases self.tris@.len() - i,
        {
            let t = self.tris[i];
            if t.a >= n || t.b >= n || t.c >= n {
                proof {
                    assert(!tri_ok(self@.tris[i as int], self@.nodes.len() as int));
                    assert(!wf_model(self@));
                }
                return false;
            }
            i = i + 1;
        }
        true
    }

    /// Write the state to its flat snapshot image.
    pub fn encode(&self) -> (r: Vec<u8>)
        ensures
            r@ == spec_encode(self@),
    {
        let mut out: Vec<u8> = Vec::new();
        write_i64(&mut out, self.time as i64);
        write_u64(&mut out, self.pts.len() as u64);
        write_u64(&mut out, self.edges.len() as u64);
        write_u64(&mut out, self.tris.len() as u64);
        let ghost head = out@;
        let n = self.pts.len();
        let mut i: usize = 0;
        while i < n
            invariant
                n == self.pts@.len(),
                i <= n,
                out@ == head + nodes_bytes(self.pts@, i as int),
            decreases n - i,
        {
            let nd = self.pts[i];
            let ghost before = out@;
            write_i64(&mut out, nd.pos.x);
            write_i64(&mut out, nd.pos.y);
            write_i64(&mut out, nd.pos.z);
            write_u64(&mut out, nd.nclose as u64);
            write_u64(&mut out, nd.siblings as u64);
            write_u64(&mut out, nd.age as u64);
            write_i64(&mut out, nd.dead);
            write_u64(&mut out, nd.left as u64);
            write_u64(&mut out, nd.right as u64);
            out.push(if nd.trunk { 1u8 } else { 0u8 });
            proof {
                assert(out@ =~= before + enc_node(self.pts@[i as int]));
                assert(out@ =~= head + nodes_bytes(self.pts@, i as int + 1));
            }
            i = i + 1;
        }
        let ghost after_nodes = out@;
        let mut i: usize = 0;
        while i < self.vels.len()
            invariant
                i <= self.vels@.len(),
                out@ == after_nodes + vels_bytes(self.vels@, i as int),
            decreases self.vels@.len() - i,
        {
            let v = self.vels[i];
            let ghost before = out@;
            write_i64(&mut out, v.x);
            write_i64(&mut out, v.y);
            write_i64(&mut out, v.z);
            proof {
                assert(out@ =~= before + enc_v3(self.vels@[i as int]));
                assert(out@ =~= after_nodes + vels_bytes(self.vels@, i as int + 1));
            }
            i = i + 1;
        }
        let ghost after_vels = out@;
        let mut i: usize = 0;
        while i < self.edges.len()
            invariant
                i <= self.edges@.len(),
                out@ == after_vels + edges_bytes(self.edges@, i as int),
            decreases self.edges@.len() - i,
        {
            let e = self.edges[i];
            let ghost before = out@;
            write_u64(&mut out, e.a as u64);
            write_u64(&mut out, e.b as u64);
            write_u64(&mut out, e.age as u64);
            write_i64(&mut out, e.len);
            write_i64(&mut out, e.curlen);
            proof {
                assert(out@ =~= before + enc_edge(self.edges@[i as int]));
                assert(out@ =~= after_vels + edges_bytes(self.edges@, i as int + 1));
            }
            i = i + 1;
        }
        let ghost after_edges = out@;
        let mut i: usize = 0;
        while i < self.tris.len()
            invariant
                i <= self.tris@.len(),
                out@ == after_edges + tris_bytes(self.tris@, i as int),
            decreases self.tris@.len() - i,
        {
            let t = self.tris[i];
            let ghost before = out@;
            write_u64(&mut out, t.a as u64);
            write_u64(&mut out, t.b as u64);
            write_u64(&mut out, t.c as u64);
            proof {
                assert(out@ =~= before + enc_tri(self.tris@[i as int]));
                assert(out@ =~= after_edges + tris_bytes(self.tris@, i as int + 1));
            }
            i = i + 1;
        }
        proof {
            assert(out@ =~= spec_encode(self@));
        }
        out
    }
}

/// Read a snapshot image back into a state under the given parameters.
/// Succeeds exactly on the images [`spec_decode`] accepts; on anything
/// else it reports why, and never panics.
#[verifier::rlimit(100)]
pub fn decode(cfg: Config, bytes: &Vec<u8>) -> (r: Result<State, DecodeError>)
    ensures
        match r {
            Ok(st) => st.wf() && spec_decode(cfg, bytes@) == Some(st@),
            Err(_) => spec_decode(cfg, bytes@) is None,
        },
{
    let blen = bytes.len();
    if blen < 32 {
        return Err(DecodeError::Truncated);
    }
    let traw = read_i64(bytes, 0);
    if traw < 0 || traw > i32::MAX as i64 {
        return Err(DecodeError::BadValue);
    }
    let n64 = read_u64(bytes, 8);
    let e64 = read_u64(bytes, 16);
    let t64 = read_u64(bytes, 24);
    if n64 > usize::MAX as u64 || e64 > usize::MAX as u64 || t64 > usize::MAX as u64 {
        return Err(DecodeError::BadValue);
    }
    let n = n64 as usize;
    let e = e64 as usize;
    let t = t64 as usize;
    let expected: u128 = 32 + (n as u128) * 97 + (e as u128) * 40 + (t as u128) * 24;
    proof {
        assert((n as u128) * 97 == (n as int) * 97) by (nonlinear_arith);
        assert((e as u128) * 40 == (e as int) * 40) by (nonlinear_arith);
        assert((t as u128) * 24 == (t as int) * 24) by (nonlinear_arith);
    }
    if (blen as u128) != expected {
        return Err(DecodeError::Truncated);
    }
    proof {
        assert(blen as int == 32 + (n as int) * 97 + (e as int) * 40 + (t as int) * 24);
        assert((n as int) * 73 + (n as int) * 24 == (n as int) * 97) by (nonlinear_arith);
    }
    let mut pts: Vec<Node> = Vec::new();
    let mut i: usize = 0;
    while i < n
        invariant
            i <= n,
            blen == bytes@.len(),
            blen >= 32,
            blen as int == 32 + (n as int) * 97 + (e as int) * 40 + (t as int) * 24,
            (n as int) == le_val(bytes@.subrange(8, 16)),
            (e as int) == le_val(bytes@.subrange(16, 24)),
            (t as int) == le_val(bytes@.subrange(24, 32)),
            0 <= unbias(le_val(bytes@.subrange(0, 8))) <= i32::MAX as int,
            (n as int) * 73 + (n as int) * 24 == (n as int) * 97,
            pts@.len() == i,
            forall|k: int| 0 <= k < i ==> #[trigger] pts@[k] == dec_node(bytes@.subrange(
                32 + k * 73,
                32 + k * 73 + 73,
            )),
            forall|k: int| 0 <= k < i ==> node_chunk_ok(#[trigger] bytes@.subrange(
                32 + k * 73,
                32 + k * 73 + 73,
            )),
        decreases n - i,
    {
        proof {
            assert((i as int) * 73 <= (n as int) * 73) by (nonlinear_arith)
                requires
                    i as int <= n as int,
            ;
            assert(((i as int) + 1) * 73 == (i as int) * 73 + 73) by (nonlinear_arith);
            assert(((i as int) + 1) * 73 <= (n as int) * 73) by (nonlinear_arith)
                requires
                    (i as int) + 1 <= n as int,
            ;
        }
        let off: usize = 32 + i * 73;
        let ghost chunk = bytes@.subrange(off as int, off as int + 73);
        let px = read_i64(bytes, off);
        let py = read_i64(bytes, off + 8);
        let pz = read_i64(bytes, off + 16);
        let ncl = read_u64(bytes, off + 24);
        let sib = read_u64(bytes, off + 32);
        let age = read_u64(bytes, off + 40);
        let dead = read_i64(bytes, off + 48);
        let left = read_u64(bytes, off + 56);
        let right = read_u64(bytes, off + 64);
        let tb = bytes[off + 72];
        proof {
            assert(chunk.subrange(0, 24).subrange(0, 8) =~= bytes@.subrange(off as int, off as int + 8));
            assert(chunk.subrange(0, 24).subrange(8, 16) =~= bytes@.subrange(off as int + 8, off as int + 16));
            assert(chunk.subrange(0, 24).subrange(16, 24) =~= bytes@.subrange(off as int + 16, off as int + 24));
            assert(chunk.subrange(24, 32) =~= bytes@.subrange(off as int + 24, off as int + 32));
            assert(chunk.subrange(32, 40) =~= bytes@.subrange(off as int + 32, off as int + 40));
            assert(chunk.subrange(40, 48) =~= bytes@.subrange(off as int + 40, off as int + 48));
            assert(chunk.subrange(48, 56) =~= bytes@.subrange(off as int + 48, off as int + 56));
            assert(chunk.subrange(56, 64) =~= bytes@.subrange(off as int + 56, off as int + 64));
            assert(chunk.subrange(64, 72) =~= bytes@.subrange(off as int + 64, off as int + 72));
            assert(chunk[72] == bytes@[off as int + 72]);
        }
        if ncl > usize::MAX as u64 || sib > usize::MAX as u64 || age > usize::MAX as u64 || left
            > usize::MAX as u64 || right > usize::MAX as u64 || tb > 1 {
            proof {
                assert(!node_chunk_ok(chunk));
                assert(!spec_image_ok(cfg, bytes@));
            }
            return Err(DecodeError::BadValue);
        }
        let nd = Node {
            pos: V3 { x: px, y: py, z: pz },
            nclose: ncl as usize,
            siblings: sib as usize,
            age: age as usize,
            dead,
            left: left as usize,
            right: right as usize,
            trunk: tb == 1,
        };
        proof {
            assert(nd == dec_node(chunk));
            assert(node_chunk_ok(chunk));
        }
        pts.push(nd);
        i = i + 1;
    }
    let mut vels: Vec<V3> = Vec::new();
    let mut i: usize = 0;
    while i < n
        invariant
            i <= n,
            blen == bytes@.len(),
            blen >= 32,
            blen as int == 32 + (n as int) * 97 + (e as int) * 40 + (t as int) * 24,
            (n as int) == le_val(bytes@.subrange(8, 16)),
            (e as int) == le_val(bytes@.subrange(16, 24)),
            (t as int) == le_val(bytes@.subrange(24, 32)),
            0 <= unbias(le_val(bytes@.subrange(0, 8))) <= i32::MAX as int,
            (n as int) * 73 + (n as int) * 24 == (n as int) * 97,
            vels@.len() == i,
            forall|k: int| 0 <= k < i ==> #[trigger] vels@[k] == dec_v3(bytes@.subrange(
                32 + (n as int) * 73 + k * 24,
                32 + (n as int) * 73 + k * 24 + 24,
            )),
        decreases n - i,
    {
        proof {
            assert((i as int) * 24 <= (n as int) * 24) by (nonlinear_arith)
                requires
                    i as int <= n as int,
            ;
            assert(((i as int) + 1) * 24 == (i as int) * 24 + 24) by (nonlinear_arith);
            assert(((i as int) + 1) * 24 <= (n as int) * 24) by (nonlinear_arith)
                requires
                    (i as int) + 1 <= n as int,
            ;
            assert((n as int) * 73 <= (n as int) * 97) by (nonlinear_arith);
        }
        let off: usize = 32 + n * 73 + i * 24;
        let ghost chunk = bytes@.subrange(off as int, off as int + 24);
        let px = read_i64(bytes, off);
        let py = read_i64(bytes, off + 8);
        let pz = read_i64(bytes, off + 16);
        proof {
            assert(chunk.subrange(0, 8) =~= bytes@.subrange(off as int, off as int + 8));
            assert(chunk.subrange(8, 16) =~= bytes@.subrange(off as int + 8, off as int + 16));
            assert(chunk.subrange(16, 24) =~= bytes@.subrange(off as int + 16, off as int + 24));
        }
        let v = V3 { x: px, y: py, z: pz };
        proof {
            assert(v == dec_v3(chunk));
        }
        vels.push(v);
        i = i + 1;
    }
    let mut edges: Vec<Edge> = Vec::new();
    let mut i: usize = 0;
    while i < e
        invariant
            i <= e,
            blen == bytes@.len(),
            blen >= 32,
            blen as int == 32 + (n as int) * 97 + (e as int) * 40 + (t as int) * 24,
            (n as int) == le_val(bytes@.subrange(8, 16)),
            (e as int) == le_val(bytes@.subrange(16, 24)),
            (t as int) == le_val(bytes@.subrange(24, 32)),
            0 <= unbias(le_val(bytes@.subrange(0, 8))) <= i32::MAX as int,
            edges@.len() == i,
            forall|k: int| 0 <= k < i ==> #[trigger] edges@[k] == dec_edge(bytes@.subrange(
                32 + (n as int) * 97 + k * 40,
                32 + (n as int) * 97 + k * 40 + 40,
            )),
            forall|k: int| 0 <= k < i ==> edge_chunk_ok(#[trigger] bytes@.subrange(
                32 + (n as int) * 97 + k * 40,
                32 + (n as int) * 97 + k * 40 + 40,
            )),
        decreases e - i,
    {
        proof {
            assert((i as int) * 40 <= (e as int) * 40) by (nonlinear_arith)
                requires
                    i as int <= e as int,
            ;
            assert(((i as int) + 1) * 40 == (i as int) * 40 + 40) by (nonlinear_arith);
            assert(((i as int) + 1) * 40 <= (e as int) * 40) by (nonlinear_arith)
                requires
                    (i as int) + 1 <= e as int,
            ;
        }
        let off: usize = 32 + n * 97 + i * 40;
        let ghost chunk = bytes@.subrange(off as int, off as int + 40);
        let a64 = read_u64(bytes, off);
        let b64 = read_u64(bytes, off + 8);
        let age64 = read_u64(bytes, off + 16);
        let len_v = read_i64(bytes, off + 24);
        let curlen_v = read_i64(bytes, off + 32);
        proof {
            assert(chunk.subrange(0, 8) =~= bytes@.subrange(off as int, off as int + 8));
            assert(chunk.subrange(8, 16) =~= bytes@.subrange(off as int + 8, off as int + 16));
            assert(chunk.subrange(16, 24) =~= bytes@.subrange(off as int + 16, off as int + 24));
            assert(chunk.subrange(24, 32) =~= bytes@.subrange(off as int + 24, off as int + 32));
            assert(chunk.subrange(32, 40) =~= bytes@.subrange(off as int + 32, off as int + 40));
        }
        if a64 > usize::MAX as u64 || b64 > usize::MAX as u64 || age64 > usize::MAX as u64 {
            proof {
                assert(!edge_chunk_ok(chunk));
                assert(!spec_image_ok(cfg, bytes@));
            }
            return Err(DecodeError::BadValue);
        }
        let ed = Edge {
            a: a64 as usize,
            b: b64 as usize,
            age: age64 as usize,
            len: len_v,
            curlen: curlen_v,
        };
        proof {
            assert(ed == dec_edge(chunk));
            assert(edge_chunk_ok(chunk));
        }
        edges.push(ed);
        i = i + 1;
    }
    let mut tris: Vec<Tri> = Vec::new();
    let mut i: usize = 0;
    while i < t
        invariant
            i <= t,
            blen == bytes@.len(),
            blen >= 32,
            blen as int == 32 + (n as int) * 97 + (e as int) * 40 + (t as int) * 24,
            (n as int) == le_val(bytes@.subrange(8, 16)),
            (e as int) == le_val(bytes@.subrange(16, 24)),
            (t as int) == le_val(bytes@.subrange(24, 32)),
            0 <= unbias(le_val(bytes@.subrange(0, 8))) <= i32::MAX as int,
            tris@.len() == i,
            forall|k: int| 0 <= k < i ==> #[trigger] tris@[k] == dec_tri(bytes@.subrange(
                32 + (n as int) * 97 + (e as int) * 40 + k * 24,
                32 + (n as int) * 97 + (e as int) * 40 + k * 24 + 24,
            )),
            forall|k: int| 0 <= k < i ==> tri_chunk_ok(#[trigger] bytes@.subrange(
                32 + (n as int) * 97 + (e as int) * 40 + k * 24,
                32 + (n as int) * 97 + (e as int) * 40 + k * 24 + 24,
            )),
        decreases t - i,
    {
        proof {
            assert((i as int) * 24 <= (t as int) * 24) by (nonlinear_arith)
                requires
                    i as int <= t as int,
            ;
            assert(((i as int) + 1) * 24 == (i as int) * 24 + 24) by (nonlinear_arith);
            assert(((i as int) + 1) * 24 <= (t as int) * 24) by (nonlinear_arith)
                requires
                    (i as int) + 1 <= t as int,
            ;
        }
        let off: usize = 32 + n * 97 + e * 40 + i * 24;
        let ghost chunk = bytes@.subrange(off as int, off as int + 24);
        let a64 = read_u64(bytes, off);
        let b64 = read_u64(bytes, off + 8);
        let c64 = read_u64(bytes, off + 16);
        proof {
            assert(chunk.subrange(0, 8) =~= bytes@.subrange(off as int, off as int + 8));
            assert(chunk.subrange(8, 16) =~= bytes@.subrange(off as int + 8, off as int + 16));
            assert(chunk.subrange(16, 24) =~= bytes@.subrange(off as int + 16, off as int + 24));
        }
        if a64 > usize::MAX as u64 || b64 > usize::MAX as u64 || c64 > usize::MAX as u64 {
            proof {
                assert(!tri_chunk_ok(chunk));
                assert(!spec_image_ok(cfg, bytes@));
            }
            return Err(DecodeError::BadValue);
        }
        let tr = Tri { a: a64 as usize, b: b64 as usize, c: c64 as usize };
        proof {
            assert(tr == dec_tri(chunk));
            assert(tri_chunk_ok(chunk));
        }
        tris.push(tr);
        i = i + 1;
    }
    let st = State { time: traw as i32, cfg, pts, vels, edges, tris };
    proof {
        let raw = spec_raw_model(cfg, bytes@);
        assert(st@.nodes =~= raw.nodes);
        assert(st@.vels =~= raw.vels);
        assert(st@.edges =~= raw.edges);
        assert(st@.tris =~= raw.tris);
        assert(st@ == raw);
    }
    if !st.is_well_formed() {
        return Err(DecodeError::Invalid);
    }
    proof {
        assert(spec_image_ok(cfg, bytes@));
    }
    Ok(st)
}

} // verus!
