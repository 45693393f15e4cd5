use grow::codec::{decode, DecodeError};
use grow::config::Config;
use grow::geom::V3;
use grow::seed::new_state;
use grow::state::{Edge, Node, State};

#[test]
fn round_trip_fresh_state() {
    let cfg = Config::standard();
    let st = new_state(cfg, 10);
    let bytes = st.encode();
    let back = decode(cfg, &bytes).expect("a fresh snapshot must decode");
    assert!(back == st);
}

#[test]
fn round_trip_after_a_hundred_ticks() {
    let cfg = Config::standard();
    let mut st = new_state(cfg, 10);
    for _ in 0..100 {
        st.tick();
    }
    let bytes = st.encode();
    let back = decode(cfg, &bytes).expect("an advanced snapshot must decode");
    assert!(back == st);
}

#[test]
fn decode_rejects_short_input() {
    let cfg = Config::standard();
    assert!(matches!(decode(cfg, &Vec::new()), Err(DecodeError::Truncated)));
    let st = new_state(cfg, 3);
    let mut bytes = st.encode();
    bytes.pop();
    assert!(matches!(decode(cfg, &bytes), Err(DecodeError::Truncated)));
}

#[test]
fn decode_rejects_bad_flag_byte() {
    let cfg = Config::standard();
    let st = new_state(cfg, 3);
    let mut bytes = st.encode();
    // The trunk flag of the first node record.
    bytes[32 + 72] = 7;
    assert!(matches!(decode(cfg, &bytes), Err(DecodeError::BadValue)));
}

#[test]
fn decode_rejects_negative_time() {
    let cfg = Config::standard();
    let mut st = new_state(cfg, 3);
    st.time = -5;
    let bytes = st.encode();
    assert!(matches!(decode(cfg, &bytes), Err(DecodeError::BadValue)));
}

#[test]
fn decode_rejects_dangling_edge() {
    let cfg = Config::standard();
    let mut st = State::init(cfg);
    st.pts.push(Node {
        pos: V3 { x: 0, y: 0, z: 0 },
        nclose: 0,
        siblings: 2,
        age: 0,
        dead: 0,
        left: 0,
        right: 0,
        trunk: false,
    });
    st.vels.push(V3 { x: 0, y: 0, z: 0 });
    st.edges.push(Edge { a: 0, b: 9, age: 0, len: 100, curlen: 0 });
    let bytes = st.encode();
    assert!(matches!(decode(cfg, &bytes), Err(DecodeError::Invalid)));
}

#[test]
fn snapshot_layout_is_stable() {
    let cfg = Config::standard();
    let st = new_state(cfg, 3);
    let bytes = st.encode();
    // header + 3 * (node + velocity) + 3 edges + no faces
    assert_eq!(bytes.len(), 32 + 3 * 97 + 3 * 40);
    // time 0, biased by 2^63, little-endian: low bytes zero, top bit set.
    assert_eq!(&bytes[0..8], &[0, 0, 0, 0, 0, 0, 0, 0x80]);
    // the three counts
    assert_eq!(&bytes[8..16], &[3, 0, 0, 0, 0, 0, 0, 0]);
    assert_eq!(&bytes[16..24], &[3, 0, 0, 0, 0, 0, 0, 0]);
    assert_eq!(&bytes[24..32], &[0, 0, 0, 0, 0, 0, 0, 0]);
}
