use grow::color::hsl;
use grow::config::Config;
use grow::geom::V3;
use grow::raster::vflip;
use grow::seed::new_state;

#[test]
fn hsl_hits_the_primary_hues() {
    // Saturation 1000, lightness 300: chroma 600.
    assert_eq!(hsl(0, 1000, 300), V3 { x: 600, y: 0, z: 0 });
    assert_eq!(hsl(120_000, 1000, 300), V3 { x: 0, y: 600, z: 0 });
    assert_eq!(hsl(240_000, 1000, 300), V3 { x: 0, y: 0, z: 600 });
}

#[test]
fn edge_color_after_one_tick() {
    let mut st = new_state(Config::standard(), 10);
    st.tick();
    // age 1 of time 1: hue (1.8 - 1) * 180 degrees = 144 degrees.
    assert_eq!(st.edge_color(0, 0), V3 { x: 0, y: 600, z: 240 });
}

#[test]
fn coord_colors_after_one_tick() {
    let mut st = new_state(Config::standard(), 10);
    st.tick();
    let cc = st.coord_colors();
    assert_eq!(cc.len(), 10);
    for k in 0..10 {
        // Every node is as old as the run, and still a trunk node.
        assert_eq!(cc[k], (0, 1000));
    }
}

#[test]
fn vflip_swaps_rows() {
    let mut buf = vec![1u8, 2, 3, 4, 5, 6];
    vflip(&mut buf, 3, 2);
    assert_eq!(buf, vec![4, 5, 6, 1, 2, 3]);
}

#[test]
fn vflip_keeps_the_middle_row_and_the_tail() {
    let mut buf = vec![1u8, 2, 3, 4, 5, 6, 9, 9];
    vflip(&mut buf, 2, 3);
    assert_eq!(buf, vec![5, 6, 3, 4, 1, 2, 9, 9]);
}
