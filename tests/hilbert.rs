use geomedea::hilbert::{hilbert, scaled_hilbert};
use geomedea::{Bounds, LngLat};

fn deg(v: f64) -> i32 {
    (v * 10_000_000.0) as i32
}

fn rect(x1: f64, y1: f64, x2: f64, y2: f64) -> Bounds {
    Bounds::from_corners(
        &LngLat::unscaled(deg(x1), deg(y1)),
        &LngLat::unscaled(deg(x2), deg(y2)),
    )
}

#[test]
fn check_scaled_hilbert() {
    let node_1 = rect(0.0, 0.0, 1.0, 1.0);
    let node_2 = rect(2.0, 2.0, 3.0, 3.0);
    let nodes = vec![node_1, node_2];

    let mut extent = Bounds::empty();
    for node in &nodes {
        extent.extend(node);
    }

    assert_eq!(143165576, scaled_hilbert(&nodes[0].center(), &extent));
    assert_eq!(2720145952, scaled_hilbert(&nodes[1].center(), &extent));
}

#[test]
fn hilbert_origin_and_corners() {
    assert_eq!(0, hilbert(0, 0));
    assert_ne!(hilbert(0xFFFF, 0xFFFF), hilbert(0, 0xFFFF));
    assert_ne!(hilbert(0xFFFF, 0), hilbert(0, 0xFFFF));
}

#[test]
fn zero_width_extent_maps_to_origin() {
    let p = LngLat::unscaled(5, 5);
    let extent = Bounds::from_corners(&p, &p);
    assert_eq!(hilbert(0, 0), scaled_hilbert(&p, &extent));
}
