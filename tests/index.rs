use geomedea::codec::get_node;
use geomedea::{Bounds, Error, FeatureLocation, LngLat, Node, PackedRTreeReader, PackedRTreeWriter};

fn deg(v: f64) -> i32 {
    (v * 10_000_000.0) as i32
}

fn rect(x1: f64, y1: f64, x2: f64, y2: f64) -> Bounds {
    Bounds::from_corners(
        &LngLat::unscaled(deg(x1), deg(y1)),
        &LngLat::unscaled(deg(x2), deg(y2)),
    )
}

fn loc(page_starting_offset: u64, feature_offset: u32) -> FeatureLocation {
    FeatureLocation {
        page_starting_offset,
        feature_offset,
    }
}

fn write_index(leaves: Vec<Node>) -> Vec<u8> {
    let mut writer = PackedRTreeWriter::new(leaves.len() as u64);
    for leaf in leaves {
        writer.push_leaf(leaf);
    }
    writer.write().unwrap()
}

fn example_index() -> Vec<u8> {
    write_index(vec![
        Node::leaf_node(rect(0.0, 0.0, 1.0, 1.0), loc(0, 0)),
        Node::leaf_node(rect(1.0, 1.0, 2.0, 2.0), loc(0, 1)),
        Node::leaf_node(rect(2.0, 2.0, 3.0, 3.0), loc(10, 0)),
        Node::leaf_node(rect(3.0, 3.0, 4.0, 4.0), loc(10, 1)),
    ])
}

#[test]
fn write_empty() {
    let output = write_index(vec![]);
    let expected: Vec<u8> = vec![];
    assert_eq!(output, expected);
}

#[test]
fn write_single() {
    let output = write_index(vec![Node::leaf_node(
        Bounds::from_corners(&LngLat::unscaled(1, 2), &LngLat::unscaled(3, 4)),
        loc(60, 8),
    )]);
    let expected: Vec<u8> = vec![
        1, 0, 0, 0, 2, 0, 0, 0, 3, 0, 0, 0, 4, 0, 0, 0, 60, 0, 0, 0, 0, 0, 0, 0, 8, 0, 0, 0,
    ];
    assert_eq!(output, expected);
}

#[test]
fn write_multiple_layers() {
    let mut leaves = vec![];
    for offset in 0..17u64 {
        let bounds = rect(
            offset as f64,
            offset as f64,
            offset as f64 * 2.0,
            offset as f64 * 2.0,
        );
        leaves.push(Node::leaf_node(bounds, loc(offset / 10, offset as u32 % 10)));
    }
    let output = write_index(leaves);
    let node = |i: usize| get_node(&output, i * 28).unwrap();

    assert_eq!(node(0).bounds, rect(0.0, 0.0, 32.0, 32.0));
    assert_eq!(node(1).bounds, rect(0.0, 0.0, 30.0, 30.0));
    assert_eq!(node(2).bounds, rect(16.0, 16.0, 32.0, 32.0));
    assert_eq!(node(3).bounds, rect(0.0, 0.0, 0.0, 0.0));
    assert_eq!(node(19).bounds, rect(16.0, 16.0, 32.0, 32.0));
    assert_eq!(output.len(), 20 * 28);
}

#[test]
fn search() {
    let index_bytes = example_index();

    let reader = PackedRTreeReader::new(4, &index_bytes).unwrap();
    let locations = reader.select_bbox(&rect(0.5, 0.5, 0.75, 0.75));
    assert_eq!(locations, vec![loc(0, 0)]);

    let reader = PackedRTreeReader::new(4, &index_bytes).unwrap();
    let locations = reader.select_bbox(&rect(1.5, 1.5, 2.0, 2.0));
    assert_eq!(locations, vec![loc(0, 1), loc(10, 0)]);
}

#[test]
fn search_outside_finds_nothing() {
    let index_bytes = example_index();
    let reader = PackedRTreeReader::new(4, &index_bytes).unwrap();
    assert!(reader.select_bbox(&rect(50.0, 50.0, 60.0, 60.0)).is_empty());
}

#[test]
fn short_index_is_a_decode_error() {
    let index_bytes = example_index();
    assert!(PackedRTreeReader::new(4, &index_bytes[..100]).is_err());
}

#[test]
fn fewer_leaves_than_promised_is_a_count_mismatch() {
    let mut writer = PackedRTreeWriter::new(2);
    writer.push_leaf(Node::leaf_node(rect(0.0, 0.0, 1.0, 1.0), loc(0, 0)));
    assert_eq!(
        writer.write(),
        Err(Error::FeatureCountMismatch {
            found: 1,
            expected: 2
        })
    );
}
