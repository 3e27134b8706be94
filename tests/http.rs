use geomedea::codec::{get_node, put_node};
use geomedea::http::{plan_page_visit, plan_request, IndexSearch, PAGE_OVERFETCH_BYTES};
use geomedea::index::build_index;
use geomedea::{Bounds, FeatureLocation, LngLat, Node, PackedRTree};

fn deg(v: f64) -> i32 {
    (v * 10_000_000.0) as i32
}

fn rect(x1: f64, y1: f64, x2: f64, y2: f64) -> Bounds {
    Bounds::from_corners(
        &LngLat::unscaled(deg(x1), deg(y1)),
        &LngLat::unscaled(deg(x2), deg(y2)),
    )
}

fn loc(page_starting_offset: u64, feature_offset: u32) -> FeatureLocation {
    FeatureLocation {
        page_starting_offset,
        feature_offset,
    }
}

fn example_nodes() -> Vec<Node> {
    let leaves = vec![
        Node::leaf_node(rect(0.0, 0.0, 1.0, 1.0), loc(0, 0)),
        Node::leaf_node(rect(1.0, 1.0, 2.0, 2.0), loc(0, 1)),
        Node::leaf_node(rect(2.0, 2.0, 3.0, 3.0), loc(10, 0)),
        Node::leaf_node(rect(3.0, 3.0, 4.0, 4.0), loc(10, 1)),
    ];
    let tree = PackedRTree::new(4);
    let nodes = build_index(&tree, &leaves);
    let mut bytes = vec![];
    for n in &nodes {
        put_node(&mut bytes, n);
    }
    (0..nodes.len()).map(|i| get_node(&bytes, i * 28).unwrap()).collect()
}

fn run(search: &mut IndexSearch, nodes: &[Node]) {
    while let Some(range) = search.next_range() {
        let slice = &nodes[range.start as usize..range.end as usize];
        search.feed(slice).unwrap();
    }
}

#[test]
fn http_search() {
    let nodes = example_nodes();

    let mut search = IndexSearch::new(4, &rect(0.5, 0.5, 0.75, 0.75));
    run(&mut search, &nodes);
    assert_eq!(search.into_results(), vec![loc(0, 0)]);

    let mut search = IndexSearch::new(4, &rect(1.5, 1.5, 2.0, 2.0));
    run(&mut search, &nodes);
    assert_eq!(search.into_results(), vec![loc(0, 1), loc(10, 0)]);
}

#[test]
fn http_search_of_empty_index_requests_nothing() {
    let search = IndexSearch::new(0, &rect(0.0, 0.0, 1.0, 1.0));
    assert_eq!(search.next_range(), None);
}

#[test]
fn feeding_the_wrong_number_of_nodes_fails() {
    let nodes = example_nodes();
    let mut search = IndexSearch::new(4, &rect(0.0, 0.0, 4.0, 4.0));
    assert!(search.feed(&nodes[0..2]).is_err());
    assert_eq!(search.next_range(), Some(0..1));
}

#[test]
fn nearby_children_ranges_are_fused() {
    // 17 leaves: root, two internal nodes (1..3), leaves 3..20.
    let mut leaves = vec![];
    for i in 0..17u64 {
        leaves.push(Node::leaf_node(
            rect(i as f64, i as f64, i as f64 + 0.5, i as f64 + 0.5),
            loc(i, 0),
        ));
    }
    let tree = PackedRTree::new(17);
    let nodes = build_index(&tree, &leaves);
    let mut search = IndexSearch::new(17, &rect(-1.0, -1.0, 100.0, 100.0));
    assert_eq!(search.next_range(), Some(0..1));
    search.feed(&nodes[0..1]).unwrap();
    assert_eq!(search.next_range(), Some(1..3));
    search.feed(&nodes[1..3]).unwrap();
    // both children ranges of level 1 were fused into one request
    assert_eq!(search.next_range(), Some(3..20));
    search.feed(&nodes[3..20]).unwrap();
    assert_eq!(search.next_range(), None);
    assert_eq!(search.into_results().len(), 17);
}

#[test]
fn page_requests_overfetch_unless_buffered() {
    assert_eq!(plan_request(100, 12, &(0..200)), 100..112);
    assert_eq!(
        plan_request(100, 12, &(0..105)),
        100..(112 + PAGE_OVERFETCH_BYTES)
    );
}

#[test]
fn page_visits_stay_in_the_current_page_or_fetch_the_next_header() {
    let l = loc(100, 8);
    assert_eq!(plan_page_visit(1000, Some(100), &l, &(0..0)), None);
    assert_eq!(
        plan_page_visit(1000, Some(40), &l, &(0..5000)),
        Some(1100..1112)
    );
    assert_eq!(
        plan_page_visit(1000, None, &l, &(0..10)),
        Some(1100..(1112 + PAGE_OVERFETCH_BYTES))
    );
}
