use geomedea::PackedRTree;

#[test]
fn is_leaf_node() {
    let tree = PackedRTree::new(257);
    assert!(!tree.is_leaf_node(0));
    assert!(!tree.is_leaf_node(3));
    assert!(!tree.is_leaf_node(19));
    assert!(tree.is_leaf_node(20));
    assert!(tree.is_leaf_node(277));
}

#[test]
fn nodes_per_level() {
    assert_eq!(Vec::<u64>::new(), PackedRTree::new(0).nodes_per_level());
    assert_eq!(vec![1], PackedRTree::new(1).nodes_per_level());
    assert_eq!(vec![1, 2], PackedRTree::new(2).nodes_per_level());
    assert_eq!(vec![1, 4], PackedRTree::new(4).nodes_per_level());
    assert_eq!(vec![1, 15], PackedRTree::new(15).nodes_per_level());
    assert_eq!(vec![1, 16], PackedRTree::new(16).nodes_per_level());
    assert_eq!(vec![1, 2, 17], PackedRTree::new(17).nodes_per_level());
    assert_eq!(vec![1, 2, 32], PackedRTree::new(32).nodes_per_level());
    assert_eq!(vec![1, 3, 33], PackedRTree::new(33).nodes_per_level());
    assert_eq!(vec![1, 16, 255], PackedRTree::new(255).nodes_per_level());
    assert_eq!(vec![1, 16, 256], PackedRTree::new(256).nodes_per_level());
    assert_eq!(vec![1, 2, 17, 257], PackedRTree::new(257).nodes_per_level());
}

#[test]
fn byte_ranges_by_level() {
    assert_eq!(vec![(0..28)], PackedRTree::new(1).byte_ranges_by_level());
    assert_eq!(
        vec![(0..28), (28..112)],
        PackedRTree::new(3).byte_ranges_by_level()
    );
}

#[test]
fn node_ranges_by_level() {
    assert_eq!(vec![(0..1)], PackedRTree::new(1).node_ranges_by_level());
    assert_eq!(
        vec![(0..1), (1..3)],
        PackedRTree::new(2).node_ranges_by_level()
    );
    assert_eq!(
        vec![(0..1), (1..17)],
        PackedRTree::new(16).node_ranges_by_level()
    );
    assert_eq!(
        vec![(0..1), (1..3), (3..20)],
        PackedRTree::new(17).node_ranges_by_level()
    );
    assert_eq!(
        vec![(0..1), (1..17), (17..273)],
        PackedRTree::new(256).node_ranges_by_level()
    );
    assert_eq!(
        vec![(0..1), (1..3), (3..20), (20..277)],
        PackedRTree::new(257).node_ranges_by_level()
    );
}

#[test]
fn node_count() {
    assert_eq!(1, PackedRTree::new(1).node_count());
    assert_eq!(2 + 1, PackedRTree::new(2).node_count());
    assert_eq!(16 + 1, PackedRTree::new(16).node_count());
    assert_eq!(256 + 16 + 1, PackedRTree::new(256).node_count());
    assert_eq!(257 + 17 + 2 + 1, PackedRTree::new(257).node_count());
}

#[test]
fn level_for_node_idx() {
    let tree = PackedRTree::new(250);
    assert_eq!(tree.level_for_node_idx(17), 0);
    assert_eq!(tree.level_for_node_idx(266), 0);
    assert_eq!(tree.level_for_node_idx(16), 1);
    assert_eq!(tree.level_for_node_idx(1), 1);
    assert_eq!(tree.level_for_node_idx(0), 2);
}

#[test]
fn empty() {
    assert_eq!(None, PackedRTree::new(0).children_range(0));
    assert_eq!(None, PackedRTree::new(0).children_range(5));
}

#[test]
fn single_node() {
    assert_eq!(None, PackedRTree::new(1).children_range(0));
}

#[test]
fn two_levels() {
    assert_eq!(Some(1..3), PackedRTree::new(2).children_range(0));
    assert_eq!(Some(1..4), PackedRTree::new(3).children_range(0));
    assert_eq!(None, PackedRTree::new(3).children_range(2));
    assert_eq!(None, PackedRTree::new(3).children_range(5));
}

#[test]
fn three_levels() {
    assert_eq!(Some(1..3), PackedRTree::new(17).children_range(0));
    assert_eq!(Some(3..19), PackedRTree::new(17).children_range(1));
    assert_eq!(Some(19..20), PackedRTree::new(17).children_range(2));
}

#[test]
fn index_size_is_28_bytes_per_node() {
    assert_eq!(0, PackedRTree::new(0).index_size());
    assert_eq!(28, PackedRTree::new(1).index_size());
    assert_eq!(277 * 28, PackedRTree::new(257).index_size());
}
