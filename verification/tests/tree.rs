use rustsptag::index::bktree_build::BKBuild;
use rustsptag::index::bktree_recursive::{subtree_ranges_of, BKTreeBuilder, TreeLoadError, UNSET_LAMBDA_BITS};
use rustsptag::spann::hbc::{sample_indices, HBCSelector};

/// Two clusters over ten ids: even ids below 8 in cluster 0, the rest in 1.
fn two_cluster_tree() -> BKTreeBuilder {
    let mut t = BKTreeBuilder::new(2, 8, 1000);
    t.reset(10);
    let root = t.open_node(0, 10);
    let counts = t.split_node(root, 0, 10, &[0, 1, 0, 1, 0, 1, 0, 1, 1, 1]);
    assert_eq!(counts, vec![4, 6]);
    for (first, last) in subtree_ranges_of(&counts, 0) {
        let slot = t.open_node(first, last);
        t.close_leaf(slot, first, last);
    }
    t.finish_node(root);
    t
}

#[test]
fn new_tree_is_empty_with_unset_lambda() {
    let t = BKTreeBuilder::new(32, 8, 1000);
    assert!(t.nodes().is_empty());
    assert!(t.get_indices().is_empty());
    assert!(t.leaves().is_empty());
    assert_eq!((t.k(), t.leaf_size(), t.samples()), (32, 8, 1000));
    assert_eq!(t.lambda_bits(), UNSET_LAMBDA_BITS);
    assert_eq!(f32::from_bits(t.lambda_bits()), -1.0);
}

#[test]
fn split_groups_ids_by_cluster_in_order() {
    let t = two_cluster_tree();
    assert_eq!(t.get_indices(), &[0, 2, 4, 6, 1, 3, 5, 7, 8, 9]);
    let nodes = t.nodes();
    assert_eq!(nodes.len(), 3);
    assert_eq!(nodes[0].center_id, 0);
    assert_eq!((nodes[0].child_start, nodes[0].child_end), (1, 3));
    assert_eq!((nodes[0].data_start, nodes[0].data_end), (0, 10));
    assert_eq!(nodes[1].center_id, 0);
    assert_eq!(nodes[2].center_id, 1);
    assert_eq!((nodes[2].data_start, nodes[2].data_end), (4, 10));
    assert_eq!(t.leaves(), &[(0, 4), (4, 10)]);
    assert!(t.is_ordered());
}

#[test]
fn split_only_reorders_its_range() {
    let mut t = BKTreeBuilder::new(3, 2, 10);
    t.reset(8);
    let root = t.open_node(2, 6);
    let counts = t.split_node(root, 2, 6, &[2, 0, 2, 1]);
    assert_eq!(counts, vec![1, 1, 2]);
    assert_eq!(t.get_indices(), &[0, 1, 3, 5, 2, 4, 6, 7]);
    let mut sorted = t.get_indices().to_vec();
    sorted.sort();
    assert_eq!(sorted, (0..8).collect::<Vec<usize>>());
}

#[test]
fn only_clusters_of_two_or_more_get_subtrees() {
    assert_eq!(subtree_ranges_of(&[3, 1, 0, 2], 10), vec![(10, 13), (14, 16)]);
    assert_eq!(subtree_ranges_of(&[1, 1], 0), vec![]);
    assert_eq!(subtree_ranges_of(&[], 5), vec![]);
}

#[test]
fn node_info_lists_child_slots() {
    let t = two_cluster_tree();
    assert_eq!(t.get_node_info(0), (0, vec![1, 2]));
    assert_eq!(t.get_node_info(2), (1, vec![]));
    assert_eq!(t.get_node_info(3), (0, vec![]));
}

#[test]
fn tree_save_then_load_gives_back_tree() {
    let mut t = two_cluster_tree();
    t.set_lambda_bits(0.5f32.to_bits());
    let bytes = t.save();
    assert_eq!(bytes.len(), 4 * (7 + 5 * 3 + 10 + 2 * 2));
    let mut with_tail = bytes.clone();
    with_tail.extend_from_slice(&[1, 2, 3]);
    let (u, used) = BKTreeBuilder::load(&with_tail).unwrap();
    assert_eq!(used, bytes.len());
    assert_eq!(u.nodes(), t.nodes());
    assert_eq!(u.get_indices(), t.get_indices());
    assert_eq!(u.leaves(), t.leaves());
    assert_eq!((u.k(), u.leaf_size(), u.samples()), (2, 8, 1000));
    assert_eq!(f32::from_bits(u.lambda_bits()), 0.5);
    assert_eq!(u.save(), bytes);
}

#[test]
fn tree_load_of_cut_bytes_is_truncated() {
    let bytes = two_cluster_tree().save();
    for cut in [0, 3, 4, 20, bytes.len() - 1] {
        assert_eq!(BKTreeBuilder::load(&bytes[..cut]).err(), Some(TreeLoadError::Truncated));
    }
}

#[test]
fn loaded_tree_with_backward_child_is_not_ordered() {
    let mut bytes = two_cluster_tree().save();
    // child_start of node 1 (word 1 + 5 + 1) points back at slot 0
    let w = 4 * (1 + 5 + 1);
    bytes[w..w + 4].copy_from_slice(&0i32.to_le_bytes());
    let (t, _) = BKTreeBuilder::load(&bytes).unwrap();
    assert!(!t.is_ordered());
}

#[test]
fn hbc_defaults() {
    let h = HBCSelector::new();
    assert_eq!((h.select_threshold(), h.split_threshold(), h.split_factor()), (6, 25, 5));
}

#[test]
fn hbc_picks_large_cluster_and_its_largest_child() {
    let t = two_cluster_tree();
    let h = HBCSelector::new();
    let mut selected = Vec::new();
    let left = h.select_recursive(&t, 0, 2, 2, &mut selected);
    assert_eq!(left, 0);
    assert_eq!(selected, vec![0, 0]);
}

#[test]
fn hbc_picks_every_cluster_with_threshold_one() {
    let t = two_cluster_tree();
    let h = HBCSelector::new();
    let mut selected = Vec::new();
    assert_eq!(h.select_recursive(&t, 0, 1, 25, &mut selected), 0);
    assert_eq!(selected, vec![0, 1, 0]);
}

#[test]
fn hbc_small_cluster_is_left_to_parent() {
    let t = two_cluster_tree();
    let h = HBCSelector::new();
    let mut selected = vec![99];
    assert_eq!(h.select_recursive(&t, 0, 6, 25, &mut selected), 3);
    assert_eq!(selected, vec![99]);
}

#[test]
fn build_machine_opens_leaves_and_splits_in_order() {
    let mut t = BKTreeBuilder::new(2, 3, 100);
    let mut b = BKBuild::new(&mut t, 8);
    assert_eq!(b.pending(), Some((0, 8, 0)));
    let root = b.open(&mut t);
    assert_eq!(root, Some(0));
    assert_eq!(b.pending(), None);
    // ids 0..4 in cluster 1, 4..8 in cluster 0
    b.split(&mut t, &[1, 1, 1, 1, 0, 0, 0, 0]);
    assert_eq!(t.get_indices(), &[4, 5, 6, 7, 0, 1, 2, 3]);
    assert_eq!(b.pending(), Some((0, 4, 1)));
    let left = b.open(&mut t);
    assert_eq!(left, Some(1));
    b.split(&mut t, &[0, 0, 0, 1]);
    assert_eq!(b.pending(), Some((0, 3, 2)));
    assert_eq!(b.open(&mut t), None);
    assert_eq!(b.pending(), Some((4, 8, 1)));
    let right = b.open(&mut t);
    assert_eq!(right, Some(3));
    b.split(&mut t, &[1, 0, 1, 0]);
    assert_eq!(b.pending(), Some((4, 6, 2)));
    assert_eq!(b.open(&mut t), None);
    assert_eq!(b.pending(), Some((6, 8, 2)));
    assert_eq!(b.open(&mut t), None);
    assert!(b.is_done());
    assert_eq!(t.leaves(), &[(0, 3), (4, 6), (6, 8)]);
    let nodes = t.nodes();
    assert_eq!(nodes.len(), 6);
    assert_eq!((nodes[0].child_start, nodes[0].child_end), (1, 6));
    assert_eq!((nodes[1].child_start, nodes[1].child_end), (2, 3));
    assert_eq!((nodes[3].child_start, nodes[3].child_end), (4, 6));
    assert!(t.is_ordered());
    let mut sorted = t.get_indices().to_vec();
    sorted.sort();
    assert_eq!(sorted, (0..8).collect::<Vec<usize>>());
}

#[test]
fn sampling_takes_every_step_th_position() {
    assert_eq!(sample_indices(10, Some(3)), vec![0, 3, 6]);
    assert_eq!(sample_indices(10, Some(4)), vec![0, 2, 4, 6]);
    assert_eq!(sample_indices(4, Some(9)), vec![0, 1, 2, 3]);
    assert_eq!(sample_indices(3, None), vec![0, 1, 2]);
    assert_eq!(sample_indices(0, Some(0)), Vec::<usize>::new());
}
