use rustsptag::index::bktree::{BKTNode, BKTree};
use rustsptag::index::graph::NeighborhoodGraph;
use rustsptag::index::rng::{GraphLoadError, RNGGraph};
use rustsptag::index::sptag::IndexType;
use rustsptag::index::sptag_bkt::{load_index, save_index, IndexLoadError};
use rustsptag::index::tptree::{partition_by_side, TPBuild, TPTree};
use rustsptag::index::bktree_recursive::BKTreeBuilder;

#[test]
fn knn_graph_candidates_are_neighbours_and_their_neighbours() {
    let mut g = NeighborhoodGraph::new(2);
    assert_eq!(g.k(), 2);
    assert_eq!(g.len(), 0);
    g.reset(4);
    g.set_neighbors(0, vec![1, 2]);
    g.set_neighbors(1, vec![0, 3]);
    g.set_neighbors(2, vec![3]);
    assert_eq!(g.get_neighbors(1), &[0, 3]);
    assert_eq!(g.get_neighbors(3), &[] as &[usize]);
    assert_eq!(g.refine_candidates(0), vec![1, 3, 2]);
    assert_eq!(g.refine_candidates(3), Vec::<usize>::new());
    assert_eq!(g.refine_candidates(1), vec![0, 2, 3]);
}

#[test]
fn rng_graph_save_then_load_gives_back_graph() {
    let mut g = RNGGraph::new(4, 1.2f32.to_bits(), 64);
    g.set_all_neighbors(vec![vec![1, 2], vec![], vec![0, 1, 2, 3], vec![5]]);
    g.set_neighbors(1, vec![3]);
    let bytes = g.save();
    assert_eq!(bytes.len(), 4 * (4 + 3 + 2 + 5 + 2));
    let (h, used) = RNGGraph::load(&bytes).unwrap();
    assert_eq!(used, bytes.len());
    assert_eq!(h.len(), 4);
    assert_eq!(h.get_neighbors(0), &[1, 2]);
    assert_eq!(h.get_neighbors(1), &[3]);
    assert_eq!(h.get_neighbors(2), &[0, 1, 2, 3]);
    assert_eq!((h.max_degree(), h.cef()), (4, 64));
    assert_eq!(f32::from_bits(h.rng_factor_bits()), 1.2);
    assert_eq!(RNGGraph::load(&bytes[..bytes.len() - 4]).err(), Some(GraphLoadError::Truncated));
    assert_eq!(RNGGraph::load(&bytes[..15]).err(), Some(GraphLoadError::Truncated));
}

fn small_index() -> (BKTreeBuilder, RNGGraph, Vec<Vec<u32>>) {
    let mut tree = BKTreeBuilder::new(2, 8, 100);
    tree.reset(3);
    let root = tree.open_node(0, 3);
    tree.close_leaf(root, 0, 3);
    let mut graph = RNGGraph::new(2, 1.0f32.to_bits(), 8);
    graph.set_all_neighbors(vec![vec![1], vec![0, 2], vec![1]]);
    let vectors = vec![
        vec![1.0f32.to_bits(), 2.0f32.to_bits()],
        vec![3.0f32.to_bits(), 4.0f32.to_bits()],
        vec![5.0f32.to_bits(), 6.0f32.to_bits()],
    ];
    (tree, graph, vectors)
}

#[test]
fn index_file_save_then_load_gives_back_parts() {
    let (tree, graph, vectors) = small_index();
    let bytes = save_index(&tree, &graph, &vectors, 32);
    let f = load_index(&bytes).unwrap();
    assert_eq!(f.tree.nodes(), tree.nodes());
    assert_eq!(f.tree.leaves(), &[(0, 3)]);
    assert_eq!(f.graph.get_neighbors(1), &[0, 2]);
    assert_eq!(f.vectors, vectors);
    assert_eq!(f.num_tpt_trees, 32);
}

#[test]
fn index_file_without_vectors_round_trips() {
    let (tree, graph, _) = small_index();
    let bytes = save_index(&tree, &graph, &vec![], 5);
    let f = load_index(&bytes).unwrap();
    assert!(f.vectors.is_empty());
    assert_eq!(f.num_tpt_trees, 5);
}

#[test]
fn index_file_errors_name_the_cut_part() {
    let (tree, graph, vectors) = small_index();
    let bytes = save_index(&tree, &graph, &vectors, 32);
    let tree_len = tree.save().len();
    let graph_len = graph.save().len();
    assert_eq!(load_index(&bytes[..tree_len - 1]).err(), Some(IndexLoadError::Tree));
    assert_eq!(load_index(&bytes[..tree_len + graph_len - 1]).err(), Some(IndexLoadError::Graph));
    assert_eq!(load_index(&bytes[..bytes.len() - 4]).err(), Some(IndexLoadError::Vectors));
    assert_eq!(load_index(&bytes[..tree_len + graph_len]).err(), Some(IndexLoadError::Vectors));
}

#[test]
fn tp_split_moves_below_ids_to_the_front() {
    let mut ids: Vec<usize> = (0..6).collect();
    let below = [true, false, true, false, true, false];
    let p = partition_by_side(&mut ids, 0, 6, &below);
    assert_eq!(p, 3);
    assert_eq!(ids, vec![0, 4, 2, 3, 5, 1]);
    let mut part: Vec<usize> = vec![9, 1, 0, 2, 9];
    let q = partition_by_side(&mut part, 1, 4, &[false, false, false]);
    assert_eq!(q, 1);
    assert_eq!(part[0], 9);
    assert_eq!(part[4], 9);
}

#[test]
fn tp_tree_parameters() {
    let t = TPTree::new(2000, 1000, 5);
    assert_eq!((t.leaf_size(), t.samples(), t.top_dims()), (2000, 1000, 5));
    assert!(t.is_leaf_size(2000));
    assert!(!t.is_leaf_size(2001));
}

#[test]
fn ball_tree_walk_visits_node_then_children() {
    let mut t = BKTree::new(1, 2, 100);
    assert_eq!((t.num_trees(), t.k_means(), t.samples()), (1, 2, 100));
    t.push_node(BKTNode { center_id: 10, child_start: -1, child_end: -1 });
    t.push_node(BKTNode { center_id: 11, child_start: -1, child_end: -1 });
    t.push_node(BKTNode { center_id: 12, child_start: -1, child_end: -1 });
    t.push_node(BKTNode { center_id: 13, child_start: -1, child_end: -1 });
    t.set_children(0, 1, 3);
    t.set_children(2, 3, 4);
    assert_eq!(t.walk_centers(0), vec![10, 11, 12, 13]);
    assert_eq!(t.walk_centers(2), vec![12, 13]);
    assert_eq!(t.walk_centers(7), Vec::<usize>::new());
    t.clear();
    assert!(t.nodes().is_empty());
}

#[test]
fn index_types_differ() {
    assert_ne!(IndexType::KDT, IndexType::BKT);
}

#[test]
fn tp_build_leaves_tile_the_ids() {
    let tree = TPTree::new(2, 10, 1);
    let mut ids: Vec<usize> = (0..6).collect();
    let mut b = TPBuild::new(6);
    assert_eq!(b.pending(), Some((0, 6)));
    assert!(!b.settle_small(&tree));
    assert_eq!(b.split(&mut ids, &[true, true, false, true, false, false]), 2);
    assert_eq!(ids, vec![0, 1, 3, 4, 5, 2]);
    assert_eq!(b.pending(), Some((0, 2)));
    assert!(b.settle_small(&tree));
    assert_eq!(b.pending(), Some((2, 6)));
    assert!(!b.settle_small(&tree));
    // nothing falls below: the range becomes a leaf
    assert_eq!(b.split(&mut ids, &[false; 6]), 2);
    assert_eq!(b.pending(), None);
    assert_eq!(b.leaves(), &[(0, 2), (2, 6)]);
    let mut sorted = ids.clone();
    sorted.sort();
    assert_eq!(sorted, (0..6).collect::<Vec<usize>>());
}
