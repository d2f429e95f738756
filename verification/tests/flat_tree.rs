use species_tree_sampler::flat_tree::{FlatNode, FlatTree, TraversalOrder};
use species_tree_sampler::node::Node;

fn leaf(n: &str, length: u64) -> Node {
    Node {
        name: n.as_bytes().to_vec(),
        branch_length: length,
        depth: None,
        left: None,
        right: None,
    }
}

fn fork(n: &str, length: u64, left: Node, right: Node) -> Node {
    Node {
        name: n.as_bytes().to_vec(),
        branch_length: length,
        depth: None,
        left: Some(Box::new(left)),
        right: Some(Box::new(right)),
    }
}

fn example() -> Node {
    // ((A,B)ab,(C,D)cd)r
    fork(
        "r",
        0,
        fork("ab", 1, leaf("A", 2), leaf("B", 3)),
        fork("cd", 4, leaf("C", 5), leaf("D", 6)),
    )
}

fn record(
    n: &str,
    length: u64,
    parent: Option<usize>,
    children: Option<(usize, usize)>,
) -> FlatNode {
    FlatNode {
        name: n.as_bytes().to_vec(),
        branch_length: length,
        depth: None,
        parent,
        left_child: children.map(|c| c.0),
        right_child: children.map(|c| c.1),
    }
}

#[test]
fn flat_tree_holds_the_nodes_in_pre_order() {
    let flat = example().to_flat_tree();
    assert_eq!(flat.root, 0);
    assert_eq!(
        flat.nodes,
        vec![
            record("r", 0, None, Some((1, 4))),
            record("ab", 1, Some(0), Some((2, 3))),
            record("A", 2, Some(1), None),
            record("B", 3, Some(1), None),
            record("cd", 4, Some(0), Some((5, 6))),
            record("C", 5, Some(4), None),
            record("D", 6, Some(4), None),
        ]
    );
}

#[test]
fn flat_tree_of_a_leaf_is_one_record() {
    let flat = leaf("A", 7).to_flat_tree();
    assert_eq!(flat, FlatTree { nodes: vec![record("A", 7, None, None)], root: 0 });
}

#[test]
fn flat_tree_keeps_the_depths() {
    let mut tree = example();
    tree.assign_depths(0);
    let flat = tree.to_flat_tree();
    let depths: Vec<Option<u64>> = flat.nodes.iter().map(|n| n.depth).collect();
    assert_eq!(depths, vec![Some(0), Some(1), Some(3), Some(4), Some(4), Some(9), Some(10)]);
}

#[test]
fn to_node_gives_the_tree_back() {
    let mut tree = example();
    assert_eq!(tree.to_flat_tree().to_node(), tree);
    tree.assign_depths(0);
    assert_eq!(tree.to_flat_tree().to_node(), tree);
    assert_eq!(leaf("A", 1).to_flat_tree().to_node(), leaf("A", 1));
}

#[test]
fn to_node_starts_at_the_root_and_leaves_out_what_it_cannot_reach() {
    let mut flat = example().to_flat_tree();
    flat.root = 4;
    assert_eq!(flat.to_node(), fork("cd", 4, leaf("C", 5), leaf("D", 6)));
    flat.root = 2;
    assert_eq!(flat.to_node(), leaf("A", 2));
}

#[test]
fn a_record_without_children_is_a_leaf() {
    let flat = example().to_flat_tree();
    let leaves: Vec<bool> = flat.nodes.iter().map(|n| n.is_leaf()).collect();
    assert_eq!(leaves, vec![false, false, true, true, false, true, true]);
}

#[test]
fn iter_visits_in_pre_order() {
    let flat = example().to_flat_tree();
    assert_eq!(flat.iter(TraversalOrder::PreOrder), vec![0, 1, 2, 3, 4, 5, 6]);
}

#[test]
fn iter_visits_in_order() {
    let flat = example().to_flat_tree();
    assert_eq!(flat.iter(TraversalOrder::InOrder), vec![2, 1, 3, 0, 5, 4, 6]);
}

#[test]
fn iter_visits_in_post_order() {
    let flat = example().to_flat_tree();
    assert_eq!(flat.iter(TraversalOrder::PostOrder), vec![2, 3, 1, 5, 6, 4, 0]);
}

#[test]
fn iter_gives_the_same_again() {
    let flat = example().to_flat_tree();
    assert_eq!(flat.iter(TraversalOrder::PreOrder), flat.iter(TraversalOrder::PreOrder));
}

#[test]
fn iter_starts_at_the_root() {
    let mut flat = example().to_flat_tree();
    flat.root = 4;
    assert_eq!(flat.iter(TraversalOrder::PreOrder), vec![4, 5, 6]);
}

#[test]
fn a_flat_tree_of_a_tree_is_well_formed() {
    assert!(example().to_flat_tree().is_well_formed());
    assert!(leaf("A", 1).to_flat_tree().is_well_formed());
}

#[test]
fn a_flat_tree_without_records_is_not_well_formed() {
    assert!(!FlatTree { nodes: vec![], root: 0 }.is_well_formed());
}

#[test]
fn a_root_that_is_no_record_is_not_well_formed() {
    let mut flat = example().to_flat_tree();
    flat.root = 7;
    assert!(!flat.is_well_formed());
    flat.root = 6;
    assert!(flat.is_well_formed());
}

#[test]
fn a_record_with_one_child_is_not_well_formed() {
    let mut flat = example().to_flat_tree();
    flat.nodes[4].right_child = None;
    assert!(!flat.is_well_formed());
}

#[test]
fn a_child_before_its_parent_is_not_well_formed() {
    let flat = FlatTree {
        nodes: vec![
            record("A", 1, Some(1), None),
            record("r", 0, None, Some((0, 2))),
            record("B", 1, Some(1), None),
        ],
        root: 1,
    };
    assert!(!flat.is_well_formed());
}

#[test]
fn a_child_that_is_no_record_is_not_well_formed() {
    let mut flat = example().to_flat_tree();
    flat.nodes[4].right_child = Some(7);
    assert!(!flat.is_well_formed());
}

#[test]
fn the_same_child_twice_is_not_well_formed() {
    let mut flat = example().to_flat_tree();
    flat.nodes[4].right_child = Some(5);
    assert!(!flat.is_well_formed());
}

#[test]
fn a_parent_that_does_not_record_the_child_is_not_well_formed() {
    let mut flat = example().to_flat_tree();
    flat.nodes[5].parent = Some(1);
    assert!(!flat.is_well_formed());
    let mut flat = example().to_flat_tree();
    flat.nodes[5].parent = Some(9);
    assert!(!flat.is_well_formed());
}

#[test]
fn depths_of_records_are_in_order_once_they_are_assigned() {
    let mut tree = example();
    assert!(!tree.to_flat_tree().depths_in_order());
    tree.assign_depths(0);
    assert!(tree.to_flat_tree().depths_in_order());
}

#[test]
fn depths_of_records_are_not_in_order_where_a_child_is_less_deep() {
    let mut tree = example();
    tree.assign_depths(0);
    let mut flat = tree.to_flat_tree();
    flat.nodes[5].depth = Some(3);
    assert!(!flat.depths_in_order());
    flat.nodes[5].depth = Some(4);
    assert!(flat.depths_in_order());
    flat.nodes[0].depth = None;
    assert!(!flat.depths_in_order());
}
