use species_tree_sampler::node::Node;

const ONE: u64 = 1_000_000_000;

fn leaf(n: &str, length: u64) -> Node {
    Node {
        name: n.as_bytes().to_vec(),
        branch_length: length,
        depth: None,
        left: None,
        right: None,
    }
}

fn fork(n: &str, length: u64, left: Node, right: Node) -> Node {
    Node {
        name: n.as_bytes().to_vec(),
        branch_length: length,
        depth: None,
        left: Some(Box::new(left)),
        right: Some(Box::new(right)),
    }
}

fn example() -> Node {
    fork("", 5 * ONE, leaf("A", ONE), fork("", ONE, leaf("B", 2 * ONE), leaf("C", 3 * ONE)))
}

fn lengths(node: &Node, out: &mut Vec<u64>) {
    out.push(node.branch_length);
    if let Some(l) = &node.left {
        lengths(l, out);
    }
    if let Some(r) = &node.right {
        lengths(r, out);
    }
}

fn depths(node: &Node, out: &mut Vec<Option<u64>>) {
    out.push(node.depth);
    if let Some(l) = &node.left {
        depths(l, out);
    }
    if let Some(r) = &node.right {
        depths(r, out);
    }
}

#[test]
fn a_node_without_children_is_a_leaf() {
    assert!(leaf("A", 0).is_leaf());
    assert!(!example().is_leaf());
}

#[test]
fn zero_root_length_changes_the_root_only() {
    let mut tree = example();
    tree.zero_root_length();
    let mut all = Vec::new();
    lengths(&tree, &mut all);
    assert_eq!(all, vec![0, ONE, ONE, 2 * ONE, 3 * ONE]);
}

#[test]
fn assign_depths_adds_the_lengths_along_each_path() {
    let mut tree = example();
    tree.zero_root_length();
    tree.assign_depths(0);
    let mut all = Vec::new();
    depths(&tree, &mut all);
    assert_eq!(all, vec![Some(0), Some(ONE), Some(ONE), Some(3 * ONE), Some(4 * ONE)]);
}

#[test]
fn assign_depths_starts_at_the_depth_given_and_skips_the_length_of_the_root() {
    let mut tree = example();
    tree.assign_depths(10 * ONE);
    let mut all = Vec::new();
    depths(&tree, &mut all);
    assert_eq!(
        all,
        vec![Some(10 * ONE), Some(11 * ONE), Some(11 * ONE), Some(13 * ONE), Some(14 * ONE)]
    );
    assert_eq!(tree.branch_length, 5 * ONE);
}

#[test]
fn depths_fit_says_whether_every_depth_can_be_recorded() {
    let tree = fork("", 0, leaf("A", u64::MAX), fork("", u64::MAX - 1, leaf("B", 1), leaf("C", 0)));
    assert!(tree.depths_fit(0));
    let tree = fork("", 0, leaf("A", 1), fork("", u64::MAX - 1, leaf("B", 2), leaf("C", 0)));
    assert!(!tree.depths_fit(0));
    let tree = fork("", 0, leaf("A", 1), leaf("B", 0));
    assert!(!tree.depths_fit(u64::MAX));
    assert!(tree.depths_fit(u64::MAX - 1));
    assert!(leaf("A", 7).depths_fit(u64::MAX));
}

#[test]
fn depths_to_lengths_takes_the_depth_of_the_parent_from_the_depth_of_the_child() {
    let mut tree = example();
    tree.assign_depths(0);
    // Stale lengths, as after a change of the tree.
    tree.left.as_mut().unwrap().branch_length = 99;
    tree.right.as_mut().unwrap().branch_length = 99;
    tree.depths_to_lengths(0);
    let mut all = Vec::new();
    lengths(&tree, &mut all);
    assert_eq!(all, vec![0, ONE, ONE, 2 * ONE, 3 * ONE]);
}

#[test]
fn depths_to_lengths_measures_the_root_from_the_depth_given() {
    let mut tree = example();
    tree.assign_depths(7 * ONE);
    tree.depths_to_lengths(3 * ONE);
    assert_eq!(tree.branch_length, 4 * ONE);
    tree.depths_to_lengths(7 * ONE);
    assert_eq!(tree.branch_length, 0);
}

#[test]
fn lengths_come_back_from_depths() {
    let mut tree = fork(
        "",
        0,
        fork("", 123, leaf("A", 456_000_000_789), leaf("B", 0)),
        fork("", 1, leaf("C", u64::MAX / 4), leaf("D", 17)),
    );
    let mut before = Vec::new();
    lengths(&tree, &mut before);
    tree.assign_depths(0);
    tree.depths_to_lengths(0);
    let mut after = Vec::new();
    lengths(&tree, &mut after);
    assert_eq!(after, before);
}

#[test]
fn depths_stay_when_lengths_are_set() {
    let mut tree = example();
    tree.assign_depths(0);
    let mut before = Vec::new();
    depths(&tree, &mut before);
    tree.depths_to_lengths(0);
    let mut after = Vec::new();
    depths(&tree, &mut after);
    assert_eq!(after, before);
}

#[test]
fn depths_of_the_tree_with_three_leaves() {
    // (A:1,(B:2,C:3):1)
    let mut tree =
        fork("", 0, leaf("A", ONE), fork("", ONE, leaf("B", 2 * ONE), leaf("C", 3 * ONE)));
    tree.zero_root_length();
    tree.assign_depths(0);
    let a = tree.left.as_ref().unwrap();
    let inner = tree.right.as_ref().unwrap();
    assert_eq!(a.depth, Some(ONE));
    assert_eq!(inner.left.as_ref().unwrap().depth, Some(3 * ONE));
    assert_eq!(inner.right.as_ref().unwrap().depth, Some(4 * ONE));
}

#[test]
fn depths_are_in_order_once_they_are_assigned() {
    let mut tree = example();
    assert!(!tree.depths_in_order(0));
    tree.assign_depths(5);
    assert!(tree.depths_in_order(5));
    assert!(tree.depths_in_order(0));
    assert!(!tree.depths_in_order(6));
}

#[test]
fn depths_are_not_in_order_where_a_child_is_less_deep() {
    let mut tree = example();
    tree.assign_depths(ONE);
    tree.left.as_mut().unwrap().depth = Some(0);
    assert!(!tree.depths_in_order(0));
    tree.left.as_mut().unwrap().depth = None;
    assert!(!tree.depths_in_order(0));
}
