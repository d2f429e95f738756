use species_tree_sampler::flat_tree::{FlatNode, FlatTree};
use species_tree_sampler::node::Node;
use species_tree_sampler::pruning::{
    change_tree, find_all_leaves, find_deepest_nodes, find_root, leaves_to_be_removed,
    prune_to_deepest, remove_all_unsampled, EmptySampleError, InvariantViolation,
};

fn leaf(n: &str, length: u64) -> Node {
    Node {
        name: n.as_bytes().to_vec(),
        branch_length: length,
        depth: None,
        left: None,
        right: None,
    }
}

fn fork(n: &str, length: u64, left: Node, right: Node) -> Node {
    Node {
        name: n.as_bytes().to_vec(),
        branch_length: length,
        depth: None,
        left: Some(Box::new(left)),
        right: Some(Box::new(right)),
    }
}

/// `((A:2,B:3)ab:1,(C:5,D:6)cd:4)r` with depths; the records are
/// r=0, ab=1, A=2, B=3, cd=4, C=5, D=6.
fn example() -> FlatTree {
    let mut tree = fork(
        "r",
        0,
        fork("ab", 1, leaf("A", 2), leaf("B", 3)),
        fork("cd", 4, leaf("C", 5), leaf("D", 6)),
    );
    tree.assign_depths(0);
    tree.to_flat_tree()
}

fn links(flat: &FlatTree) -> Vec<(Option<usize>, Option<usize>, Option<usize>)> {
    flat.nodes.iter().map(|n| (n.parent, n.left_child, n.right_child)).collect()
}

fn binary(flat: &FlatTree) -> bool {
    flat.nodes.iter().all(|n| n.left_child.is_some() == n.right_child.is_some())
}

#[test]
fn change_tree_puts_the_sibling_in_the_place_of_the_parent() {
    let mut flat = example();
    assert_eq!(change_tree(&mut flat, 2), Ok(()));
    assert_eq!(
        links(&flat),
        vec![
            (None, Some(3), Some(4)),
            (None, Some(2), Some(3)),
            (Some(1), None, None),
            (Some(0), None, None),
            (Some(0), Some(5), Some(6)),
            (Some(4), None, None),
            (Some(4), None, None),
        ]
    );
    assert_eq!(flat.root, 0);
}

#[test]
fn change_tree_of_a_right_child_under_a_right_child() {
    let mut flat = example();
    assert_eq!(change_tree(&mut flat, 6), Ok(()));
    assert_eq!(flat.nodes[0].right_child, Some(5));
    assert_eq!(flat.nodes[0].left_child, Some(1));
    assert_eq!(flat.nodes[5].parent, Some(0));
    assert_eq!(flat.nodes[4].parent, None);
    assert_eq!(flat.nodes[6].parent, Some(4));
}

#[test]
fn change_tree_under_the_root_leaves_the_sibling_without_parent() {
    let mut tree = fork("r", 0, leaf("A", 1), fork("bc", 1, leaf("B", 2), leaf("C", 3)));
    tree.assign_depths(0);
    let mut flat = tree.to_flat_tree();
    assert_eq!(change_tree(&mut flat, 1), Ok(()));
    assert_eq!(flat.nodes[2].parent, None);
    assert_eq!(flat.nodes[0].parent, None);
    assert_eq!(flat.nodes[0].left_child, Some(1));
    assert_eq!(flat.nodes[0].right_child, Some(2));
    assert_eq!(flat.root, 0);
    assert_eq!(find_root(&flat, 3), 2);
}

#[test]
fn change_tree_keeps_names_lengths_and_depths() {
    let before = example();
    let mut flat = example();
    change_tree(&mut flat, 3).unwrap();
    for (a, b) in before.nodes.iter().zip(flat.nodes.iter()) {
        assert_eq!(a.name, b.name);
        assert_eq!(a.branch_length, b.branch_length);
        assert_eq!(a.depth, b.depth);
    }
}

#[test]
fn change_tree_keeps_every_record_with_no_child_or_two() {
    let mut flat = example();
    for leaf in [2, 5, 3] {
        change_tree(&mut flat, leaf).unwrap();
        assert!(binary(&flat));
    }
}

#[test]
fn change_tree_rejects_what_is_no_leaf() {
    let before = example();
    let mut flat = example();
    assert_eq!(change_tree(&mut flat, 1), Err(InvariantViolation));
    assert_eq!(change_tree(&mut flat, 0), Err(InvariantViolation));
    assert_eq!(flat, before);
}

#[test]
fn change_tree_rejects_an_index_that_is_no_record() {
    let before = example();
    let mut flat = example();
    assert_eq!(change_tree(&mut flat, 7), Err(InvariantViolation));
    assert_eq!(flat, before);
}

#[test]
fn change_tree_rejects_a_root_that_is_a_leaf() {
    let mut flat = leaf("A", 1).to_flat_tree();
    assert_eq!(change_tree(&mut flat, 0), Err(InvariantViolation));
}

#[test]
fn change_tree_rejects_a_parent_that_does_not_record_the_leaf() {
    let before = {
        let mut flat = example();
        flat.nodes[1].left_child = Some(5);
        flat
    };
    let mut flat = before.clone();
    assert_eq!(change_tree(&mut flat, 2), Err(InvariantViolation));
    assert_eq!(flat, before);
}

#[test]
fn change_tree_rejects_a_grandparent_that_does_not_record_the_parent() {
    let before = {
        let mut flat = example();
        flat.nodes[0].left_child = Some(6);
        flat
    };
    let mut flat = before.clone();
    assert_eq!(change_tree(&mut flat, 2), Err(InvariantViolation));
    assert_eq!(flat, before);
}

#[test]
fn change_tree_rejects_links_to_records_that_do_not_exist() {
    let mut flat = example();
    flat.nodes[2].parent = Some(70);
    assert_eq!(change_tree(&mut flat, 2), Err(InvariantViolation));
    let mut flat = example();
    flat.nodes[1].parent = Some(70);
    assert_eq!(change_tree(&mut flat, 2), Err(InvariantViolation));
    let mut flat = example();
    flat.nodes[1].right_child = Some(70);
    assert_eq!(change_tree(&mut flat, 2), Err(InvariantViolation));
    let mut flat = example();
    flat.nodes[1].right_child = None;
    assert_eq!(change_tree(&mut flat, 2), Err(InvariantViolation));
}

#[test]
fn change_tree_rejects_a_leaf_that_is_its_own_sibling() {
    let mut flat = example();
    flat.nodes[1].right_child = Some(2);
    assert_eq!(change_tree(&mut flat, 2), Err(InvariantViolation));
}

#[test]
fn remove_all_unsampled_splices_one_after_the_other() {
    let mut flat = example();
    assert_eq!(remove_all_unsampled(&mut flat, &vec![2, 3]), Ok(()));
    // Without A and B, and with them ab and r, cd is the top.
    assert_eq!(flat.nodes[4].parent, None);
    assert_eq!(find_root(&flat, 5), 4);
    assert_eq!(find_root(&flat, 6), 4);
}

#[test]
fn remove_all_unsampled_does_not_depend_on_the_order() {
    let mut one = example();
    let mut other = example();
    remove_all_unsampled(&mut one, &vec![2, 5]).unwrap();
    remove_all_unsampled(&mut other, &vec![5, 2]).unwrap();
    one.root = find_root(&one, 3);
    other.root = find_root(&other, 3);
    assert_eq!(one.to_node(), other.to_node());
}

#[test]
fn remove_all_unsampled_of_nothing_changes_nothing() {
    let mut flat = example();
    assert_eq!(remove_all_unsampled(&mut flat, &vec![]), Ok(()));
    assert_eq!(flat, example());
}

#[test]
fn remove_all_unsampled_stops_at_the_first_splice_that_fails() {
    let mut flat = example();
    assert_eq!(remove_all_unsampled(&mut flat, &vec![2, 1, 5]), Err(InvariantViolation));
    let mut expected = example();
    change_tree(&mut expected, 2).unwrap();
    assert_eq!(flat, expected);
}

#[test]
fn remove_all_unsampled_fails_on_the_last_leaf() {
    let mut flat = example();
    assert_eq!(remove_all_unsampled(&mut flat, &vec![2, 3, 5, 6]), Err(InvariantViolation));
}

#[test]
fn find_all_leaves_gives_the_leaves_from_left_to_right() {
    assert_eq!(find_all_leaves(&example()), vec![2, 3, 5, 6]);
    assert_eq!(find_all_leaves(&leaf("A", 1).to_flat_tree()), vec![0]);
}

#[test]
fn find_all_leaves_skips_what_was_cut_off() {
    let mut flat = example();
    change_tree(&mut flat, 2).unwrap();
    assert_eq!(find_all_leaves(&flat), vec![3, 5, 6]);
}

#[test]
fn find_deepest_nodes_gives_the_deepest_first() {
    // Depths: A=3, B=4, C=9, D=10.
    let flat = example();
    assert_eq!(find_deepest_nodes(&flat, 1), vec![6]);
    assert_eq!(find_deepest_nodes(&flat, 2), vec![6, 5]);
    assert_eq!(find_deepest_nodes(&flat, 3), vec![6, 5, 3]);
    assert_eq!(find_deepest_nodes(&flat, 4), vec![6, 5, 3, 2]);
}

#[test]
fn find_deepest_nodes_gives_all_leaves_where_more_are_asked_for() {
    assert_eq!(find_deepest_nodes(&example(), 9), vec![6, 5, 3, 2]);
}

#[test]
fn find_deepest_nodes_gives_nothing_where_nothing_is_asked_for() {
    assert_eq!(find_deepest_nodes(&example(), 0), Vec::<usize>::new());
}

#[test]
fn find_deepest_nodes_keeps_leaves_of_one_depth_in_their_order() {
    let mut tree = fork(
        "",
        0,
        fork("", 1, leaf("A", 2), leaf("B", 1)),
        fork("", 1, leaf("C", 2), leaf("D", 1)),
    );
    tree.assign_depths(0);
    let flat = tree.to_flat_tree();
    // A and C are at depth 3, B and D at depth 2.
    assert_eq!(find_deepest_nodes(&flat, 4), vec![2, 5, 3, 6]);
    assert_eq!(find_deepest_nodes(&flat, 3), vec![2, 5, 3]);
    assert_eq!(find_deepest_nodes(&flat, 1), vec![2]);
}

#[test]
fn leaves_to_be_removed_are_the_leaves_that_were_not_sampled() {
    assert_eq!(leaves_to_be_removed(&vec![2, 3, 5, 6], &vec![6, 3]), vec![2, 5]);
    assert_eq!(leaves_to_be_removed(&vec![2, 3, 5, 6], &vec![]), vec![2, 3, 5, 6]);
    assert_eq!(leaves_to_be_removed(&vec![2, 3, 5, 6], &vec![6, 5, 3, 2]), Vec::<usize>::new());
    assert_eq!(leaves_to_be_removed(&vec![], &vec![1]), Vec::<usize>::new());
    assert_eq!(leaves_to_be_removed(&vec![4, 1, 4], &vec![9, 1]), vec![4, 4]);
}

#[test]
fn find_root_follows_the_parents() {
    let flat = example();
    for i in 0..7 {
        assert_eq!(find_root(&flat, i), 0);
    }
}

#[test]
fn find_root_of_what_was_cut_off_is_the_cut_off_parent() {
    let mut flat = example();
    change_tree(&mut flat, 2).unwrap();
    assert_eq!(find_root(&flat, 2), 1);
    assert_eq!(find_root(&flat, 1), 1);
    assert_eq!(find_root(&flat, 3), 0);
}

#[test]
fn prune_keeps_the_deepest_leaves() {
    let mut flat = example();
    let (sampled, removed) = prune_to_deepest(&mut flat, 2).unwrap();
    assert_eq!(sampled, vec![6, 5]);
    assert_eq!(removed, vec![2, 3]);
    assert_eq!(flat.root, 4);
    assert_eq!(find_all_leaves(&flat), vec![5, 6]);
}

#[test]
fn prune_to_three_leaves() {
    let mut flat = example();
    let (sampled, removed) = prune_to_deepest(&mut flat, 3).unwrap();
    assert_eq!(sampled, vec![6, 5, 3]);
    assert_eq!(removed, vec![2]);
    assert_eq!(flat.root, 0);
    assert_eq!(find_all_leaves(&flat), vec![3, 5, 6]);
    assert!(binary(&flat));
    let tree = flat.to_node();
    assert_eq!(tree.left.as_ref().unwrap().name, b"B".to_vec());
    assert_eq!(tree.right.as_ref().unwrap().name, b"cd".to_vec());
}

#[test]
fn prune_to_all_leaves_changes_nothing() {
    for n in [4, 5, 100] {
        let mut flat = example();
        let (sampled, removed) = prune_to_deepest(&mut flat, n).unwrap();
        assert_eq!(sampled, vec![6, 5, 3, 2]);
        assert_eq!(removed, Vec::<usize>::new());
        assert_eq!(flat, example());
    }
}

#[test]
fn prune_to_no_leaf_is_rejected() {
    let mut flat = example();
    assert_eq!(prune_to_deepest(&mut flat, 0), Err(EmptySampleError));
    assert_eq!(flat, example());
}

#[test]
fn prune_to_one_leaf_leaves_that_leaf_as_root() {
    let mut flat = example();
    let (sampled, removed) = prune_to_deepest(&mut flat, 1).unwrap();
    assert_eq!(sampled, vec![6]);
    assert_eq!(removed, vec![2, 3, 5]);
    assert_eq!(flat.root, 6);
    assert_eq!(flat.to_node().name, b"D".to_vec());
    assert!(flat.to_node().is_leaf());
}

#[test]
fn pruned_records_are_not_collected() {
    let mut flat = example();
    prune_to_deepest(&mut flat, 2).unwrap();
    assert_eq!(flat.nodes.len(), 7);
    let names: Vec<Vec<u8>> = flat.nodes.iter().map(|n: &FlatNode| n.name.clone()).collect();
    let before: Vec<Vec<u8>> = example().nodes.iter().map(|n| n.name.clone()).collect();
    assert_eq!(names, before);
}

#[test]
fn a_flat_tree_of_a_tree_is_a_tree() {
    assert!(species_tree_sampler::pruning::is_tree(&example()));
}

#[test]
fn a_pruned_tree_is_a_tree_and_stays_well_formed() {
    for n in 1..=4 {
        let mut flat = example();
        prune_to_deepest(&mut flat, n).unwrap();
        assert!(flat.is_well_formed());
        assert!(species_tree_sampler::pruning::is_tree(&flat));
    }
}

#[test]
fn a_tree_with_a_stale_root_is_no_tree() {
    let mut flat = example();
    change_tree(&mut flat, 2).unwrap();
    change_tree(&mut flat, 3).unwrap();
    // The root was cut off: its right child has no parent now.
    assert!(flat.is_well_formed());
    assert!(!species_tree_sampler::pruning::is_tree(&flat));
    flat.root = find_root(&flat, 5);
    assert!(species_tree_sampler::pruning::is_tree(&flat));
}

#[test]
fn a_root_with_a_parent_is_no_tree() {
    let mut flat = example();
    flat.root = 4;
    assert!(!species_tree_sampler::pruning::is_tree(&flat));
}

#[test]
fn a_child_with_another_parent_is_no_tree() {
    let mut flat = example();
    // C is recorded under cd and under ab, and names ab as its parent.
    flat.nodes[1].right_child = Some(5);
    flat.nodes[5].parent = Some(1);
    flat.nodes[3].parent = None;
    assert!(flat.is_well_formed());
    assert!(!species_tree_sampler::pruning::is_tree(&flat));
}

#[test]
fn find_deepest_nodes_orders_many_leaves() {
    // A comb: L0 hangs highest, L9 deepest, and every leaf has length 1.
    let mut tree = leaf("L9", 1);
    for i in (0..9).rev() {
        tree = fork("", 1, leaf(&format!("L{}", i), 1), tree);
    }
    tree.assign_depths(0);
    let flat = tree.to_flat_tree();
    let deepest = find_deepest_nodes(&flat, 10);
    let names: Vec<String> =
        deepest.iter().map(|i| String::from_utf8(flat.nodes[*i].name.clone()).unwrap()).collect();
    assert_eq!(names, vec!["L8", "L9", "L7", "L6", "L5", "L4", "L3", "L2", "L1", "L0"]);
}

#[test]
fn pruning_keeps_the_depths_in_order() {
    for n in 1..=4 {
        let mut flat = example();
        assert!(flat.depths_in_order());
        prune_to_deepest(&mut flat, n).unwrap();
        assert!(flat.depths_in_order());
        let tree = flat.to_node();
        assert!(tree.depths_in_order(tree.depth.unwrap()));
    }
}

#[test]
fn find_deepest_nodes_agrees_with_a_stable_sort() {
    // A comb of 200 leaves whose lengths repeat, so that many depths are equal.
    let mut seed: u64 = 12345;
    let mut next = || {
        seed = seed.wrapping_mul(6364136223846793005).wrapping_add(1442695040888963407);
        (seed >> 33) % 4
    };
    let mut tree = leaf("last", next());
    for i in 0..199 {
        tree = fork("", next() % 2, leaf(&format!("L{}", i), next()), tree);
    }
    tree.assign_depths(0);
    let flat = tree.to_flat_tree();
    let mut expected = find_all_leaves(&flat);
    expected.sort_by(|a, b| flat.nodes[*b].depth.cmp(&flat.nodes[*a].depth));
    assert_eq!(find_deepest_nodes(&flat, 200), expected);
    assert_eq!(find_deepest_nodes(&flat, 57), expected[..57].to_vec());
    let mut pruned = flat.clone();
    let (sampled, removed) = prune_to_deepest(&mut pruned, 57).unwrap();
    assert_eq!(sampled, expected[..57].to_vec());
    assert_eq!(sampled.len() + removed.len(), 200);
    let mut left = find_all_leaves(&pruned);
    assert_eq!(left.len(), 57);
    left.sort();
    let mut kept = sampled.clone();
    kept.sort();
    assert_eq!(left, kept);
    assert!(species_tree_sampler::pruning::is_tree(&pruned));
}
