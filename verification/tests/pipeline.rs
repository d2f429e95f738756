use species_tree_sampler::newick::{GrammarError, StructureError};
use species_tree_sampler::pipeline::{species_tree_sample_to_string, SampleError};

fn names(list: &[&str]) -> Vec<Vec<u8>> {
    list.iter().map(|n| n.as_bytes().to_vec()).collect()
}

fn sample(text: &str, n: usize) -> (String, Vec<Vec<u8>>, Vec<Vec<u8>>) {
    let (newick, sampled, removed) = species_tree_sample_to_string(text.as_bytes(), n).unwrap();
    (String::from_utf8(newick).unwrap(), sampled, removed)
}

#[test]
fn samples_the_two_deepest_leaves() {
    let (newick, sampled, removed) = sample("(A:1,(B:2,C:3):1);", 2);
    assert_eq!(newick, "(B:2,C:3);");
    assert_eq!(sampled, names(&["C", "B"]));
    assert_eq!(removed, names(&["A"]));
}

#[test]
fn rejects_a_sample_of_no_leaf() {
    let r = species_tree_sample_to_string(b"(A:1,(B:2,C:3):1);", 0);
    assert_eq!(r, Err(SampleError::EmptySample));
}

#[test]
fn keeps_the_whole_tree_when_all_leaves_are_asked_for() {
    let (newick, sampled, removed) = sample("(A:1,(B:2,C:3):1);", 3);
    assert_eq!(newick, "(A:1,(B:2,C:3):1);");
    assert_eq!(sampled, names(&["C", "B", "A"]));
    assert_eq!(removed, names(&[]));
}

#[test]
fn keeps_the_whole_tree_when_more_leaves_are_asked_for_than_exist() {
    let (newick, sampled, removed) = sample("(A:1,(B:2,C:3):1);", 10);
    assert_eq!(newick, "(A:1,(B:2,C:3):1);");
    assert_eq!(sampled, names(&["C", "B", "A"]));
    assert_eq!(removed, names(&[]));
}

#[test]
fn drops_the_length_that_is_written_behind_the_root() {
    let (newick, _, _) = sample("(A:1,(B:2,C:3):1)root:5;", 3);
    assert_eq!(newick, "(A:1,(B:2,C:3):1)root;");
}

#[test]
fn keeps_a_single_leaf() {
    let (newick, sampled, removed) = sample("(A:1,(B:2,C:3):1);", 1);
    assert_eq!(newick, "C;");
    assert_eq!(sampled, names(&["C"]));
    assert_eq!(removed, names(&["A", "B"]));
}

#[test]
fn joins_the_lengths_of_a_branch_whose_sibling_is_removed() {
    // Depths: A=2, B=3, C=5, D=6. Without A, B hangs on the root at depth 3.
    let (newick, sampled, removed) = sample("((A:1,B:2):1,(C:3,D:4):2);", 3);
    assert_eq!(newick, "(B:3,(C:3,D:4):2);");
    assert_eq!(sampled, names(&["D", "C", "B"]));
    assert_eq!(removed, names(&["A"]));
}

#[test]
fn moves_the_root_down_when_a_whole_side_is_removed() {
    let (newick, sampled, removed) = sample("((A:1,B:2):1,(C:3,D:4):2);", 2);
    assert_eq!(newick, "(C:3,D:4);");
    assert_eq!(sampled, names(&["D", "C"]));
    assert_eq!(removed, names(&["A", "B"]));
}

#[test]
fn keeps_inner_names() {
    let (newick, _, _) = sample("((A:1,B:2)ab:1,(C:3,D:4)cd:2)r;", 2);
    assert_eq!(newick, "(C:3,D:4)cd;");
}

#[test]
fn breaks_ties_from_left_to_right() {
    let (newick, sampled, removed) = sample("(A:1,B:1);", 1);
    assert_eq!(newick, "A;");
    assert_eq!(sampled, names(&["A"]));
    assert_eq!(removed, names(&["B"]));
}

#[test]
fn breaks_ties_among_four_leaves_of_one_depth() {
    let (newick, sampled, removed) = sample("((A:1,B:1):1,(C:1,D:1):1);", 3);
    assert_eq!(newick, "((A:1,B:1):1,C:2);");
    assert_eq!(sampled, names(&["A", "B", "C"]));
    assert_eq!(removed, names(&["D"]));
}

#[test]
fn keeps_decimal_places() {
    let (newick, sampled, _) = sample("(A:0.5,(B:0.25,C:0.125):1.5);", 2);
    assert_eq!(newick, "(B:0.25,C:0.125);");
    assert_eq!(sampled, names(&["B", "C"]));
}

#[test]
fn adds_decimal_places_exactly() {
    // B hangs at 0.1 + 0.2 under the root once A is gone and C with it.
    let (newick, _, _) = sample("(A:0.3,((B:0.2,C:0.1):0.1,D:0.4):0.1);", 3);
    assert_eq!(newick, "(A:0.3,(B:0.3,D:0.4):0.1);");
}

#[test]
fn writes_lengths_that_were_read_with_exponents_without_them() {
    let (newick, sampled, _) = sample("(A:1e-3,(B:2.5E-1,C:1e0):5e-1);", 3);
    assert_eq!(newick, "(A:0.001,(B:0.25,C:1):0.5);");
    assert_eq!(sampled, names(&["C", "B", "A"]));
}

#[test]
fn takes_leaves_without_lengths_as_of_length_zero() {
    let (newick, sampled, removed) = sample("(A,B);", 2);
    assert_eq!(newick, "(A:0,B:0);");
    assert_eq!(sampled, names(&["A", "B"]));
    assert_eq!(removed, names(&[]));
}

#[test]
fn samples_a_tree_of_one_leaf() {
    let (newick, sampled, removed) = sample("A:3;", 1);
    assert_eq!(newick, "A;");
    assert_eq!(sampled, names(&["A"]));
    assert_eq!(removed, names(&[]));
}

#[test]
fn reports_where_the_text_goes_wrong() {
    let r = species_tree_sample_to_string(b"(A:1,(B:2,C:3):1;", 2);
    assert_eq!(r, Err(SampleError::Grammar(GrammarError { position: 16 })));
}

#[test]
fn reports_a_length_that_is_no_number() {
    let r = species_tree_sample_to_string(b"(A:x,B:1);", 2);
    assert_eq!(r, Err(SampleError::Grammar(GrammarError { position: 3 })));
}

#[test]
fn reports_a_group_of_one() {
    let r = species_tree_sample_to_string(b"(A:1);", 1);
    assert_eq!(r, Err(SampleError::Structure(StructureError::NonBinary)));
}

#[test]
fn reports_a_group_of_three() {
    let r = species_tree_sample_to_string(b"(A:1,B:1,C:1);", 1);
    assert_eq!(r, Err(SampleError::Structure(StructureError::NonBinary)));
}

#[test]
fn reports_the_text_before_the_missing_leaves() {
    let r = species_tree_sample_to_string(b"(A:1,B:1", 0);
    assert_eq!(r, Err(SampleError::Grammar(GrammarError { position: 8 })));
}

#[test]
fn reports_a_depth_that_cannot_be_recorded() {
    let r = species_tree_sample_to_string(b"(A:1,(B:18446744073,C:18446744073):18446744073);", 2);
    assert_eq!(r, Err(SampleError::DepthOverflow));
}

#[test]
fn records_the_greatest_depth_that_fits() {
    let (newick, _, _) = sample("(A:1,(B:0.709551615,C:0.5):18446744073);", 3);
    assert_eq!(newick, "(A:1,(B:0.709551615,C:0.5):18446744073);");
}

#[test]
fn gives_the_same_sample_twice() {
    let text = "(((A:1,B:1):1,C:2):1,(D:1,(E:1,F:1):1):1);";
    assert_eq!(sample(text, 4), sample(text, 4));
}

#[test]
fn sample_has_as_many_leaves_as_asked_for() {
    let text = "(((A:1,B:1.5):1,C:2):1,(D:1,(E:1,F:1.25):1):1);";
    for n in 1..=6 {
        let (newick, sampled, removed) = sample(text, n);
        assert_eq!(sampled.len(), n);
        assert_eq!(removed.len(), 6 - n);
        let leaves = newick.bytes().filter(|b| b.is_ascii_uppercase()).count();
        assert_eq!(leaves, n);
    }
}

#[test]
fn sample_reads_as_a_tree_again() {
    let text = "(((A:1,B:1.5):1,C:2):1,(D:1,(E:1,F:1.25):1):1);";
    for n in 1..=6 {
        let (newick, _, _) = sample(text, n);
        let (again, _, _) = sample(&newick, n);
        assert_eq!(again, newick);
    }
}

fn balanced(height: u32, counter: &mut u32) -> String {
    if height == 0 {
        *counter += 1;
        format!("L{}:{}", counter, 1 + *counter % 7)
    } else {
        let left = balanced(height - 1, counter);
        let right = balanced(height - 1, counter);
        format!("({},{}):0.5", left, right)
    }
}

#[test]
fn samples_a_tree_of_four_thousand_leaves() {
    let mut counter = 0;
    let text = format!("{};", balanced(12, &mut counter));
    let (newick, sampled, removed) = sample(&text, 1000);
    assert_eq!(sampled.len(), 1000);
    assert_eq!(removed.len(), 4096 - 1000);
    assert_eq!(newick.matches('L').count(), 1000);
    assert_eq!(newick.matches('(').count(), 999);
    // The sample of a sample of the same size is the sample.
    let (again, _, none) = sample(&newick, 1000);
    assert_eq!(again, newick);
    assert_eq!(none.len(), 0);
}
