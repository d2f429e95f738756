//! The sampling of one tree, from text to text.

use crate::flat_tree::{as_ints, FlatTree, FlatTreeView};
use crate::newick::{
    newick_to_tree, parse, serialize, tokens_of_text, tree_of_tokens, tree_text, GrammarError,
    StructureError,
};
use crate::node::{copy_bytes, NodeView};
use crate::pruning::prune_to_deepest;
use vstd::prelude::*;

verus! {

/// Why no sample was made of a tree.
#[derive(Clone, Copy, Debug, PartialEq, Eq)]
pub enum SampleError {
    /// The text is not a tree in bracket notation.
    Grammar(GrammarError),
    /// The text is not one binary tree.
    Structure(StructureError),
    /// No leaf was asked for.
    EmptySample,
    /// A depth of the tree is too great to be recorded.
    DepthOverflow,
    /// The records of the flat tree contradict each other.
    InvariantViolation,
}

/// The mathematical value of a sample: the text of the pruned tree, and the
/// names of the leaves that stay and of those that were removed.
pub ghost struct SampleView {
    pub newick: Seq<u8>,
    pub sampled: Seq<Seq<u8>>,
    pub removed: Seq<Seq<u8>>,
}

/// The values of a sequence of names.
pub open spec fn name_views(names: Seq<Vec<u8>>) -> Seq<Seq<u8>> {
    Seq::new(names.len(), |k: int| names[k]@)
}

impl FlatTreeView {
    /// The names of the records of `list`.
    pub open spec fn names_of(self, list: Seq<int>) -> Seq<Seq<u8>> {
        Seq::new(list.len(), |k: int| self.nodes[list[k]].name)
    }
}

/// The sample of `n` leaves of a tree, for `n` of at least one: the root's
/// branch length is set to zero and the depths are set from the branch
/// lengths; the flat tree of that is pruned to its `n` deepest leaves; and
/// in the tree that is left the branch lengths are set from the depths, with
/// the depth of its root as the depth above it.
pub open spec fn sample_of_tree(tree: NodeView, n: int) -> SampleView {
    let flat = tree.with_root_at_zero().with_depths(0).flattened();
    let pruned = flat.pruned(n);
    let left = pruned.subtree(pruned.root);
    SampleView {
        newick: tree_text(left.with_lengths(left.depth->0)),
        sampled: flat.names_of(flat.deepest(n)),
        removed: flat.names_of(flat.unsampled(n)),
    }
}

/// The sample of `n` leaves of the tree that `text` holds, or why there is
/// none.
pub open spec fn sample_of_text(text: Seq<u8>, n: int) -> Result<SampleView, SampleError> {
    match tokens_of_text(text) {
        Err(at) => Err(SampleError::Grammar(GrammarError { position: at as usize })),
        Ok(tokens) => match tree_of_tokens(tokens) {
            Err(e) => Err(SampleError::Structure(e)),
            Ok(tree) => if n == 0 {
                Err(SampleError::EmptySample)
            } else if !tree.with_root_at_zero().depths_fit(0) {
                Err(SampleError::DepthOverflow)
            } else {
                Ok(sample_of_tree(tree, n))
            },
        },
    }
}

/// The tree that is left of a sample of `n` leaves, before its branch
/// lengths are set again.
pub open spec fn sampled_tree(tree: NodeView, n: int) -> NodeView {
    let pruned = tree.with_root_at_zero().with_depths(0).flattened().pruned(n);
    pruned.subtree(pruned.root)
}

/// A sample of `n` leaves of a binary tree, for `n` of at least one, is
/// a binary tree with `n` leaves, or with all leaves of the tree where
/// these are no more than `n`. Its leaves are the `n` deepest leaves of the
/// tree, in the order that they have there from left to right.
pub proof fn lemma_sample_keeps_deepest(tree: NodeView, n: int)
    requires
        tree.is_binary(),
        1 <= n,
    ensures
        ({
            let flat = tree.with_root_at_zero().with_depths(0).flattened();
            let left = sampled_tree(tree, n);
            &&& flat.leaves().len() == tree.leaf_names().len()
            &&& flat.names_of(flat.leaves()) == tree.leaf_names()
            &&& left.is_binary()
            &&& left.leaf_names().len() == (if n < tree.leaf_names().len() {
                n
            } else {
                tree.leaf_names().len() as int
            })
            &&& left.leaf_names() == flat.names_of(
                flat.leaves().filter(|x: int| flat.deepest(n).contains(x)),
            )
            &&& left.with_lengths(left.depth->0).leaf_names() == left.leaf_names()
            &&& left.with_lengths(left.depth->0).is_binary()
        }),
{
    let deep = tree.with_root_at_zero().with_depths(0);
    let flat = deep.flattened();
    let pruned = flat.pruned(n);
    let left = sampled_tree(tree, n);
    tree.with_root_at_zero().lemma_with_depths_ordered(0, 0);
    tree.with_root_at_zero().lemma_leaf_names_stay(0, 0);
    assert(tree.with_root_at_zero().leaf_names() == tree.leaf_names());
    deep.lemma_flattened_is_tree();
    deep.lemma_flattened_depths(0);
    flat.lemma_pruned(n);
    flat.lemma_splices_keep_depths(flat.unsampled(n));
    flat.lemma_splices_keep_labels(flat.unsampled(n));
    let w = flat.spliced_all(flat.unsampled(n));
    assert forall|i: int| pruned.has(i) implies #[trigger] pruned.depth_ok(i) by {
        assert(w.depth_ok(i));
    }
    pruned.lemma_subtree_depths(pruned.root, pruned.depth_of(pruned.root));
    assert(flat.links_ok(0));
    flat.lemma_subtree_leaf_names(0);
    assert(flat.names_of(flat.leaves()) =~= tree.leaf_names());
    assert(pruned.links_ok(pruned.root));
    pruned.lemma_subtree_leaf_names(pruned.root);
    let stay = flat.leaves().filter(|x: int| flat.deepest(n).contains(x));
    assert(pruned.leaves() == stay);
    pruned.lemma_visited_leaves_exist(pruned.root);
    assert(pruned.nodes == w.nodes);
    assert forall|k: int| 0 <= k < stay.len() implies pruned.nodes[#[trigger] stay[k]].name
        == flat.nodes[stay[k]].name by {
        assert(pruned.has(pruned.leaves()[k]));
        assert(flat.nodes[stay[k]].name == w.nodes[stay[k]].name);
    }
    assert(left.leaf_names() =~= flat.names_of(stay));
    left.lemma_leaf_names_stay(0, left.depth->0);
    left.lemma_with_lengths_binary(left.depth->0);
}

/// A sample of `n` leaves of a binary tree, for `n` of at least one, is the
/// tree, with its depths set, restricted to its `n` deepest leaves: a node
/// of which both sides hold such a leaf stays, a node of which one side
/// holds such a leaf gives way to what is left of that side, and a node
/// that holds none is gone.
pub proof fn lemma_sample_is_restricted(tree: NodeView, n: int)
    requires
        tree.is_binary(),
        1 <= n,
    ensures
        ({
            let flat = tree.with_root_at_zero().with_depths(0).flattened();
            &&& flat.subtree(0) == tree.with_root_at_zero().with_depths(0)
            &&& flat.subtree(0) == flat.dressed(flat.shape(0))
            &&& flat.shape(0).restricted(|x: int| flat.deepest(n).contains(x)) matches Some(left)
            &&& sampled_tree(tree, n) == flat.dressed(left)
        }),
{
    let deep = tree.with_root_at_zero().with_depths(0);
    let flat = deep.flattened();
    tree.with_root_at_zero().lemma_with_depths_ordered(0, 0);
    deep.lemma_flattened_is_tree();
    flat.lemma_subtree_is_dressed_shape(0);
    flat.lemma_pruned_is_restricted(n);
}

/// No sample is made of no leaf, whatever the text holds.
pub proof fn lemma_no_sample_of_no_leaf(text: Seq<u8>)
    ensures
        sample_of_text(text, 0) is Err,
        tokens_of_text(text) matches Ok(tokens) && tree_of_tokens(tokens) is Ok ==> sample_of_text(
            text,
            0,
        ) == Err::<SampleView, SampleError>(SampleError::EmptySample),
{
}

/// A sample of as many leaves as the tree has, or of more, removes no leaf:
/// it is the tree itself with a root whose branch length is zero.
pub proof fn lemma_sample_of_all(tree: NodeView, n: int)
    requires
        tree.is_binary(),
        1 <= n,
        tree.leaf_names().len() <= n,
    ensures
        sample_of_tree(tree, n).removed == Seq::<Seq<u8>>::empty(),
        sampled_tree(tree, n) == tree.with_root_at_zero().with_depths(0),
        sample_of_tree(tree, n).newick == tree_text(tree.with_root_at_zero()),
{
    let zeroed = tree.with_root_at_zero();
    let deep = zeroed.with_depths(0);
    let flat = deep.flattened();
    lemma_sample_keeps_deepest(tree, n);
    zeroed.lemma_with_depths_ordered(0, 0);
    deep.lemma_flattened_is_tree();
    flat.lemma_pruned_whole(n);
    assert(sample_of_tree(tree, n).removed =~= Seq::<Seq<u8>>::empty());
    zeroed.lemma_lengths_come_back();
    assert(zeroed.with_root_at_zero() == zeroed);
    crate::newick::lemma_text_without_depths(zeroed, true, 0);
}

/// The names of the records of `list`.
fn names_at(flat_tree: &FlatTree, list: &Vec<usize>) -> (r: Vec<Vec<u8>>)
    requires
        forall|k: int| 0 <= k < list@.len() ==> flat_tree@.has(#[trigger] list@[k] as int),
    ensures
        name_views(r@) == flat_tree@.names_of(as_ints(list@)),
{
    let mut names: Vec<Vec<u8>> = Vec::new();
    let mut k: usize = 0;
    while k < list.len()
        invariant
            k <= list.len(),
            forall|j: int| 0 <= j < list@.len() ==> flat_tree@.has(#[trigger] list@[j] as int),
            names@.len() == k,
            forall|j: int|
                0 <= j < k ==> (#[trigger] names@[j])@ == flat_tree@.nodes[list@[j] as int].name,
        decreases list.len() - k,
    {
        names.push(copy_bytes(&flat_tree.nodes[list[k]].name));
        k += 1;
    }
    assert(name_views(names@) =~= flat_tree@.names_of(as_ints(list@)));
    names
}

/// Samples the tree that `text` holds: reads the text, sets the depths of
/// the nodes from the branch lengths, keeps the `nb_leaves` deepest leaves
/// and removes the others, sets the branch lengths again from the depths,
/// and writes the tree that is left. It gives that text, the names of the
/// sampled leaves, deepest first, and the names of the removed leaves, from
/// left to right. The text that it gives is a tree in bracket notation
/// again.
pub fn species_tree_sample_to_string(text: &[u8], nb_leaves: usize) -> (r: Result<
    (Vec<u8>, Vec<Vec<u8>>, Vec<Vec<u8>>),
    SampleError,
>)
    ensures
        match sample_of_text(text@, nb_leaves as int) {
            Ok(sample) => r matches Ok((newick, sampled, removed)) && newick@ == sample.newick
                && name_views(sampled@) == sample.sampled && name_views(removed@)
                == sample.removed,
            Err(e) => r matches Err(f) && e == f,
        },
        nb_leaves == 0 ==> r is Err,
        !(r matches Err(SampleError::InvariantViolation)),
        r matches Ok((newick, _, _)) ==> tokens_of_text(newick@) is Ok && tree_of_tokens(
            tokens_of_text(newick@)->Ok_0,
        ) is Ok,
{
    proof {
        if sample_of_text(text@, nb_leaves as int) is Ok {
            crate::writing::lemma_sample_text_is_read(text@, nb_leaves as int);
        }
    }
    let tokens = match parse(text) {
        Ok(tokens) => tokens,
        Err(e) => {
            return Err(SampleError::Grammar(e));
        },
    };
    let mut node_tree = match newick_to_tree(&tokens) {
        Ok(tree) => tree,
        Err(e) => {
            return Err(SampleError::Structure(e));
        },
    };
    if nb_leaves == 0 {
        return Err(SampleError::EmptySample);
    }
    // Assign depths.
    node_tree.zero_root_length();
    if !node_tree.depths_fit(0) {
        return Err(SampleError::DepthOverflow);
    }
    node_tree.assign_depths(0);
    // Convert to a flat tree.
    let mut flat_tree = node_tree.to_flat_tree();
    let ghost flat = flat_tree@;
    // Sample the leaves and remove the others.
    let (sampled_leaves, removed_leaves) = match prune_to_deepest(&mut flat_tree, nb_leaves) {
        Ok(lists) => lists,
        Err(_) => {
            return Err(SampleError::EmptySample);
        },
    };
    // Convert the flat tree back to a tree of nodes.
    let mut reconstructed_tree = flat_tree.to_node();
    // Update the lengths from the depths.
    let root_depth = match reconstructed_tree.depth {
        Some(d) => d,
        None => {
            return Err(SampleError::InvariantViolation);
        },
    };
    reconstructed_tree.depths_to_lengths(root_depth);
    let newick = serialize(&reconstructed_tree);
    proof {
        assert(flat_tree@.names_of(as_ints(sampled_leaves@)) =~= flat.names_of(
            as_ints(sampled_leaves@),
        ));
        assert(flat_tree@.names_of(as_ints(removed_leaves@)) =~= flat.names_of(
            as_ints(removed_leaves@),
        ));
    }
    let sampled_names = names_at(&flat_tree, &sampled_leaves);
    let removed_names = names_at(&flat_tree, &removed_leaves);
    Ok((newick, sampled_names, removed_names))
}

} // verus!
