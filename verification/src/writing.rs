//! What the sampler writes is a tree in bracket notation again.

use crate::flat_tree::FlatTreeView;
use crate::newick::{
    is_name_byte, subtree_text, tokens_of_text, tree_of_tokens, tree_text, StructureError,
};
use crate::node::NodeView;
use crate::pipeline::{sample_of_text, sample_of_tree, sampled_tree};
use crate::round_trip::{lemma_round_trip, lemma_text_round_trip};
use vstd::prelude::*;

verus! {

/// A name of name bytes.
pub open spec fn is_name(name: Seq<u8>) -> bool {
    forall|k: int| 0 <= k < name.len() ==> is_name_byte(#[trigger] name[k])
}

impl NodeView {
    /// The same tree without depths.
    pub open spec fn without_depths(self) -> NodeView
        decreases self,
    {
        NodeView {
            depth: None,
            left: match self.left {
                Some(l) => Some(Box::new(l.without_depths())),
                None => None,
            },
            right: match self.right {
                Some(r) => Some(Box::new(r.without_depths())),
                None => None,
            },
            ..self
        }
    }

    /// A tree that can be written and read again: every node has no child
    /// or two, a name of name bytes, and a branch length that can be held.
    pub open spec fn is_writable(self) -> bool
        decreases self,
    {
        &&& self.left is Some <==> self.right is Some
        &&& self.branch_length <= u64::MAX
        &&& is_name(self.name)
        &&& self.left matches Some(l) ==> l.is_writable()
        &&& self.right matches Some(r) ==> r.is_writable()
    }

    /// Every depth of the tree can be held.
    pub open spec fn depths_within(self) -> bool
        decreases self,
    {
        &&& self.depth matches Some(d) ==> d <= u64::MAX
        &&& self.left matches Some(l) ==> l.depths_within()
        &&& self.right matches Some(r) ==> r.depths_within()
    }

    /// A plain tree can be written, and a tree that can be written is plain
    /// without its depths.
    pub proof fn lemma_plain_is_writable(self)
        ensures
            self.is_plain() ==> self.is_writable(),
            self.is_writable() ==> self.without_depths().is_plain(),
        decreases self,
    {
        match self.left {
            Some(l) => l.lemma_plain_is_writable(),
            None => {},
        }
        match self.right {
            Some(r) => r.lemma_plain_is_writable(),
            None => {},
        }
    }

    /// In a tree that can be written every node has no child or two.
    pub proof fn lemma_writable_is_binary(self)
        requires
            self.is_writable(),
        ensures
            self.is_binary(),
        decreases self,
    {
        match self.left {
            Some(l) => l.lemma_writable_is_binary(),
            None => {},
        }
        match self.right {
            Some(r) => r.lemma_writable_is_binary(),
            None => {},
        }
    }

    /// The text of a tree does not show its depths.
    pub proof fn lemma_text_shows_no_depths(self, is_root: bool)
        ensures
            subtree_text(self.without_depths(), is_root) == subtree_text(self, is_root),
        decreases self,
    {
        match self.left {
            Some(l) => l.lemma_text_shows_no_depths(false),
            None => {},
        }
        match self.right {
            Some(r) => r.lemma_text_shows_no_depths(false),
            None => {},
        }
    }

    /// Depths that fit can be held, and to set them changes neither names
    /// nor branch lengths.
    pub proof fn lemma_with_depths_within(self, start: nat)
        requires
            self.depths_fit(start),
        ensures
            self.with_depths(start).depths_within(),
            self.with_depths(start).is_writable() == self.is_writable(),
        decreases self,
    {
        match self.left {
            Some(l) => l.lemma_with_depths_within(start + l.branch_length),
            None => {},
        }
        match self.right {
            Some(r) => r.lemma_with_depths_within(start + r.branch_length),
            None => {},
        }
    }

    /// The records of a tree that can be written, with depths that can be
    /// held, have names of name bytes and depths that can be held.
    pub proof fn lemma_block_labels(self, v: FlatTreeView, base: int, parent: Option<int>)
        requires
            self.is_writable(),
            self.depths_within(),
            self.stands_at(v.nodes, base, parent),
        ensures
            forall|i: int| base <= i < base + self.size() ==> #[trigger] v.label_fits(i),
        decreases self,
    {
        self.lemma_stands_apart(v.nodes, base, parent);
        match (self.left, self.right) {
            (Some(l), Some(r)) => {
                l.lemma_block_labels(v, base + 1, Some(base));
                r.lemma_block_labels(v, base + 1 + self.left_size(), Some(base));
            },
            _ => {},
        }
        assert(v.label_fits(base));
    }

    /// With branch lengths set from depths that are in order and can be
    /// held, a tree with names of name bytes can be written.
    pub proof fn lemma_with_lengths_writable(self, above: nat)
        requires
            self.is_binary(),
            self.depths_ordered(above),
            self.depths_within(),
            self.names_fit(),
        ensures
            self.with_lengths(above).is_writable(),
        decreases self,
    {
        match self.left {
            Some(l) => l.lemma_with_lengths_writable(self.depth->0),
            None => {},
        }
        match self.right {
            Some(r) => r.lemma_with_lengths_writable(self.depth->0),
            None => {},
        }
    }

    /// Every name of the tree is a name of name bytes.
    pub open spec fn names_fit(self) -> bool
        decreases self,
    {
        &&& is_name(self.name)
        &&& self.left matches Some(l) ==> l.names_fit()
        &&& self.right matches Some(r) ==> r.names_fit()
    }
}

impl FlatTreeView {
    /// Record `i` has a name of name bytes, and its depth can be held.
    pub open spec fn label_fits(self, i: int) -> bool {
        &&& is_name(self.nodes[i].name)
        &&& self.nodes[i].depth matches Some(d) ==> d <= u64::MAX
    }

    /// Every record has a name of name bytes and a depth that can be held.
    pub open spec fn labels_fit(self) -> bool {
        forall|i: int| self.has(i) ==> #[trigger] self.label_fits(i)
    }

    /// Where the labels of the records fit, those of the tree under
    /// a record fit.
    pub proof fn lemma_subtree_labels(self, i: int)
        requires
            self.labels_fit(),
            self.has(i),
        ensures
            self.subtree(i).names_fit(),
            self.subtree(i).depths_within(),
        decreases self.len() - i,
    {
        assert(self.label_fits(i));
        if self.is_fork(i) {
            self.lemma_subtree_labels(self.nodes[i].left_child->0);
            self.lemma_subtree_labels(self.nodes[i].right_child->0);
        }
    }
}

/// The tree that a sample writes: the tree that is left, with its branch
/// lengths set from the depths, and without depths.
pub open spec fn written_tree(tree: NodeView, n: int) -> NodeView {
    let left = sampled_tree(tree, n);
    left.with_lengths(left.depth->0).without_depths()
}

/// What is written of a sample of a plain tree is read as a tree again: as
/// the tree that is left, with its branch lengths set from the depths.
pub proof fn lemma_sample_is_read(tree: NodeView, n: int)
    requires
        tree.is_plain(),
        tree.with_root_at_zero().depths_fit(0),
        1 <= n,
    ensures
        written_tree(tree, n).is_plain(),
        sample_of_tree(tree, n).newick == tree_text(written_tree(tree, n)),
        tokens_of_text(sample_of_tree(tree, n).newick) is Ok,
        tree_of_tokens(tokens_of_text(sample_of_tree(tree, n).newick)->Ok_0) == Ok::<
            NodeView,
            StructureError,
        >(written_tree(tree, n)),
{
    let zeroed = tree.with_root_at_zero();
    let deep = zeroed.with_depths(0);
    let flat = deep.flattened();
    let pruned = flat.pruned(n);
    let left = sampled_tree(tree, n);
    let out = left.with_lengths(left.depth->0);
    tree.lemma_plain_is_writable();
    assert(zeroed.is_writable());
    zeroed.lemma_writable_is_binary();
    zeroed.lemma_with_depths_within(0);
    zeroed.lemma_with_depths_ordered(0, 0);
    deep.lemma_flattened_is_tree();
    deep.lemma_flattened_depths(0);
    deep.lemma_flattened_stands();
    deep.lemma_block_labels(flat, 0, None);
    flat.lemma_pruned(n);
    flat.lemma_pruned_labels(n);
    assert forall|i: int| pruned.has(i) implies #[trigger] pruned.label_fits(i) by {
        assert(flat.label_fits(i));
        assert(flat.nodes[i].name == pruned.nodes[i].name);
    }
    pruned.lemma_subtree_labels(pruned.root);
    pruned.lemma_subtree_depths(pruned.root, pruned.depth_of(pruned.root));
    left.lemma_with_lengths_writable(left.depth->0);
    out.lemma_plain_is_writable();
    out.lemma_text_shows_no_depths(true);
    lemma_round_trip(written_tree(tree, n));
}

/// What the sampler writes of a text, it reads as a tree again.
pub proof fn lemma_sample_text_is_read(text: Seq<u8>, n: int)
    requires
        0 <= n,
        sample_of_text(text, n) is Ok,
    ensures
        tokens_of_text(sample_of_text(text, n)->Ok_0.newick) is Ok,
        tree_of_tokens(tokens_of_text(sample_of_text(text, n)->Ok_0.newick)->Ok_0) is Ok,
{
    lemma_text_round_trip(text);
    let tree = tree_of_tokens(tokens_of_text(text)->Ok_0)->Ok_0;
    lemma_sample_is_read(tree, n);
}

} // verus!
