//! What holds of depths and branch lengths: that each is found again from
//! the other, and that pruning keeps the depths in order.

use crate::flat_tree::FlatTreeView;
use crate::node::NodeView;
use vstd::prelude::*;

verus! {

impl NodeView {
    /// The same tree with the branch length of its root set to zero.
    pub open spec fn with_root_at_zero(self) -> NodeView {
        NodeView { branch_length: 0, ..self }
    }

    /// To set the depths from the branch lengths, starting at zero, and then
    /// the branch lengths from the depths, gives every branch length
    /// again; only the root's is zero then, whatever it was.
    pub proof fn lemma_lengths_come_back(self)
        ensures
            self.with_depths(0).with_lengths(0) == self.with_root_at_zero().with_depths(0),
    {
        self.lemma_lengths_below(0);
    }

    /// With depths set from `start` on, the branch lengths taken from the
    /// depths are the branch lengths from before, but for the root, whose
    /// length is its depth less `above`.
    pub proof fn lemma_lengths_below(self, start: nat)
        ensures
            forall|above: nat|
                above <= start ==> #[trigger] self.with_depths(start).with_lengths(above)
                    == (NodeView { branch_length: (start - above) as nat, ..self }).with_depths(
                    start,
                ),
        decreases self,
    {
        match self.left {
            Some(l) => {
                l.lemma_lengths_below(start + l.branch_length);
                assert(l.with_depths(start + l.branch_length).with_lengths(start) == l.with_depths(
                    start + l.branch_length,
                ));
            },
            None => {},
        }
        match self.right {
            Some(r) => {
                r.lemma_lengths_below(start + r.branch_length);
                assert(r.with_depths(start + r.branch_length).with_lengths(start) == r.with_depths(
                    start + r.branch_length,
                ));
            },
            None => {},
        }
    }

    /// To set the branch lengths does not change the shape of the tree.
    pub proof fn lemma_with_lengths_binary(self, above: nat)
        ensures
            self.with_lengths(above).is_binary() == self.is_binary(),
        decreases self,
    {
        match self.left {
            Some(l) => l.lemma_with_lengths_binary(self.depth->0),
            None => {},
        }
        match self.right {
            Some(r) => r.lemma_with_lengths_binary(self.depth->0),
            None => {},
        }
    }

    /// To set the depths changes no name, and to set the branch lengths
    /// changes none either.
    pub proof fn lemma_leaf_names_stay(self, start: nat, above: nat)
        ensures
            self.with_depths(start).leaf_names() == self.leaf_names(),
            self.with_lengths(above).leaf_names() == self.leaf_names(),
        decreases self,
    {
        match (self.left, self.right) {
            (Some(l), Some(r)) => {
                l.lemma_leaf_names_stay(start + l.branch_length, self.depth->0);
                r.lemma_leaf_names_stay(start + r.branch_length, self.depth->0);
            },
            _ => {},
        }
    }

    /// Depths that were set from the branch lengths are in order, and the
    /// shape of the tree is as before.
    pub proof fn lemma_with_depths_ordered(self, start: nat, above: nat)
        requires
            above <= start,
        ensures
            self.with_depths(start).depths_ordered(above),
            self.with_depths(start).is_binary() == self.is_binary(),
        decreases self,
    {
        match self.left {
            Some(l) => {
                l.lemma_with_depths_ordered(start + l.branch_length, start);
            },
            None => {},
        }
        match self.right {
            Some(r) => {
                r.lemma_with_depths_ordered(start + r.branch_length, start);
            },
            None => {},
        }
    }
}

impl FlatTreeView {
    /// Record `i` has a depth, and no child of it that exists is less deep.
    pub open spec fn depth_ok(self, i: int) -> bool {
        &&& self.nodes[i].depth is Some
        &&& self.nodes[i].left_child matches Some(l) ==> self.has(l) ==> self.nodes[l].depth
            is Some && self.depth_of(i) <= self.depth_of(l)
        &&& self.nodes[i].right_child matches Some(r) ==> self.has(r) ==> self.nodes[r].depth
            is Some && self.depth_of(i) <= self.depth_of(r)
    }

    /// Every record has a depth, and no child is less deep than its parent.
    pub open spec fn depths_ordered(self) -> bool {
        forall|i: int| self.has(i) ==> #[trigger] self.depth_ok(i)
    }

    /// Where every record has a depth, every leaf has one.
    pub proof fn lemma_leaves_have_depth(self)
        requires
            self.depths_ordered(),
        ensures
            self.leaves_have_depth(),
    {
        self.lemma_visited_leaves_exist(self.root);
        assert forall|k: int| 0 <= k < self.leaves().len() implies self.nodes[
            #[trigger] self.leaves()[k]
        ].depth is Some by {
            assert(self.depth_ok(self.leaves()[k]));
        }
    }

    /// In the recursive tree under a record every node has no child or two.
    pub proof fn lemma_subtree_is_binary(self, i: int)
        ensures
            self.subtree(i).is_binary(),
        decreases self.len() - i,
    {
        if self.has(i) && self.is_fork(i) {
            self.lemma_subtree_is_binary(self.nodes[i].left_child->0);
            self.lemma_subtree_is_binary(self.nodes[i].right_child->0);
        }
    }

    /// A splice keeps the depths in order.
    pub proof fn lemma_splice_keeps_depths(self, leaf: int)
        requires
            self.can_splice(leaf),
            self.depths_ordered(),
        ensures
            self.spliced(leaf).depths_ordered(),
    {
        let w = self.spliced(leaf);
        let p = self.nodes[leaf].parent->0;
        assert(self.depth_ok(p));
        assert forall|i: int| w.has(i) implies #[trigger] w.depth_ok(i) by {
            assert(self.depth_ok(i));
        }
    }

    /// Splices keep the depths in order.
    pub proof fn lemma_splices_keep_depths(self, list: Seq<int>)
        requires
            self.depths_ordered(),
        ensures
            self.spliced_all(list).depths_ordered(),
        decreases list.len(),
    {
        if list.len() > 0 && self.can_splice(list[0]) {
            self.lemma_splice_keeps_depths(list[0]);
            self.spliced(list[0]).lemma_splices_keep_depths(list.skip(1));
        }
    }

    /// The records of `other` have the names, branch lengths and depths of
    /// the records of this tree.
    pub open spec fn same_labels(self, other: FlatTreeView) -> bool {
        &&& self.len() == other.len()
        &&& forall|i: int|
            0 <= i < self.len() ==> (#[trigger] self.nodes[i]).name == other.nodes[i].name
                && self.nodes[i].branch_length == other.nodes[i].branch_length
                && self.nodes[i].depth == other.nodes[i].depth
    }

    /// Splices change no name, branch length or depth.
    pub proof fn lemma_splices_keep_labels(self, list: Seq<int>)
        ensures
            self.same_labels(self.spliced_all(list)),
        decreases list.len(),
    {
        if list.len() > 0 && self.can_splice(list[0]) {
            let w = self.spliced(list[0]);
            w.lemma_splices_keep_labels(list.skip(1));
            assert(self.same_labels(w));
        }
    }

    /// To prune a tree changes no name, branch length or depth, and keeps
    /// the depths in order.
    pub proof fn lemma_pruned_labels(self, n: int)
        ensures
            self.same_labels(self.pruned(n)),
            self.depths_ordered() ==> self.pruned(n).depths_ordered(),
    {
        let w = self.spliced_all(self.unsampled(n));
        let z = self.pruned(n);
        self.lemma_splices_keep_labels(self.unsampled(n));
        assert(z.nodes == w.nodes);
        if self.depths_ordered() {
            self.lemma_splices_keep_depths(self.unsampled(n));
            assert forall|i: int| z.has(i) implies #[trigger] z.depth_ok(i) by {
                assert(w.depth_ok(i));
            }
        }
    }

    /// Where the depths of the records are in order, the depths of the tree
    /// under a record are in order.
    pub proof fn lemma_subtree_depths(self, i: int, above: nat)
        requires
            self.depths_ordered(),
            self.has(i),
            above <= self.depth_of(i),
        ensures
            self.subtree(i).depths_ordered(above),
            self.subtree(i).is_binary(),
            self.subtree(i).depth == self.nodes[i].depth,
        decreases self.len() - i,
    {
        assert(self.depth_ok(i));
        if self.is_fork(i) {
            self.lemma_subtree_depths(self.nodes[i].left_child->0, self.depth_of(i));
            self.lemma_subtree_depths(self.nodes[i].right_child->0, self.depth_of(i));
        }
    }
}

impl NodeView {
    /// Where the depths of a tree are in order, so are those of its records.
    pub proof fn lemma_block_depths(
        self,
        v: FlatTreeView,
        base: int,
        parent: Option<int>,
        above: nat,
    )
        requires
            self.is_binary(),
            self.stands_at(v.nodes, base, parent),
            self.depths_ordered(above),
        ensures
            forall|i: int| base <= i < base + self.size() ==> #[trigger] v.depth_ok(i),
            v.nodes[base].depth is Some,
            above <= v.depth_of(base),
        decreases self,
    {
        self.lemma_stands_apart(v.nodes, base, parent);
        match (self.left, self.right) {
            (Some(l), Some(r)) => {
                let d = self.depth->0;
                l.lemma_block_depths(v, base + 1, Some(base), d);
                r.lemma_block_depths(v, base + 1 + self.left_size(), Some(base), d);
            },
            _ => {},
        }
        assert(v.depth_ok(base));
    }

    /// The depths of the flat tree of a binary tree with ordered depths are
    /// in order.
    pub proof fn lemma_flattened_depths(self, above: nat)
        requires
            self.is_binary(),
            self.depths_ordered(above),
        ensures
            self.flattened().depths_ordered(),
    {
        self.lemma_flattened_stands();
        self.lemma_block_depths(self.flattened(), 0, None, above);
    }
}

} // verus!
