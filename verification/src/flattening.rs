//! What the flat tree of a binary tree is like.

use crate::flat_tree::{FlatNodeView, FlatTreeView};
use crate::node::NodeView;
use vstd::prelude::*;

verus! {

impl NodeView {
    /// The records of this tree stand in `nodes` from the index `base` on,
    /// with `parent` as the parent of the first.
    pub open spec fn stands_at(
        self,
        nodes: Seq<FlatNodeView>,
        base: int,
        parent: Option<int>,
    ) -> bool {
        &&& 0 <= base
        &&& base + self.size() <= nodes.len()
        &&& nodes.subrange(base, base + self.size()) == self.records(base, parent)
    }

    /// Where the records of a tree stand, the record of its root stands
    /// first, and behind it the records of the left and of the right subtree.
    pub proof fn lemma_stands_apart(self, nodes: Seq<FlatNodeView>, base: int, parent: Option<int>)
        requires
            self.stands_at(nodes, base, parent),
        ensures
            nodes[base].name == self.name,
            nodes[base].branch_length == self.branch_length,
            nodes[base].depth == self.depth,
            nodes[base].parent == parent,
            nodes[base].left_child == (match self.left {
                Some(_) => Some(base + 1),
                None => None,
            }),
            nodes[base].right_child == (match self.right {
                Some(_) => Some(base + 1 + self.left_size()),
                None => None,
            }),
            self.left matches Some(l) ==> l.stands_at(nodes, base + 1, Some(base)),
            self.right matches Some(r) ==> r.stands_at(
                nodes,
                base + 1 + self.left_size(),
                Some(base),
            ),
            self.size() == 1 + self.left_size() + (match self.right {
                Some(r) => r.size(),
                None => 0,
            }),
    {
        let all = self.records(base, parent);
        let block = nodes.subrange(base, base + self.size());
        self.lemma_records_len(base, parent);
        assert(block[0] == nodes[base]);
        let left = match self.left {
            Some(l) => l.records(base + 1, Some(base)),
            None => Seq::empty(),
        };
        let right = match self.right {
            Some(r) => r.records(base + 1 + self.left_size(), Some(base)),
            None => Seq::empty(),
        };
        match self.left {
            Some(l) => {
                l.lemma_records_len(base + 1, Some(base));
                assert forall|k: int| 0 <= k < l.size() implies nodes.subrange(
                    base + 1,
                    base + 1 + l.size(),
                )[k] == left[k] by {
                    assert(block[1 + k] == nodes[base + 1 + k]);
                    assert(all[1 + k] == left[k]);
                }
                assert(nodes.subrange(base + 1, base + 1 + l.size()) =~= left);
            },
            None => {},
        }
        match self.right {
            Some(r) => {
                let b = base + 1 + self.left_size();
                r.lemma_records_len(b, Some(base));
                assert forall|k: int| 0 <= k < r.size() implies nodes.subrange(b, b + r.size())[k]
                    == right[k] by {
                    assert(block[1 + self.left_size() + k] == nodes[b + k]);
                    assert(all[1 + self.left_size() + k] == right[k]);
                }
                assert(nodes.subrange(b, b + r.size()) =~= right);
            },
            None => {},
        }
    }

    /// The records of a whole tree stand in its flat tree from index 0 on.
    pub proof fn lemma_flattened_stands(self)
        ensures
            self.stands_at(self.flattened().nodes, 0, None),
            self.flattened().len() == self.size(),
    {
        self.lemma_records_len(0, None);
        let nodes = self.flattened().nodes;
        assert(nodes.subrange(0, self.size() as int) =~= nodes);
    }

    /// A tree has at least one node.
    pub proof fn lemma_size_positive(self)
        ensures
            self.size() >= 1,
    {
    }

    /// The records of a binary tree have their links in order.
    pub proof fn lemma_block_links(self, v: FlatTreeView, base: int, parent: Option<int>)
        requires
            self.is_binary(),
            self.stands_at(v.nodes, base, parent),
            parent matches Some(p) ==> 0 <= p < base && v.is_child_of(base, p),
        ensures
            forall|i: int| base <= i < base + self.size() ==> #[trigger] v.links_ok(i),
        decreases self,
    {
        self.lemma_stands_apart(v.nodes, base, parent);
        match (self.left, self.right) {
            (Some(l), Some(r)) => {
                l.lemma_size_positive();
                r.lemma_size_positive();
                l.lemma_block_links(v, base + 1, Some(base));
                r.lemma_block_links(v, base + 1 + self.left_size(), Some(base));
            },
            _ => {},
        }
        assert(v.links_ok(base));
    }

    /// From every record of a tree the parent links lead where they lead
    /// from the record of its root, and every record is the parent of its
    /// children.
    pub proof fn lemma_block_tops(self, v: FlatTreeView, base: int, parent: Option<int>)
        requires
            self.is_binary(),
            self.stands_at(v.nodes, base, parent),
        ensures
            forall|i: int|
                base <= i < base + self.size() ==> #[trigger] v.top_of(i) == v.top_of(base),
            forall|i: int| base <= i < base + self.size() ==> #[trigger] v.children_agree(i),
        decreases self,
    {
        self.lemma_stands_apart(v.nodes, base, parent);
        match (self.left, self.right) {
            (Some(l), Some(r)) => {
                let b = base + 1 + self.left_size();
                l.lemma_stands_apart(v.nodes, base + 1, Some(base));
                r.lemma_stands_apart(v.nodes, b, Some(base));
                l.lemma_block_tops(v, base + 1, Some(base));
                r.lemma_block_tops(v, b, Some(base));
                assert(v.top_of(base + 1) == v.top_of(base));
                assert(v.top_of(b) == v.top_of(base));
            },
            _ => {},
        }
        assert(v.children_agree(base));
    }

    /// The child links lead from the record of the root to this tree again.
    pub proof fn lemma_block_subtree(self, v: FlatTreeView, base: int, parent: Option<int>)
        requires
            self.is_binary(),
            self.stands_at(v.nodes, base, parent),
        ensures
            v.subtree(base) == self,
        decreases self,
    {
        self.lemma_stands_apart(v.nodes, base, parent);
        self.lemma_size_positive();
        match (self.left, self.right) {
            (Some(l), Some(r)) => {
                l.lemma_size_positive();
                r.lemma_size_positive();
                l.lemma_block_subtree(v, base + 1, Some(base));
                r.lemma_block_subtree(v, base + 1 + self.left_size(), Some(base));
                assert(v.is_fork(base));
            },
            _ => {
                assert(!v.is_fork(base));
            },
        }
    }

    /// The leaves under the record of the root are records of this tree, and
    /// their indices grow from left to right.
    pub proof fn lemma_block_leaves(self, v: FlatTreeView, base: int, parent: Option<int>)
        requires
            self.is_binary(),
            self.stands_at(v.nodes, base, parent),
        ensures
            v.leaves_under(base).len() >= 1,
            forall|k: int|
                0 <= k < v.leaves_under(base).len() ==> base <= #[trigger] v.leaves_under(base)[k]
                    < base + self.size(),
            forall|a: int, b: int|
                0 <= a < b < v.leaves_under(base).len() ==> v.leaves_under(base)[a]
                    < v.leaves_under(base)[b],
        decreases self,
    {
        self.lemma_stands_apart(v.nodes, base, parent);
        self.lemma_size_positive();
        match (self.left, self.right) {
            (Some(l), Some(r)) => {
                let b = base + 1 + self.left_size();
                l.lemma_size_positive();
                r.lemma_size_positive();
                l.lemma_block_leaves(v, base + 1, Some(base));
                r.lemma_block_leaves(v, b, Some(base));
                assert(v.is_fork(base));
                let ll = v.leaves_under(base + 1);
                let lr = v.leaves_under(b);
                assert(v.leaves_under(base) == ll + lr);
                assert forall|k: int| 0 <= k < (ll + lr).len() implies base <= #[trigger] (ll
                    + lr)[k] < base + self.size() by {
                    if k < ll.len() {
                        assert((ll + lr)[k] == ll[k]);
                    } else {
                        assert((ll + lr)[k] == lr[k - ll.len()]);
                    }
                }
                assert forall|x: int, y: int| 0 <= x < y < (ll + lr).len() implies (ll + lr)[x] < (
                ll + lr)[y] by {
                    if y < ll.len() {
                        assert((ll + lr)[x] == ll[x] && (ll + lr)[y] == ll[y]);
                    } else if x >= ll.len() {
                        assert((ll + lr)[x] == lr[x - ll.len()]);
                        assert((ll + lr)[y] == lr[y - ll.len()]);
                    } else {
                        assert((ll + lr)[x] == ll[x] && (ll + lr)[y] == lr[y - ll.len()]);
                    }
                }
            },
            _ => {
                assert(!v.is_fork(base));
                assert(v.nodes[base].is_leaf());
            },
        }
    }

    /// The flat tree of a binary tree is well formed and a tree under its
    /// root, which is record 0; the child links lead from the root to the
    /// binary tree again; and no leaf occurs twice among its leaves.
    pub proof fn lemma_flattened_is_tree(self)
        requires
            self.is_binary(),
        ensures
            self.flattened().well_formed(),
            self.flattened().is_tree_from(0),
            forall|i: int| self.flattened().has(i) ==> #[trigger] self.flattened().top_of(i) == 0,
            self.flattened().subtree(0) == self,
            self.flattened().leaves().no_duplicates(),
            self.flattened().leaves().len() >= 1,
    {
        let v = self.flattened();
        self.lemma_flattened_stands();
        self.lemma_size_positive();
        self.lemma_stands_apart(v.nodes, 0, None);
        self.lemma_block_links(v, 0, None);
        self.lemma_block_tops(v, 0, None);
        self.lemma_block_subtree(v, 0, None);
        self.lemma_block_leaves(v, 0, None);
        assert(v.top_of(0) == 0);
    }
}

impl FlatTreeView {
    /// The names of the leaves of the recursive tree under a record are the
    /// names of the leaves under that record.
    pub proof fn lemma_subtree_leaf_names(self, i: int)
        requires
            self.has(i),
            self.is_fork(i) || self.nodes[i].is_leaf(),
            forall|j: int| 0 <= j < self.len() ==> #[trigger] self.links_ok(j),
        ensures
            self.subtree(i).leaf_names() == Seq::new(
                self.leaves_under(i).len(),
                |k: int| self.nodes[self.leaves_under(i)[k]].name,
            ),
        decreases self.len() - i,
    {
        let names = Seq::new(
            self.leaves_under(i).len(),
            |k: int| self.nodes[self.leaves_under(i)[k]].name,
        );
        if self.is_fork(i) {
            let l = self.nodes[i].left_child->0;
            let r = self.nodes[i].right_child->0;
            assert(self.links_ok(l));
            assert(self.links_ok(r));
            self.lemma_subtree_leaf_names(l);
            self.lemma_subtree_leaf_names(r);
            assert(self.subtree(i).leaf_names() =~= names);
        } else {
            assert(self.subtree(i).leaf_names() =~= names);
        }
    }
}

} // verus!
