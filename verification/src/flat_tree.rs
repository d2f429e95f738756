//! The flat tree: the records of a tree in one collection, with parents and
//! children named by index.

use crate::node::{copy_bytes, depth_view, Node, NodeView};
use vstd::prelude::*;

verus! {

/// One record of a [`FlatTree`]: the data of a node, and its relatives as
/// indices into the tree's record collection.
#[derive(Clone, Debug, PartialEq, Eq)]
pub struct FlatNode {
    /// The name, which may be empty.
    pub name: Vec<u8>,
    /// The distance to the parent, in units (see [`crate::decimal::SCALE`]).
    pub branch_length: u64,
    /// The distance to the root, in units, once it is computed.
    pub depth: Option<u64>,
    /// The index of the parent; the root has none, and a record that was cut
    /// off has none.
    pub parent: Option<usize>,
    /// The index of the left child. A record has both children or none.
    pub left_child: Option<usize>,
    /// The index of the right child.
    pub right_child: Option<usize>,
}

/// The mathematical value of a [`FlatNode`].
pub ghost struct FlatNodeView {
    pub name: Seq<u8>,
    pub branch_length: nat,
    pub depth: Option<nat>,
    pub parent: Option<int>,
    pub left_child: Option<int>,
    pub right_child: Option<int>,
}

/// An index-addressed tree: a collection of records and the index of the root.
#[derive(Clone, Debug, PartialEq, Eq)]
pub struct FlatTree {
    /// The records. Pruning changes their links and removes none of them.
    pub nodes: Vec<FlatNode>,
    /// The index of the root.
    pub root: usize,
}

/// The mathematical value of a [`FlatTree`].
pub ghost struct FlatTreeView {
    pub nodes: Seq<FlatNodeView>,
    pub root: int,
}

/// An index or none, as a mathematical integer.
pub open spec fn index_view(i: Option<usize>) -> Option<int> {
    match i {
        Some(v) => Some(v as int),
        None => None,
    }
}

impl View for FlatNode {
    type V = FlatNodeView;

    open spec fn view(&self) -> FlatNodeView {
        FlatNodeView {
            name: self.name@,
            branch_length: self.branch_length as nat,
            depth: depth_view(self.depth),
            parent: index_view(self.parent),
            left_child: index_view(self.left_child),
            right_child: index_view(self.right_child),
        }
    }
}

/// The values of a sequence of records.
pub open spec fn views(s: Seq<FlatNode>) -> Seq<FlatNodeView> {
    Seq::new(s.len(), |i: int| s[i]@)
}

impl View for FlatTree {
    type V = FlatTreeView;

    open spec fn view(&self) -> FlatTreeView {
        FlatTreeView { nodes: views(self.nodes@), root: self.root as int }
    }
}

impl FlatNodeView {
    /// A record is a leaf when it names no child.
    pub open spec fn is_leaf(self) -> bool {
        self.left_child is None && self.right_child is None
    }
}

impl FlatTreeView {
    /// The number of records.
    pub open spec fn len(self) -> int {
        self.nodes.len() as int
    }

    /// `i` is the index of a record.
    pub open spec fn has(self, i: int) -> bool {
        0 <= i < self.nodes.len()
    }

    /// Whether `c` is recorded as a child of `i`.
    pub open spec fn is_child_of(self, c: int, i: int) -> bool {
        self.nodes[i].left_child == Some(c) || self.nodes[i].right_child == Some(c)
    }

    /// The links of record `i` are in order: it has no child or two distinct
    /// ones, each child and the parent is an existing record, a child comes
    /// after its parent in the collection, and the parent records `i` as one
    /// of its children.
    pub open spec fn links_ok(self, i: int) -> bool {
        let n = self.nodes[i];
        &&& n.left_child is Some <==> n.right_child is Some
        &&& n.left_child matches Some(l) ==> i < l < self.len()
        &&& n.right_child matches Some(r) ==> i < r < self.len()
        &&& n.left_child is Some ==> n.left_child != n.right_child
        &&& n.parent matches Some(p) ==> 0 <= p < i && self.is_child_of(i, p)
    }

    /// The invariant of a flat tree. It speaks of every record, also of those
    /// that pruning has cut off.
    pub open spec fn well_formed(self) -> bool {
        &&& self.has(self.root)
        &&& forall|i: int| 0 <= i < self.len() ==> #[trigger] self.links_ok(i)
    }
}

/// The order in which [`FlatTree::iter`] visits a record and its two subtrees.
#[derive(Clone, Copy, Debug, PartialEq, Eq)]
pub enum TraversalOrder {
    /// The record, then its left subtree, then its right subtree.
    PreOrder,
    /// The left subtree, then the record, then the right subtree.
    InOrder,
    /// The left subtree, then the right subtree, then the record.
    PostOrder,
}

/// A sequence of indices as mathematical integers.
pub open spec fn as_ints(s: Seq<usize>) -> Seq<int> {
    Seq::new(s.len(), |k: int| s[k] as int)
}

impl FlatTreeView {
    /// The record has two children, which are records that come after it.
    pub open spec fn is_fork(self, i: int) -> bool {
        &&& self.nodes[i].left_child is Some
        &&& self.nodes[i].right_child is Some
        &&& i < self.nodes[i].left_child->0 < self.len()
        &&& i < self.nodes[i].right_child->0 < self.len()
    }

    /// The records of the subtree under `i`, in the given order. Only child
    /// links are followed, so records that were cut off are not met.
    pub open spec fn traversal(self, order: TraversalOrder, i: int) -> Seq<int>
        decreases self.len() - i,
    {
        if !self.has(i) {
            Seq::empty()
        } else if self.is_fork(i) {
            let l = self.traversal(order, self.nodes[i].left_child->0);
            let r = self.traversal(order, self.nodes[i].right_child->0);
            match order {
                TraversalOrder::PreOrder => seq![i] + l + r,
                TraversalOrder::InOrder => l + seq![i] + r,
                TraversalOrder::PostOrder => l + r + seq![i],
            }
        } else {
            seq![i]
        }
    }

    /// The leaves of the subtree under `i`, from left to right.
    pub open spec fn leaves_under(self, i: int) -> Seq<int>
        decreases self.len() - i,
    {
        if !self.has(i) {
            Seq::empty()
        } else if self.is_fork(i) {
            self.leaves_under(self.nodes[i].left_child->0) + self.leaves_under(
                self.nodes[i].right_child->0,
            )
        } else if self.nodes[i].is_leaf() {
            seq![i]
        } else {
            Seq::empty()
        }
    }

    /// The leaves of the tree, from left to right.
    pub open spec fn leaves(self) -> Seq<int> {
        self.leaves_under(self.root)
    }

    /// The record without a parent that the parent links lead to from `i`.
    pub open spec fn top_of(self, i: int) -> int
        decreases i,
    {
        match self.nodes[i].parent {
            Some(p) => if 0 <= p < i {
                self.top_of(p)
            } else {
                i
            },
            None => i,
        }
    }
}

impl FlatTreeView {
    /// A traversal meets existing records only.
    pub proof fn lemma_visited_exist(self, order: TraversalOrder, i: int)
        ensures
            forall|j: int|
                0 <= j < self.traversal(order, i).len() ==> self.has(
                    #[trigger] self.traversal(order, i)[j],
                ),
        decreases self.len() - i,
    {
        if self.has(i) && self.is_fork(i) {
            let l = self.traversal(order, self.nodes[i].left_child->0);
            let r = self.traversal(order, self.nodes[i].right_child->0);
            self.lemma_visited_exist(order, self.nodes[i].left_child->0);
            self.lemma_visited_exist(order, self.nodes[i].right_child->0);
            let t = self.traversal(order, i);
            assert forall|j: int| 0 <= j < t.len() implies self.has(#[trigger] t[j]) by {
                match order {
                    TraversalOrder::PreOrder => {
                        if j >= 1 && j < 1 + l.len() {
                            assert(t[j] == l[j - 1]);
                        } else if j >= 1 {
                            assert(t[j] == r[j - 1 - l.len()]);
                        }
                    },
                    TraversalOrder::InOrder => {
                        if j < l.len() {
                            assert(t[j] == l[j]);
                        } else if j > l.len() {
                            assert(t[j] == r[j - 1 - l.len()]);
                        }
                    },
                    TraversalOrder::PostOrder => {
                        if j < l.len() {
                            assert(t[j] == l[j]);
                        } else if j < l.len() + r.len() {
                            assert(t[j] == r[j - l.len()]);
                        }
                    },
                }
            }
        }
    }
}

impl NodeView {
    /// The number of nodes of the left subtree.
    pub open spec fn left_size(self) -> nat {
        match self.left {
            Some(l) => l.size(),
            None => 0,
        }
    }

    /// The records of this tree, the root first, then the left subtree, then
    /// the right one, where the record of the root gets the index `base` and
    /// the parent `parent`.
    pub open spec fn records(self, base: int, parent: Option<int>) -> Seq<FlatNodeView>
        decreases self,
    {
        let own = FlatNodeView {
            name: self.name,
            branch_length: self.branch_length,
            depth: self.depth,
            parent: parent,
            left_child: match self.left {
                Some(_) => Some(base + 1),
                None => None,
            },
            right_child: match self.right {
                Some(_) => Some(base + 1 + self.left_size()),
                None => None,
            },
        };
        seq![own] + (match self.left {
            Some(l) => l.records(base + 1, Some(base)),
            None => Seq::empty(),
        }) + (match self.right {
            Some(r) => r.records(base + 1 + self.left_size(), Some(base)),
            None => Seq::empty(),
        })
    }

    /// The flat tree of this tree: its records in pre-order, the root at
    /// index 0.
    pub open spec fn flattened(self) -> FlatTreeView {
        FlatTreeView { nodes: self.records(0, None), root: 0 }
    }

    /// A tree has one record for each node.
    pub proof fn lemma_records_len(self, base: int, parent: Option<int>)
        ensures
            self.records(base, parent).len() == self.size(),
        decreases self,
    {
        match self.left {
            Some(l) => l.lemma_records_len(base + 1, Some(base)),
            None => {},
        }
        match self.right {
            Some(r) => r.lemma_records_len(base + 1 + self.left_size(), Some(base)),
            None => {},
        }
    }
}

impl FlatTreeView {
    /// The recursive tree under record `i`: what the child links lead to.
    pub open spec fn subtree(self, i: int) -> NodeView
        decreases self.len() - i,
    {
        let n = self.nodes[i];
        if self.has(i) && self.is_fork(i) {
            NodeView {
                name: n.name,
                branch_length: n.branch_length,
                depth: n.depth,
                left: Some(Box::new(self.subtree(n.left_child->0))),
                right: Some(Box::new(self.subtree(n.right_child->0))),
            }
        } else {
            NodeView {
                name: n.name,
                branch_length: n.branch_length,
                depth: n.depth,
                left: None,
                right: None,
            }
        }
    }
}

impl Node {
    /// Appends the records of this tree to `out`.
    fn push_records(&self, parent: Option<usize>, out: &mut Vec<FlatNode>)
        ensures
            views(final(out)@) == views(old(out)@) + self@.records(
                old(out)@.len() as int,
                index_view(parent),
            ),
        decreases self,
    {
        let ghost before = views(out@);
        let ghost base = out@.len() as int;
        let index = out.len();
        out.push(
            FlatNode {
                name: copy_bytes(&self.name),
                branch_length: self.branch_length,
                depth: self.depth,
                parent: parent,
                left_child: None,
                right_child: None,
            },
        );
        let ghost own = views(out@)[base];
        assert(views(out@) =~= before.push(own));
        match &self.left {
            Some(l) => {
                assert(self@.left == Some(Box::new(l@)));
                let left_index = out.len();
                let ghost pushed = views(out@);
                l.push_records(Some(index), out);
                proof {
                    l@.lemma_records_len(base + 1, Some(base));
                    assert(views(out@).len() == out@.len());
                    assert(pushed.len() == base + 1);
                }
                let ghost mid = views(out@);
                out[index].left_child = Some(left_index);
                assert(views(out@) =~= mid.update(
                    base,
                    FlatNodeView { left_child: Some(base + 1), ..mid[base] },
                ));
                assert(mid[base] == own);
                assert(views(out@) =~= before.push(
                    FlatNodeView { left_child: Some(base + 1), ..own },
                ) + l@.records(base + 1, Some(base)));
            },
            None => {},
        }
        let ghost own = views(out@)[base];
        let ghost left_records = views(out@).skip(base + 1);
        assert(views(out@) =~= before.push(own) + left_records);
        match &self.right {
            Some(r) => {
                assert(self@.right == Some(Box::new(r@)));
                let right_index = out.len();
                let ghost pushed = views(out@);
                r.push_records(Some(index), out);
                proof {
                    r@.lemma_records_len(base + 1 + self@.left_size(), Some(base));
                    assert(views(out@).len() == out@.len());
                    assert(pushed.len() == base + 1 + self@.left_size());
                }
                let ghost mid = views(out@);
                out[index].right_child = Some(right_index);
                assert(views(out@) =~= mid.update(
                    base,
                    FlatNodeView { right_child: Some(base + 1 + self@.left_size()), ..mid[base] },
                ));
                assert(mid[base] == own);
                assert(views(out@) =~= before.push(
                    FlatNodeView { right_child: Some(base + 1 + self@.left_size()), ..own },
                ) + left_records + r@.records(base + 1 + self@.left_size(), Some(base)));
            },
            None => {},
        }
        assert(views(out@) =~= before + self@.records(base, index_view(parent)));
    }

    /// The flat tree of this tree: one record for each node, in pre-order,
    /// with the root at index 0.
    pub fn to_flat_tree(&self) -> (r: FlatTree)
        ensures
            r@ == self@.flattened(),
            self@.is_binary() ==> r@.well_formed() && r@.is_tree_from(r@.root) && r@.subtree(
                r@.root,
            ) == self@,
            self@.is_binary() && self@.depths_ordered(0) ==> r@.depths_ordered()
                && r@.leaves_have_depth(),
    {
        proof {
            if self@.is_binary() {
                self@.lemma_flattened_is_tree();
                if self@.depths_ordered(0) {
                    self@.lemma_flattened_depths(0);
                    self@.flattened().lemma_leaves_have_depth();
                }
            }
        }
        let mut nodes: Vec<FlatNode> = Vec::new();
        self.push_records(None, &mut nodes);
        assert(views(nodes@) =~= self@.records(0, None));
        FlatTree { nodes, root: 0 }
    }
}

impl FlatTree {
    /// The recursive tree under record `i`.
    fn node_at(&self, i: usize) -> (r: Node)
        requires
            self@.well_formed(),
            self@.has(i as int),
        ensures
            r@ == self@.subtree(i as int),
        decreases self@.len() - i,
    {
        proof {
            assert(self@.links_ok(i as int));
        }
        let rec = &self.nodes[i];
        match (rec.left_child, rec.right_child) {
            (Some(l), Some(r)) => {
                assert(self@.is_fork(i as int));
                Node {
                    name: copy_bytes(&rec.name),
                    branch_length: rec.branch_length,
                    depth: rec.depth,
                    left: Some(Box::new(self.node_at(l))),
                    right: Some(Box::new(self.node_at(r))),
                }
            },
            _ => {
                assert(!self@.is_fork(i as int));
                Node {
                    name: copy_bytes(&rec.name),
                    branch_length: rec.branch_length,
                    depth: rec.depth,
                    left: None,
                    right: None,
                }
            },
        }
    }

    /// Whether the links of record `i` are in order.
    fn links_in_order(&self, i: usize) -> (r: bool)
        requires
            i < self.nodes@.len(),
        ensures
            r == self@.links_ok(i as int),
    {
        let len = self.nodes.len();
        let rec = &self.nodes[i];
        let children_ok = match (rec.left_child, rec.right_child) {
            (Some(l), Some(r)) => i < l && l < len && i < r && r < len && l != r,
            (None, None) => true,
            _ => false,
        };
        let parent_ok = match rec.parent {
            Some(p) => p < i && (self.nodes[p].left_child == Some(i) || self.nodes[p].right_child
                == Some(i)),
            None => true,
        };
        children_ok && parent_ok
    }

    /// Whether the tree is well formed: the root is a record, and the links
    /// of every record are in order.
    pub fn is_well_formed(&self) -> (r: bool)
        ensures
            r == self@.well_formed(),
    {
        if self.root >= self.nodes.len() {
            return false;
        }
        let mut i: usize = 0;
        while i < self.nodes.len()
            invariant
                i <= self.nodes@.len(),
                self@.has(self@.root),
                forall|j: int| 0 <= j < i ==> #[trigger] self@.links_ok(j),
            decreases self.nodes@.len() - i,
        {
            if !self.links_in_order(i) {
                return false;
            }
            i += 1;
        }
        true
    }

    /// Whether record `i` has a depth, and no child of it is less deep.
    fn depth_in_order(&self, i: usize) -> (r: bool)
        requires
            i < self.nodes@.len(),
        ensures
            r == self@.depth_ok(i as int),
    {
        let len = self.nodes.len();
        let rec = &self.nodes[i];
        let d = match rec.depth {
            Some(d) => d,
            None => {
                return false;
            },
        };
        let left_ordered = match rec.left_child {
            Some(l) => l >= len || match self.nodes[l].depth {
                Some(below) => d <= below,
                None => false,
            },
            None => true,
        };
        let right_ordered = match rec.right_child {
            Some(r) => r >= len || match self.nodes[r].depth {
                Some(below) => d <= below,
                None => false,
            },
            None => true,
        };
        left_ordered && right_ordered
    }

    /// Whether every record has a depth, and no child is less deep than its
    /// parent.
    pub fn depths_in_order(&self) -> (r: bool)
        ensures
            r == self@.depths_ordered(),
    {
        let mut i: usize = 0;
        while i < self.nodes.len()
            invariant
                i <= self.nodes@.len(),
                forall|j: int| 0 <= j < i ==> #[trigger] self@.depth_ok(j),
            decreases self.nodes@.len() - i,
        {
            if !self.depth_in_order(i) {
                return false;
            }
            i += 1;
        }
        true
    }

    /// The recursive tree that the child links lead to from the root. Records
    /// that cannot be reached from the root are left out.
    pub fn to_node(&self) -> (r: Node)
        requires
            self@.well_formed(),
        ensures
            r@ == self@.subtree(self@.root),
            r@.is_binary(),
            self@.depths_ordered() ==> r@.depth == self@.nodes[self@.root].depth
                && r@.depths_ordered(self@.depth_of(self@.root)),
    {
        proof {
            self@.lemma_subtree_is_binary(self@.root);
            if self@.depths_ordered() {
                self@.lemma_subtree_depths(self@.root, self@.depth_of(self@.root));
            }
        }
        self.node_at(self.root)
    }
}

impl FlatNode {
    /// Whether the record names no child.
    pub fn is_leaf(&self) -> (r: bool)
        ensures
            r == self@.is_leaf(),
    {
        self.left_child.is_none() && self.right_child.is_none()
    }
}

impl FlatTree {
    /// Appends the records of the subtree under `i` to `out`.
    fn walk(&self, order: TraversalOrder, i: usize, out: &mut Vec<usize>)
        requires
            self@.well_formed(),
            self@.has(i as int),
        ensures
            as_ints(final(out)@) == as_ints(old(out)@) + self@.traversal(order, i as int),
        decreases self@.len() - i,
    {
        proof {
            assert(self@.links_ok(i as int));
        }
        match (self.nodes[i].left_child, self.nodes[i].right_child) {
            (Some(l), Some(r)) => {
                proof {
                    assert(self@.is_fork(i as int));
                }
                let ghost before = as_ints(out@);
                let ghost tl = self@.traversal(order, l as int);
                let ghost tr = self@.traversal(order, r as int);
                match order {
                    TraversalOrder::PreOrder => {
                        out.push(i);
                        assert(as_ints(out@) =~= before + seq![i as int]);
                        self.walk(order, l, out);
                        self.walk(order, r, out);
                        assert(as_ints(out@) =~= before + (seq![i as int] + tl + tr));
                    },
                    TraversalOrder::InOrder => {
                        self.walk(order, l, out);
                        let ghost mid = as_ints(out@);
                        out.push(i);
                        assert(as_ints(out@) =~= mid + seq![i as int]);
                        self.walk(order, r, out);
                        assert(as_ints(out@) =~= before + (tl + seq![i as int] + tr));
                    },
                    TraversalOrder::PostOrder => {
                        self.walk(order, l, out);
                        self.walk(order, r, out);
                        let ghost mid = as_ints(out@);
                        out.push(i);
                        assert(as_ints(out@) =~= mid + seq![i as int]);
                        assert(as_ints(out@) =~= before + (tl + tr + seq![i as int]));
                    },
                }
            },
            _ => {
                out.push(i);
                assert(as_ints(out@) =~= as_ints(old(out)@) + self@.traversal(order, i as int));
            },
        }
    }

    /// The indices of the records that can be reached from the root, in the
    /// given order. A second call gives the same sequence again.
    pub fn iter(&self, order: TraversalOrder) -> (r: Vec<usize>)
        requires
            self@.well_formed(),
        ensures
            as_ints(r@) == self@.traversal(order, self@.root),
    {
        let mut out: Vec<usize> = Vec::new();
        self.walk(order, self.root, &mut out);
        assert(as_ints(out@) =~= self@.traversal(order, self@.root));
        out
    }
}

} // verus!
