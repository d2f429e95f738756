//! The shape of a tree, and what is left of it when only some leaves stay.

use crate::flat_tree::FlatTreeView;
use crate::node::NodeView;
use crate::seqs::lemma_filter_keeps;
use vstd::prelude::*;

verus! {

/// The shape of a binary tree of records: which record stands where.
pub ghost enum Shape {
    Leaf(int),
    Fork(int, Box<Shape>, Box<Shape>),
}

impl Shape {
    /// What is left of the shape when only the leaves stay that `keep`
    /// holds: a fork with both sides left stays a fork, a fork with one side
    /// left gives way to that side, and one with no side left is gone.
    pub open spec fn restricted(self, keep: spec_fn(int) -> bool) -> Option<Shape>
        decreases self,
    {
        match self {
            Shape::Leaf(i) => if keep(i) {
                Some(self)
            } else {
                None
            },
            Shape::Fork(i, l, r) => match (l.restricted(keep), r.restricted(keep)) {
                (Some(a), Some(b)) => Some(Shape::Fork(i, Box::new(a), Box::new(b))),
                (Some(a), None) => Some(a),
                (None, Some(b)) => Some(b),
                (None, None) => None,
            },
        }
    }

    /// `x` is a leaf of the shape.
    pub open spec fn has_leaf(self, x: int) -> bool
        decreases self,
    {
        match self {
            Shape::Leaf(i) => i == x,
            Shape::Fork(_, l, r) => l.has_leaf(x) || r.has_leaf(x),
        }
    }

    /// Every record of the shape is one of the first `len` records.
    pub open spec fn is_within(self, len: int) -> bool
        decreases self,
    {
        match self {
            Shape::Leaf(i) => 0 <= i < len,
            Shape::Fork(i, l, r) => 0 <= i < len && l.is_within(len) && r.is_within(len),
        }
    }

    /// To keep every leaf changes nothing.
    pub proof fn lemma_restricted_to_all(self, keep: spec_fn(int) -> bool)
        requires
            forall|x: int| self.has_leaf(x) ==> keep(x),
        ensures
            self.restricted(keep) == Some(self),
        decreases self,
    {
        match self {
            Shape::Leaf(i) => {
                assert(self.has_leaf(i));
            },
            Shape::Fork(i, l, r) => {
                assert forall|x: int| l.has_leaf(x) implies keep(x) by {
                    assert(self.has_leaf(x));
                }
                assert forall|x: int| r.has_leaf(x) implies keep(x) by {
                    assert(self.has_leaf(x));
                }
                l.lemma_restricted_to_all(keep);
                r.lemma_restricted_to_all(keep);
            },
        }
    }

    /// What is left depends on which leaves of the shape are kept, and on
    /// nothing else.
    pub proof fn lemma_restricted_alike(
        self,
        first: spec_fn(int) -> bool,
        second: spec_fn(int) -> bool,
    )
        requires
            forall|x: int| self.has_leaf(x) ==> first(x) == second(x),
        ensures
            self.restricted(first) == self.restricted(second),
        decreases self,
    {
        match self {
            Shape::Leaf(i) => {
                assert(self.has_leaf(i));
            },
            Shape::Fork(i, l, r) => {
                assert forall|x: int| l.has_leaf(x) implies first(x) == second(x) by {
                    assert(self.has_leaf(x));
                }
                assert forall|x: int| r.has_leaf(x) implies first(x) == second(x) by {
                    assert(self.has_leaf(x));
                }
                l.lemma_restricted_alike(first, second);
                r.lemma_restricted_alike(first, second);
            },
        }
    }

    /// To restrict twice is to restrict once to the leaves that are kept
    /// both times.
    pub proof fn lemma_restricted_twice(
        self,
        first: spec_fn(int) -> bool,
        second: spec_fn(int) -> bool,
        both: spec_fn(int) -> bool,
    )
        requires
            forall|x: int| #[trigger] both(x) == (first(x) && second(x)),
        ensures
            self.restricted(both) == (match self.restricted(first) {
                Some(left) => left.restricted(second),
                None => None,
            }),
        decreases self,
    {
        match self {
            Shape::Leaf(i) => {},
            Shape::Fork(i, l, r) => {
                l.lemma_restricted_twice(first, second, both);
                r.lemma_restricted_twice(first, second, both);
            },
        }
    }

    /// What is left of a shape holds records of the shape only.
    pub proof fn lemma_restricted_within(self, keep: spec_fn(int) -> bool, len: int)
        requires
            self.is_within(len),
        ensures
            self.restricted(keep) matches Some(left) ==> left.is_within(len),
        decreases self,
    {
        match self {
            Shape::Leaf(i) => {},
            Shape::Fork(i, l, r) => {
                l.lemma_restricted_within(keep, len);
                r.lemma_restricted_within(keep, len);
            },
        }
    }
}

impl FlatTreeView {
    /// The shape of the tree under record `i`.
    pub open spec fn shape(self, i: int) -> Shape
        decreases self.len() - i,
    {
        if self.has(i) && self.is_fork(i) {
            Shape::Fork(
                i,
                Box::new(self.shape(self.nodes[i].left_child->0)),
                Box::new(self.shape(self.nodes[i].right_child->0)),
            )
        } else {
            Shape::Leaf(i)
        }
    }

    /// The recursive tree of a shape, with the name, the branch length and
    /// the depth of each node taken from its record.
    pub open spec fn dressed(self, s: Shape) -> NodeView
        decreases s,
    {
        match s {
            Shape::Leaf(i) => NodeView {
                name: self.nodes[i].name,
                branch_length: self.nodes[i].branch_length,
                depth: self.nodes[i].depth,
                left: None,
                right: None,
            },
            Shape::Fork(i, l, r) => NodeView {
                name: self.nodes[i].name,
                branch_length: self.nodes[i].branch_length,
                depth: self.nodes[i].depth,
                left: Some(Box::new(self.dressed(*l))),
                right: Some(Box::new(self.dressed(*r))),
            },
        }
    }

    /// The recursive tree under a record is its shape, dressed.
    pub proof fn lemma_subtree_is_dressed_shape(self, i: int)
        ensures
            self.subtree(i) == self.dressed(self.shape(i)),
        decreases self.len() - i,
    {
        if self.has(i) && self.is_fork(i) {
            self.lemma_subtree_is_dressed_shape(self.nodes[i].left_child->0);
            self.lemma_subtree_is_dressed_shape(self.nodes[i].right_child->0);
        }
    }

    /// The shape under a record holds records only, and its leaves are the
    /// leaves under that record.
    pub proof fn lemma_shape_leaves(self, i: int)
        requires
            self.has(i),
            self.is_fork(i) || self.nodes[i].is_leaf(),
            forall|j: int| 0 <= j < self.len() ==> #[trigger] self.links_ok(j),
        ensures
            self.shape(i).is_within(self.len()),
            forall|x: int| self.shape(i).has_leaf(x) ==> self.leaves_under(i).contains(x),
        decreases self.len() - i,
    {
        if self.is_fork(i) {
            let l = self.nodes[i].left_child->0;
            let r = self.nodes[i].right_child->0;
            assert(self.links_ok(l));
            assert(self.links_ok(r));
            self.lemma_shape_leaves(l);
            self.lemma_shape_leaves(r);
            let ll = self.leaves_under(l);
            let lr = self.leaves_under(r);
            assert(self.shape(i) == Shape::Fork(
                i,
                Box::new(self.shape(l)),
                Box::new(self.shape(r)),
            ));
            assert(self.leaves_under(i) == ll + lr);
            assert forall|x: int| self.shape(i).has_leaf(x) implies self.leaves_under(i).contains(
                x,
            ) by {
                if self.shape(l).has_leaf(x) {
                    assert(ll.contains(x));
                    let k = choose|k: int| 0 <= k < ll.len() && ll[k] == x;
                    assert((ll + lr)[k] == x);
                } else {
                    assert(self.shape(r).has_leaf(x));
                    assert(lr.contains(x));
                    let k = choose|k: int| 0 <= k < lr.len() && lr[k] == x;
                    assert((ll + lr)[ll.len() + k] == x);
                }
            }
        } else {
            assert(self.shape(i) == Shape::Leaf(i));
            assert(self.leaves_under(i) == seq![i]);
            assert(self.leaves_under(i)[0] == i);
        }
    }

    /// Trees with the same labels dress a shape alike.
    pub proof fn lemma_dressed_alike(self, other: FlatTreeView, s: Shape)
        requires
            self.same_labels(other),
            s.is_within(self.len()),
        ensures
            self.dressed(s) == other.dressed(s),
        decreases s,
    {
        match s {
            Shape::Leaf(i) => {
                assert(self.nodes[i].name == other.nodes[i].name);
            },
            Shape::Fork(i, l, r) => {
                assert(self.nodes[i].name == other.nodes[i].name);
                self.lemma_dressed_alike(other, *l);
                self.lemma_dressed_alike(other, *r);
            },
        }
    }

    /// Trees with the same records have the same shapes.
    pub proof fn lemma_same_shape(self, other: FlatTreeView, i: int)
        requires
            self.nodes == other.nodes,
        ensures
            self.shape(i) == other.shape(i),
        decreases self.len() - i,
    {
        if self.has(i) && self.is_fork(i) {
            self.lemma_same_shape(other, self.nodes[i].left_child->0);
            self.lemma_same_shape(other, self.nodes[i].right_child->0);
        }
    }

    /// The shape under a record of the tree after a splice: the shape from
    /// before without the spliced leaf.
    pub proof fn lemma_shape_after_splice(self, t: int, leaf: int, i: int)
        requires
            self.well_formed(),
            self.is_tree_from(t),
            self.is_leaf_under(leaf, t),
            leaf != t,
            self.has(i),
            self.top_of(i) == t,
            i != leaf,
            i != self.nodes[leaf].parent->0,
        ensures
            self.shape(i).restricted(|x: int| x != leaf) == Some(self.spliced(leaf).shape(i)),
        decreases self.len() - i,
    {
        self.lemma_children_after_splice(t, leaf, i);
        let w = self.spliced(leaf);
        let p = self.nodes[leaf].parent->0;
        let s = self.sibling(leaf);
        let other = |x: int| x != leaf;
        if self.is_fork(i) {
            let l = self.nodes[i].left_child->0;
            let r = self.nodes[i].right_child->0;
            self.lemma_splice_finds(t, leaf);
            self.lemma_shape_of_parent(t, leaf);
            if l == p {
                self.lemma_shape_after_splice(t, leaf, s);
                self.lemma_shape_after_splice(t, leaf, r);
                assert(w.shape(i) == Shape::Fork(i, Box::new(w.shape(s)), Box::new(w.shape(r))));
            } else if r == p {
                self.lemma_shape_after_splice(t, leaf, l);
                self.lemma_shape_after_splice(t, leaf, s);
                assert(w.shape(i) == Shape::Fork(i, Box::new(w.shape(l)), Box::new(w.shape(s))));
            } else {
                self.lemma_shape_after_splice(t, leaf, l);
                self.lemma_shape_after_splice(t, leaf, r);
                assert(w.shape(i) == Shape::Fork(i, Box::new(w.shape(l)), Box::new(w.shape(r))));
            }
        } else {
            assert(w.shape(i) == Shape::Leaf(i));
        }
    }

    /// Without a leaf, the shape under its parent is the shape under its
    /// sibling without that leaf.
    pub proof fn lemma_shape_of_parent(self, t: int, leaf: int)
        requires
            self.well_formed(),
            self.is_tree_from(t),
            self.is_leaf_under(leaf, t),
            leaf != t,
        ensures
            self.shape(self.nodes[leaf].parent->0).restricted(|x: int| x != leaf) == self.shape(
                self.sibling(leaf),
            ).restricted(|x: int| x != leaf),
    {
        self.lemma_splice_finds(t, leaf);
        let p = self.nodes[leaf].parent->0;
        assert(self.links_ok(p));
        let other = |x: int| x != leaf;
        let s = self.sibling(leaf);
        assert(self.shape(leaf) == Shape::Leaf(leaf));
        assert(Shape::Leaf(leaf).restricted(other) is None);
        let l = self.nodes[p].left_child->0;
        let r = self.nodes[p].right_child->0;
        assert(self.shape(p) == Shape::Fork(p, Box::new(self.shape(l)), Box::new(self.shape(r))));
        if l == leaf {
            assert(r == s);
            assert(self.shape(p).restricted(other) == self.shape(s).restricted(other));
        } else {
            assert(r == leaf && l == s);
            assert(self.shape(p).restricted(other) == self.shape(s).restricted(other));
        }
    }

    /// The shape of the tree after a splice: the shape of the tree before
    /// without the spliced leaf.
    pub proof fn lemma_tree_shape_after_splice(self, t: int, leaf: int)
        requires
            self.well_formed(),
            self.is_tree_from(t),
            self.is_leaf_under(leaf, t),
            leaf != t,
        ensures
            self.shape(t).restricted(|x: int| x != leaf) == Some(
                self.spliced(leaf).shape(self.top_after(t, leaf)),
            ),
    {
        self.lemma_splice_finds(t, leaf);
        let p = self.nodes[leaf].parent->0;
        let s = self.sibling(leaf);
        if p == t {
            self.lemma_shape_after_splice(t, leaf, s);
            self.lemma_shape_of_parent(t, leaf);
        } else {
            self.lemma_shape_after_splice(t, leaf, t);
        }
    }

    /// The shape of the tree after splices of leaves of the tree, of which
    /// a leaf `kept` is not spliced: the shape of the tree before without
    /// the spliced leaves.
    pub proof fn lemma_shape_after_splices(self, t: int, list: Seq<int>, kept: int)
        requires
            self.well_formed(),
            self.is_tree_from(t),
            self.are_leaves_under(list, t),
            self.is_leaf_under(kept, t),
            !list.contains(kept),
        ensures
            self.shape(t).restricted(|x: int| !list.contains(x)) == Some(
                self.spliced_all(list).shape(self.spliced_all(list).top_of(kept)),
            ),
        decreases list.len(),
    {
        let none = |x: int| !list.contains(x);
        if list.len() == 0 {
            self.shape(t).lemma_restricted_to_all(none);
        } else {
            let leaf = list[0];
            let rest = list.skip(1);
            assert(self.is_leaf_under(leaf, t));
            if leaf == t {
                self.lemma_alone_under_leaf(t, kept);
                assert(list[0] == kept);
            }
            self.lemma_splice_finds(t, leaf);
            self.lemma_splice_keeps_links(t, leaf);
            self.lemma_splice_keeps_tree(t, leaf);
            self.lemma_tree_shape_after_splice(t, leaf);
            let w = self.spliced(leaf);
            let t2 = self.top_after(t, leaf);
            self.lemma_rest_are_leaves(t, list, kept);
            w.lemma_shape_after_splices(t2, rest, kept);
            let other = |x: int| x != leaf;
            let later = |x: int| !rest.contains(x);
            assert forall|x: int| #[trigger] none(x) == (other(x) && later(x)) by {
                if list.contains(x) {
                    let k = choose|k: int| 0 <= k < list.len() && list[k] == x;
                    if k > 0 {
                        assert(rest[k - 1] == x);
                    }
                }
                if rest.contains(x) {
                    let k = choose|k: int| 0 <= k < rest.len() && rest[k] == x;
                    assert(list[k + 1] == x);
                }
            }
            self.shape(t).lemma_restricted_twice(other, later, none);
        }
    }

    /// The order of the splices does not matter: two lists of the same
    /// leaves, spliced out of one tree, leave trees of one shape.
    pub proof fn lemma_splices_in_any_order(
        self,
        t: int,
        first: Seq<int>,
        second: Seq<int>,
        kept: int,
    )
        requires
            self.well_formed(),
            self.is_tree_from(t),
            self.are_leaves_under(first, t),
            self.are_leaves_under(second, t),
            forall|x: int| first.contains(x) <==> second.contains(x),
            self.is_leaf_under(kept, t),
            !first.contains(kept),
        ensures
            self.spliced_all(first).shape(self.spliced_all(first).top_of(kept))
                == self.spliced_all(second).shape(self.spliced_all(second).top_of(kept)),
    {
        self.lemma_shape_after_splices(t, first, kept);
        self.lemma_shape_after_splices(t, second, kept);
        self.shape(t).lemma_restricted_alike(
            |x: int| !first.contains(x),
            |x: int| !second.contains(x),
        );
    }

    /// The tree that is left when a tree is pruned to its `n` deepest
    /// leaves, for `n` of at least one, is the tree restricted to these
    /// leaves: a record with both sides left keeps its place, a record with
    /// one side left gives way to what is left of that side. Names, branch
    /// lengths and depths are those of the records.
    pub proof fn lemma_pruned_is_restricted(self, n: int)
        requires
            self.well_formed(),
            self.is_tree_from(self.root),
            1 <= n,
        ensures
            self.shape(self.root).restricted(|x: int| self.deepest(n).contains(x)) == Some(
                self.pruned(n).shape(self.pruned(n).root),
            ),
            self.pruned(n).subtree(self.pruned(n).root) == self.dressed(
                self.pruned(n).shape(self.pruned(n).root),
            ),
    {
        let t = self.root;
        let all = self.leaves();
        let keep = self.deepest(n);
        let gone = self.unsampled(n);
        let out = |x: int| !keep.contains(x);
        let stay = |x: int| keep.contains(x);
        let not_gone = |x: int| !gone.contains(x);
        self.lemma_leaves_under(t, t);
        self.lemma_deepest(n);
        self.lemma_pruned(n);
        lemma_filter_keeps(all, out);
        let kept = keep[0];
        assert(keep.contains(kept));
        assert(all.contains(kept));
        assert forall|k: int| 0 <= k < gone.len() implies self.is_leaf_under(
            #[trigger] gone[k],
            t,
        ) by {
            assert(gone.contains(gone[k]));
            let f = choose|f: int| 0 <= f < all.len() && all[f] == gone[k];
            assert(self.is_leaf_under(all[f], t));
        }
        let f = choose|f: int| 0 <= f < all.len() && all[f] == kept;
        assert(self.is_leaf_under(all[f], t));
        self.lemma_shape_after_splices(t, gone, kept);
        let w = self.spliced_all(gone);
        let z = self.pruned(n);
        z.lemma_same_shape(w, z.root);
        assert(self.links_ok(t));
        self.lemma_shape_leaves(t);
        self.shape(t).lemma_restricted_alike(not_gone, stay);
        // The records keep their labels.
        z.lemma_subtree_is_dressed_shape(z.root);
        self.shape(t).lemma_restricted_within(stay, self.len());
        self.lemma_pruned_labels(n);
        self.lemma_dressed_alike(z, z.shape(z.root));
    }
}

} // verus!
