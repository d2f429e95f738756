//! What splices keep: the links in order, the tree a tree, and every leaf
//! but the spliced ones.

use crate::flat_tree::FlatTreeView;
use crate::seqs::{
    lemma_filter_all, lemma_filter_keeps, lemma_filter_one, lemma_filter_same, lemma_filter_twice,
};
use vstd::prelude::*;

verus! {

impl FlatTreeView {
    /// The children of `i` record `i` as their parent.
    pub open spec fn children_agree(self, i: int) -> bool {
        &&& self.nodes[i].left_child matches Some(l) ==> self.nodes[l].parent == Some(i)
        &&& self.nodes[i].right_child matches Some(r) ==> self.nodes[r].parent == Some(i)
    }

    /// The records from which the parent links lead to `t` are a tree under
    /// `t`: `t` has no parent, and each of them is the parent of its children.
    pub open spec fn is_tree_from(self, t: int) -> bool {
        &&& self.has(t)
        &&& self.nodes[t].parent is None
        &&& forall|i: int| self.has(i) && self.top_of(i) == t ==> #[trigger] self.children_agree(i)
    }

    /// `leaf` is a leaf of the tree under `t`.
    pub open spec fn is_leaf_under(self, leaf: int, t: int) -> bool {
        &&& self.has(leaf)
        &&& self.nodes[leaf].is_leaf()
        &&& self.top_of(leaf) == t
    }

    /// The top of the tree under `t` after the splice of `leaf`: the sibling
    /// of `leaf` where the parent of `leaf` is `t`, else `t`.
    pub open spec fn top_after(self, t: int, leaf: int) -> int {
        if self.nodes[leaf].parent == Some(t) {
            self.sibling(leaf)
        } else {
            t
        }
    }

    /// The parent links lead to a record without a parent.
    pub proof fn lemma_top_has_no_parent(self, i: int)
        requires
            self.well_formed(),
            self.has(i),
        ensures
            self.has(self.top_of(i)),
            self.nodes[self.top_of(i)].parent is None,
            self.top_of(i) <= i,
        decreases i,
    {
        assert(self.links_ok(i));
        match self.nodes[i].parent {
            Some(p) => {
                self.lemma_top_has_no_parent(p);
            },
            None => {},
        }
    }

    /// Under a top that is a leaf there is no other record.
    pub proof fn lemma_alone_under_leaf(self, t: int, i: int)
        requires
            self.well_formed(),
            self.has(i),
            self.has(t),
            self.nodes[t].is_leaf(),
            self.top_of(i) == t,
        ensures
            i == t,
        decreases i,
    {
        assert(self.links_ok(i));
        match self.nodes[i].parent {
            Some(p) => {
                self.lemma_alone_under_leaf(t, p);
            },
            None => {},
        }
    }

    /// What a splice of a leaf of the tree under `t` finds: a parent and
    /// a sibling in the tree, and the grandparent, if there is one, too.
    pub proof fn lemma_splice_finds(self, t: int, leaf: int)
        requires
            self.well_formed(),
            self.is_tree_from(t),
            self.is_leaf_under(leaf, t),
            leaf != t,
        ensures
            self.can_splice(leaf),
            ({
                let p = self.nodes[leaf].parent->0;
                let s = self.sibling(leaf);
                &&& self.has(p) && self.top_of(p) == t && p < leaf && p < s
                &&& self.has(s) && self.top_of(s) == t && s != leaf
                &&& self.nodes[s].parent == Some(p)
                &&& self.is_fork(p)
                &&& self.nodes[p].parent matches Some(g) ==> {
                    &&& self.has(g) && self.top_of(g) == t && g < p
                    &&& self.is_fork(g)
                    &&& self.is_child_of(p, g)
                }
                &&& self.nodes[p].parent is None ==> p == t
            }),
    {
        assert(self.links_ok(leaf));
        assert(self.nodes[leaf].parent is Some);
        let p = self.nodes[leaf].parent->0;
        assert(0 <= p < leaf && self.is_child_of(leaf, p));
        assert(self.top_of(leaf) == self.top_of(p));
        assert(self.links_ok(p));
        assert(self.children_agree(p));
        let l = self.nodes[p].left_child->0;
        let r = self.nodes[p].right_child->0;
        assert(self.nodes[p].left_child is Some && self.nodes[p].right_child is Some);
        assert(l != r && p < l < self.len() && p < r < self.len());
        let s = self.sibling(leaf);
        assert(s == (if l == leaf { r } else { l }));
        assert(self.nodes[s].parent == Some(p));
        assert(self.top_of(s) == self.top_of(p));
        assert(self.is_fork(p));
        match self.nodes[p].parent {
            Some(g) => {
                assert(0 <= g < p && self.is_child_of(p, g));
                assert(self.top_of(p) == self.top_of(g));
                assert(self.links_ok(g));
                assert(self.is_fork(g));
            },
            None => {
                assert(self.top_of(p) == p);
            },
        }
    }

    /// A splice of a leaf of the tree under `t` keeps the links of every
    /// record in order.
    pub proof fn lemma_splice_keeps_links(self, t: int, leaf: int)
        requires
            self.well_formed(),
            self.is_tree_from(t),
            self.is_leaf_under(leaf, t),
            leaf != t,
        ensures
            self.spliced(leaf).well_formed(),
            self.spliced(leaf).len() == self.len(),
    {
        self.lemma_splice_finds(t, leaf);
        let w = self.spliced(leaf);
        let p = self.nodes[leaf].parent->0;
        let s = self.sibling(leaf);
        assert(self.links_ok(p));
        assert(self.links_ok(s));
        assert(self.links_ok(leaf));
        assert forall|i: int| 0 <= i < w.len() implies #[trigger] w.links_ok(i) by {
            assert(self.links_ok(i));
            match self.nodes[p].parent {
                Some(g) => {
                    assert(self.links_ok(g));
                    assert(self.children_agree(g));
                },
                None => {},
            }
            match self.nodes[i].parent {
                Some(q) => {
                    assert(self.links_ok(q));
                },
                None => {},
            }
        }
    }

    /// Where the parent links lead after a splice of a leaf of the tree
    /// under `t`: from the leaf and its parent, to the parent; from every
    /// other record of the tree, to the top of the tree after the splice; from
    /// a record outside the tree, to where they led before.
    pub proof fn lemma_top_after_splice(self, t: int, leaf: int, i: int)
        requires
            self.well_formed(),
            self.is_tree_from(t),
            self.is_leaf_under(leaf, t),
            leaf != t,
            self.has(i),
        ensures
            self.spliced(leaf).top_of(i) == (if self.top_of(i) != t {
                self.top_of(i)
            } else if i == leaf || i == self.nodes[leaf].parent->0 {
                self.nodes[leaf].parent->0
            } else {
                self.top_after(t, leaf)
            }),
        decreases i,
    {
        self.lemma_splice_finds(t, leaf);
        let w = self.spliced(leaf);
        let p = self.nodes[leaf].parent->0;
        let s = self.sibling(leaf);
        assert(self.links_ok(i));
        assert(self.links_ok(p));
        match self.nodes[i].parent {
            Some(q) => {
                assert(self.links_ok(q));
                self.lemma_top_after_splice(t, leaf, q);
                if i == s {
                    match self.nodes[p].parent {
                        Some(g) => {
                            self.lemma_top_after_splice(t, leaf, g);
                        },
                        None => {},
                    }
                }
            },
            None => {},
        }
    }

    /// A splice of a leaf of the tree under `t` leaves a tree.
    pub proof fn lemma_splice_keeps_tree(self, t: int, leaf: int)
        requires
            self.well_formed(),
            self.is_tree_from(t),
            self.is_leaf_under(leaf, t),
            leaf != t,
        ensures
            self.spliced(leaf).is_tree_from(self.top_after(t, leaf)),
    {
        self.lemma_splice_finds(t, leaf);
        self.lemma_splice_keeps_links(t, leaf);
        let w = self.spliced(leaf);
        let p = self.nodes[leaf].parent->0;
        let s = self.sibling(leaf);
        let t2 = self.top_after(t, leaf);
        assert(self.links_ok(p));
        assert forall|i: int| w.has(i) && w.top_of(i) == t2 implies #[trigger] w.children_agree(
            i,
        ) by {
            self.lemma_top_after_splice(t, leaf, i);
            self.lemma_top_has_no_parent(i);
            assert(self.children_agree(i));
            assert(self.links_ok(i));
        }
    }

    /// What a splice changes for a record of the tree that is neither the
    /// leaf nor its parent: where one of its children was the parent of the
    /// leaf, that child is now the sibling of the leaf.
    pub proof fn lemma_children_after_splice(self, t: int, leaf: int, i: int)
        requires
            self.well_formed(),
            self.is_tree_from(t),
            self.is_leaf_under(leaf, t),
            leaf != t,
            self.has(i),
            self.top_of(i) == t,
            i != leaf,
            i != self.nodes[leaf].parent->0,
        ensures
            self.spliced(leaf).has(i),
            self.spliced(leaf).len() == self.len(),
            self.spliced(leaf).is_fork(i) == self.is_fork(i),
            self.spliced(leaf).nodes[i].is_leaf() == self.nodes[i].is_leaf(),
            self.is_fork(i) ==> {
                let p = self.nodes[leaf].parent->0;
                let s = self.sibling(leaf);
                let l = self.nodes[i].left_child->0;
                let r = self.nodes[i].right_child->0;
                &&& self.spliced(leaf).nodes[i].left_child == Some(if l == p { s } else { l })
                &&& self.spliced(leaf).nodes[i].right_child == Some(if r == p { s } else { r })
                &&& self.has(l) && self.top_of(l) == t && l != leaf
                &&& self.has(r) && self.top_of(r) == t && r != leaf
                &&& i < l && i < r
                &&& !(l == p && r == p)
            },
    {
        self.lemma_splice_finds(t, leaf);
        let p = self.nodes[leaf].parent->0;
        assert(self.links_ok(i));
        assert(self.links_ok(p));
        assert(self.children_agree(i));
        if self.is_fork(i) {
            let l = self.nodes[i].left_child->0;
            let r = self.nodes[i].right_child->0;
            assert(self.links_ok(l));
            assert(self.links_ok(r));
        }
    }

    /// The leaves under a record of the tree after a splice: those from
    /// before without the spliced leaf.
    pub proof fn lemma_leaves_after_splice(self, t: int, leaf: int, i: int)
        requires
            self.well_formed(),
            self.is_tree_from(t),
            self.is_leaf_under(leaf, t),
            leaf != t,
            self.has(i),
            self.top_of(i) == t,
            i != leaf,
            i != self.nodes[leaf].parent->0,
        ensures
            self.spliced(leaf).leaves_under(i) == self.leaves_under(i).filter(|x: int| x != leaf),
        decreases self.len() - i,
    {
        self.lemma_children_after_splice(t, leaf, i);
        let w = self.spliced(leaf);
        let p = self.nodes[leaf].parent->0;
        let s = self.sibling(leaf);
        let pred = |x: int| x != leaf;
        if self.is_fork(i) {
            let l = self.nodes[i].left_child->0;
            let r = self.nodes[i].right_child->0;
            Seq::filter_distributes_over_add(self.leaves_under(l), self.leaves_under(r), pred);
            self.lemma_splice_finds(t, leaf);
            if l == p {
                self.lemma_leaves_after_splice(t, leaf, s);
                self.lemma_leaves_after_splice(t, leaf, r);
                self.lemma_leaves_of_parent(t, leaf);
                assert(w.leaves_under(i) == w.leaves_under(s) + w.leaves_under(r));
            } else if r == p {
                self.lemma_leaves_after_splice(t, leaf, l);
                self.lemma_leaves_after_splice(t, leaf, s);
                self.lemma_leaves_of_parent(t, leaf);
                assert(w.leaves_under(i) == w.leaves_under(l) + w.leaves_under(s));
            } else {
                self.lemma_leaves_after_splice(t, leaf, l);
                self.lemma_leaves_after_splice(t, leaf, r);
                assert(w.leaves_under(i) == w.leaves_under(l) + w.leaves_under(r));
            }
        } else {
            lemma_filter_one(i, pred);
        }
    }

    /// Of the leaves under the parent of a leaf, those that are not that
    /// leaf are the leaves under its sibling that are not that leaf.
    pub proof fn lemma_leaves_of_parent(self, t: int, leaf: int)
        requires
            self.well_formed(),
            self.is_tree_from(t),
            self.is_leaf_under(leaf, t),
            leaf != t,
        ensures
            self.leaves_under(self.nodes[leaf].parent->0).filter(|x: int| x != leaf)
                == self.leaves_under(self.sibling(leaf)).filter(|x: int| x != leaf),
    {
        self.lemma_splice_finds(t, leaf);
        let p = self.nodes[leaf].parent->0;
        let s = self.sibling(leaf);
        let pred = |x: int| x != leaf;
        assert(self.links_ok(p));
        lemma_filter_one(leaf, pred);
        assert(self.leaves_under(leaf) == seq![leaf]);
        let l = self.nodes[p].left_child->0;
        let r = self.nodes[p].right_child->0;
        Seq::filter_distributes_over_add(self.leaves_under(l), self.leaves_under(r), pred);
        if l == leaf {
            assert(Seq::<int>::empty() + self.leaves_under(s).filter(pred) =~= self.leaves_under(
                s,
            ).filter(pred));
        } else {
            assert(self.leaves_under(s).filter(pred) + Seq::<int>::empty() =~= self.leaves_under(
                s,
            ).filter(pred));
        }
    }

    /// The leaves of the tree after a splice: those of the tree before
    /// without the spliced leaf, in their order.
    pub proof fn lemma_tree_leaves_after_splice(self, t: int, leaf: int)
        requires
            self.well_formed(),
            self.is_tree_from(t),
            self.is_leaf_under(leaf, t),
            leaf != t,
        ensures
            self.spliced(leaf).leaves_under(self.top_after(t, leaf)) == self.leaves_under(t).filter(
                |x: int| x != leaf,
            ),
    {
        self.lemma_splice_finds(t, leaf);
        let p = self.nodes[leaf].parent->0;
        let s = self.sibling(leaf);
        if p == t {
            self.lemma_leaves_after_splice(t, leaf, s);
            self.lemma_leaves_of_parent(t, leaf);
        } else {
            self.lemma_leaves_after_splice(t, leaf, t);
        }
    }

    /// Each leaf of `list` is a leaf of the tree under `t`, and none occurs
    /// twice.
    pub open spec fn are_leaves_under(self, list: Seq<int>, t: int) -> bool {
        &&& list.no_duplicates()
        &&& forall|k: int| 0 <= k < list.len() ==> self.is_leaf_under(#[trigger] list[k], t)
    }

    /// After the splice of the first leaf of `list`, the other leaves of
    /// `list` and the leaf `kept` are leaves of the tree that is left.
    pub proof fn lemma_rest_are_leaves(self, t: int, list: Seq<int>, kept: int)
        requires
            self.well_formed(),
            self.is_tree_from(t),
            self.are_leaves_under(list, t),
            self.is_leaf_under(kept, t),
            !list.contains(kept),
            list.len() > 0,
            list[0] != t,
        ensures
            self.spliced(list[0]).are_leaves_under(list.skip(1), self.top_after(t, list[0])),
            self.spliced(list[0]).is_leaf_under(kept, self.top_after(t, list[0])),
            !list.skip(1).contains(kept),
    {
        let leaf = list[0];
        let rest = list.skip(1);
        assert(self.is_leaf_under(leaf, t));
        self.lemma_splice_finds(t, leaf);
        let w = self.spliced(leaf);
        let t2 = self.top_after(t, leaf);
        assert forall|k: int| 0 <= k < rest.len() implies w.is_leaf_under(
            #[trigger] rest[k],
            t2,
        ) by {
            assert(rest[k] == list[k + 1]);
            assert(self.is_leaf_under(list[k + 1], t));
            self.lemma_top_after_splice(t, leaf, rest[k]);
        }
        assert(rest.no_duplicates()) by {
            assert forall|a: int, b: int|
                0 <= a < rest.len() && 0 <= b < rest.len() && a != b implies rest[a]
                != rest[b] by {
                assert(rest[a] == list[a + 1] && rest[b] == list[b + 1]);
            }
        }
        self.lemma_top_after_splice(t, leaf, kept);
        assert(!rest.contains(kept)) by {
            if rest.contains(kept) {
                let k = choose|k: int| 0 <= k < rest.len() && rest[k] == kept;
                assert(list[k + 1] == kept);
            }
        }
    }

    /// Splices of leaves of one tree, of which a leaf `kept` is not spliced,
    /// all find their links in order and leave a tree: its top is where the
    /// parent links lead from `kept`, and its leaves are the leaves from
    /// before without the spliced ones, in their order.
    pub proof fn lemma_splice_all(self, t: int, list: Seq<int>, kept: int)
        requires
            self.well_formed(),
            self.is_tree_from(t),
            self.are_leaves_under(list, t),
            self.is_leaf_under(kept, t),
            !list.contains(kept),
        ensures
            self.can_splice_all(list),
            self.spliced_all(list).well_formed(),
            self.spliced_all(list).len() == self.len(),
            self.spliced_all(list).is_tree_from(self.spliced_all(list).top_of(kept)),
            self.spliced_all(list).is_leaf_under(kept, self.spliced_all(list).top_of(kept)),
            self.spliced_all(list).leaves_under(self.spliced_all(list).top_of(kept))
                == self.leaves_under(t).filter(|x: int| !list.contains(x)),
        decreases list.len(),
    {
        let none = |x: int| !list.contains(x);
        if list.len() == 0 {
            assert forall|k: int| 0 <= k < self.leaves_under(t).len() implies none(
                #[trigger] self.leaves_under(t)[k],
            ) by {}
            lemma_filter_all(self.leaves_under(t), none);
        } else {
            let leaf = list[0];
            let rest = list.skip(1);
            assert(self.is_leaf_under(leaf, t));
            if leaf == t {
                self.lemma_alone_under_leaf(t, kept);
                assert(list[0] == kept);
            }
            self.lemma_splice_finds(t, leaf);
            self.lemma_splice_keeps_links(t, leaf);
            self.lemma_splice_keeps_tree(t, leaf);
            self.lemma_tree_leaves_after_splice(t, leaf);
            let w = self.spliced(leaf);
            let t2 = self.top_after(t, leaf);
            self.lemma_rest_are_leaves(t, list, kept);
            w.lemma_splice_all(t2, rest, kept);
            let other = |x: int| x != leaf;
            let later = |x: int| !rest.contains(x);
            assert forall|x: int| #[trigger] none(x) == (other(x) && later(x)) by {
                if list.contains(x) {
                    let k = choose|k: int| 0 <= k < list.len() && list[k] == x;
                    if k > 0 {
                        assert(rest[k - 1] == x);
                    }
                }
                if rest.contains(x) {
                    let k = choose|k: int| 0 <= k < rest.len() && rest[k] == x;
                    assert(list[k + 1] == x);
                }
            }
            lemma_filter_twice(self.leaves_under(t), other, later, none);
        }
    }

    /// To prune a tree to its `n` deepest leaves, for `n` of at least one,
    /// leaves a tree again, in which every record has no child or two. Its
    /// leaves are the `n` deepest leaves from before, or all leaves where
    /// there were no more than `n`, in the order that they had from left
    /// to right.
    pub proof fn lemma_pruned(self, n: int)
        requires
            self.well_formed(),
            self.is_tree_from(self.root),
            1 <= n,
        ensures
            self.can_splice_all(self.unsampled(n)),
            self.spliced_all(self.unsampled(n)).well_formed(),
            self.pruned(n).len() == self.len(),
            self.pruned(n).well_formed(),
            self.pruned(n).is_tree_from(self.pruned(n).root),
            self.pruned(n).leaves() == self.leaves().filter(|x: int| self.deepest(n).contains(x)),
            self.pruned(n).leaves().len() == (if n < self.leaves().len() {
                n
            } else {
                self.leaves().len() as int
            }),
            self.deepest(n).len() >= 1,
            self.has(self.deepest(n)[0]),
    {
        let t = self.root;
        let all = self.leaves();
        let keep = self.deepest(n);
        let gone = self.unsampled(n);
        let out = |x: int| !keep.contains(x);
        let stay = |x: int| keep.contains(x);
        self.lemma_leaves_under(t, t);
        self.lemma_deepest(n);
        lemma_filter_keeps(all, out);
        lemma_filter_keeps(all, stay);
        let kept = keep[0];
        assert(keep.contains(kept));
        assert(all.contains(kept));
        assert forall|k: int| 0 <= k < gone.len() implies self.is_leaf_under(
            #[trigger] gone[k],
            t,
        ) by {
            assert(gone.contains(gone[k]));
            let f = choose|f: int| 0 <= f < all.len() && all[f] == gone[k];
            assert(self.is_leaf_under(all[f], t));
        }
        let f = choose|f: int| 0 <= f < all.len() && all[f] == kept;
        assert(self.is_leaf_under(all[f], t));
        self.lemma_splice_all(t, gone, kept);
        let w = self.spliced_all(gone);
        let z = self.pruned(n);
        assert(z.nodes == w.nodes);
        z.lemma_same_links(w, w.top_of(kept));
        let not_gone = |x: int| !gone.contains(x);
        assert(all.filter(not_gone) == all.filter(stay)) by {
            lemma_filter_same(all, not_gone, stay);
        }
        // As many leaves stay as are kept.
        let left = all.filter(stay);
        assert(left.to_set() =~= keep.to_set()) by {
            assert forall|x: int| left.to_set().contains(x) <==> keep.to_set().contains(x) by {
                assert(left.contains(x) <==> left.to_set().contains(x));
                assert(keep.contains(x) <==> keep.to_set().contains(x));
            }
        }
        left.unique_seq_to_set();
        keep.unique_seq_to_set();
    }

    /// Every record has no child or two.
    pub open spec fn is_binary(self) -> bool {
        forall|i: int|
            0 <= i < self.len() ==> ((#[trigger] self.nodes[i]).left_child is Some
                <==> self.nodes[i].right_child is Some)
    }

    /// Splices, whatever leaves they take out, leave every record with no
    /// child or with two.
    pub proof fn lemma_splices_keep_binary(self, list: Seq<int>)
        requires
            self.is_binary(),
        ensures
            self.spliced_all(list).is_binary(),
            self.spliced_all(list).len() == self.len(),
        decreases list.len(),
    {
        if list.len() > 0 && self.can_splice(list[0]) {
            let w = self.spliced(list[0]);
            assert forall|i: int| 0 <= i < w.len() implies ((#[trigger] w.nodes[i]).left_child
                is Some <==> w.nodes[i].right_child is Some) by {
                assert(self.nodes[i].left_child is Some <==> self.nodes[i].right_child is Some);
            }
            w.lemma_splices_keep_binary(list.skip(1));
        }
    }

    /// Where the tree has no more than `n` leaves, to prune it to `n`
    /// leaves removes none and changes nothing.
    pub proof fn lemma_pruned_whole(self, n: int)
        requires
            self.well_formed(),
            self.is_tree_from(self.root),
            1 <= n,
            self.leaves().len() <= n,
        ensures
            self.unsampled(n) == Seq::<int>::empty(),
            self.pruned(n) == self,
    {
        let t = self.root;
        let all = self.leaves();
        let keep = self.deepest(n);
        let out = |x: int| !keep.contains(x);
        self.lemma_leaves_under(t, t);
        self.lemma_deepest(n);
        lemma_filter_keeps(all, out);
        let gone = self.unsampled(n);
        if gone.len() > 0 {
            assert(gone.contains(gone[0]));
            assert(all.contains(gone[0]));
        }
        assert(gone =~= Seq::<int>::empty());
        assert(keep.contains(keep[0]));
        assert(all.contains(keep[0]));
        let f = choose|f: int| 0 <= f < all.len() && all[f] == keep[0];
        assert(self.is_leaf_under(all[f], t));
    }

    /// Two trees with the same records have the same links, tops and leaves.
    pub proof fn lemma_same_links(self, other: FlatTreeView, t: int)
        requires
            self.nodes == other.nodes,
            other.well_formed(),
            other.is_tree_from(t),
            self.root == t,
        ensures
            self.well_formed(),
            self.is_tree_from(t),
            self.leaves() == other.leaves_under(t),
    {
        assert forall|i: int| 0 <= i < self.len() implies #[trigger] self.links_ok(i) by {
            assert(other.links_ok(i));
        }
        assert forall|i: int| self.has(i) implies self.top_of(i) == other.top_of(i) by {
            self.lemma_same_top(other, i);
        }
        assert forall|i: int|
            self.has(i) && self.top_of(i) == t implies #[trigger] self.children_agree(i) by {
            assert(other.children_agree(i));
        }
        self.lemma_same_leaves(other, t);
    }

    /// Two trees with the same records have the same tops.
    pub proof fn lemma_same_top(self, other: FlatTreeView, i: int)
        requires
            self.nodes == other.nodes,
        ensures
            self.top_of(i) == other.top_of(i),
        decreases i,
    {
        match self.nodes[i].parent {
            Some(p) => {
                if 0 <= p < i {
                    self.lemma_same_top(other, p);
                }
            },
            None => {},
        }
    }

    /// Two trees with the same records have the same leaves under a record.
    pub proof fn lemma_same_leaves(self, other: FlatTreeView, i: int)
        requires
            self.nodes == other.nodes,
        ensures
            self.leaves_under(i) == other.leaves_under(i),
        decreases self.len() - i,
    {
        if self.has(i) && self.is_fork(i) {
            self.lemma_same_leaves(other, self.nodes[i].left_child->0);
            self.lemma_same_leaves(other, self.nodes[i].right_child->0);
        }
    }
}

} // verus!
