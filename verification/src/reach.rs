//! Which leaves stand under which record of a tree.

use crate::flat_tree::FlatTreeView;
use vstd::prelude::*;

verus! {

impl FlatTreeView {
    /// The parent links lead from `x` to `a`, or `x` is `a`.
    pub open spec fn is_under(self, x: int, a: int) -> bool
        decreases x,
    {
        x == a || (match self.nodes[x].parent {
            Some(q) => 0 <= q < x && self.is_under(q, a),
            None => false,
        })
    }

    /// A record stands at or behind every record that it is under.
    pub proof fn lemma_under_is_behind(self, x: int, a: int)
        requires
            self.is_under(x, a),
        ensures
            a <= x,
        decreases x,
    {
        if x != a {
            self.lemma_under_is_behind(self.nodes[x].parent->0, a);
        }
    }

    /// What is under a record is under the parent of that record.
    pub proof fn lemma_under_parent(self, x: int, a: int, b: int)
        requires
            self.is_under(x, a),
            self.nodes[a].parent == Some(b),
            0 <= b < a,
        ensures
            self.is_under(x, b),
        decreases x,
    {
        if x != a {
            self.lemma_under_is_behind(x, a);
            self.lemma_under_parent(self.nodes[x].parent->0, a, b);
        } else {
            assert(self.is_under(b, b));
        }
    }

    /// No record is under both of two records that have one parent.
    pub proof fn lemma_not_under_both(self, x: int, l: int, r: int, i: int)
        requires
            l != r,
            self.nodes[l].parent == Some(i),
            self.nodes[r].parent == Some(i),
            i < l,
            i < r,
            self.is_under(x, l),
        ensures
            !self.is_under(x, r),
        decreases x,
    {
        if self.is_under(x, r) {
            if x == l {
                self.lemma_under_is_behind(i, r);
            } else if x == r {
                self.lemma_under_is_behind(i, l);
            } else {
                self.lemma_not_under_both(self.nodes[x].parent->0, l, r, i);
            }
        }
    }

    /// The leaves under a record of a tree are leaves of that tree, they are
    /// under that record, and none occurs twice.
    pub proof fn lemma_leaves_under(self, t: int, i: int)
        requires
            self.well_formed(),
            self.is_tree_from(t),
            self.has(i),
            self.top_of(i) == t,
        ensures
            self.leaves_under(i).len() >= 1,
            self.leaves_under(i).no_duplicates(),
            forall|k: int|
                0 <= k < self.leaves_under(i).len() ==> self.is_leaf_under(
                    #[trigger] self.leaves_under(i)[k],
                    t,
                ) && self.is_under(self.leaves_under(i)[k], i),
        decreases self.len() - i,
    {
        assert(self.links_ok(i));
        assert(self.children_agree(i));
        if self.is_fork(i) {
            let l = self.nodes[i].left_child->0;
            let r = self.nodes[i].right_child->0;
            assert(self.links_ok(l));
            assert(self.links_ok(r));
            self.lemma_leaves_under(t, l);
            self.lemma_leaves_under(t, r);
            let ll = self.leaves_under(l);
            let lr = self.leaves_under(r);
            let all = self.leaves_under(i);
            assert(all == ll + lr);
            assert forall|k: int| 0 <= k < all.len() implies self.is_leaf_under(
                #[trigger] all[k],
                t,
            ) && self.is_under(all[k], i) by {
                if k < ll.len() {
                    assert(all[k] == ll[k]);
                    self.lemma_under_parent(ll[k], l, i);
                } else {
                    assert(all[k] == lr[k - ll.len()]);
                    self.lemma_under_parent(lr[k - ll.len()], r, i);
                }
            }
            assert forall|a: int, b: int|
                0 <= a < all.len() && 0 <= b < all.len() && a != b implies all[a] != all[b] by {
                if a < ll.len() && b < ll.len() {
                    assert(all[a] == ll[a] && all[b] == ll[b]);
                } else if a >= ll.len() && b >= ll.len() {
                    assert(all[a] == lr[a - ll.len()] && all[b] == lr[b - ll.len()]);
                } else if a < ll.len() {
                    assert(all[a] == ll[a] && all[b] == lr[b - ll.len()]);
                    self.lemma_not_under_both(ll[a], l, r, i);
                } else {
                    assert(all[b] == ll[b] && all[a] == lr[a - ll.len()]);
                    self.lemma_not_under_both(ll[b], l, r, i);
                }
            }
        }
    }
}

} // verus!
