//! The pruning of a flat tree to its deepest leaves, by splices.

use crate::flat_tree::{as_ints, FlatNodeView, FlatTree, FlatTreeView, TraversalOrder};
use vstd::prelude::*;

verus! {

/// A flat tree's links contradict each other where a splice needs them.
#[derive(Clone, Copy, Debug, PartialEq, Eq)]
pub struct InvariantViolation;

/// No leaf was asked for, and a tree without a leaf has no root.
#[derive(Clone, Copy, Debug, PartialEq, Eq)]
pub struct EmptySampleError;

impl FlatTreeView {
    /// The other child of the parent of `leaf`.
    pub open spec fn sibling(self, leaf: int) -> int {
        let p = self.nodes[leaf].parent->0;
        if self.nodes[p].left_child == Some(leaf) {
            self.nodes[p].right_child->0
        } else {
            self.nodes[p].left_child->0
        }
    }

    /// The links that a splice of `leaf` reads agree with each other.
    pub open spec fn can_splice(self, leaf: int) -> bool {
        &&& self.has(leaf)
        &&& self.nodes[leaf].is_leaf()
        &&& self.nodes[leaf].parent matches Some(p)
        &&& self.has(p)
        &&& self.nodes[p].left_child is Some
        &&& self.nodes[p].right_child is Some
        &&& self.is_child_of(leaf, p)
        &&& self.has(self.sibling(leaf))
        &&& self.sibling(leaf) != leaf
        &&& self.nodes[p].parent matches Some(g) ==> self.has(g) && self.is_child_of(p, g)
    }

    /// The tree after the splice of `leaf`: its parent is cut off, and its
    /// sibling takes the parent's place under the grandparent.
    pub open spec fn spliced(self, leaf: int) -> FlatTreeView {
        let p = self.nodes[leaf].parent->0;
        let s = self.sibling(leaf);
        let g = self.nodes[p].parent;
        let n1 = self.nodes.update(p, FlatNodeView { parent: None, ..self.nodes[p] });
        let n2 = n1.update(s, FlatNodeView { parent: g, ..n1[s] });
        let n3 = match g {
            Some(gi) => if self.nodes[gi].left_child == Some(p) {
                n2.update(gi, FlatNodeView { left_child: Some(s), ..n2[gi] })
            } else {
                n2.update(gi, FlatNodeView { right_child: Some(s), ..n2[gi] })
            },
            None => n2,
        };
        FlatTreeView { nodes: n3, root: self.root }
    }
}

/// Removes the leaf at `index` from the tree, together with its parent: the
/// parent loses its own parent, and the leaf's sibling takes the parent's
/// place under the grandparent, or becomes a top record where there is none.
/// Depths and lengths stay as they are. Where the links around the leaf
/// contradict each other, nothing is changed.
pub fn change_tree(flat_tree: &mut FlatTree, index: usize) -> (r: Result<(), InvariantViolation>)
    ensures
        r is Ok <==> old(flat_tree)@.can_splice(index as int),
        r is Ok ==> final(flat_tree)@ == old(flat_tree)@.spliced(index as int),
        r is Err ==> *final(flat_tree) == *old(flat_tree),
{
    let len = flat_tree.nodes.len();
    if index >= len {
        return Err(InvariantViolation);
    }
    if flat_tree.nodes[index].left_child.is_some() || flat_tree.nodes[index].right_child.is_some() {
        return Err(InvariantViolation);
    }
    let parent_index = match flat_tree.nodes[index].parent {
        Some(p) => p,
        None => {
            return Err(InvariantViolation);
        },
    };
    if parent_index >= len {
        return Err(InvariantViolation);
    }
    let (left, right) = match (
        flat_tree.nodes[parent_index].left_child,
        flat_tree.nodes[parent_index].right_child,
    ) {
        (Some(l), Some(r)) => (l, r),
        _ => {
            return Err(InvariantViolation);
        },
    };
    let sister_index = if left == index {
        right
    } else if right == index {
        left
    } else {
        return Err(InvariantViolation);
    };
    if sister_index >= len || sister_index == index {
        return Err(InvariantViolation);
    }
    let grandparent_index_opt = flat_tree.nodes[parent_index].parent;
    let mut parent_is_left = false;
    if let Some(grandparent_index) = grandparent_index_opt {
        if grandparent_index >= len {
            return Err(InvariantViolation);
        }
        let slot_left = flat_tree.nodes[grandparent_index].left_child;
        let slot_right = flat_tree.nodes[grandparent_index].right_child;
        if slot_left == Some(parent_index) {
            parent_is_left = true;
        } else if slot_right != Some(parent_index) {
            return Err(InvariantViolation);
        }
    }
    // The leaf and its parent leave the tree.
    flat_tree.nodes[parent_index].parent = None;
    // The sister of the leaf becomes the child of the grandparent.
    flat_tree.nodes[sister_index].parent = grandparent_index_opt;
    if let Some(grandparent_index) = grandparent_index_opt {
        if parent_is_left {
            flat_tree.nodes[grandparent_index].left_child = Some(sister_index);
        } else {
            flat_tree.nodes[grandparent_index].right_child = Some(sister_index);
        }
    }
    assert(flat_tree@.nodes =~= old(flat_tree)@.spliced(index as int).nodes);
    Ok(())
}

impl FlatTreeView {
    /// Whether each splice of `list`, made in turn, finds its links in order.
    pub open spec fn can_splice_all(self, list: Seq<int>) -> bool
        decreases list.len(),
    {
        list.len() == 0 || (self.can_splice(list[0]) && self.spliced(list[0]).can_splice_all(
            list.skip(1),
        ))
    }

    /// The tree after the splices of `list`, made in turn up to the first one
    /// that does not find its links in order.
    pub open spec fn spliced_all(self, list: Seq<int>) -> FlatTreeView
        decreases list.len(),
    {
        if list.len() == 0 || !self.can_splice(list[0]) {
            self
        } else {
            self.spliced(list[0]).spliced_all(list.skip(1))
        }
    }

    /// The depth recorded for `i`.
    pub open spec fn depth_of(self, i: int) -> nat {
        self.nodes[i].depth->0
    }

    /// `sorted` with `x` put in behind every record that is at least as deep.
    pub open spec fn placed(self, sorted: Seq<int>, x: int) -> Seq<int>
        decreases sorted.len(),
    {
        if sorted.len() == 0 || self.depth_of(sorted.last()) >= self.depth_of(x) {
            sorted.push(x)
        } else {
            self.placed(sorted.drop_last(), x).push(sorted.last())
        }
    }

    /// The records of `s` from the deepest to the shallowest; records of the
    /// same depth keep the order that they have in `s`.
    pub open spec fn by_depth(self, s: Seq<int>) -> Seq<int>
        decreases s.len(),
    {
        if s.len() == 0 {
            s
        } else {
            self.placed(self.by_depth(s.drop_last()), s.last())
        }
    }

    /// Two sequences merged into one: the last record is the last of `b`
    /// where that is no deeper than the last of `a`, else the last of `a`, and
    /// so on to the front. Of two records of one depth the one of `a` comes
    /// first.
    pub open spec fn merged(self, a: Seq<int>, b: Seq<int>) -> Seq<int>
        decreases a.len() + b.len(),
    {
        if a.len() == 0 {
            b
        } else if b.len() == 0 {
            a
        } else if self.depth_of(b.last()) <= self.depth_of(a.last()) {
            self.merged(a, b.drop_last()).push(b.last())
        } else {
            self.merged(a.drop_last(), b).push(a.last())
        }
    }

    /// The `n` deepest leaves, deepest first, or all leaves where there are
    /// fewer than `n`.
    pub open spec fn deepest(self, n: int) -> Seq<int> {
        let all = self.by_depth(self.leaves());
        if n < all.len() {
            all.take(n)
        } else {
            all
        }
    }

    /// The leaves that are not among the `n` deepest, from left to right.
    pub open spec fn unsampled(self, n: int) -> Seq<int> {
        self.leaves().filter(|x: int| !self.deepest(n).contains(x))
    }

    /// The tree that is left of this tree when only its `n` deepest leaves
    /// stay: every other leaf is spliced out, and the root is where the
    /// parent links lead from the deepest leaf.
    pub open spec fn pruned(self, n: int) -> FlatTreeView {
        let w = self.spliced_all(self.unsampled(n));
        FlatTreeView { nodes: w.nodes, root: w.top_of(self.deepest(n)[0]) }
    }

    /// Every leaf of the tree has a depth.
    pub open spec fn leaves_have_depth(self) -> bool {
        forall|k: int|
            0 <= k < self.leaves().len() ==> self.nodes[#[trigger] self.leaves()[k]].depth is Some
    }

    /// The leaves under a record are the leaves among the records that
    /// a walk in pre-order meets, in the order in which it meets them.
    pub proof fn lemma_leaves_in_traversal(self, i: int)
        ensures
            self.traversal(TraversalOrder::PreOrder, i).filter(|x: int| self.nodes[x].is_leaf())
                == self.leaves_under(i),
        decreases self.len() - i,
    {
        reveal_with_fuel(Seq::filter, 3);
        let pred = |x: int| self.nodes[x].is_leaf();
        if self.has(i) {
            assert(seq![i].drop_last() =~= Seq::<int>::empty());
            assert(seq![i].last() == i);
            if self.is_fork(i) {
                let l = self.nodes[i].left_child->0;
                let r = self.nodes[i].right_child->0;
                self.lemma_leaves_in_traversal(l);
                self.lemma_leaves_in_traversal(r);
                let tl = self.traversal(TraversalOrder::PreOrder, l);
                let tr = self.traversal(TraversalOrder::PreOrder, r);
                Seq::filter_distributes_over_add(seq![i], tl, pred);
                Seq::filter_distributes_over_add(seq![i] + tl, tr, pred);
                assert(seq![i].filter(pred) =~= Seq::<int>::empty());
                assert(seq![i].filter(pred) + tl.filter(pred) =~= tl.filter(pred));
            } else {
                if self.nodes[i].is_leaf() {
                    assert(seq![i].filter(pred) =~= seq![i]);
                } else {
                    assert(seq![i].filter(pred) =~= Seq::<int>::empty());
                }
            }
        }
    }

    /// The leaves under a record are existing records.
    pub proof fn lemma_visited_leaves_exist(self, i: int)
        ensures
            forall|j: int|
                0 <= j < self.leaves_under(i).len() ==> self.has(
                    #[trigger] self.leaves_under(i)[j],
                ),
        decreases self.len() - i,
    {
        if self.has(i) && self.is_fork(i) {
            let l = self.leaves_under(self.nodes[i].left_child->0);
            let r = self.leaves_under(self.nodes[i].right_child->0);
            self.lemma_visited_leaves_exist(self.nodes[i].left_child->0);
            self.lemma_visited_leaves_exist(self.nodes[i].right_child->0);
            let t = self.leaves_under(i);
            assert forall|j: int| 0 <= j < t.len() implies self.has(#[trigger] t[j]) by {
                if j < l.len() {
                    assert(t[j] == l[j]);
                } else {
                    assert(t[j] == r[j - l.len()]);
                }
            }
        }
    }
}

/// The indices of all leaves that can be reached from the root, from left to
/// right.
pub fn find_all_leaves(flat_tree: &FlatTree) -> (r: Vec<usize>)
    requires
        flat_tree@.well_formed(),
    ensures
        as_ints(r@) == flat_tree@.leaves(),
{
    let order = flat_tree.iter(TraversalOrder::PreOrder);
    let ghost pred = |x: int| flat_tree@.nodes[x].is_leaf();
    let ghost visited = flat_tree@.traversal(TraversalOrder::PreOrder, flat_tree@.root);
    let mut leaves: Vec<usize> = Vec::new();
    let mut k: usize = 0;
    proof {
        reveal(Seq::filter);
        flat_tree@.lemma_visited_exist(TraversalOrder::PreOrder, flat_tree@.root);
        assert(visited.take(0) =~= Seq::<int>::empty());
    }
    while k < order.len()
        invariant
            k <= order.len(),
            as_ints(order@) == visited,
            pred == |x: int| flat_tree@.nodes[x].is_leaf(),
            forall|j: int| 0 <= j < visited.len() ==> flat_tree@.has(#[trigger] visited[j]),
            as_ints(leaves@) == visited.take(k as int).filter(pred),
        decreases order.len() - k,
    {
        let i = order[k];
        assert(visited[k as int] == i as int);
        proof {
            reveal(Seq::filter);
            assert(visited.take(k + 1).drop_last() =~= visited.take(k as int));
        }
        if flat_tree.nodes[i].is_leaf() {
            leaves.push(i);
            assert(as_ints(leaves@) =~= visited.take(k + 1).filter(pred));
        }
        k += 1;
    }
    proof {
        assert(visited.take(k as int) =~= visited);
        flat_tree@.lemma_leaves_in_traversal(flat_tree@.root);
    }
    leaves
}

/// Every record of `list` is a record of the tree with a depth.
pub open spec fn have_depth(tree: FlatTreeView, list: Seq<usize>) -> bool {
    forall|k: int|
        0 <= k < list.len() ==> tree.has(#[trigger] list[k] as int) && tree.nodes[list[k] as int]
            .depth is Some
}

/// Merges two sequences of records, each of which runs from deep to shallow,
/// into one that does.
fn merge_by_depth(flat_tree: &FlatTree, left: &Vec<usize>, right: &Vec<usize>) -> (r: Vec<usize>)
    requires
        have_depth(flat_tree@, left@),
        have_depth(flat_tree@, right@),
        left@.len() + right@.len() <= usize::MAX,
    ensures
        as_ints(r@) == flat_tree@.merged(as_ints(left@), as_ints(right@)),
        r@.len() == left@.len() + right@.len(),
        have_depth(flat_tree@, r@),
{
    let n = left.len() + right.len();
    let mut out: Vec<usize> = vec![0; n];
    let mut i = left.len();
    let mut j = right.len();
    let mut k = n;
    let ghost a = as_ints(left@);
    let ghost b = as_ints(right@);
    proof {
        assert(a.take(i as int) =~= a);
        assert(b.take(j as int) =~= b);
        assert(as_ints(out@).skip(k as int) =~= Seq::<int>::empty());
        assert(flat_tree@.merged(a, b) + Seq::<int>::empty() =~= flat_tree@.merged(a, b));
    }
    while k > 0
        invariant
            i <= left@.len(),
            j <= right@.len(),
            i + j == k,
            out@.len() == n,
            n == left@.len() + right@.len(),
            a == as_ints(left@),
            b == as_ints(right@),
            have_depth(flat_tree@, left@),
            have_depth(flat_tree@, right@),
            flat_tree@.merged(a, b) == flat_tree@.merged(a.take(i as int), b.take(j as int))
                + as_ints(out@).skip(k as int),
            forall|m: int|
                k <= m < n ==> flat_tree@.has(#[trigger] out@[m] as int)
                    && flat_tree@.nodes[out@[m] as int].depth is Some,
        decreases k,
    {
        let ghost tail = as_ints(out@).skip(k as int);
        let ghost front_a = a.take(i as int);
        let ghost front_b = b.take(j as int);
        let from_right = if i == 0 {
            true
        } else if j == 0 {
            false
        } else {
            assert(front_a.last() == left@[i - 1] as int);
            assert(front_b.last() == right@[j - 1] as int);
            depth_at(flat_tree, right[j - 1]) <= depth_at(flat_tree, left[i - 1])
        };
        k = k - 1;
        if from_right {
            j = j - 1;
            out[k] = right[j];
            proof {
                assert(front_b.drop_last() =~= b.take(j as int));
                assert(front_b.last() == right@[j as int] as int);
                if i == 0 {
                    assert(front_b.drop_last().push(front_b.last()) =~= front_b);
                    assert(flat_tree@.merged(front_a, b.take(j as int)) == b.take(j as int));
                }
                assert(as_ints(out@).skip(k as int) =~= seq![right@[j as int] as int] + tail);
                assert(flat_tree@.merged(front_a, front_b) + tail =~= flat_tree@.merged(
                    front_a,
                    b.take(j as int),
                ) + as_ints(out@).skip(k as int));
            }
        } else {
            i = i - 1;
            out[k] = left[i];
            proof {
                assert(front_a.drop_last() =~= a.take(i as int));
                assert(front_a.last() == left@[i as int] as int);
                if j == 0 {
                    assert(front_a.drop_last().push(front_a.last()) =~= front_a);
                    assert(flat_tree@.merged(a.take(i as int), front_b) == a.take(i as int));
                }
                assert(as_ints(out@).skip(k as int) =~= seq![left@[i as int] as int] + tail);
                assert(flat_tree@.merged(front_a, front_b) + tail =~= flat_tree@.merged(
                    a.take(i as int),
                    front_b,
                ) + as_ints(out@).skip(k as int));
            }
        }
    }
    proof {
        assert(a.take(0) =~= Seq::<int>::empty());
        assert(as_ints(out@).skip(0) =~= as_ints(out@));
        assert(Seq::<int>::empty() + as_ints(out@) =~= as_ints(out@));
    }
    out
}

/// The records of `items` from `lo` up to `hi`, from the deepest to the
/// shallowest; records of one depth keep their order.
fn sort_by_depth(flat_tree: &FlatTree, items: &Vec<usize>, lo: usize, hi: usize) -> (r: Vec<usize>)
    requires
        lo <= hi <= items@.len(),
        have_depth(flat_tree@, items@),
    ensures
        as_ints(r@) == flat_tree@.by_depth(as_ints(items@).subrange(lo as int, hi as int)),
        r@.len() == hi - lo,
        have_depth(flat_tree@, r@),
    decreases hi - lo,
{
    let ghost part = as_ints(items@).subrange(lo as int, hi as int);
    if hi - lo == 0 {
        let r: Vec<usize> = Vec::new();
        assert(as_ints(r@) =~= flat_tree@.by_depth(part));
        r
    } else if hi - lo == 1 {
        let mut r: Vec<usize> = Vec::new();
        r.push(items[lo]);
        proof {
            assert(part.drop_last() =~= Seq::<int>::empty());
            assert(part.last() == items@[lo as int] as int);
            assert(flat_tree@.by_depth(part.drop_last()) =~= Seq::<int>::empty());
            assert(as_ints(r@) =~= Seq::<int>::empty().push(part.last()));
        }
        r
    } else {
        let middle = lo + (hi - lo) / 2;
        let left = sort_by_depth(flat_tree, items, lo, middle);
        let right = sort_by_depth(flat_tree, items, middle, hi);
        proof {
            let first = as_ints(items@).subrange(lo as int, middle as int);
            let second = as_ints(items@).subrange(middle as int, hi as int);
            assert(first + second =~= part);
            flat_tree@.lemma_by_depth_of_joined(first, second);
        }
        merge_by_depth(flat_tree, &left, &right)
    }
}

/// The indices of the `nb_leaves` deepest leaves, deepest first; leaves of the
/// same depth come in their order from left to right. Where the tree has
/// fewer leaves, all of them are given.
pub fn find_deepest_nodes(flat_tree: &FlatTree, nb_leaves: usize) -> (r: Vec<usize>)
    requires
        flat_tree@.well_formed(),
        flat_tree@.leaves_have_depth(),
    ensures
        as_ints(r@) == flat_tree@.deepest(nb_leaves as int),
{
    let leaves = find_all_leaves(flat_tree);
    let ghost all = flat_tree@.leaves();
    proof {
        flat_tree@.lemma_visited_leaves_exist(flat_tree@.root);
        assert forall|k: int| 0 <= k < leaves@.len() implies flat_tree@.has(
            #[trigger] leaves@[k] as int,
        ) && flat_tree@.nodes[leaves@[k] as int].depth is Some by {
            assert(all[k] == leaves@[k] as int);
        }
        assert(all.subrange(0, leaves@.len() as int) =~= all);
    }
    // Sort by depth in descending order.
    let mut sorted = sort_by_depth(flat_tree, &leaves, 0, leaves.len());
    // Take the `nb_leaves` deepest.
    if nb_leaves < sorted.len() {
        sorted.truncate(nb_leaves);
        assert(as_ints(sorted@) =~= flat_tree@.by_depth(all).take(nb_leaves as int));
    }
    sorted
}

/// The depth recorded for `i`.
fn depth_at(flat_tree: &FlatTree, i: usize) -> (d: u64)
    requires
        flat_tree@.has(i as int),
        flat_tree@.nodes[i as int].depth is Some,
    ensures
        d == flat_tree@.depth_of(i as int),
{
    flat_tree.nodes[i].depth.unwrap()
}

/// Whether `x` occurs in `list`.
fn contains(list: &Vec<usize>, x: usize) -> (r: bool)
    ensures
        r == list@.contains(x),
{
    let mut k: usize = 0;
    while k < list.len()
        invariant
            k <= list.len(),
            forall|j: int| 0 <= j < k ==> list@[j] != x,
        decreases list.len() - k,
    {
        if list[k] == x {
            return true;
        }
        k += 1;
    }
    false
}

/// The leaves that were not sampled: those of `leaves` that do not occur in
/// `sampled_leaves`, in the order of `leaves`.
pub fn leaves_to_be_removed(leaves: &Vec<usize>, sampled_leaves: &Vec<usize>) -> (r: Vec<usize>)
    ensures
        r@ == leaves@.filter(|x: usize| !sampled_leaves@.contains(x)),
{
    let ghost pred = |x: usize| !sampled_leaves@.contains(x);
    let mut out: Vec<usize> = Vec::new();
    let mut k: usize = 0;
    proof {
        reveal(Seq::filter);
        assert(leaves@.take(0) =~= Seq::<usize>::empty());
    }
    while k < leaves.len()
        invariant
            k <= leaves.len(),
            pred == |x: usize| !sampled_leaves@.contains(x),
            out@ == leaves@.take(k as int).filter(pred),
        decreases leaves.len() - k,
    {
        let x = leaves[k];
        proof {
            reveal(Seq::filter);
            assert(leaves@.take(k + 1).drop_last() =~= leaves@.take(k as int));
        }
        if !contains(sampled_leaves, x) {
            out.push(x);
        }
        k += 1;
    }
    proof {
        assert(leaves@.take(k as int) =~= leaves@);
    }
    out
}

/// The record without a parent that is reached from `true_leaf` by going from
/// parent to parent.
pub fn find_root(flat_tree: &FlatTree, true_leaf: usize) -> (r: usize)
    requires
        flat_tree@.well_formed(),
        flat_tree@.has(true_leaf as int),
    ensures
        r as int == flat_tree@.top_of(true_leaf as int),
{
    let mut current_node = true_leaf;
    loop
        invariant
            flat_tree@.well_formed(),
            flat_tree@.has(current_node as int),
            flat_tree@.top_of(current_node as int) == flat_tree@.top_of(true_leaf as int),
        ensures
            flat_tree@.nodes[current_node as int].parent is None,
        decreases current_node,
    {
        proof {
            assert(flat_tree@.links_ok(current_node as int));
        }
        match flat_tree.nodes[current_node].parent {
            Some(parent) => {
                current_node = parent;
            },
            None => {
                break ;
            },
        }
    }
    current_node
}

/// Whether the children of record `i` record `i` as their parent.
fn children_agree(flat_tree: &FlatTree, i: usize) -> (r: bool)
    requires
        flat_tree@.well_formed(),
        flat_tree@.has(i as int),
    ensures
        r == flat_tree@.children_agree(i as int),
{
    proof {
        assert(flat_tree@.links_ok(i as int));
    }
    let left_agrees = match flat_tree.nodes[i].left_child {
        Some(l) => flat_tree.nodes[l].parent == Some(i),
        None => true,
    };
    let right_agrees = match flat_tree.nodes[i].right_child {
        Some(r) => flat_tree.nodes[r].parent == Some(i),
        None => true,
    };
    left_agrees && right_agrees
}

/// Whether the records from which the parent links lead to the root are
/// a tree under the root, in a flat tree that is well formed.
pub fn is_tree(flat_tree: &FlatTree) -> (r: bool)
    ensures
        r == (flat_tree@.well_formed() && flat_tree@.is_tree_from(flat_tree@.root)),
{
    if !flat_tree.is_well_formed() {
        return false;
    }
    if flat_tree.nodes[flat_tree.root].parent.is_some() {
        return false;
    }
    let mut i: usize = 0;
    while i < flat_tree.nodes.len()
        invariant
            i <= flat_tree.nodes@.len(),
            flat_tree@.well_formed(),
            forall|j: int|
                0 <= j < i && flat_tree@.top_of(j) == flat_tree@.root
                    ==> #[trigger] flat_tree@.children_agree(j),
        decreases flat_tree.nodes@.len() - i,
    {
        if find_root(flat_tree, i) == flat_tree.root && !children_agree(flat_tree, i) {
            return false;
        }
        i += 1;
    }
    true
}

/// Splices out the leaves of `list_indexes`, one after the other. It stops at
/// the first leaf whose links contradict each other.
pub fn remove_all_unsampled(flat_tree: &mut FlatTree, list_indexes: &Vec<usize>) -> (r: Result<
    (),
    InvariantViolation,
>)
    ensures
        r is Ok <==> old(flat_tree)@.can_splice_all(as_ints(list_indexes@)),
        final(flat_tree)@ == old(flat_tree)@.spliced_all(as_ints(list_indexes@)),
{
    let ghost list = as_ints(list_indexes@);
    let mut k: usize = 0;
    proof {
        assert(list.skip(0) =~= list);
    }
    while k < list_indexes.len()
        invariant
            k <= list_indexes.len(),
            list == as_ints(list_indexes@),
            old(flat_tree)@.can_splice_all(list) <==> flat_tree@.can_splice_all(
                list.skip(k as int),
            ),
            old(flat_tree)@.spliced_all(list) == flat_tree@.spliced_all(list.skip(k as int)),
        decreases list_indexes.len() - k,
    {
        proof {
            assert(list.skip(k as int)[0] == list_indexes@[k as int] as int);
            assert(list.skip(k as int).skip(1) =~= list.skip(k + 1));
        }
        match change_tree(flat_tree, list_indexes[k]) {
            Ok(()) => {},
            Err(e) => {
                return Err(e);
            },
        }
        k += 1;
    }
    Ok(())
}

/// In integers, the leaves that are not sampled are the leaves filtered by
/// the sampled ones in integers.
proof fn lemma_unsampled_as_ints(leaves: Seq<usize>, sampled: Seq<usize>)
    ensures
        as_ints(leaves.filter(|x: usize| !sampled.contains(x))) == as_ints(leaves).filter(
            |x: int| !as_ints(sampled).contains(x),
        ),
    decreases leaves.len(),
{
    reveal(Seq::filter);
    let narrow = |x: usize| !sampled.contains(x);
    let wide = |x: int| !as_ints(sampled).contains(x);
    if leaves.len() == 0 {
        assert(as_ints(leaves.filter(narrow)) =~= as_ints(leaves).filter(wide));
    } else {
        let front = leaves.drop_last();
        let last = leaves.last();
        lemma_unsampled_as_ints(front, sampled);
        assert(as_ints(leaves).drop_last() =~= as_ints(front));
        assert(as_ints(leaves).last() == last as int);
        assert(narrow(last) == wide(last as int)) by {
            if sampled.contains(last) {
                let k = choose|k: int| 0 <= k < sampled.len() && sampled[k] == last;
                assert(as_ints(sampled)[k] == last as int);
            }
            if as_ints(sampled).contains(last as int) {
                let k = choose|k: int|
                    0 <= k < as_ints(sampled).len() && as_ints(sampled)[k] == last as int;
                assert(sampled[k] == last);
            }
        }
        if narrow(last) {
            assert(as_ints(front.filter(narrow).push(last)) =~= as_ints(front.filter(narrow)).push(
                last as int,
            ));
        }
    }
}

/// Prunes the tree to its `nb_leaves` deepest leaves: every other leaf is
/// spliced out, and the root becomes the record that the parent links lead
/// to from the deepest leaf. It gives the indices of the leaves that stay,
/// deepest first, and of those that were removed, from left to right. Where
/// the tree has no more than `nb_leaves` leaves, all stay. Where no leaf is
/// asked for, nothing is changed.
pub fn prune_to_deepest(flat_tree: &mut FlatTree, nb_leaves: usize) -> (r: Result<
    (Vec<usize>, Vec<usize>),
    EmptySampleError,
>)
    requires
        old(flat_tree)@.well_formed(),
        old(flat_tree)@.is_tree_from(old(flat_tree)@.root),
        old(flat_tree)@.leaves_have_depth(),
    ensures
        r is Err <==> nb_leaves == 0,
        r is Err ==> *final(flat_tree) == *old(flat_tree),
        r matches Ok((sampled, removed)) ==> {
            &&& as_ints(sampled@) == old(flat_tree)@.deepest(nb_leaves as int)
            &&& as_ints(removed@) == old(flat_tree)@.unsampled(nb_leaves as int)
            &&& final(flat_tree)@ == old(flat_tree)@.pruned(nb_leaves as int)
            &&& final(flat_tree)@.well_formed()
            &&& final(flat_tree)@.is_tree_from(final(flat_tree)@.root)
            &&& final(flat_tree)@.leaves() == old(flat_tree)@.leaves().filter(
                |x: int| old(flat_tree)@.deepest(nb_leaves as int).contains(x),
            )
            &&& old(flat_tree)@.depths_ordered() ==> final(flat_tree)@.depths_ordered()
            &&& old(flat_tree)@.same_labels(final(flat_tree)@)
            &&& sampled@.len() >= 1
            &&& forall|k: int|
                0 <= k < sampled@.len() ==> old(flat_tree)@.has(#[trigger] sampled@[k] as int)
            &&& forall|k: int|
                0 <= k < removed@.len() ==> old(flat_tree)@.has(#[trigger] removed@[k] as int)
        },
{
    if nb_leaves == 0 {
        return Err(EmptySampleError);
    }
    let sampled_leaves = find_deepest_nodes(flat_tree, nb_leaves);
    let leaves = find_all_leaves(flat_tree);
    let to_remove = leaves_to_be_removed(&leaves, &sampled_leaves);
    proof {
        lemma_unsampled_as_ints(leaves@, sampled_leaves@);
        old(flat_tree)@.lemma_pruned(nb_leaves as int);
        old(flat_tree)@.lemma_pruned_labels(nb_leaves as int);
        assert(as_ints(sampled_leaves@)[0] == sampled_leaves@[0] as int);
    }
    let spliced = remove_all_unsampled(flat_tree, &to_remove);
    assert(spliced is Ok);
    let root = find_root(flat_tree, sampled_leaves[0]);
    flat_tree.root = root;
    assert(flat_tree@ == old(flat_tree)@.pruned(nb_leaves as int));
    proof {
        let tree = old(flat_tree)@;
        let keep = tree.deepest(nb_leaves as int);
        let gone = tree.unsampled(nb_leaves as int);
        tree.lemma_visited_leaves_exist(tree.root);
        tree.lemma_leaves_under(tree.root, tree.root);
        tree.lemma_deepest(nb_leaves as int);
        crate::seqs::lemma_filter_keeps(tree.leaves(), |x: int| !keep.contains(x));
        assert forall|k: int| 0 <= k < sampled_leaves@.len() implies tree.has(
            #[trigger] sampled_leaves@[k] as int,
        ) by {
            assert(keep[k] == sampled_leaves@[k] as int);
            assert(keep.contains(keep[k]));
            assert(tree.leaves().contains(keep[k]));
        }
        assert forall|k: int| 0 <= k < to_remove@.len() implies tree.has(
            #[trigger] to_remove@[k] as int,
        ) by {
            assert(gone[k] == to_remove@[k] as int);
            assert(gone.contains(gone[k]));
            assert(tree.leaves().contains(gone[k]));
        }
    }
    Ok((sampled_leaves, to_remove))
}

} // verus!
