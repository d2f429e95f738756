//! The recursive tree, whose nodes own their children, and the two passes
//! between branch lengths and depths.

use vstd::prelude::*;

verus! {

/// A node of the recursive tree, which owns its children.
#[derive(Debug, PartialEq, Eq)]
pub struct Node {
    /// The name, which may be empty.
    pub name: Vec<u8>,
    /// The distance to the parent, in units (see [`crate::decimal::SCALE`]).
    pub branch_length: u64,
    /// The distance to the root, in units, once it is computed.
    pub depth: Option<u64>,
    /// The left child. A node has both children or none.
    pub left: Option<Box<Node>>,
    /// The right child.
    pub right: Option<Box<Node>>,
}

/// The mathematical value of a [`Node`].
pub ghost struct NodeView {
    pub name: Seq<u8>,
    pub branch_length: nat,
    pub depth: Option<nat>,
    pub left: Option<Box<NodeView>>,
    pub right: Option<Box<NodeView>>,
}

/// An amount or none, as a natural number.
pub open spec fn depth_view(d: Option<u64>) -> Option<nat> {
    match d {
        Some(v) => Some(v as nat),
        None => None,
    }
}

impl Node {
    /// The mathematical value of a child or of none.
    pub open spec fn child_view(c: Option<Box<Node>>) -> Option<Box<NodeView>>
        decreases c,
    {
        match c {
            Some(b) => Some(Box::new(b.model())),
            None => None,
        }
    }
}

impl Node {
    /// The mathematical value of the tree under this node.
    pub open spec fn model(self) -> NodeView
        decreases self,
    {
        NodeView {
            name: self.name@,
            branch_length: self.branch_length as nat,
            depth: depth_view(self.depth),
            left: Node::child_view(self.left),
            right: Node::child_view(self.right),
        }
    }
}

impl View for Node {
    type V = NodeView;

    open spec fn view(&self) -> NodeView {
        self.model()
    }
}

impl NodeView {
    /// The node has no child.
    pub open spec fn is_leaf(self) -> bool {
        self.left is None && self.right is None
    }

    /// The names of the leaves, from left to right. A node with one child
    /// counts as a leaf here.
    pub open spec fn leaf_names(self) -> Seq<Seq<u8>>
        decreases self,
    {
        match (self.left, self.right) {
            (Some(l), Some(r)) => l.leaf_names() + r.leaf_names(),
            _ => seq![self.name],
        }
    }

    /// Every node has no child or two.
    pub open spec fn is_binary(self) -> bool
        decreases self,
    {
        &&& self.left is Some <==> self.right is Some
        &&& self.left matches Some(l) ==> l.is_binary()
        &&& self.right matches Some(r) ==> r.is_binary()
    }

    /// The tree with the depth of each node set: `start` at this node, and
    /// at a child the depth of its parent plus the child's branch length.
    pub open spec fn with_depths(self, start: nat) -> NodeView
        decreases self,
    {
        NodeView {
            depth: Some(start),
            left: match self.left {
                Some(l) => Some(Box::new(l.with_depths(start + l.branch_length))),
                None => None,
            },
            right: match self.right {
                Some(r) => Some(Box::new(r.with_depths(start + r.branch_length))),
                None => None,
            },
            ..self
        }
    }

    /// No depth of `with_depths(start)` is beyond what a node can record.
    pub open spec fn depths_fit(self, start: nat) -> bool
        decreases self,
    {
        &&& start <= u64::MAX
        &&& self.left matches Some(l) ==> l.depths_fit(start + l.branch_length)
        &&& self.right matches Some(r) ==> r.depths_fit(start + r.branch_length)
    }

    /// Every node has a depth, which is at least the depth above it:
    /// `above` for this node, the depth of the parent for any other.
    pub open spec fn depths_ordered(self, above: nat) -> bool
        decreases self,
    {
        &&& self.depth matches Some(d)
        &&& above <= d
        &&& self.left matches Some(l) ==> l.depths_ordered(d)
        &&& self.right matches Some(r) ==> r.depths_ordered(d)
    }

    /// The tree with the branch length of each node set to its depth less
    /// the depth above it: `above` for this node, the depth of the parent for
    /// any other.
    pub open spec fn with_lengths(self, above: nat) -> NodeView
        decreases self,
    {
        let d = self.depth->0;
        NodeView {
            branch_length: (d - above) as nat,
            left: match self.left {
                Some(l) => Some(Box::new(l.with_lengths(d))),
                None => None,
            },
            right: match self.right {
                Some(r) => Some(Box::new(r.with_lengths(d))),
                None => None,
            },
            ..self
        }
    }

    /// The number of nodes of the tree.
    pub open spec fn size(self) -> nat
        decreases self,
    {
        1 + (match self.left {
            Some(l) => l.size(),
            None => 0,
        }) + (match self.right {
            Some(r) => r.size(),
            None => 0,
        })
    }
}

impl Node {
    /// Whether the node has no child.
    pub fn is_leaf(&self) -> (r: bool)
        ensures
            r == self@.is_leaf(),
    {
        self.left.is_none() && self.right.is_none()
    }

    /// Sets the branch length of this node, the root, to zero.
    pub fn zero_root_length(&mut self)
        ensures
            final(self)@ == (NodeView { branch_length: 0, ..old(self)@ }),
    {
        self.branch_length = 0;
    }

    /// Whether every depth that `assign_depths(start_depth)` would set can
    /// be recorded.
    pub fn depths_fit(&self, start_depth: u64) -> (r: bool)
        ensures
            r == self@.depths_fit(start_depth as nat),
        decreases self,
    {
        let left_fits = match &self.left {
            Some(l) => {
                assert(self@.left == Some(Box::new(l@)));
                match start_depth.checked_add(l.branch_length) {
                    Some(d) => l.depths_fit(d),
                    None => {
                        assert(!l@.depths_fit((start_depth + l.branch_length) as nat));
                        false
                    },
                }
            },
            None => true,
        };
        let right_fits = match &self.right {
            Some(r) => {
                assert(self@.right == Some(Box::new(r@)));
                match start_depth.checked_add(r.branch_length) {
                    Some(d) => r.depths_fit(d),
                    None => {
                        assert(!r@.depths_fit((start_depth + r.branch_length) as nat));
                        false
                    },
                }
            },
            None => true,
        };
        left_fits && right_fits
    }

    /// Sets the depth of this node to `start_depth`, and the depth of every
    /// other node to the depth of its parent plus its own branch length.
    pub fn assign_depths(&mut self, start_depth: u64)
        requires
            old(self)@.depths_fit(start_depth as nat),
        ensures
            final(self)@ == old(self)@.with_depths(start_depth as nat),
            final(self)@.depths_ordered(start_depth as nat),
            final(self)@.is_binary() == old(self)@.is_binary(),
        decreases *old(self),
    {
        proof {
            old(self)@.lemma_with_depths_ordered(start_depth as nat, start_depth as nat);
        }
        self.depth = Some(start_depth);
        match &mut self.left {
            Some(l) => {
                assert(l@.depths_fit((start_depth + l.branch_length) as nat));
                let d = start_depth + l.branch_length;
                l.assign_depths(d);
            },
            None => {},
        }
        match &mut self.right {
            Some(r) => {
                assert(r@.depths_fit((start_depth + r.branch_length) as nat));
                let d = start_depth + r.branch_length;
                r.assign_depths(d);
            },
            None => {},
        }
    }

    /// Whether every node has a depth that is at least the depth above it:
    /// `above` for this node, the depth of the parent for any other.
    pub fn depths_in_order(&self, above: u64) -> (r: bool)
        ensures
            r == self@.depths_ordered(above as nat),
        decreases self,
    {
        let d = match self.depth {
            Some(d) => d,
            None => {
                return false;
            },
        };
        let left_ordered = match &self.left {
            Some(l) => {
                assert(self@.left == Some(Box::new(l@)));
                l.depths_in_order(d)
            },
            None => true,
        };
        let right_ordered = match &self.right {
            Some(r) => {
                assert(self@.right == Some(Box::new(r@)));
                r.depths_in_order(d)
            },
            None => true,
        };
        above <= d && left_ordered && right_ordered
    }

    /// Sets the branch length of every node to its depth less the depth of
    /// its parent, and that of this node to its depth less `root_depth`.
    pub fn depths_to_lengths(&mut self, root_depth: u64)
        requires
            old(self)@.depths_ordered(root_depth as nat),
        ensures
            final(self)@ == old(self)@.with_lengths(root_depth as nat),
        decreases *old(self),
    {
        let d = self.depth.unwrap();
        self.branch_length = d - root_depth;
        match &mut self.left {
            Some(l) => {
                l.depths_to_lengths(d);
            },
            None => {},
        }
        match &mut self.right {
            Some(r) => {
                r.depths_to_lengths(d);
            },
            None => {},
        }
    }
}

/// A copy of `bytes`.
pub(crate) fn copy_bytes(bytes: &Vec<u8>) -> (r: Vec<u8>)
    ensures
        r@ == bytes@,
{
    let mut out: Vec<u8> = Vec::with_capacity(bytes.len());
    let mut k: usize = 0;
    while k < bytes.len()
        invariant
            k <= bytes.len(),
            out@ == bytes@.take(k as int),
        decreases bytes.len() - k,
    {
        out.push(bytes[k]);
        assert(bytes@.take(k + 1) =~= bytes@.take(k as int).push(bytes@[k as int]));
        k += 1;
    }
    assert(bytes@.take(k as int) =~= bytes@);
    out
}

} // verus!
