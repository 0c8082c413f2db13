//! The recursive partition-tree structure: a binary tree whose leaves
//! own bounded sets of vector-store indices and whose branches own a
//! splitting hyperplane and two child subtrees.

use vstd::prelude::*;

use crate::hyperplane::HyperPlane;

verus! {

/// A tree node: exactly a leaf or a branch, with exclusive, tree-shaped
/// ownership of its children.
pub enum TreeNode {
    Branch(Box<InnerNode>),
    Leaf(Box<LeafNode>),
}

/// A terminal node owning an ordered sequence of vector-store indices.
pub struct LeafNode {
    pub value: Vec<usize>,
}

/// An internal node owning one hyperplane and the two subtrees it
/// separates: `left_node` below the plane, `right_node` above it.
pub struct InnerNode {
    pub hyperplane: HyperPlane,
    pub left_node: TreeNode,
    pub right_node: TreeNode,
}

impl View for LeafNode {
    type V = Seq<usize>;

    open spec fn view(&self) -> Seq<usize> {
        self.value@
    }
}

/// Every vector-store index reachable in the tree, leaves concatenated
/// left to right.
pub open spec fn tree_indices(t: TreeNode) -> Seq<usize>
    decreases t,
{
    match t {
        TreeNode::Leaf(l) => l.value@,
        TreeNode::Branch(b) => tree_indices(b.left_node) + tree_indices(b.right_node),
    }
}

/// Whether every branch's plane has a normal of dimensionality `dim`.
pub open spec fn tree_dims_ok(t: TreeNode, dim: int) -> bool
    decreases t,
{
    match t {
        TreeNode::Leaf(_) => true,
        TreeNode::Branch(b) => {
            &&& b.hyperplane.coefficients@.len() == dim
            &&& tree_dims_ok(b.left_node, dim)
            &&& tree_dims_ok(b.right_node, dim)
        },
    }
}

/// Whether every leaf index addresses a store of `count` vectors.
pub open spec fn tree_indices_ok(t: TreeNode, count: int) -> bool
    decreases t,
{
    match t {
        TreeNode::Leaf(l) => forall|i: int| 0 <= i < l.value@.len() ==> (l.value@[i] as int) < count,
        TreeNode::Branch(b) => tree_indices_ok(b.left_node, count) && tree_indices_ok(
            b.right_node,
            count,
        ),
    }
}

/// Structural soundness of a tree over a store of `count` vectors of
/// dimensionality `dim`: every leaf index addresses the store, and every
/// branch's plane has a normal of the store's dimensionality.
pub open spec fn tree_wf(t: TreeNode, dim: int, count: int) -> bool {
    tree_dims_ok(t, dim) && tree_indices_ok(t, count)
}

/// Whether every leaf of the tree holds at most `max` indices.
pub open spec fn tree_leaf_bound(t: TreeNode, max: int) -> bool
    decreases t,
{
    match t {
        TreeNode::Leaf(l) => l.value@.len() <= max,
        TreeNode::Branch(b) => tree_leaf_bound(b.left_node, max) && tree_leaf_bound(
            b.right_node,
            max,
        ),
    }
}

impl LeafNode {
    /// Wrap an index sequence as a leaf.
    pub fn new(value: Vec<usize>) -> (r: Self)
        ensures
            r@ == value@,
    {
        Self { value }
    }

    /// A copy of the leaf's index sequence.
    pub fn value(&self) -> (r: Vec<usize>)
        ensures
            r@ == self@,
    {
        self.value.clone()
    }
}

impl InnerNode {
    /// Assemble a branch from its plane and the below/above subtrees.
    pub fn new(hyperplane: HyperPlane, left_node: TreeNode, right_node: TreeNode) -> (r: Self)
        ensures
            r.hyperplane == hyperplane,
            r.left_node == left_node,
            r.right_node == right_node,
    {
        Self { hyperplane, left_node, right_node }
    }

    /// The branch's splitting plane.
    pub fn hyperplane(&self) -> (r: &HyperPlane)
        ensures
            *r == self.hyperplane,
    {
        &self.hyperplane
    }

    /// The subtree below the plane.
    pub fn left(&self) -> (r: &TreeNode)
        ensures
            *r == self.left_node,
    {
        &self.left_node
    }

    /// The subtree on or above the plane.
    pub fn right(&self) -> (r: &TreeNode)
        ensures
            *r == self.right_node,
    {
        &self.right_node
    }
}

} // verus!
