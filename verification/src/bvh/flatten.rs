//! The flattened tree: all nodes in one sequence, in pre-order.

use vstd::prelude::*;
use crate::bvh::builder::{BuildNode, BuildNodeInner};
use crate::primitives::aabb::AABB;

verus! {

/// What hangs below a node of the flattened tree.
#[derive(Clone, Copy, Debug, PartialEq, Eq, Structural)]
pub enum FlatNodeInner {
    /// The positions of the two children in the node sequence.
    Interior { left: usize, right: usize },
    /// The primitives `geometry_offset .. geometry_offset + num_primitives`
    /// of the reordered list.
    Leaf { geometry_offset: usize, num_primitives: usize },
}

/// A node of the flattened tree.
#[derive(Clone, Copy, Debug, PartialEq, Eq, Structural)]
pub struct FlatNode {
    pub bounds: AABB,
    pub inner: FlatNodeInner,
}

impl FlatNode {
    /// An interior node whose children stand at `left` and `right`.
    pub fn interior(bounds: AABB, left: usize, right: usize) -> (r: Self)
        ensures
            r == (FlatNode { bounds, inner: FlatNodeInner::Interior { left, right } }),
    {
        FlatNode { bounds, inner: FlatNodeInner::Interior { left, right } }
    }

    /// A leaf over the primitives
    /// `geometry_offset .. geometry_offset + num_primitives`.
    pub fn leaf(bounds: AABB, geometry_offset: usize, num_primitives: usize) -> (r: Self)
        ensures
            r == (FlatNode {
                bounds,
                inner: FlatNodeInner::Leaf { geometry_offset, num_primitives },
            }),
    {
        FlatNode { bounds, inner: FlatNodeInner::Leaf { geometry_offset, num_primitives } }
    }
}

/// The nodes of the tree rooted at `node` in pre-order (the node, its left
/// subtree, its right subtree), as they stand in a sequence in which `node`
/// itself has position `base`.
pub open spec fn preorder(node: BuildNode, base: int) -> Seq<FlatNode>
    decreases node,
{
    match node.inner {
        BuildNodeInner::Leaf { geometry_offset, num_primitives } => seq![
            FlatNode {
                bounds: node.bounds,
                inner: FlatNodeInner::Leaf { geometry_offset, num_primitives },
            },
        ],
        BuildNodeInner::Interior { left, right } => {
            let first = preorder(*left, base + 1);
            let second = preorder(*right, base + 1 + first.len());
            seq![
                FlatNode {
                    bounds: node.bounds,
                    inner: FlatNodeInner::Interior {
                        left: (base + 1) as usize,
                        right: (base + 1 + first.len()) as usize,
                    },
                },
            ] + first + second
        },
    }
}

/// Flattening makes one entry of every node.
pub proof fn lemma_preorder_len(node: BuildNode, base: int)
    ensures
        preorder(node, base).len() == node.node_count(),
    decreases node,
{
    match node.inner {
        BuildNodeInner::Leaf { .. } => {},
        BuildNodeInner::Interior { left, right } => {
            lemma_preorder_len(*left, base + 1);
            lemma_preorder_len(*right, base + 1 + preorder(*left, base + 1).len());
        },
    }
}

/// Appends the tree rooted at `node` to `tree` and returns the position of
/// its root.
pub fn flatten_impl(node: BuildNode, tree: &mut Vec<FlatNode>) -> (offset: usize)
    requires
        old(tree).len() + node.node_count() <= usize::MAX,
    ensures
        offset == old(tree).len(),
        final(tree)@ == old(tree)@ + preorder(node, old(tree).len() as int),
    decreases node,
{
    let offset = tree.len();
    proof {
        lemma_preorder_len(node, offset as int);
    }
    match node.inner {
        BuildNodeInner::Interior { left, right } => {
            proof {
                lemma_preorder_len(*left, offset + 1);
                lemma_preorder_len(*right, offset + 1 + left.node_count());
            }
            tree.push(FlatNode::interior(node.bounds, 0, 0));
            let left_idx = flatten_impl(*left, tree);
            let right_idx = flatten_impl(*right, tree);
            tree.set(offset, FlatNode::interior(node.bounds, left_idx, right_idx));
            assert(tree@ =~= old(tree)@ + preorder(node, offset as int));
        },
        BuildNodeInner::Leaf { geometry_offset, num_primitives } => {
            tree.push(FlatNode::leaf(node.bounds, geometry_offset, num_primitives));
            assert(tree@ =~= old(tree)@ + preorder(node, offset as int));
        },
    }
    offset
}

/// Lays the tree rooted at `root`, which has `size` nodes, out in pre-order.
pub fn flatten(root: BuildNode, size: usize) -> (tree: Vec<FlatNode>)
    requires
        size == root.node_count(),
    ensures
        tree@ == preorder(root, 0),
        tree.len() == size,
{
    let mut tree: Vec<FlatNode> = Vec::with_capacity(size);
    proof {
        lemma_preorder_len(root, 0);
    }
    flatten_impl(root, &mut tree);
    assert(tree@ =~= preorder(root, 0));
    tree
}

} // verus!
