//! The node variants and the outcome of an insertion at one level.

use crate::common_node::{CommonNode, CommonView};
use crate::leaf_node::{LeafNode, LeafView};
use vstd::prelude::*;

verus! {

/// A node of the tree.
#[derive(Debug)]
pub enum TreeNode<K, V> {
    Common(CommonNode<K>),
    Leaf(LeafNode<K, V>),
}

/// What a node holds, as plain mathematical values.
pub enum NodeView<K, V> {
    Common(CommonView<K>),
    Leaf(LeafView<K, V>),
}

impl<K, V> View for TreeNode<K, V> {
    type V = NodeView<K, V>;

    open spec fn view(&self) -> NodeView<K, V> {
        match self {
            TreeNode::Common(c) => NodeView::Common(c@),
            TreeNode::Leaf(l) => NodeView::Leaf(l@),
        }
    }
}

/// The arena as a sequence of node views.
pub open spec fn arena_view<K, V>(nodes: Seq<TreeNode<K, V>>) -> Seq<NodeView<K, V>> {
    Seq::new(nodes.len(), |i: int| nodes[i]@)
}

/// What an insertion did to the node it was sent to.
#[derive(Debug)]
pub enum InsertType<K> {
    /// The entry was stored and the node kept its place.
    Normal,
    /// The node was split: the separator, then the left and the right half.
    Split(K, usize, usize),
    /// The node's smallest entry moved to the leaf on its left; the field
    /// is the node's new smallest key.
    LeftMove(K),
    /// The node's largest entry moved to the leaf on its right; the field
    /// is the key that moved.
    RightMove(K),
}

} // verus!
