//! The node graph: one value and two optional, exclusively owned children.

use vstd::prelude::*;

verus! {

/// A slot for a node: the root of a tree or a child link. `None` is the empty
/// tree.
pub type HeapNode<T> = Option<Box<Node<T>>>;

/// One element of a tree. In specifications a `HeapNode<T>` is read as the
/// binary tree that it owns.
#[derive(Debug)]
pub struct Node<T> {
    pub value: T,
    pub left: HeapNode<T>,
    pub right: HeapNode<T>,
}

/// The tree with `value` at its root above `left` and `right`.
pub open spec fn join<T>(left: HeapNode<T>, value: T, right: HeapNode<T>) -> HeapNode<T> {
    Some(Box::new(Node { value, left, right }))
}

/// The tree that holds `value` alone.
pub open spec fn leaf<T>(value: T) -> HeapNode<T> {
    join(None, value, None)
}

impl<T> Node<T> {
    /// This node seen as a tree.
    pub open spec fn link(self) -> HeapNode<T> {
        Some(Box::new(self))
    }

    /// A node without children.
    pub fn new(value: T) -> (node: Node<T>)
        ensures
            node.link() == leaf(value),
    {
        Node { value, left: None, right: None }
    }
}

} // verus!
