//! Binary search trees without rebalancing, in two engines that do the same
//! by different means: `RecursiveBST` by recursion, `IterativeBST` by loops.
//! Both implement `BinarySearchTree`, whose contracts say, over the node graph
//! of a tree, what each operation returns and leaves behind.

pub mod cloning;
pub mod equality;
pub mod forest;
pub mod iterative;
pub mod iterative_bst;
pub mod iterative_consuming;
pub mod iterative_traversal;
pub mod laws;
pub mod node;
pub mod order;
pub mod recursive;
pub mod recursive_bst;
pub mod recursive_traversal;
pub mod search;
pub mod shape;
pub mod sorted;
pub mod tree;

pub use crate::iterative_bst::IterativeBST;
pub use crate::node::{HeapNode, Node};
pub use crate::recursive_bst::RecursiveBST;
pub use crate::tree::BinarySearchTree;
