//! What a tree looks like: how many nodes it has, how high it is, and the four
//! orders in which its values can be listed. None of this depends on how the
//! values compare.

use crate::node::{join, HeapNode, Node};
use vstd::prelude::*;

verus! {

/// The number of nodes.
pub open spec fn count<T>(tree: HeapNode<T>) -> nat
    decreases tree,
{
    match tree {
        None => 0,
        Some(node) => 1 + count(node.left) + count(node.right),
    }
}

/// The number of edges from the root to the deepest node; `-1` for the empty
/// tree, so that a single node has height `0`.
pub open spec fn height<T>(tree: HeapNode<T>) -> int
    decreases tree,
{
    match tree {
        None => -1,
        Some(node) => {
            let l = height(node.left);
            let r = height(node.right);
            1 + if l >= r { l } else { r }
        },
    }
}

/// Node, left subtree, right subtree.
pub open spec fn pre_order<T>(tree: HeapNode<T>) -> Seq<T>
    decreases tree,
{
    match tree {
        None => Seq::empty(),
        Some(node) => seq![node.value] + pre_order(node.left) + pre_order(node.right),
    }
}

/// Left subtree, node, right subtree.
pub open spec fn in_order<T>(tree: HeapNode<T>) -> Seq<T>
    decreases tree,
{
    match tree {
        None => Seq::empty(),
        Some(node) => in_order(node.left) + seq![node.value] + in_order(node.right),
    }
}

/// Left subtree, right subtree, node.
pub open spec fn post_order<T>(tree: HeapNode<T>) -> Seq<T>
    decreases tree,
{
    match tree {
        None => Seq::empty(),
        Some(node) => post_order(node.left) + post_order(node.right) + seq![node.value],
    }
}

/// The values that lie `depth` edges below the root, from left to right.
pub open spec fn level<T>(tree: HeapNode<T>, depth: nat) -> Seq<T>
    decreases tree,
{
    match tree {
        None => Seq::empty(),
        Some(node) => if depth == 0 {
            seq![node.value]
        } else {
            level(node.left, (depth - 1) as nat) + level(node.right, (depth - 1) as nat)
        },
    }
}

/// A level by its number, counted from 1 for the root's level; a number
/// below 1 names no level.
pub open spec fn level_at<T>(tree: HeapNode<T>, number: int) -> Seq<T> {
    if number >= 1 {
        level(tree, (number - 1) as nat)
    } else {
        Seq::empty()
    }
}

/// The first `n` levels, one after the other.
pub open spec fn levels<T>(tree: HeapNode<T>, n: nat) -> Seq<T>
    decreases n,
{
    if n == 0 {
        Seq::empty()
    } else {
        levels(tree, (n - 1) as nat) + level(tree, (n - 1) as nat)
    }
}

/// The levels from `depth` down to the deepest, one after the other.
pub open spec fn levels_from<T>(tree: HeapNode<T>, depth: nat) -> Seq<T>
    decreases height(tree) + 1 - depth,
{
    if depth > height(tree) {
        Seq::empty()
    } else {
        level(tree, depth) + levels_from(tree, depth + 1)
    }
}

/// Breadth first: the root, then each level from left to right.
pub open spec fn level_order<T>(tree: HeapNode<T>) -> Seq<T> {
    levels(tree, (height(tree) + 1) as nat)
}

/// The value reached by following left children to the end.
pub open spec fn leftmost<T>(tree: HeapNode<T>) -> Option<T>
    decreases tree,
{
    match tree {
        None => None,
        Some(node) => if node.left is None {
            Some(node.value)
        } else {
            leftmost(node.left)
        },
    }
}

/// The value reached by following right children to the end.
pub open spec fn rightmost<T>(tree: HeapNode<T>) -> Option<T>
    decreases tree,
{
    match tree {
        None => None,
        Some(node) => if node.right is None {
            Some(node.value)
        } else {
            rightmost(node.right)
        },
    }
}

/// The tree after its leftmost node is detached and that node's right child
/// has taken its place.
pub open spec fn without_leftmost<T>(tree: HeapNode<T>) -> HeapNode<T>
    decreases tree,
{
    match tree {
        None => None,
        Some(node) => if node.left is None {
            node.right
        } else {
            join(without_leftmost(node.left), node.value, node.right)
        },
    }
}

/// The tree after its rightmost node is detached and that node's left child
/// has taken its place.
pub open spec fn without_rightmost<T>(tree: HeapNode<T>) -> HeapNode<T>
    decreases tree,
{
    match tree {
        None => None,
        Some(node) => if node.right is None {
            node.left
        } else {
            join(node.left, node.value, without_rightmost(node.right))
        },
    }
}

/// The height of a tree is below its number of nodes.
pub proof fn lemma_height_below_count<T>(tree: HeapNode<T>)
    ensures
        -1 <= height(tree) < count(tree),
        height(tree) == -1 <==> tree is None,
    decreases tree,
{
    if let Some(node) = tree {
        lemma_height_below_count(node.left);
        lemma_height_below_count(node.right);
    }
}

/// Pre-order lists every node once.
pub proof fn lemma_pre_order_len<T>(tree: HeapNode<T>)
    ensures
        pre_order(tree).len() == count(tree),
    decreases tree,
{
    if let Some(node) = tree {
        lemma_pre_order_len(node.left);
        lemma_pre_order_len(node.right);
    }
}

/// In-order lists every node once.
pub proof fn lemma_in_order_len<T>(tree: HeapNode<T>)
    ensures
        in_order(tree).len() == count(tree),
    decreases tree,
{
    if let Some(node) = tree {
        lemma_in_order_len(node.left);
        lemma_in_order_len(node.right);
    }
}

/// Post-order lists every node once.
pub proof fn lemma_post_order_len<T>(tree: HeapNode<T>)
    ensures
        post_order(tree).len() == count(tree),
    decreases tree,
{
    if let Some(node) = tree {
        lemma_post_order_len(node.left);
        lemma_post_order_len(node.right);
    }
}

/// Below the deepest node there is nothing: a level is empty exactly when its
/// depth exceeds the height.
pub proof fn lemma_level_empty<T>(tree: HeapNode<T>, depth: nat)
    ensures
        level(tree, depth).len() == 0 <==> depth > height(tree),
    decreases tree,
{
    if let Some(node) = tree {
        lemma_height_below_count(node.left);
        lemma_height_below_count(node.right);
        if depth > 0 {
            lemma_level_empty(node.left, (depth - 1) as nat);
            lemma_level_empty(node.right, (depth - 1) as nat);
        }
    }
}

/// Listing more levels than the tree has adds nothing.
pub proof fn lemma_levels_beyond_height<T>(tree: HeapNode<T>, n: nat)
    requires
        n > height(tree),
    ensures
        levels(tree, n) == level_order(tree),
    decreases n,
{
    lemma_height_below_count(tree);
    if n > height(tree) + 1 {
        lemma_levels_beyond_height(tree, (n - 1) as nat);
        lemma_level_empty(tree, (n - 1) as nat);
    }
}

/// The first `n + 1` levels of a tree are its root, and the first `n` levels
/// of its two subtrees, interleaved level by level; only the length is stated.
pub proof fn lemma_levels_len<T>(tree: HeapNode<T>, n: nat)
    ensures
        tree matches Some(node) ==> levels(tree, n + 1).len() == 1 + levels(node.left, n).len()
            + levels(node.right, n).len(),
    decreases n,
{
    if let Some(node) = tree {
        if n > 0 {
            lemma_levels_len(tree, (n - 1) as nat);
        } else {
            assert(levels(tree, 1) =~= level(tree, 0)) by {
                assert(levels(tree, 0).len() == 0);
            }
        }
    }
}

/// Level-order lists every node once.
pub proof fn lemma_level_order_len<T>(tree: HeapNode<T>)
    ensures
        level_order(tree).len() == count(tree),
    decreases tree,
{
    lemma_height_below_count(tree);
    if let Some(node) = tree {
        let h = height(tree) as nat;
        lemma_levels_len(tree, h);
        lemma_levels_beyond_height(node.left, h);
        lemma_levels_beyond_height(node.right, h);
        lemma_level_order_len(node.left);
        lemma_level_order_len(node.right);
    }
}

/// The leftmost value comes first in order, and detaching it removes exactly
/// that one value.
pub proof fn lemma_leftmost_is_first<T>(tree: HeapNode<T>)
    ensures
        leftmost(tree) is Some <==> tree is Some,
        tree is Some ==> leftmost(tree) == Some(in_order(tree).first()),
        tree is Some ==> in_order(without_leftmost(tree)) == in_order(tree).drop_first(),
        tree is Some ==> count(without_leftmost(tree)) + 1 == count(tree),
        tree is None ==> without_leftmost(tree) is None,
    decreases tree,
{
    if let Some(node) = tree {
        lemma_leftmost_is_first(node.left);
        lemma_in_order_len(node.left);
    }
}

/// The rightmost value comes last in order, and detaching it removes exactly
/// that one value.
pub proof fn lemma_rightmost_is_last<T>(tree: HeapNode<T>)
    ensures
        rightmost(tree) is Some <==> tree is Some,
        tree is Some ==> rightmost(tree) == Some(in_order(tree).last()),
        tree is Some ==> in_order(without_rightmost(tree)) == in_order(tree).drop_last(),
        tree is Some ==> count(without_rightmost(tree)) + 1 == count(tree),
        tree is None ==> without_rightmost(tree) is None,
    decreases tree,
{
    if let Some(node) = tree {
        lemma_rightmost_is_last(node.right);
        lemma_in_order_len(node.right);
    }
}

/// The first `depth` levels and the levels from `depth` on make up the whole
/// level-order.
pub proof fn lemma_levels_split<T>(tree: HeapNode<T>, depth: nat)
    ensures
        levels(tree, depth) + levels_from(tree, depth) == level_order(tree),
    decreases height(tree) + 1 - depth,
{
    if depth > height(tree) {
        lemma_levels_beyond_height(tree, depth);
    } else {
        lemma_levels_split(tree, depth + 1);
    }
}

/// No number of levels lists more values than the tree has nodes.
pub proof fn lemma_levels_bound<T>(tree: HeapNode<T>, depth: nat)
    ensures
        levels(tree, depth).len() <= count(tree),
{
    lemma_levels_split(tree, depth);
    lemma_level_order_len(tree);
}

} // verus!
