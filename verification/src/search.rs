//! Searching, inserting and removing, as functions on trees.
//!
//! Each operation walks down from the root and compares the key with one value
//! per level: equal ends the walk, less goes left, greater goes right. The
//! functions here say which tree such a walk leaves behind, for any tree. What
//! they mean for a tree that is in search order is proved in `sorted`.

use crate::node::{join, leaf, HeapNode};
use crate::order::{equiv, lemma_equiv_reflexive, lt, total_order};
use crate::shape::{count, leftmost, lemma_leftmost_is_first, without_leftmost};
use vstd::prelude::*;

verus! {

/// The value at which the walk for `key` ends, if it ends at a node.
pub open spec fn lookup<T: Ord>(tree: HeapNode<T>, key: T) -> Option<T>
    decreases tree,
{
    match tree {
        None => None,
        Some(node) => if equiv(key, node.value) {
            Some(node.value)
        } else if lt(key, node.value) {
            lookup(node.left, key)
        } else {
            lookup(node.right, key)
        },
    }
}

/// The walk for `key` ends at a node.
pub open spec fn found<T: Ord>(tree: HeapNode<T>, key: T) -> bool {
    lookup(tree, key) is Some
}

/// The tree after `value` was inserted: unchanged where the walk ends at a
/// node, else with a new leaf in the empty slot that the walk reaches.
pub open spec fn inserted<T: Ord>(tree: HeapNode<T>, value: T) -> HeapNode<T>
    decreases tree,
{
    match tree {
        None => leaf(value),
        Some(node) => if equiv(value, node.value) {
            tree
        } else if lt(value, node.value) {
            join(inserted(node.left, value), node.value, node.right)
        } else {
            join(node.left, node.value, inserted(node.right, value))
        },
    }
}

/// The tree after the value at which the walk for `key` ends was overwritten
/// with `new`; unchanged where the walk ends at an empty slot.
pub open spec fn replaced<T: Ord>(tree: HeapNode<T>, key: T, new: T) -> HeapNode<T>
    decreases tree,
{
    match tree {
        None => None,
        Some(node) => if equiv(key, node.value) {
            join(node.left, new, node.right)
        } else if lt(key, node.value) {
            join(replaced(node.left, key, new), node.value, node.right)
        } else {
            join(node.left, node.value, replaced(node.right, key, new))
        },
    }
}

/// The tree after its root value was removed: a root with at most one child
/// gives way to that child; a root with two children stays and takes the
/// leftmost value of its right subtree, which loses that node.
pub open spec fn without_root<T>(tree: HeapNode<T>) -> HeapNode<T> {
    match tree {
        None => None,
        Some(node) => if node.right is None {
            node.left
        } else if node.left is None {
            node.right
        } else {
            join(node.left, leftmost(node.right).unwrap(), without_leftmost(node.right))
        },
    }
}

/// The tree after the node at which the walk for `key` ends was removed;
/// unchanged where the walk ends at an empty slot.
pub open spec fn removed<T: Ord>(tree: HeapNode<T>, key: T) -> HeapNode<T>
    decreases tree,
{
    match tree {
        None => None,
        Some(node) => if equiv(key, node.value) {
            without_root(tree)
        } else if lt(key, node.value) {
            join(removed(node.left, key), node.value, node.right)
        } else {
            join(node.left, node.value, removed(node.right, key))
        },
    }
}

/// The tree that results from inserting `values` one by one, in their order,
/// into the empty tree.
pub open spec fn built<T: Ord>(values: Seq<T>) -> HeapNode<T>
    decreases values.len(),
{
    if values.len() == 0 {
        None
    } else {
        inserted(built(values.drop_last()), values.last())
    }
}

/// Inserting adds one node, unless the walk ends at a node: then nothing
/// changes.
pub proof fn lemma_inserted_count<T: Ord>(tree: HeapNode<T>, value: T)
    ensures
        found(tree, value) ==> inserted(tree, value) == tree,
        !found(tree, value) ==> count(inserted(tree, value)) == count(tree) + 1,
        inserted(tree, value) is Some,
    decreases tree,
{
    if let Some(node) = tree {
        lemma_inserted_count(node.left, value);
        lemma_inserted_count(node.right, value);
    }
}

/// After an insertion the walk for the same value ends at a node.
pub proof fn lemma_inserted_found<T: Ord>(tree: HeapNode<T>, value: T)
    requires
        total_order::<T>(),
    ensures
        found(inserted(tree, value), value),
        lookup(inserted(tree, value), value) == if found(tree, value) {
            lookup(tree, value)
        } else {
            Some(value)
        },
    decreases tree,
{
    lemma_equiv_reflexive(value);
    if let Some(node) = tree {
        lemma_inserted_found(node.left, value);
        lemma_inserted_found(node.right, value);
    }
}

/// Removing the root takes away one node.
pub proof fn lemma_without_root_count<T>(tree: HeapNode<T>)
    ensures
        tree is Some ==> count(without_root(tree)) + 1 == count(tree),
{
    if let Some(node) = tree {
        lemma_leftmost_is_first(node.right);
        assert(count(tree) == 1 + count(node.left) + count(node.right));
    }
}

/// Removing takes away one node, unless the walk ends at an empty slot: then
/// nothing changes.
pub proof fn lemma_removed_count<T: Ord>(tree: HeapNode<T>, key: T)
    ensures
        !found(tree, key) ==> removed(tree, key) == tree,
        found(tree, key) ==> count(removed(tree, key)) + 1 == count(tree),
    decreases tree,
{
    if let Some(node) = tree {
        lemma_removed_count(node.left, key);
        lemma_removed_count(node.right, key);
        lemma_without_root_count(tree);
    }
}

/// Where the walk ends at an empty slot, there is nothing to overwrite.
pub proof fn lemma_replaced_absent<T: Ord>(tree: HeapNode<T>, key: T, new: T)
    ensures
        !found(tree, key) ==> replaced(tree, key, new) == tree,
    decreases tree,
{
    if let Some(node) = tree {
        lemma_replaced_absent(node.left, key, new);
        lemma_replaced_absent(node.right, key, new);
    }
}

} // verus!
