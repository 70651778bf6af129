//! The recursive engine: every operation on the node graph as a function that
//! calls itself on a subtree, one call per level.

use crate::node::{HeapNode, Node};
use crate::order::{lemma_compare_agrees, total_order};
use crate::search::{found, inserted, lemma_without_root_count, lookup, removed, replaced};
use crate::shape::{
    count, height, leftmost, lemma_height_below_count, lemma_leftmost_is_first, rightmost,
    without_leftmost, without_rightmost,
};
use std::cmp::Ordering;
use vstd::prelude::*;

verus! {

impl<T: Ord> Node<T> {
    /// Inserts `value` as a new leaf below this node, in the empty slot that
    /// the walk for it reaches. `Err` says that the walk ended at a node that
    /// compares equal: then nothing is inserted.
    pub fn recursive_insert(&mut self, value: T) -> (res: Result<(), ()>)
        ensures
            count(final(self).link()) == count(old(self).link()) + (if res is Ok {
                1nat
            } else {
                0nat
            }),
            res is Err ==> *final(self) == *old(self),
            total_order::<T>() ==> {
                &&& final(self).link() == inserted(old(self).link(), value)
                &&& res is Ok <==> !found(old(self).link(), value)
            },
        decreases *old(self),
    {
        proof {
            if total_order::<T>() {
                lemma_compare_agrees::<T>();
            }
            reveal_with_fuel(lookup, 2);
            reveal_with_fuel(inserted, 2);
            reveal_with_fuel(count, 3);
        }
        match value.cmp(&self.value) {
            Ordering::Equal => Err(()),
            Ordering::Less => match self.left {
                None => {
                    self.left = Some(Box::new(Node::new(value)));
                    Ok(())
                },
                Some(ref mut node) => node.recursive_insert(value),
            },
            Ordering::Greater => match self.right {
                None => {
                    self.right = Some(Box::new(Node::new(value)));
                    Ok(())
                },
                Some(ref mut node) => node.recursive_insert(value),
            },
        }
    }

    /// Whether the walk for `value` from this node ends at a node.
    pub fn recursive_contains(&self, value: &T) -> (res: bool)
        ensures
            total_order::<T>() ==> res == found(self.link(), *value),
        decreases *self,
    {
        proof {
            if total_order::<T>() {
                lemma_compare_agrees::<T>();
            }
            reveal_with_fuel(lookup, 2);
        }
        match value.cmp(&self.value) {
            Ordering::Equal => true,
            Ordering::Less => match self.left {
                None => false,
                Some(ref node) => node.recursive_contains(value),
            },
            Ordering::Greater => match self.right {
                None => false,
                Some(ref node) => node.recursive_contains(value),
            },
        }
    }

    /// The value at which the walk for `value` from this node ends, if it ends
    /// at a node.
    pub fn recursive_retrieve(&self, value: &T) -> (res: Option<&T>)
        ensures
            total_order::<T>() ==> match res {
                Some(hit) => lookup(self.link(), *value) == Some(*hit),
                None => lookup(self.link(), *value) is None,
            },
        decreases *self,
    {
        proof {
            if total_order::<T>() {
                lemma_compare_agrees::<T>();
            }
            reveal_with_fuel(lookup, 2);
        }
        match value.cmp(&self.value) {
            Ordering::Equal => Some(&self.value),
            Ordering::Less => match self.left {
                None => None,
                Some(ref node) => node.recursive_retrieve(value),
            },
            Ordering::Greater => match self.right {
                None => None,
                Some(ref node) => node.recursive_retrieve(value),
            },
        }
    }

    /// A mutable reference to the value at which the walk for `value` from this
    /// node ends, if it ends at a node. What the caller writes through it lands
    /// in the tree, in the place of that value, whether or not it fits there.
    pub fn recursive_retrieve_as_mut(&mut self, value: &T) -> (res: Option<&mut T>)
        ensures
            res is None ==> *final(self) == *old(self),
            count(final(self).link()) == count(old(self).link()),
            total_order::<T>() ==> match res {
                Some(hit) => {
                    &&& lookup(old(self).link(), *value) == Some(*hit)
                    &&& final(self).link() == replaced(old(self).link(), *value, *final(hit))
                },
                None => lookup(old(self).link(), *value) is None,
            },
        decreases *old(self),
    {
        proof {
            if total_order::<T>() {
                lemma_compare_agrees::<T>();
            }
            reveal_with_fuel(lookup, 2);
            reveal_with_fuel(replaced, 2);
        }
        match value.cmp(&self.value) {
            Ordering::Equal => Some(&mut self.value),
            Ordering::Less => match self.left {
                None => None,
                Some(ref mut node) => node.recursive_retrieve_as_mut(value),
            },
            Ordering::Greater => match self.right {
                None => None,
                Some(ref mut node) => node.recursive_retrieve_as_mut(value),
            },
        }
    }

    /// The height of the tree in `root`; `-1` for the empty tree.
    pub fn recursive_height(root: &HeapNode<T>) -> (res: isize)
        requires
            height(*root) <= isize::MAX,
        ensures
            res == height(*root),
        decreases *root,
    {
        match root {
            None => -1,
            Some(node) => {
                proof {
                    lemma_height_below_count(node.left);
                    lemma_height_below_count(node.right);
                }
                let left = Node::recursive_height(&node.left);
                let right = Node::recursive_height(&node.right);
                1 + if left >= right {
                    left
                } else {
                    right
                }
            },
        }
    }

    /// Removes the node at which the walk for `value` ends. `Ok` says that a
    /// node was removed, `Err` that the walk reached an empty slot and the tree
    /// is as it was.
    pub fn recursive_remove(root: &mut HeapNode<T>, value: &T) -> (res: Result<(), ()>)
        ensures
            count(*final(root)) + (if res is Ok { 1nat } else { 0nat }) == count(*old(root)),
            res is Err ==> *final(root) == *old(root),
            total_order::<T>() ==> {
                &&& *final(root) == removed(*old(root), *value)
                &&& res is Ok <==> found(*old(root), *value)
            },
        decreases *old(root),
    {
        proof {
            if total_order::<T>() {
                lemma_compare_agrees::<T>();
            }
            lemma_without_root_count(*root);
        }
        if let Some(ref mut node) = root {
            return match value.cmp(&node.value) {
                Ordering::Less => Node::recursive_remove(&mut node.left, value),
                Ordering::Greater => Node::recursive_remove(&mut node.right, value),
                Ordering::Equal => {
                    match (&node.left, &node.right) {
                        (None, None) => *root = None,
                        (Some(_), None) => *root = node.left.take(),
                        (None, Some(_)) => *root = node.right.take(),
                        (Some(_), Some(_)) => {
                            proof {
                                lemma_leftmost_is_first(node.right);
                            }
                            node.value = Node::recursive_remove_min(&mut node.right).unwrap()
                        },
                    }
                    Ok(())
                },
            };
        }
        Err(())
    }

    /// The leftmost value at or below this node.
    pub fn recursive_min(&self) -> (res: Option<&T>)
        ensures
            match res {
                Some(least) => leftmost(self.link()) == Some(*least),
                None => false,
            },
        decreases *self,
    {
        match &self.left {
            None => Some(&self.value),
            Some(node) => node.recursive_min(),
        }
    }

    /// The rightmost value at or below this node.
    pub fn recursive_max(&self) -> (res: Option<&T>)
        ensures
            match res {
                Some(greatest) => rightmost(self.link()) == Some(*greatest),
                None => false,
            },
        decreases *self,
    {
        match &self.right {
            None => Some(&self.value),
            Some(node) => node.recursive_max(),
        }
    }

    /// Detaches the leftmost node of the tree in `root`, which must have a
    /// node, puts that node's right child in its place and returns its value.
    pub fn recursive_remove_min(root: &mut HeapNode<T>) -> (res: Option<T>)
        requires
            *old(root) is Some,
        ensures
            res is Some,
            res == leftmost(*old(root)),
            *final(root) == without_leftmost(*old(root)),
        decreases *old(root),
    {
        if root.as_ref().unwrap().left.is_some() {
            Node::recursive_remove_min(&mut root.as_mut().unwrap().left)
        } else {
            let node = root.take().unwrap();
            *root = node.right;
            Some(node.value)
        }
    }

    /// Detaches the rightmost node of the tree in `root`, which must have a
    /// node, puts that node's left child in its place and returns its value.
    pub fn recursive_remove_max(root: &mut HeapNode<T>) -> (res: Option<T>)
        requires
            *old(root) is Some,
        ensures
            res is Some,
            res == rightmost(*old(root)),
            *final(root) == without_rightmost(*old(root)),
        decreases *old(root),
    {
        if root.as_ref().unwrap().right.is_some() {
            Node::recursive_remove_max(&mut root.as_mut().unwrap().right)
        } else {
            let node = root.take().unwrap();
            *root = node.left;
            Some(node.value)
        }
    }
}

} // verus!
