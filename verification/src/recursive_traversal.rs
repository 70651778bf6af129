//! The traversals of the recursive engine: each order follows the shape of
//! the tree and appends to a vector that the caller hands in.

use crate::forest::{all_present, children, lemma_level_nodes, lemma_visit_next, level_nodes, roots};
use crate::node::{HeapNode, Node};
use crate::shape::{
    height, in_order, lemma_height_below_count, lemma_levels_split, level_at, level_order, levels,
    levels_from, post_order, pre_order,
};
use vstd::prelude::*;

verus! {

impl<T: Ord> Node<T> {
    /// Appends the values of the tree in pre-order.
    pub fn recursive_pre_order_vec<'a>(node: &'a HeapNode<T>, elements: &mut Vec<&'a T>)
        ensures
            final(elements)@.unref() == old(elements)@.unref() + pre_order(*node),
        decreases *node,
    {
        if let Some(ref node) = node {
            elements.push(&node.value);
            Node::recursive_pre_order_vec(&node.left, elements);
            Node::recursive_pre_order_vec(&node.right, elements);
        }
    }

    /// Appends the values of the tree in in-order.
    pub fn recursive_in_order_vec<'a>(node: &'a HeapNode<T>, elements: &mut Vec<&'a T>)
        ensures
            final(elements)@.unref() == old(elements)@.unref() + in_order(*node),
        decreases *node,
    {
        if let Some(ref node) = node {
            Node::recursive_in_order_vec(&node.left, elements);
            let ghost middle = elements@;
            elements.push(&node.value);
            assert(elements@.unref() =~= middle.unref() + seq![node.value]);
            Node::recursive_in_order_vec(&node.right, elements);
        }
    }

    /// Appends the values of the tree in post-order.
    pub fn recursive_post_order_vec<'a>(node: &'a HeapNode<T>, elements: &mut Vec<&'a T>)
        ensures
            final(elements)@.unref() == old(elements)@.unref() + post_order(*node),
        decreases *node,
    {
        if let Some(ref node) = node {
            Node::recursive_post_order_vec(&node.left, elements);
            Node::recursive_post_order_vec(&node.right, elements);
            let ghost late = elements@;
            elements.push(&node.value);
            assert(elements@.unref() =~= late.unref() + seq![node.value]);
        }
    }

    /// Appends the values of the tree level by level: one pass over the tree
    /// for each level.
    pub fn recursive_level_order_vec<'a>(root: &'a HeapNode<T>, elements: &mut Vec<&'a T>)
        requires
            height(*root) < isize::MAX,
        ensures
            final(elements)@.unref() == old(elements)@.unref() + level_order(*root),
    {
        proof {
            lemma_height_below_count(*root);
        }
        let height = Node::recursive_height(root);
        for i in 0..height + 1
            invariant
                height == crate::shape::height(*root),
                -1 <= height < isize::MAX,
                elements@.unref() == old(elements)@.unref() + levels(*root, i as nat),
        {
            Node::recursive_current_level(root, elements, i + 1);
        }
    }

    /// Appends the values of one level, from left to right. Levels are
    /// numbered from 1, the root's; a number below 1 names no level.
    pub fn recursive_current_level<'a>(
        root: &'a HeapNode<T>,
        elements: &mut Vec<&'a T>,
        level: isize,
    )
        ensures
            final(elements)@.unref() == old(elements)@.unref() + level_at(*root, level as int),
        decreases *root,
    {
        if root.is_some() {
            if level == 1 {
                elements.push(&root.as_ref().unwrap().value);
            } else if level > 1 {
                Node::recursive_current_level(&root.as_ref().unwrap().left, elements, level - 1);
                Node::recursive_current_level(&root.as_ref().unwrap().right, elements, level - 1);
            }
        }
    }

    /// Appends the values of the tree in pre-order and takes the tree apart.
    pub fn recursive_consume_pre_order_vec(node: HeapNode<T>, elements: &mut Vec<T>)
        ensures
            final(elements)@ == old(elements)@ + pre_order(node),
        decreases node,
    {
        if let Some(node) = node {
            elements.push(node.value);
            Node::recursive_consume_pre_order_vec(node.left, elements);
            Node::recursive_consume_pre_order_vec(node.right, elements);
        }
    }

    /// Appends the values of the tree in in-order and takes the tree apart.
    pub fn recursive_consume_in_order_vec(node: HeapNode<T>, elements: &mut Vec<T>)
        ensures
            final(elements)@ == old(elements)@ + in_order(node),
        decreases node,
    {
        if let Some(node) = node {
            Node::recursive_consume_in_order_vec(node.left, elements);
            elements.push(node.value);
            Node::recursive_consume_in_order_vec(node.right, elements);
        }
    }

    /// Appends the values of the tree in post-order and takes the tree apart.
    pub fn recursive_consume_post_order_vec(node: HeapNode<T>, elements: &mut Vec<T>)
        ensures
            final(elements)@ == old(elements)@ + post_order(node),
        decreases node,
    {
        if let Some(node) = node {
            Node::recursive_consume_post_order_vec(node.left, elements);
            Node::recursive_consume_post_order_vec(node.right, elements);
            elements.push(node.value);
        }
    }

    /// Appends the values of the tree level by level and takes the tree
    /// apart: each level is a vector of owned subtrees, which hands its root
    /// values over and its children on to the next level.
    pub fn recursive_consume_level_order_vec(root: HeapNode<T>, elements: &mut Vec<T>)
        ensures
            final(elements)@ == old(elements)@ + level_order(root),
    {
        let ghost tree = root;
        let mut row: Vec<HeapNode<T>> = Vec::new();
        if root.is_some() {
            row.push(root);
        }
        proof {
            lemma_levels_split(tree, 0);
        }
        Node::recursive_consume_level(row, elements, Ghost(tree), Ghost(0));
    }

    /// Appends the root values of `row`, which is the level `depth` of `tree`,
    /// and then the levels below it.
    fn recursive_consume_level(
        row: Vec<HeapNode<T>>,
        elements: &mut Vec<T>,
        Ghost(tree): Ghost<HeapNode<T>>,
        Ghost(depth): Ghost<nat>,
    )
        requires
            row@ == level_nodes(tree, depth),
        ensures
            final(elements)@ == old(elements)@ + levels_from(tree, depth),
        decreases height(tree) + 1 - depth,
    {
        let ghost nodes = row@;
        let ghost before = elements@;
        proof {
            lemma_level_nodes(tree, depth);
        }
        if row.len() == 0 {
            return ;
        }
        let mut next: Vec<HeapNode<T>> = Vec::new();
        for slot in it: row.into_iter()
            invariant
                it.seq() == nodes,
                all_present(nodes),
                elements@ == before + roots(nodes.take(it.index())),
                next@ == children(nodes.take(it.index())),
        {
            let ghost k = it.index();
            proof {
                lemma_visit_next(nodes, k);
            }
            if let Some(node) = slot {
                elements.push(node.value);
                if node.left.is_some() {
                    next.push(node.left);
                }
                if node.right.is_some() {
                    next.push(node.right);
                }
            }
        }
        proof {
            assert(nodes.take(nodes.len() as int) =~= nodes);
        }
        Node::recursive_consume_level(next, elements, Ghost(tree), Ghost(depth + 1));
    }
}

} // verus!
