//! The consuming traversals of the iterative engine. The stacks and queues
//! own the subtrees that are still to be visited; a node that is visited gives
//! up its value and its children, so nothing is read twice.

use crate::forest::{
    all_present, children, effort, in_order_stack, kids, lemma_children_present,
    lemma_effort_positive, lemma_level_nodes, lemma_post_order_step, lemma_pre_order_step,
    lemma_roots_concat, lemma_stack_pop, lemma_stack_push, lemma_visit_next, level_nodes,
    post_order_stack, pre_order_stack, present, roots, stack_effort, unstacked,
};
use crate::node::{join, HeapNode, Node};
use crate::shape::{
    count, in_order, lemma_levels_beyond_height, lemma_levels_bound, level_order, levels,
    post_order, pre_order,
};
use std::collections::VecDeque;
use vstd::prelude::*;

verus! {

impl<T: Ord> Node<T> {
    /// The values of the tree in pre-order; the tree is taken apart.
    pub fn iterative_consume_pre_order_vec(node: HeapNode<T>) -> (elements: Vec<T>)
        ensures
            elements@ == pre_order(node),
    {
        let ghost tree = node;
        let mut elements: Vec<T> = Vec::new();
        let mut stack: Vec<HeapNode<T>> = Vec::new();
        stack.push(node);
        proof {
            lemma_stack_push(Seq::empty(), tree);
        }
        loop
            invariant_except_break
                elements@ + pre_order_stack(stack@) == pre_order(tree),
                tree is Some ==> all_present(stack@),
            ensures
                elements@ == pre_order(tree),
            decreases pre_order_stack(stack@).len(),
        {
            let ghost stack_0 = stack@;
            match stack.pop() {
                Some(Some(current)) => {
                    let ghost rest = stack@;
                    let ghost popped = stack_0.last();
                    proof {
                        lemma_stack_pop(stack_0);
                        lemma_pre_order_step(rest, popped);
                    }
                    elements.push(current.value);
                    if current.right.is_some() {
                        stack.push(current.right);
                    }
                    if current.left.is_some() {
                        stack.push(current.left);
                    }
                    assert(stack@ =~= rest + present(popped->0.right) + present(popped->0.left));
                },
                _ => {
                    break ;
                },
            }
        }
        elements
    }

    /// The values of the tree in in-order; the tree is taken apart. A node
    /// with a left child goes back on the stack without it, below that child;
    /// a node without one gives its value and leaves its right child on the
    /// stack.
    pub fn iterative_consume_in_order_vec(root: HeapNode<T>) -> (elements: Vec<T>)
        ensures
            elements@ == in_order(root),
    {
        let ghost tree = root;
        let mut elements: Vec<T> = Vec::new();
        let mut stack: Vec<HeapNode<T>> = Vec::new();
        stack.push(root);
        proof {
            lemma_stack_push(Seq::empty(), tree);
        }
        while !stack.is_empty()
            invariant
                elements@ + in_order_stack(stack@) == in_order(tree),
            decreases stack_effort(stack@),
        {
            let ghost stack_0 = stack@;
            let ghost popped = stack_0.last();
            let slot = stack.pop().unwrap();
            let ghost rest = stack@;
            proof {
                lemma_stack_pop(stack_0);
                lemma_stack_push(rest, popped);
                lemma_effort_positive(popped);
            }
            if let Some(mut current) = slot {
                if current.left.is_some() {
                    let left_node = current.left.take();
                    let ghost kept = join(None, current.value, current.right);
                    proof {
                        lemma_effort_positive(left_node);
                        lemma_stack_push(rest, kept);
                        lemma_stack_push(rest.push(kept), left_node);
                        assert(effort(kept) == 3 + effort(current.right)) by {
                            assert(effort(None::<Box<Node<T>>>) == 1);
                        }
                        assert(in_order(kept) =~= seq![current.value] + in_order(current.right))
                            by {
                            assert(in_order(None::<Box<Node<T>>>) =~= Seq::<T>::empty());
                        }
                    }
                    stack.push(Some(current));
                    stack.push(left_node);
                } else {
                    let right_node = current.right.take();
                    proof {
                        lemma_stack_push(rest, right_node);
                        assert(in_order(popped) =~= seq![current.value] + in_order(right_node));
                        assert(effort(popped) == 3 + effort(right_node));
                    }
                    elements.push(current.value);
                    stack.push(right_node);
                }
            }
        }
        elements
    }

    /// The values of the tree in post-order; the tree is taken apart. The
    /// first stack visits the tree root first and right before left, and the
    /// second stack takes the nodes, stripped of their children, in that
    /// order; popped, they come out in post-order.
    pub fn iterative_consume_post_order_vec(root: HeapNode<T>) -> (elements: Vec<T>)
        ensures
            elements@ == post_order(root),
    {
        let ghost tree = root;
        let mut elements: Vec<T> = Vec::new();
        let mut stack_one: Vec<HeapNode<T>> = Vec::new();
        stack_one.push(root);
        let mut stack_two: Vec<HeapNode<T>> = Vec::new();
        proof {
            lemma_stack_push(Seq::empty(), tree);
        }
        loop
            invariant_except_break
                post_order_stack(stack_one@) + unstacked(stack_two@) == post_order(tree),
                tree is Some ==> all_present(stack_one@),
            invariant
                all_present(stack_two@),
            ensures
                unstacked(stack_two@) == post_order(tree),
            decreases post_order_stack(stack_one@).len(),
        {
            let ghost one_0 = stack_one@;
            let ghost two_0 = stack_two@;
            match stack_one.pop() {
                Some(Some(mut node)) => {
                    let ghost rest = stack_one@;
                    let ghost popped = one_0.last();
                    proof {
                        lemma_stack_pop(one_0);
                        lemma_post_order_step(rest, popped, two_0);
                    }
                    if let Some(left_node) = node.left.take() {
                        stack_one.push(Some(left_node));
                    }
                    if let Some(right_node) = node.right.take() {
                        stack_one.push(Some(right_node));
                    }
                    assert(stack_one@ =~= rest + kids(popped));
                    proof {
                        lemma_stack_push(two_0, Some(node));
                    }
                    stack_two.push(Some(node));
                },
                _ => {
                    break ;
                },
            }
        }
        loop
            invariant_except_break
                elements@ + unstacked(stack_two@) == post_order(tree),
                all_present(stack_two@),
            ensures
                elements@ == post_order(tree),
            decreases stack_two@.len(),
        {
            let ghost two_0 = stack_two@;
            match stack_two.pop() {
                Some(slot) => {
                    proof {
                        lemma_stack_pop(two_0);
                        lemma_stack_push(stack_two@, slot);
                    }
                    let node = slot.unwrap();
                    elements.push(node.value);
                },
                None => {
                    break ;
                },
            }
        }
        elements
    }

    /// The values of the tree in level-order; the tree is taken apart. The
    /// queue owns the subtrees that are still to be visited: a node that
    /// leaves it gives its value and hands its children to the queue.
    pub fn iterative_consume_level_order_vec(root: HeapNode<T>) -> (elements: Vec<T>)
        ensures
            elements@ == level_order(root),
    {
        let ghost tree = root;
        let mut elements: Vec<T> = Vec::new();
        let mut deque: VecDeque<HeapNode<T>> = VecDeque::new();
        deque.push_front(root);
        let ghost mut depth: nat = 0;
        let ghost mut seen: int = 0;
        proof {
            lemma_level_nodes(tree, 0);
            let nodes = level_nodes(tree, 0);
        }
        loop
            invariant_except_break
                tree is None ==> elements@.len() == 0 && deque@ == seq![tree],
                tree is Some ==> {
                    &&& 0 <= seen <= level_nodes(tree, depth).len()
                    &&& deque@ == level_nodes(tree, depth).skip(seen) + children(
                        level_nodes(tree, depth).take(seen),
                    )
                    &&& elements@ == levels(tree, depth) + roots(
                        level_nodes(tree, depth).take(seen),
                    )
                },
            ensures
                elements@ == level_order(tree),
            decreases count(tree) - elements@.len(),
        {
            let ghost elements_0 = elements@;
            proof {
                lemma_level_nodes(tree, depth);
                lemma_level_nodes(tree, depth + 1);
                lemma_children_present(level_nodes(tree, depth).take(seen));
                if tree is Some && seen == level_nodes(tree, depth).len() {
                    // The current level is exhausted: what the queue holds is the next one.
                    let nodes = level_nodes(tree, depth);
                    let below = level_nodes(tree, depth + 1);
                    assert(nodes.take(seen) =~= nodes);
                    assert(elements_0 =~= levels(tree, depth + 1) + roots(below.take(0)));
                    depth = depth + 1;
                    seen = 0;
                }
                lemma_level_nodes(tree, depth);
                lemma_levels_bound(tree, depth + 1);
            }
            let ghost nodes = level_nodes(tree, depth);
            match deque.pop_front() {
                Some(Some(current)) => {
                    proof {
                        assert(seen < nodes.len());
                        lemma_visit_next(nodes, seen);
                    }
                    elements.push(current.value);
                    if current.left.is_some() {
                        let ghost was = deque@;
                        deque.push_back(current.left);
                    }
                    if current.right.is_some() {
                        let ghost was = deque@;
                        deque.push_back(current.right);
                    }
                    proof {
                        // What has been listed is part of the first `depth + 1` levels.
                        lemma_roots_concat(nodes.take(seen + 1), nodes.skip(seen + 1));
                        assert(nodes.take(seen + 1) + nodes.skip(seen + 1) =~= nodes);
                        seen = seen + 1;
                    }
                },
                Some(None) => {
                    break ;
                },
                None => {
                    proof {
                        if tree is Some {
                            lemma_levels_beyond_height(tree, depth + 1);
                        }
                    }
                    break ;
                },
            }
        }
        elements
    }
}

} // verus!
