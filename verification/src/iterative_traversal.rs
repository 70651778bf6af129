//! The traversals of the iterative engine: each order is a loop over a stack
//! or a queue of subtrees that are still to be visited.

use crate::forest::{
    all_present, children, in_order_pending, kids, lemma_children_present, lemma_level_nodes,
    lemma_post_order_step, lemma_pre_order_step, lemma_roots_concat, lemma_stack_push,
    lemma_unref_collect, lemma_unref_pop, lemma_unref_push, lemma_visit_next, level_nodes,
    post_order_stack, pre_order_stack, present, roots, top, unstacked,
};
use crate::node::{HeapNode, Node};
use crate::shape::{
    count, in_order, lemma_levels_beyond_height, lemma_levels_bound, level_order, levels,
    post_order, pre_order,
};
use std::collections::VecDeque;
use vstd::prelude::*;

verus! {

impl<T: Ord> Node<T> {
    /// The values of the tree in pre-order. The stack holds the subtrees that
    /// are still to be visited, the next one on top.
    pub fn iterative_pre_order_vec(node: &HeapNode<T>) -> (elements: Vec<&T>)
        ensures
            elements@.unref() == pre_order(*node),
    {
        let mut elements: Vec<&T> = Vec::new();
        let mut stack: Vec<&HeapNode<T>> = Vec::new();
        stack.push(node);
        proof {
            lemma_unref_push(Seq::empty(), node);
            lemma_stack_push(Seq::empty(), *node);
            assert(Seq::<&HeapNode<T>>::empty().unref() =~= Seq::<HeapNode<T>>::empty());
        }
        loop
            invariant_except_break
                elements@.unref() + pre_order_stack(stack@.unref()) == pre_order(*node),
                *node is Some ==> all_present(stack@.unref()),
            ensures
                elements@.unref() == pre_order(*node),
            decreases pre_order_stack(stack@.unref()).len(),
        {
            let ghost stack_0 = stack@;
            let ghost elements_0 = elements@;
            match stack.pop() {
                Some(Some(current)) => {
                    let ghost rest = stack@.unref();
                    let ghost popped = *stack_0.last();
                    proof {
                        lemma_unref_pop(stack_0);
                        lemma_pre_order_step(rest, popped);
                    }
                    elements.push(&current.value);
                    proof {
                        lemma_unref_collect(elements_0, &current.value);
                    }
                    if current.right.is_some() {
                        let ghost stack_1 = stack@;
                        stack.push(&current.right);
                        proof {
                            lemma_unref_push(stack_1, &current.right);
                        }
                    }
                    if current.left.is_some() {
                        let ghost stack_2 = stack@;
                        stack.push(&current.left);
                        proof {
                            lemma_unref_push(stack_2, &current.left);
                        }
                    }
                    assert(stack@.unref() =~= rest + present(current.right) + present(
                        current.left,
                    ));
                },
                _ => {
                    proof {
                        if stack_0.len() > 0 {
                            lemma_unref_pop(stack_0);
                        }
                    }
                    break ;
                },
            }
        }
        elements
    }

    /// The values of the tree in in-order. The cursor runs down the left
    /// spine and stacks what it passes; each tree that comes off the stack
    /// gives its root and sends the cursor into its right subtree.
    pub fn iterative_in_order_vec(root: &HeapNode<T>) -> (elements: Vec<&T>)
        ensures
            elements@.unref() == in_order(*root),
    {
        let mut cur = root;
        let mut elements: Vec<&T> = Vec::new();
        let mut stack: Vec<&HeapNode<T>> = Vec::new();
        while !stack.is_empty() || cur.is_some()
            invariant
                all_present(stack@.unref()),
                elements@.unref() + in_order(*cur) + in_order_pending(stack@.unref())
                    == in_order(*root),
            decreases
                    in_order(*cur).len() + in_order_pending(stack@.unref()).len(),
                    in_order(*cur).len(),
        {
            let ghost stack_0 = stack@;
            let ghost elements_0 = elements@;
            let ghost cur_0 = *cur;
            if cur.is_some() {
                stack.push(cur);
                proof {
                    lemma_unref_push(stack_0, cur);
                    lemma_stack_push(stack_0.unref(), cur_0);
                }
                cur = &cur.as_ref().unwrap().left;
            } else {
                let node = stack.pop().unwrap();
                proof {
                    lemma_unref_pop(stack_0);
                    lemma_stack_push(stack@.unref(), *node);
                }
                elements.push(&node.as_ref().unwrap().value);
                proof {
                    lemma_unref_collect(elements_0, &node->0.value);
                }
                cur = &node.as_ref().unwrap().right;
            }
        }
        elements
    }

    /// The values of the tree in post-order. The first stack visits the tree
    /// root first and right before left, and the second stack takes the nodes
    /// in that order; popped, they come out in post-order.
    pub fn iterative_post_order_vec(root: &HeapNode<T>) -> (elements: Vec<&T>)
        ensures
            elements@.unref() == post_order(*root),
    {
        let mut elements: Vec<&T> = Vec::new();
        let mut stack_one: Vec<&HeapNode<T>> = Vec::new();
        stack_one.push(root);
        let mut stack_two: Vec<&HeapNode<T>> = Vec::new();
        proof {
            lemma_unref_push(Seq::empty(), root);
            lemma_stack_push(Seq::empty(), *root);
            assert(Seq::<&HeapNode<T>>::empty().unref() =~= Seq::<HeapNode<T>>::empty());
        }
        loop
            invariant_except_break
                post_order_stack(stack_one@.unref()) + unstacked(stack_two@.unref())
                    == post_order(*root),
                *root is Some ==> all_present(stack_one@.unref()),
            invariant
                all_present(stack_two@.unref()),
            ensures
                unstacked(stack_two@.unref()) == post_order(*root),
            decreases post_order_stack(stack_one@.unref()).len(),
        {
            let ghost one_0 = stack_one@;
            let ghost two_0 = stack_two@;
            match stack_one.pop() {
                Some(slot) => {
                    proof {
                        lemma_unref_pop(one_0);
                    }
                    let ghost rest = stack_one@.unref();
                    match slot {
                        Some(node) => {
                            proof {
                                lemma_post_order_step(rest, *slot, two_0.unref());
                            }
                            if node.left.is_some() {
                                let ghost one_1 = stack_one@;
                                stack_one.push(&node.left);
                                proof {
                                    lemma_unref_push(one_1, &node.left);
                                }
                            }
                            if node.right.is_some() {
                                let ghost one_2 = stack_one@;
                                stack_one.push(&node.right);
                                proof {
                                    lemma_unref_push(one_2, &node.right);
                                }
                            }
                            assert(stack_one@.unref() =~= rest + kids(*slot));
                            stack_two.push(slot);
                            proof {
                                lemma_unref_push(two_0, slot);
                                lemma_stack_push(two_0.unref(), *slot);
                            }
                        },
                        None => {
                            proof {
                                lemma_stack_push(rest, *slot);
                            }
                            break ;
                        },
                    }
                },
                None => {
                    break ;
                },
            }
        }
        loop
            invariant_except_break
                elements@.unref() + unstacked(stack_two@.unref()) == post_order(*root),
                all_present(stack_two@.unref()),
            ensures
                elements@.unref() == post_order(*root),
            decreases stack_two@.len(),
        {
            let ghost two_0 = stack_two@;
            let ghost elements_0 = elements@;
            match stack_two.pop() {
                Some(slot) => {
                    proof {
                        lemma_unref_pop(two_0);
                        lemma_stack_push(stack_two@.unref(), *slot);
                    }
                    elements.push(&slot.as_ref().unwrap().value);
                    proof {
                        lemma_unref_collect(elements_0, &slot->0.value);
                    }
                },
                None => {
                    break ;
                },
            }
        }
        elements
    }

    /// The values of the tree in level-order. The queue holds the subtrees
    /// that are still to be visited: what is left of the current level, and
    /// behind it the children of the part that has been visited.
    pub fn iterative_level_order_vec(root: &HeapNode<T>) -> (elements: Vec<&T>)
        ensures
            elements@.unref() == level_order(*root),
    {
        let mut elements: Vec<&T> = Vec::new();
        let mut deque: VecDeque<&HeapNode<T>> = VecDeque::new();
        deque.push_front(root);
        let ghost mut depth: nat = 0;
        let ghost mut seen: int = 0;
        proof {
            lemma_level_nodes(*root, 0);
            let nodes = level_nodes(*root, 0);
            assert(nodes.take(0) =~= Seq::<HeapNode<T>>::empty());
            assert(nodes.skip(0) =~= nodes);
            assert(elements@.unref() =~= Seq::<T>::empty());
            assert(elements@.unref() =~= levels(*root, 0) + roots(nodes.take(0)));
        }
        loop
            invariant_except_break
                *root is None ==> elements@.len() == 0 && deque@.unref() == seq![*root],
                *root is Some ==> {
                    &&& 0 <= seen <= level_nodes(*root, depth).len()
                    &&& deque@.unref() == level_nodes(*root, depth).skip(seen) + children(
                        level_nodes(*root, depth).take(seen),
                    )
                    &&& elements@.unref() == levels(*root, depth) + roots(
                        level_nodes(*root, depth).take(seen),
                    )
                },
            ensures
                elements@.unref() == level_order(*root),
            decreases count(*root) - elements@.len(),
        {
            let ghost deque_0 = deque@;
            let ghost elements_0 = elements@;
            proof {
                lemma_level_nodes(*root, depth);
                lemma_level_nodes(*root, depth + 1);
                lemma_children_present(level_nodes(*root, depth).take(seen));
                if *root is Some && seen == level_nodes(*root, depth).len() {
                    // The current level is exhausted: what the queue holds is the next one.
                    let nodes = level_nodes(*root, depth);
                    let below = level_nodes(*root, depth + 1);
                    assert(nodes.take(seen) =~= nodes);
                    assert(elements_0.unref() =~= levels(*root, depth + 1) + roots(below.take(0)));
                    if below.len() == 0 {
                        lemma_levels_beyond_height(*root, depth + 1);
                    }
                    depth = depth + 1;
                    seen = 0;
                }
                lemma_level_nodes(*root, depth);
                lemma_levels_bound(*root, depth + 1);
            }
            let ghost nodes = level_nodes(*root, depth);
            match deque.pop_front() {
                Some(Some(current)) => {
                    proof {
                        if *root is None {
                            assert(deque_0.unref()[0] is Some);
                        }
                        assert(seen < nodes.len());
                        lemma_visit_next(nodes, seen);
                        assert(deque_0.unref()[0] == nodes.skip(seen)[0]);
                        assert(deque@.unref() =~= deque_0.unref().drop_first());
                    }
                    elements.push(&current.value);
                    proof {
                        lemma_unref_collect(elements_0, &current.value);
                    }
                    if current.left.is_some() {
                        let ghost was = deque@;
                        deque.push_back(&current.left);
                        assert(deque@.unref() =~= was.unref() + present(current.left));
                    }
                    if current.right.is_some() {
                        let ghost was = deque@;
                        deque.push_back(&current.right);
                        assert(deque@.unref() =~= was.unref() + present(current.right));
                    }
                    proof {
                        // What has been listed is part of the first `depth + 1` levels.
                        lemma_roots_concat(nodes.take(seen + 1), nodes.skip(seen + 1));
                        assert(nodes.take(seen + 1) + nodes.skip(seen + 1) =~= nodes);
                        seen = seen + 1;
                    }
                },
                Some(None) => {
                    break ;
                },
                None => {
                    proof {
                        if *root is Some {
                            lemma_levels_beyond_height(*root, depth + 1);
                        }
                    }
                    break ;
                },
            }
        }
        elements
    }
}

} // verus!
