//! Sequences of trees, as the loops of the iterative engine hold them in
//! their stacks and queues, and what they contribute to a traversal.

use crate::node::HeapNode;
use crate::shape::{height, in_order, lemma_height_below_count, level, post_order, pre_order};
use vstd::prelude::*;

verus! {

/// The tree itself if it has a node, else nothing.
pub open spec fn present<T>(tree: HeapNode<T>) -> Seq<HeapNode<T>> {
    if tree is Some {
        seq![tree]
    } else {
        Seq::empty()
    }
}

/// The subtrees directly below the root, left before right, without the
/// empty ones.
pub open spec fn kids<T>(tree: HeapNode<T>) -> Seq<HeapNode<T>> {
    match tree {
        None => Seq::empty(),
        Some(node) => present(node.left) + present(node.right),
    }
}

/// The root value, if there is a root.
pub open spec fn top<T>(tree: HeapNode<T>) -> Seq<T> {
    match tree {
        None => Seq::empty(),
        Some(node) => seq![node.value],
    }
}

/// The root values of the trees of a forest, in its order.
pub open spec fn roots<T>(forest: Seq<HeapNode<T>>) -> Seq<T>
    decreases forest.len(),
{
    if forest.len() == 0 {
        Seq::empty()
    } else {
        roots(forest.drop_last()) + top(forest.last())
    }
}

/// The subtrees directly below the roots of a forest, in its order.
pub open spec fn children<T>(forest: Seq<HeapNode<T>>) -> Seq<HeapNode<T>>
    decreases forest.len(),
{
    if forest.len() == 0 {
        Seq::empty()
    } else {
        children(forest.drop_last()) + kids(forest.last())
    }
}

/// The subtrees whose roots lie `depth` edges below the root of `tree`, from
/// left to right.
pub open spec fn level_nodes<T>(tree: HeapNode<T>, depth: nat) -> Seq<HeapNode<T>>
    decreases tree,
{
    match tree {
        None => Seq::empty(),
        Some(node) => if depth == 0 {
            seq![tree]
        } else {
            level_nodes(node.left, (depth - 1) as nat) + level_nodes(
                node.right,
                (depth - 1) as nat,
            )
        },
    }
}

/// The right subtree; nothing for the empty tree.
pub open spec fn right_of<T>(tree: HeapNode<T>) -> HeapNode<T> {
    match tree {
        None => None,
        Some(node) => node.right,
    }
}

/// What a stack of trees still owes to a pre-order traversal: each tree in
/// pre-order, the top of the stack (its last entry) first.
pub open spec fn pre_order_stack<T>(stack: Seq<HeapNode<T>>) -> Seq<T>
    decreases stack.len(),
{
    if stack.len() == 0 {
        Seq::empty()
    } else {
        pre_order(stack.last()) + pre_order_stack(stack.drop_last())
    }
}

/// What a stack of trees still owes to an in-order traversal: each tree in
/// in-order, the top of the stack first.
pub open spec fn in_order_stack<T>(stack: Seq<HeapNode<T>>) -> Seq<T>
    decreases stack.len(),
{
    if stack.len() == 0 {
        Seq::empty()
    } else {
        in_order(stack.last()) + in_order_stack(stack.drop_last())
    }
}

/// What a stack of trees whose left subtrees have been visited still owes to
/// an in-order traversal: of each tree its root and then its right subtree,
/// the top of the stack first.
pub open spec fn in_order_pending<T>(stack: Seq<HeapNode<T>>) -> Seq<T>
    decreases stack.len(),
{
    if stack.len() == 0 {
        Seq::empty()
    } else {
        top(stack.last()) + in_order(right_of(stack.last())) + in_order_pending(
            stack.drop_last(),
        )
    }
}

/// What a stack of trees still owes to a post-order traversal that is written
/// down from its end: each tree in post-order, the top of the stack last.
pub open spec fn post_order_stack<T>(stack: Seq<HeapNode<T>>) -> Seq<T>
    decreases stack.len(),
{
    if stack.len() == 0 {
        Seq::empty()
    } else {
        post_order_stack(stack.drop_last()) + post_order(stack.last())
    }
}

/// The root values of a stack of trees in the order in which they are popped:
/// the top of the stack first.
pub open spec fn unstacked<T>(stack: Seq<HeapNode<T>>) -> Seq<T>
    decreases stack.len(),
{
    if stack.len() == 0 {
        Seq::empty()
    } else {
        top(stack.last()) + unstacked(stack.drop_last())
    }
}

/// A bound on the steps that a consuming in-order traversal spends on a tree:
/// one for an empty slot; for a node one, the steps for its right subtree, and
/// twice those for its left, which is set aside once before it is visited.
pub open spec fn effort<T>(tree: HeapNode<T>) -> nat
    decreases tree,
{
    match tree {
        None => 1,
        Some(node) => 1 + 2 * effort(node.left) + effort(node.right),
    }
}

/// The steps that a consuming in-order traversal spends on a stack of trees.
pub open spec fn stack_effort<T>(stack: Seq<HeapNode<T>>) -> nat
    decreases stack.len(),
{
    if stack.len() == 0 {
        0
    } else {
        effort(stack.last()) + stack_effort(stack.drop_last())
    }
}

/// Every tree of the forest has a node.
pub open spec fn all_present<T>(forest: Seq<HeapNode<T>>) -> bool {
    forall|i: int| 0 <= i < forest.len() ==> (#[trigger] forest[i]) is Some
}

/// The roots of two forests put together are the roots of each, put together.
pub proof fn lemma_roots_concat<T>(a: Seq<HeapNode<T>>, b: Seq<HeapNode<T>>)
    ensures
        roots(a + b) == roots(a) + roots(b),
    decreases b.len(),
{
    if b.len() == 0 {
    } else {
        lemma_roots_concat(a, b.drop_last());
        assert((a + b).drop_last() =~= a + b.drop_last());
        assert((a + b).last() == b.last());
    }
}

/// The children of two forests put together are the children of each, put
/// together.
pub proof fn lemma_children_concat<T>(a: Seq<HeapNode<T>>, b: Seq<HeapNode<T>>)
    ensures
        children(a + b) == children(a) + children(b),
    decreases b.len(),
{
    if b.len() == 0 {
    } else {
        lemma_children_concat(a, b.drop_last());
        assert((a + b).drop_last() =~= a + b.drop_last());
        assert((a + b).last() == b.last());
    }
}

/// A forest of one tree.
pub proof fn lemma_single<T>(tree: HeapNode<T>)
    ensures
        roots(seq![tree]) == top(tree),
        children(seq![tree]) == kids(tree),
{
    let one = seq![tree];
    assert(roots(one.drop_last()) =~= Seq::<T>::empty());
    assert(children(one.drop_last()) =~= Seq::<HeapNode<T>>::empty());
    assert(roots(one) =~= top(tree));
    assert(children(one) =~= kids(tree));
}

/// One level of a tree: its subtrees all have a node, their roots are the
/// values of that level, and their children are the next level.
pub proof fn lemma_level_nodes<T>(tree: HeapNode<T>, depth: nat)
    ensures
        all_present(level_nodes(tree, depth)),
        roots(level_nodes(tree, depth)) == level(tree, depth),
        children(level_nodes(tree, depth)) == level_nodes(tree, depth + 1),
        level_nodes(tree, depth).len() == 0 <==> depth > height(tree),
    decreases tree,
{
    match tree {
        None => {
            assert(level_nodes(tree, depth + 1) =~= Seq::<HeapNode<T>>::empty());
        },
        Some(node) => {
            lemma_height_below_count(node.right);
            if depth == 0 {
                lemma_single(tree);
                assert(level_nodes(node.left, 0) =~= present(node.left));
                assert(level_nodes(node.right, 0) =~= present(node.right));
            } else {
                let below = (depth - 1) as nat;
                lemma_level_nodes(node.left, below);
                lemma_level_nodes(node.right, below);
                lemma_roots_concat(level_nodes(node.left, below), level_nodes(node.right, below));
                lemma_children_concat(
                    level_nodes(node.left, below),
                    level_nodes(node.right, below),
                );
            }
        },
    }
}

/// Moving one tree from the part of a level that is still to be visited to
/// the part that has been: its children join the children of that part.
pub proof fn lemma_visit_next<T>(nodes: Seq<HeapNode<T>>, k: int)
    requires
        0 <= k < nodes.len(),
    ensures
        nodes.skip(k).drop_first() == nodes.skip(k + 1),
        nodes.skip(k).first() == nodes[k],
        children(nodes.take(k + 1)) == children(nodes.take(k)) + kids(nodes[k]),
        roots(nodes.take(k + 1)) == roots(nodes.take(k)) + top(nodes[k]),
{
    assert(nodes.take(k + 1).drop_last() =~= nodes.take(k));
    assert(nodes.take(k + 1).last() == nodes[k]);
}

/// Children are never empty trees.
pub proof fn lemma_children_present<T>(forest: Seq<HeapNode<T>>)
    ensures
        all_present(children(forest)),
    decreases forest.len(),
{
    if forest.len() > 0 {
        lemma_children_present(forest.drop_last());
    }
}

/// Every tree is worth at least one step, and a tree with a node at least
/// four.
pub proof fn lemma_effort_positive<T>(tree: HeapNode<T>)
    ensures
        effort(tree) >= 1,
        tree is Some ==> effort(tree) >= 4,
    decreases tree,
{
    if let Some(node) = tree {
        lemma_effort_positive(node.left);
        lemma_effort_positive(node.right);
    }
}

/// A stack with one more tree on top, seen through each of the stack
/// functions.
pub proof fn lemma_stack_push<T>(stack: Seq<HeapNode<T>>, tree: HeapNode<T>)
    ensures
        pre_order_stack(stack.push(tree)) == pre_order(tree) + pre_order_stack(stack),
        in_order_stack(stack.push(tree)) == in_order(tree) + in_order_stack(stack),
        in_order_pending(stack.push(tree)) == top(tree) + in_order(right_of(tree))
            + in_order_pending(stack),
        post_order_stack(stack.push(tree)) == post_order_stack(stack) + post_order(tree),
        unstacked(stack.push(tree)) == top(tree) + unstacked(stack),
        stack_effort(stack.push(tree)) == effort(tree) + stack_effort(stack),
{
    assert(stack.push(tree).drop_last() =~= stack);
}

/// A stack is its top on what lies below.
pub proof fn lemma_stack_pop<T>(stack: Seq<HeapNode<T>>)
    requires
        stack.len() > 0,
    ensures
        stack == stack.drop_last().push(stack.last()),
{
}

/// A vector of references after a push, read as a sequence of trees.
pub proof fn lemma_unref_push<T>(stack: Seq<&HeapNode<T>>, tree: &HeapNode<T>)
    ensures
        stack.push(tree).unref() == stack.unref().push(*tree),
        all_present(stack.unref()) && *tree is Some ==> all_present(
            stack.push(tree).unref(),
        ),
{
    assert(stack.push(tree).unref() =~= stack.unref().push(*tree));
}

/// A vector of references after a pop, read as a sequence of trees.
pub proof fn lemma_unref_pop<T>(stack: Seq<&HeapNode<T>>)
    requires
        stack.len() > 0,
    ensures
        stack.drop_last().unref() == stack.unref().drop_last(),
        *stack.last() == stack.unref().last(),
        stack.unref() == stack.unref().drop_last().push(*stack.last()),
        all_present(stack.unref()) ==> all_present(stack.drop_last().unref())
            && *stack.last() is Some,
{
    assert(stack.drop_last().unref() =~= stack.unref().drop_last());
    if all_present(stack.unref()) {
        let rest = stack.drop_last().unref();
        assert forall|i: int| 0 <= i < rest.len() implies (#[trigger] rest[i]) is Some by {
            assert(stack.unref()[i] is Some);
        }
    }
}

/// A vector of references to values after a push, read as a sequence of
/// values.
pub proof fn lemma_unref_collect<A>(items: Seq<&A>, item: &A)
    ensures
        items.push(item).unref() == items.unref() + seq![*item],
{
}

/// One step of the first loop of a two-stack post-order traversal: the tree
/// on top of the first stack gives way to its children, left below right, and
/// its root goes onto the second stack.
pub proof fn lemma_post_order_step<T>(
    rest: Seq<HeapNode<T>>,
    tree: HeapNode<T>,
    second: Seq<HeapNode<T>>,
)
    requires
        tree is Some,
    ensures
        post_order_stack(rest + kids(tree)) + (top(tree) + unstacked(second)) == post_order_stack(
            rest.push(tree),
        ) + unstacked(second),
        post_order_stack(rest + kids(tree)).len() < post_order_stack(rest.push(tree)).len(),
        all_present(rest) ==> all_present(rest + kids(tree)),
{
    let node = tree.unwrap();
    let with_left = rest + present(node.left);
    lemma_stack_push(rest, tree);
    if node.left is Some {
        lemma_stack_push(rest, node.left);
        assert(with_left =~= rest.push(node.left));
    } else {
        assert(with_left =~= rest);
        assert(post_order_stack(rest) + post_order(node.left) =~= post_order_stack(rest));
    }
    assert(post_order_stack(with_left) == post_order_stack(rest) + post_order(node.left));
    if node.right is Some {
        lemma_stack_push(with_left, node.right);
        assert(rest + kids(tree) =~= with_left.push(node.right));
    } else {
        assert(rest + kids(tree) =~= with_left);
        assert(post_order_stack(with_left) + post_order(node.right) =~= post_order_stack(
            with_left,
        ));
    }
    assert(post_order_stack(rest + kids(tree)) == post_order_stack(with_left) + post_order(
        node.right,
    ));
    assert(post_order_stack(rest + kids(tree)) + (top(tree) + unstacked(second))
        =~= post_order_stack(rest.push(tree)) + unstacked(second));
}

/// One step of a pre-order traversal with a stack: the tree on top gives
/// its root and gives way to its children, right below left.
pub proof fn lemma_pre_order_step<T>(rest: Seq<HeapNode<T>>, tree: HeapNode<T>)
    requires
        tree is Some,
    ensures
        top(tree) + pre_order_stack(rest + present(tree.unwrap().right) + present(
            tree.unwrap().left,
        )) == pre_order_stack(rest.push(tree)),
        all_present(rest) ==> all_present(rest + present(tree.unwrap().right) + present(
            tree.unwrap().left,
        )),
{
    let node = tree.unwrap();
    let with_right = rest + present(node.right);
    let with_both = with_right + present(node.left);
    lemma_stack_push(rest, tree);
    if node.right is Some {
        lemma_stack_push(rest, node.right);
        assert(with_right =~= rest.push(node.right));
    } else {
        assert(with_right =~= rest);
        assert(pre_order(node.right) + pre_order_stack(rest) =~= pre_order_stack(rest));
    }
    assert(pre_order_stack(with_right) == pre_order(node.right) + pre_order_stack(rest));
    if node.left is Some {
        lemma_stack_push(with_right, node.left);
        assert(with_both =~= with_right.push(node.left));
    } else {
        assert(with_both =~= with_right);
        assert(pre_order(node.left) + pre_order_stack(with_right) =~= pre_order_stack(
            with_right,
        ));
    }
    assert(pre_order_stack(with_both) == pre_order(node.left) + pre_order_stack(with_right));
    assert(top(tree) + pre_order_stack(with_both) =~= pre_order_stack(rest.push(tree)));
}

} // verus!
