//! The iterative engine: every operation on the node graph as a loop that
//! moves a cursor from slot to slot.

use crate::forest::{
    all_present, children, lemma_level_nodes, lemma_visit_next, level_nodes, present,
};
use crate::node::{HeapNode, Node};
use crate::order::{lemma_compare_agrees, total_order};
use crate::search::{found, inserted, lemma_without_root_count, lookup, removed, replaced};
use crate::shape::{
    count, height, leftmost, lemma_leftmost_is_first, rightmost, without_leftmost,
    without_rightmost,
};
use std::cmp::Ordering;
use std::collections::VecDeque;
use vstd::prelude::*;

verus! {

impl<T: Ord> Node<T> {
    /// Inserts `value` as a new leaf in the empty slot that the walk for it
    /// reaches. `Err` says that the walk ended at a node that compares equal:
    /// then nothing is inserted.
    pub fn iterative_insert(root: &mut HeapNode<T>, value: T) -> (res: Result<(), ()>)
        ensures
            count(*final(root)) == count(*old(root)) + (if res is Ok { 1nat } else { 0nat }),
            res is Err ==> *final(root) == *old(root),
            total_order::<T>() ==> {
                &&& *final(root) == inserted(*old(root), value)
                &&& res is Ok <==> !found(*old(root), value)
            },
    {
        let mut cur = root;
        loop
            invariant
                count(*final(root)) + count(*cur) == count(*old(root)) + count(*final(cur)),
                *final(cur) == *cur ==> *final(root) == *old(root),
                total_order::<T>() ==> {
                    &&& found(*cur, value) == found(*old(root), value)
                    &&& *final(cur) == inserted(*cur, value) ==> *final(root) == inserted(
                        *old(root),
                        value,
                    )
                },
            ensures
                *cur is None,
            decreases *cur,
        {
            proof {
                if total_order::<T>() {
                    lemma_compare_agrees::<T>();
                }
            }
            match cur {
                None => {
                    break ;
                },
                Some(node) => {
                    match value.cmp(&node.value) {
                        Ordering::Equal => {
                            return Err(());
                        },
                        Ordering::Less => {
                            cur = &mut node.left;
                        },
                        Ordering::Greater => {
                            cur = &mut node.right;
                        },
                    }
                },
            }
        }
        *cur = Some(Box::new(Node::new(value)));
        Ok(())
    }

    /// Whether the walk for `value` ends at a node.
    pub fn iterative_contains(root: &HeapNode<T>, value: &T) -> (res: bool)
        ensures
            total_order::<T>() ==> res == found(*root, *value),
    {
        let mut cur = root;
        loop
            invariant
                total_order::<T>() ==> found(*cur, *value) == found(*root, *value),
            decreases *cur,
        {
            proof {
                if total_order::<T>() {
                    lemma_compare_agrees::<T>();
                }
            }
            match cur {
                None => {
                    return false;
                },
                Some(current) => {
                    match value.cmp(&current.value) {
                        Ordering::Equal => {
                            return true;
                        },
                        Ordering::Less => {
                            cur = &current.left;
                        },
                        Ordering::Greater => {
                            cur = &current.right;
                        },
                    }
                },
            }
        }
    }

    /// The value at which the walk for `value` ends, if it ends at a node.
    pub fn iterative_retrieve<'a>(root: &'a HeapNode<T>, value: &T) -> (res: Option<&'a T>)
        ensures
            total_order::<T>() ==> match res {
                Some(hit) => lookup(*root, *value) == Some(*hit),
                None => lookup(*root, *value) is None,
            },
    {
        let mut cur = root;
        loop
            invariant
                total_order::<T>() ==> lookup(*cur, *value) == lookup(*root, *value),
            decreases *cur,
        {
            proof {
                if total_order::<T>() {
                    lemma_compare_agrees::<T>();
                }
            }
            match cur {
                None => {
                    return None;
                },
                Some(current) => {
                    match value.cmp(&current.value) {
                        Ordering::Equal => {
                            return Some(&current.value);
                        },
                        Ordering::Less => {
                            cur = &current.left;
                        },
                        Ordering::Greater => {
                            cur = &current.right;
                        },
                    }
                },
            }
        }
    }

    /// A mutable reference to the value at which the walk for `value` ends, if
    /// it ends at a node. What the caller writes through it lands in the tree,
    /// in the place of that value, whether or not it fits there.
    pub fn iterative_retrieve_as_mut<'a>(root: &'a mut HeapNode<T>, value: &T) -> (res: Option<
        &'a mut T,
    >)
        ensures
            res is None ==> *final(root) == *old(root),
            count(*final(root)) == count(*old(root)),
            total_order::<T>() ==> match res {
                Some(hit) => {
                    &&& lookup(*old(root), *value) == Some(*hit)
                    &&& *final(root) == replaced(*old(root), *value, *final(hit))
                },
                None => lookup(*old(root), *value) is None,
            },
    {
        let mut cur = root;
        loop
            invariant
                *final(cur) == *cur ==> *final(root) == *old(root),
                count(*final(root)) + count(*cur) == count(*old(root)) + count(*final(cur)),
                total_order::<T>() ==> {
                    &&& lookup(*cur, *value) == lookup(*old(root), *value)
                    &&& forall|new: T|
                        *final(cur) == replaced(*cur, *value, new) ==> *final(root) == replaced(
                            *old(root),
                            *value,
                            new,
                        )
                },
            decreases *cur,
        {
            proof {
                if total_order::<T>() {
                    lemma_compare_agrees::<T>();
                }
            }
            match cur {
                None => {
                    return None;
                },
                Some(current) => {
                    match value.cmp(&current.value) {
                        Ordering::Equal => {
                            return Some(&mut current.value);
                        },
                        Ordering::Less => {
                            cur = &mut current.left;
                        },
                        Ordering::Greater => {
                            cur = &mut current.right;
                        },
                    }
                },
            }
        }
    }

    /// The leftmost value; `None` for the empty tree.
    pub fn iterative_min(root: &HeapNode<T>) -> (res: Option<&T>)
        ensures
            match res {
                Some(least) => leftmost(*root) == Some(*least),
                None => leftmost(*root) is None,
            },
    {
        let mut cur = root;
        loop
            invariant
                leftmost(*cur) == leftmost(*root),
            decreases *cur,
        {
            match cur {
                None => {
                    return None;
                },
                Some(current) => {
                    if current.left.is_none() {
                        return Some(&current.value);
                    }
                    cur = &current.left;
                },
            }
        }
    }

    /// The rightmost value; `None` for the empty tree.
    pub fn iterative_max(root: &HeapNode<T>) -> (res: Option<&T>)
        ensures
            match res {
                Some(greatest) => rightmost(*root) == Some(*greatest),
                None => rightmost(*root) is None,
            },
    {
        let mut cur = root;
        loop
            invariant
                rightmost(*cur) == rightmost(*root),
            decreases *cur,
        {
            match cur {
                None => {
                    return None;
                },
                Some(current) => {
                    if current.right.is_none() {
                        return Some(&current.value);
                    }
                    cur = &current.right;
                },
            }
        }
    }

    /// Detaches the leftmost node of the tree in `root`, puts that node's right
    /// child in its place and returns its value; `None` for the empty tree.
    pub fn iterative_remove_min(root: &mut HeapNode<T>) -> (res: Option<T>)
        ensures
            res == leftmost(*old(root)),
            *final(root) == without_leftmost(*old(root)),
    {
        let mut cur = root;
        if cur.is_some() {
            while cur.as_ref().unwrap().left.is_some()
                invariant
                    *cur is Some,
                    leftmost(*cur) == leftmost(*old(root)),
                    *final(cur) == without_leftmost(*cur) ==> *final(root) == without_leftmost(
                        *old(root),
                    ),
                decreases *cur,
            {
                cur = &mut cur.as_mut().unwrap().left;
            }
            let node = cur.take().unwrap();
            *cur = node.right;
            return Some(node.value);
        }
        None
    }

    /// Detaches the rightmost node of the tree in `root`, puts that node's left
    /// child in its place and returns its value; `None` for the empty tree.
    pub fn iterative_remove_max(root: &mut HeapNode<T>) -> (res: Option<T>)
        ensures
            res == rightmost(*old(root)),
            *final(root) == without_rightmost(*old(root)),
    {
        let mut cur = root;
        if cur.is_some() {
            while cur.as_ref().unwrap().right.is_some()
                invariant
                    *cur is Some,
                    rightmost(*cur) == rightmost(*old(root)),
                    *final(cur) == without_rightmost(*cur) ==> *final(root) == without_rightmost(
                        *old(root),
                    ),
                decreases *cur,
            {
                cur = &mut cur.as_mut().unwrap().right;
            }
            let node = cur.take().unwrap();
            *cur = node.left;
            return Some(node.value);
        }
        None
    }

    /// Removes the node at which the walk for `value` ends. `Ok` says that a
    /// node was removed, `Err` that the walk reached an empty slot and the tree
    /// is as it was.
    pub fn iterative_remove(root: &mut HeapNode<T>, value: &T) -> (res: Result<(), ()>)
        ensures
            count(*final(root)) + (if res is Ok { 1nat } else { 0nat }) == count(*old(root)),
            res is Err ==> *final(root) == *old(root),
            total_order::<T>() ==> {
                &&& *final(root) == removed(*old(root), *value)
                &&& res is Ok <==> found(*old(root), *value)
            },
    {
        let mut cur = root;
        loop
            invariant
                count(*final(root)) + count(*cur) == count(*old(root)) + count(*final(cur)),
                *final(cur) == *cur ==> *final(root) == *old(root),
                total_order::<T>() ==> {
                    &&& found(*cur, *value) == found(*old(root), *value)
                    &&& *final(cur) == removed(*cur, *value) ==> *final(root) == removed(
                        *old(root),
                        *value,
                    )
                },
            decreases *cur,
        {
            proof {
                if total_order::<T>() {
                    lemma_compare_agrees::<T>();
                }
            }
            let ghost here = *cur;
            match *cur {
                None => {
                    return Err(());
                },
                Some(ref mut current) => {
                    match value.cmp(&current.value) {
                        Ordering::Less => {
                            cur = &mut cur.as_mut().unwrap().left;
                        },
                        Ordering::Greater => {
                            cur = &mut cur.as_mut().unwrap().right;
                        },
                        Ordering::Equal => {
                            proof {
                                lemma_without_root_count(here);
                                lemma_leftmost_is_first(here.unwrap().right);
                            }
                            match (current.left.is_some(), current.right.is_some()) {
                                (false, false) => {
                                    *cur = None;
                                },
                                (true, false) => {
                                    *cur = current.left.take();
                                },
                                (false, true) => {
                                    *cur = current.right.take();
                                },
                                (true, true) => {
                                    current.value = Node::iterative_remove_min(
                                        &mut current.right,
                                    ).unwrap();
                                },
                            }
                            return Ok(());
                        },
                    }
                },
            }
        }
    }

    /// The height of the tree in `root`, which must have a node: the queue
    /// holds one whole level at a time, and each level that it holds counts
    /// one.
    pub fn iterative_height(root: &HeapNode<T>) -> (res: isize)
        requires
            *root is Some,
            height(*root) <= isize::MAX,
        ensures
            res == height(*root),
    {
        let mut height: isize = -1;
        let mut queue: VecDeque<&HeapNode<T>> = VecDeque::new();
        queue.push_front(root);
        proof {
            lemma_level_nodes(*root, 0);
            assert(queue@.unref() =~= level_nodes(*root, 0));
        }
        while queue.len() != 0
            invariant
                -1 <= height <= crate::shape::height(*root) <= isize::MAX,
                queue@.unref() == level_nodes(*root, (height + 1) as nat),
            decreases crate::shape::height(*root) - height,
        {
            let ghost depth = (height + 1) as nat;
            let ghost nodes = level_nodes(*root, depth);
            let ghost mut k: int = 0;
            let mut size = queue.len();
            proof {
                lemma_level_nodes(*root, depth);
            }
            while size > 0
                invariant
                    0 <= k <= nodes.len(),
                    size == nodes.len() - k,
                    all_present(nodes),
                    queue@.unref() == nodes.skip(k) + children(nodes.take(k)),
                decreases size,
            {
                let ghost before = queue@;
                proof {
                    lemma_visit_next(nodes, k);
                    assert(before.len() == before.unref().len());
                    assert(before.unref()[0] == nodes.skip(k)[0]);
                }
                let current = queue.pop_front().unwrap().as_ref().unwrap();
                assert(queue@.unref() =~= before.unref().drop_first());
                if current.left.is_some() {
                    let ghost was = queue@;
                    queue.push_back(&current.left);
                    assert(queue@.unref() =~= was.unref() + present(current.left));
                }
                if current.right.is_some() {
                    let ghost was = queue@;
                    queue.push_back(&current.right);
                    assert(queue@.unref() =~= was.unref() + present(current.right));
                }
                size -= 1;
                proof {
                    k = k + 1;
                }
            }
            height += 1;
        }
        proof {
            lemma_level_nodes(*root, (height + 1) as nat);
        }
        height
    }
}

} // verus!
