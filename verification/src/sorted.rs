//! Search order: what it is, that the operations keep it, and what they mean
//! for a tree that has it.

use crate::node::HeapNode;
use crate::order::{
    equiv, lemma_lt_left_equiv, lemma_lt_right_equiv, lemma_lt_transitive, lemma_trichotomy, lt,
    total_order,
};
use crate::search::{
    found, inserted, lemma_replaced_absent, lookup, removed, replaced, without_root,
};
use crate::shape::{
    in_order, leftmost, lemma_leftmost_is_first, rightmost, without_leftmost, without_rightmost,
};
use vstd::prelude::*;

verus! {

/// Every value of the tree is less than `bound`.
pub open spec fn all_below<T: Ord>(tree: HeapNode<T>, bound: T) -> bool
    decreases tree,
{
    match tree {
        None => true,
        Some(node) => lt(node.value, bound) && all_below(node.left, bound) && all_below(
            node.right,
            bound,
        ),
    }
}

/// Every value of the tree is greater than `bound`.
pub open spec fn all_above<T: Ord>(tree: HeapNode<T>, bound: T) -> bool
    decreases tree,
{
    match tree {
        None => true,
        Some(node) => lt(bound, node.value) && all_above(node.left, bound) && all_above(
            node.right,
            bound,
        ),
    }
}

/// The tree is in search order: at every node, all values of the left subtree
/// are less than the node's value and all values of the right subtree are
/// greater. No two values of such a tree compare equal.
pub open spec fn ordered<T: Ord>(tree: HeapNode<T>) -> bool
    decreases tree,
{
    match tree {
        None => true,
        Some(node) => {
            &&& all_below(node.left, node.value)
            &&& all_above(node.right, node.value)
            &&& ordered(node.left)
            &&& ordered(node.right)
        },
    }
}

/// Each value is less than all that follow it.
pub open spec fn ascending<T: Ord>(values: Seq<T>) -> bool {
    forall|i: int, j: int|
        0 <= i < j < values.len() ==> lt(#[trigger] values[i], #[trigger] values[j])
}

/// Some value of the sequence compares equal to `key`.
pub open spec fn has_equal<T: Ord>(values: Seq<T>, key: T) -> bool {
    exists|i: int| 0 <= i < values.len() && equiv(key, #[trigger] values[i])
}

/// A bound on a tree is a bound on each value that the tree lists.
pub proof fn lemma_bounds_in_order<T: Ord>(tree: HeapNode<T>, bound: T)
    ensures
        all_below(tree, bound) <==> forall|i: int|
            0 <= i < in_order(tree).len() ==> lt(#[trigger] in_order(tree)[i], bound),
        all_above(tree, bound) <==> forall|i: int|
            0 <= i < in_order(tree).len() ==> lt(bound, #[trigger] in_order(tree)[i]),
    decreases tree,
{
    if let Some(node) = tree {
        lemma_bounds_in_order(node.left, bound);
        lemma_bounds_in_order(node.right, bound);
        let l = in_order(node.left);
        let r = in_order(node.right);
        let all = in_order(tree);
        assert(all[l.len() as int] == node.value);
        assert forall|i: int| 0 <= i < l.len() implies all[i] == l[i] by {}
        assert forall|i: int| 0 <= i < r.len() implies all[l.len() + 1 + i] == r[i] by {}
    }
}

/// A tree in search order lists its values in ascending order.
pub proof fn lemma_ordered_ascending<T: Ord>(tree: HeapNode<T>)
    requires
        total_order::<T>(),
        ordered(tree),
    ensures
        ascending(in_order(tree)),
    decreases tree,
{
    if let Some(node) = tree {
        lemma_ordered_ascending(node.left);
        lemma_ordered_ascending(node.right);
        lemma_bounds_in_order(node.left, node.value);
        lemma_bounds_in_order(node.right, node.value);
        let l = in_order(node.left);
        let all = in_order(tree);
        assert forall|i: int, j: int| 0 <= i < j < all.len() implies lt(
            #[trigger] all[i],
            #[trigger] all[j],
        ) by {
            if i < l.len() < j {
                lemma_lt_transitive(all[i], node.value, all[j]);
            }
        }
    }
}

/// A bound can be moved outward.
pub proof fn lemma_bound_weaken<T: Ord>(tree: HeapNode<T>, near: T, far: T)
    requires
        total_order::<T>(),
    ensures
        all_below(tree, near) && (lt(near, far) || equiv(near, far)) ==> all_below(tree, far),
        all_above(tree, near) && (lt(far, near) || equiv(far, near)) ==> all_above(tree, far),
    decreases tree,
{
    if let Some(node) = tree {
        lemma_bound_weaken(node.left, near, far);
        lemma_bound_weaken(node.right, near, far);
        if all_below(tree, near) {
            if lt(near, far) {
                lemma_lt_transitive(node.value, near, far);
            } else if equiv(near, far) {
                lemma_lt_right_equiv(node.value, near, far);
            }
        }
        if all_above(tree, near) {
            if lt(far, near) {
                lemma_lt_transitive(far, near, node.value);
            } else if equiv(far, near) {
                lemma_lt_left_equiv(far, near, node.value);
            }
        }
    }
}

/// Inserting a value within a bound keeps the bound.
pub proof fn lemma_inserted_bounds<T: Ord>(tree: HeapNode<T>, value: T, bound: T)
    ensures
        all_below(tree, bound) && lt(value, bound) ==> all_below(inserted(tree, value), bound),
        all_above(tree, bound) && lt(bound, value) ==> all_above(inserted(tree, value), bound),
    decreases tree,
{
    if let Some(node) = tree {
        lemma_inserted_bounds(node.left, value, bound);
        lemma_inserted_bounds(node.right, value, bound);
    }
}

/// Inserting keeps the search order.
pub proof fn lemma_inserted_ordered<T: Ord>(tree: HeapNode<T>, value: T)
    requires
        total_order::<T>(),
        ordered(tree),
    ensures
        ordered(inserted(tree, value)),
    decreases tree,
{
    if let Some(node) = tree {
        lemma_trichotomy(value, node.value);
        if lt(value, node.value) {
            lemma_inserted_ordered(node.left, value);
            lemma_inserted_bounds(node.left, value, node.value);
        } else if !equiv(value, node.value) {
            lemma_inserted_ordered(node.right, value);
            lemma_inserted_bounds(node.right, value, node.value);
        }
    }
}

/// The leftmost value of a tree lies within the tree's bounds, and detaching
/// it keeps them.
pub proof fn lemma_leftmost_bounds<T: Ord>(tree: HeapNode<T>, bound: T)
    ensures
        all_below(tree, bound) ==> all_below(without_leftmost(tree), bound) && (leftmost(
            tree,
        ) matches Some(least) ==> lt(least, bound)),
        all_above(tree, bound) ==> all_above(without_leftmost(tree), bound) && (leftmost(
            tree,
        ) matches Some(least) ==> lt(bound, least)),
    decreases tree,
{
    if let Some(node) = tree {
        lemma_leftmost_bounds(node.left, bound);
    }
}

/// The rightmost value of a tree lies within the tree's bounds, and detaching
/// it keeps them.
pub proof fn lemma_rightmost_bounds<T: Ord>(tree: HeapNode<T>, bound: T)
    ensures
        all_below(tree, bound) ==> all_below(without_rightmost(tree), bound) && (rightmost(
            tree,
        ) matches Some(greatest) ==> lt(greatest, bound)),
        all_above(tree, bound) ==> all_above(without_rightmost(tree), bound) && (rightmost(
            tree,
        ) matches Some(greatest) ==> lt(bound, greatest)),
    decreases tree,
{
    if let Some(node) = tree {
        lemma_rightmost_bounds(node.right, bound);
    }
}

/// Detaching the leftmost value keeps the search order, and that value is
/// less than all that stay.
pub proof fn lemma_without_leftmost_ordered<T: Ord>(tree: HeapNode<T>)
    requires
        total_order::<T>(),
        ordered(tree),
    ensures
        ordered(without_leftmost(tree)),
        leftmost(tree) matches Some(least) ==> all_above(without_leftmost(tree), least),
    decreases tree,
{
    if let Some(node) = tree {
        if node.left is Some {
            lemma_without_leftmost_ordered(node.left);
            lemma_leftmost_bounds(node.left, node.value);
            let least = leftmost(node.left).unwrap();
            lemma_bound_weaken(node.right, node.value, least);
        }
    }
}

/// Detaching the rightmost value keeps the search order, and that value is
/// greater than all that stay.
pub proof fn lemma_without_rightmost_ordered<T: Ord>(tree: HeapNode<T>)
    requires
        total_order::<T>(),
        ordered(tree),
    ensures
        ordered(without_rightmost(tree)),
        rightmost(tree) matches Some(greatest) ==> all_below(without_rightmost(tree), greatest),
    decreases tree,
{
    if let Some(node) = tree {
        if node.right is Some {
            lemma_without_rightmost_ordered(node.right);
            lemma_rightmost_bounds(node.right, node.value);
            let greatest = rightmost(node.right).unwrap();
            lemma_bound_weaken(node.left, node.value, greatest);
        }
    }
}

/// Removing the root keeps the bounds of the tree and its search order.
pub proof fn lemma_without_root_ordered<T: Ord>(tree: HeapNode<T>)
    requires
        total_order::<T>(),
        ordered(tree),
    ensures
        ordered(without_root(tree)),
        forall|bound: T| all_below(tree, bound) ==> all_below(without_root(tree), bound),
        forall|bound: T| all_above(tree, bound) ==> all_above(without_root(tree), bound),
{
    if let Some(node) = tree {
        if node.left is Some && node.right is Some {
            lemma_without_leftmost_ordered(node.right);
            lemma_leftmost_is_first(node.right);
            lemma_leftmost_bounds(node.right, node.value);
            let least = leftmost(node.right).unwrap();
            lemma_bound_weaken(node.left, node.value, least);
            assert forall|bound: T| all_below(tree, bound) implies all_below(
                without_root(tree),
                bound,
            ) by {
                lemma_leftmost_bounds(node.right, bound);
            }
            assert forall|bound: T| all_above(tree, bound) implies all_above(
                without_root(tree),
                bound,
            ) by {
                lemma_leftmost_bounds(node.right, bound);
            }
        }
    }
}

/// Removing keeps the bounds of a tree in search order.
pub proof fn lemma_removed_bounds<T: Ord>(tree: HeapNode<T>, key: T, bound: T)
    requires
        total_order::<T>(),
        ordered(tree),
    ensures
        all_below(tree, bound) ==> all_below(removed(tree, key), bound),
        all_above(tree, bound) ==> all_above(removed(tree, key), bound),
    decreases tree,
{
    if let Some(node) = tree {
        lemma_removed_bounds(node.left, key, bound);
        lemma_removed_bounds(node.right, key, bound);
        lemma_without_root_ordered(tree);
    }
}

/// Removing keeps the search order.
pub proof fn lemma_removed_ordered<T: Ord>(tree: HeapNode<T>, key: T)
    requires
        total_order::<T>(),
        ordered(tree),
    ensures
        ordered(removed(tree, key)),
    decreases tree,
{
    if let Some(node) = tree {
        lemma_without_root_ordered(tree);
        lemma_removed_ordered(node.left, key);
        lemma_removed_ordered(node.right, key);
        lemma_removed_bounds(node.left, key, node.value);
        lemma_removed_bounds(node.right, key, node.value);
    }
}

/// A walk for a key that is not within the bounds of a tree finds nothing
/// there.
pub proof fn lemma_outside_not_found<T: Ord>(tree: HeapNode<T>, key: T, bound: T)
    requires
        total_order::<T>(),
    ensures
        all_below(tree, bound) && !lt(key, bound) ==> !found(tree, key),
        all_above(tree, bound) && !lt(bound, key) ==> !found(tree, key),
    decreases tree,
{
    if let Some(node) = tree {
        lemma_outside_not_found(node.left, key, bound);
        lemma_outside_not_found(node.right, key, bound);
        lemma_trichotomy(key, node.value);
        if equiv(key, node.value) {
            if all_below(tree, bound) {
                lemma_lt_left_equiv(key, node.value, bound);
            }
            if all_above(tree, bound) {
                lemma_lt_right_equiv(bound, node.value, key);
            }
        }
    }
}

/// After a removal from a tree in search order, the walk for the same key
/// ends at an empty slot.
pub proof fn lemma_removed_not_found<T: Ord>(tree: HeapNode<T>, key: T)
    requires
        total_order::<T>(),
        ordered(tree),
    ensures
        !found(removed(tree, key), key),
    decreases tree,
{
    if let Some(node) = tree {
        lemma_trichotomy(key, node.value);
        if equiv(key, node.value) {
            lemma_outside_not_found(node.left, key, node.value);
            lemma_outside_not_found(node.right, key, node.value);
            if node.left is Some && node.right is Some {
                lemma_leftmost_bounds(node.right, node.value);
                lemma_leftmost_is_first(node.right);
                let least = leftmost(node.right).unwrap();
                lemma_lt_left_equiv(key, node.value, least);
            }
        } else if lt(key, node.value) {
            lemma_removed_not_found(node.left, key);
        } else {
            lemma_removed_not_found(node.right, key);
        }
    }
}

/// In a tree in search order, the walk for a key ends at a node exactly when
/// some value of the tree compares equal to the key, and then at that value.
pub proof fn lemma_found_iff_has_equal<T: Ord>(tree: HeapNode<T>, key: T)
    requires
        total_order::<T>(),
        ordered(tree),
    ensures
        found(tree, key) <==> has_equal(in_order(tree), key),
        lookup(tree, key) matches Some(hit) ==> equiv(key, hit) && in_order(tree).contains(hit),
    decreases tree,
{
    if let Some(node) = tree {
        lemma_found_iff_has_equal(node.left, key);
        lemma_found_iff_has_equal(node.right, key);
        lemma_bounds_in_order(node.left, node.value);
        lemma_bounds_in_order(node.right, node.value);
        lemma_trichotomy(key, node.value);
        let l = in_order(node.left);
        let r = in_order(node.right);
        let all = in_order(tree);
        assert(all[l.len() as int] == node.value);
        assert forall|i: int| 0 <= i < l.len() implies all[i] == l[i] by {}
        assert forall|i: int| 0 <= i < r.len() implies all[l.len() + 1 + i] == r[i] by {}
        if has_equal(l, key) {
            let i = choose|i: int| 0 <= i < l.len() && equiv(key, #[trigger] l[i]);
        }
        if has_equal(r, key) {
            let i = choose|i: int| 0 <= i < r.len() && equiv(key, #[trigger] r[i]);
        }
        if has_equal(all, key) {
            let i = choose|i: int| 0 <= i < all.len() && equiv(key, #[trigger] all[i]);
            if i < l.len() {
                // then the key is less than the root value
                lemma_lt_left_equiv(key, l[i], node.value);
            } else if i > l.len() {
                lemma_trichotomy(key, r[i - l.len() - 1]);
                lemma_lt_right_equiv(node.value, r[i - l.len() - 1], key);
            }
        }
        match lookup(tree, key) {
            Some(hit) => {
                if equiv(key, node.value) {
                } else if lt(key, node.value) {
                    let i = choose|i: int| 0 <= i < l.len() && l[i] == hit;
                } else {
                    let i = choose|i: int| 0 <= i < r.len() && r[i] == hit;
                }
            },
            None => {},
        }
    }
}

/// An insertion that adds a node puts the value into the in-order at one
/// place and leaves every other value where it was.
pub proof fn lemma_inserted_in_order<T: Ord>(tree: HeapNode<T>, value: T) -> (at: int)
    requires
        !found(tree, value),
    ensures
        0 <= at <= in_order(tree).len(),
        in_order(inserted(tree, value)) == in_order(tree).insert(at, value),
    decreases tree,
{
    match tree {
        None => {
            0
        },
        Some(node) => {
            let l = in_order(node.left);
            if lt(value, node.value) {
                let at = lemma_inserted_in_order(node.left, value);
                at
            } else {
                let below = lemma_inserted_in_order(node.right, value);
                let at = l.len() + 1 + below;
                at
            }
        },
    }
}

/// A removal that takes a node away takes the value at which the walk ends
/// out of the in-order and leaves every other value where it was.
pub proof fn lemma_removed_in_order<T: Ord>(tree: HeapNode<T>, key: T) -> (at: int)
    requires
        found(tree, key),
    ensures
        0 <= at < in_order(tree).len(),
        lookup(tree, key) == Some(in_order(tree)[at]),
        equiv(key, in_order(tree)[at]),
        in_order(removed(tree, key)) == in_order(tree).remove(at),
    decreases tree,
{
    let node = tree.unwrap();
    let l = in_order(node.left);
    if equiv(key, node.value) {
        let at = l.len() as int;
        lemma_leftmost_is_first(node.right);
        at
    } else if lt(key, node.value) {
        let at = lemma_removed_in_order(node.left, key);
        at
    } else {
        let below = lemma_removed_in_order(node.right, key);
        let at = l.len() + 1 + below;
        at
    }
}

/// The value at which a walk ends lies within the bounds of the tree.
pub proof fn lemma_lookup_bounds<T: Ord>(tree: HeapNode<T>, key: T, bound: T)
    ensures
        all_below(tree, bound) ==> (lookup(tree, key) matches Some(hit) ==> lt(hit, bound)),
        all_above(tree, bound) ==> (lookup(tree, key) matches Some(hit) ==> lt(bound, hit)),
    decreases tree,
{
    if let Some(node) = tree {
        lemma_lookup_bounds(node.left, key, bound);
        lemma_lookup_bounds(node.right, key, bound);
    }
}

/// Overwriting a value with one within a bound keeps the bound.
pub proof fn lemma_replaced_bounds<T: Ord>(tree: HeapNode<T>, key: T, new: T, bound: T)
    ensures
        all_below(tree, bound) && lt(new, bound) ==> all_below(replaced(tree, key, new), bound),
        all_above(tree, bound) && lt(bound, new) ==> all_above(replaced(tree, key, new), bound),
    decreases tree,
{
    if let Some(node) = tree {
        lemma_replaced_bounds(node.left, key, new, bound);
        lemma_replaced_bounds(node.right, key, new, bound);
    }
}

/// Overwriting a value with one that compares equal to it keeps the search
/// order.
pub proof fn lemma_replaced_ordered<T: Ord>(tree: HeapNode<T>, key: T, new: T)
    requires
        total_order::<T>(),
        ordered(tree),
        lookup(tree, key) matches Some(hit) ==> equiv(new, hit),
    ensures
        ordered(replaced(tree, key, new)),
    decreases tree,
{
    if let Some(node) = tree {
        if equiv(key, node.value) {
            lemma_trichotomy(new, node.value);
            lemma_bound_weaken(node.left, node.value, new);
            lemma_bound_weaken(node.right, node.value, new);
        } else if lt(key, node.value) {
            lemma_replaced_ordered(node.left, key, new);
            lemma_lookup_bounds(node.left, key, node.value);
            if let Some(hit) = lookup(node.left, key) {
                lemma_lt_left_equiv(new, hit, node.value);
                lemma_replaced_bounds(node.left, key, new, node.value);
            } else {
                lemma_replaced_absent(node.left, key, new);
            }
        } else {
            lemma_replaced_ordered(node.right, key, new);
            lemma_lookup_bounds(node.right, key, node.value);
            if let Some(hit) = lookup(node.right, key) {
                lemma_trichotomy(new, hit);
                lemma_lt_right_equiv(node.value, hit, new);
                lemma_replaced_bounds(node.right, key, new, node.value);
            } else {
                lemma_replaced_absent(node.right, key, new);
            }
        }
    }
}

} // verus!
