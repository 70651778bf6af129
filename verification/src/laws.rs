//! What holds of the operations taken together.

use crate::iterative_bst::IterativeBST;
use crate::node::HeapNode;
use crate::order::{
    equiv, lemma_equiv_reflexive, lemma_equiv_transitive, lemma_trichotomy, total_order,
};
use crate::recursive_bst::RecursiveBST;
use crate::search::{
    built, found, inserted, lemma_inserted_count, lemma_inserted_found, lemma_removed_count,
    removed,
};
use crate::shape::{
    count, in_order, lemma_in_order_len, lemma_level_order_len, lemma_post_order_len,
    lemma_pre_order_len, level_order, post_order, pre_order,
};
use crate::sorted::{
    ascending, has_equal, lemma_found_iff_has_equal, lemma_inserted_in_order,
    lemma_inserted_ordered, lemma_ordered_ascending, lemma_removed_in_order,
    lemma_removed_not_found, lemma_removed_ordered, ordered,
};
use crate::tree::BinarySearchTree;
use std::vec::IntoIter;
use vstd::prelude::*;
use vstd::std_specs::iter::IteratorSpec;

verus! {

/// No value before position `at` compares equal to the value at `at`.
pub open spec fn first_of_its_kind<T: Ord>(values: Seq<T>, at: int) -> bool {
    forall|k: int| 0 <= k < at ==> !equiv(#[trigger] values[k], values[at])
}

/// `value` stands in `values` at a position where it is the first of its
/// kind.
pub open spec fn kept_from<T: Ord>(values: Seq<T>, value: T) -> bool {
    exists|j: int|
        0 <= j < values.len() && #[trigger] values[j] == value && first_of_its_kind(values, j)
}

/// One change to a tree.
pub enum Edit<T> {
    Insert(T),
    Remove(T),
}

/// The tree after a sequence of changes, made in their order.
pub open spec fn edited<T: Ord>(tree: HeapNode<T>, edits: Seq<Edit<T>>) -> HeapNode<T>
    decreases edits.len(),
{
    if edits.len() == 0 {
        tree
    } else {
        let before = edited(tree, edits.drop_last());
        match edits.last() {
            Edit::Insert(value) => inserted(before, value),
            Edit::Remove(value) => removed(before, value),
        }
    }
}

/// What an insertion does to the values that a tree in search order lists:
/// it keeps them all, it makes sure that `value` has an equal among them, and
/// it adds nothing but `value`, and that only if it had no equal before.
pub proof fn lemma_insert_keeps_values<T: Ord>(tree: HeapNode<T>, value: T)
    requires
        total_order::<T>(),
        ordered(tree),
    ensures
        forall|key: T|
            has_equal(in_order(tree), key) ==> #[trigger] has_equal(
                in_order(inserted(tree, value)),
                key,
            ),
        has_equal(in_order(inserted(tree, value)), value),
        forall|i: int|
            0 <= i < in_order(inserted(tree, value)).len() ==> {
                ||| in_order(tree).contains(#[trigger] in_order(inserted(tree, value))[i])
                ||| (in_order(inserted(tree, value))[i] == value && !has_equal(
                    in_order(tree),
                    value,
                ))
            },
{
    let was = in_order(tree);
    let now = in_order(inserted(tree, value));
    lemma_inserted_count(tree, value);
    lemma_found_iff_has_equal(tree, value);
    lemma_equiv_reflexive(value);
    if !found(tree, value) {
        let at = lemma_inserted_in_order(tree, value);
        assert(now[at] == value);
        assert forall|key: T| has_equal(was, key) implies #[trigger] has_equal(now, key) by {
            let i = choose|i: int| 0 <= i < was.len() && equiv(key, #[trigger] was[i]);
            let to = if i < at {
                i
            } else {
                i + 1
            };
            assert(now[to] == was[i]);
        }
    }
}

/// Whatever values are inserted into an empty tree, and in whatever order,
/// the in-order of the tree is ascending and is the input sorted and without
/// duplicates: every input value has an equal in it, and each of its values is
/// an input value, the first of its kind.
pub proof fn law_in_order_is_sorted_input<T: Ord>(values: Seq<T>)
    requires
        total_order::<T>(),
    ensures
        ordered(built(values)),
        ascending(in_order(built(values))),
        forall|j: int|
            0 <= j < values.len() ==> has_equal(in_order(built(values)), #[trigger] values[j]),
        forall|i: int|
            0 <= i < in_order(built(values)).len() ==> kept_from(
                values,
                #[trigger] in_order(built(values))[i],
            ),
    decreases values.len(),
{
    if values.len() == 0 {
        return ;
    }
    let front = values.drop_last();
    let value = values.last();
    let tree = built(front);
    let was = in_order(tree);
    let now = in_order(built(values));
    law_in_order_is_sorted_input(front);
    lemma_inserted_ordered(tree, value);
    lemma_ordered_ascending(built(values));
    lemma_insert_keeps_values(tree, value);
    assert forall|j: int| 0 <= j < values.len() implies has_equal(now, #[trigger] values[j]) by {
        if j < front.len() {
            assert(front[j] == values[j]);
        }
    }
    assert forall|i: int| 0 <= i < now.len() implies kept_from(values, #[trigger] now[i]) by {
        if was.contains(now[i]) {
            let from = choose|from: int| 0 <= from < was.len() && was[from] == now[i];
            lemma_kept_from_front(values, now[i]);
        } else {
            assert forall|j: int| 0 <= j < values.len() - 1 implies has_equal(
                was,
                #[trigger] values[j],
            ) by {
                assert(front[j] == values[j]);
            }
            lemma_new_kind(values, was);
        }
    }
}

/// A value that is the first of its kind in all but the last of `values` is
/// so in `values`.
proof fn lemma_kept_from_front<T: Ord>(values: Seq<T>, value: T)
    requires
        values.len() > 0,
        kept_from(values.drop_last(), value),
    ensures
        kept_from(values, value),
{
    let front = values.drop_last();
    let j = choose|j: int|
        0 <= j < front.len() && #[trigger] front[j] == value && first_of_its_kind(front, j);
    assert forall|k: int| 0 <= k < j implies !equiv(#[trigger] values[k], values[j]) by {
        assert(values[k] == front[k]);
    }
}

/// Where each of the values before the last has an equal in `listed`, and the
/// last has none, the last is the first of its kind.
proof fn lemma_new_kind<T: Ord>(values: Seq<T>, listed: Seq<T>)
    requires
        total_order::<T>(),
        values.len() > 0,
        forall|j: int| 0 <= j < values.len() - 1 ==> has_equal(listed, #[trigger] values[j]),
        !has_equal(listed, values.last()),
    ensures
        kept_from(values, values.last()),
{
    let value = values.last();
    let last = values.len() - 1;
    assert forall|k: int| 0 <= k < last implies !equiv(#[trigger] values[k], values[last]) by {
        if equiv(values[k], value) {
            let h = choose|h: int| 0 <= h < listed.len() && equiv(values[k], #[trigger] listed[h]);
            lemma_trichotomy(values[k], value);
            lemma_equiv_transitive(value, values[k], listed[h]);
        }
    }
}

/// Inserting a value a second time changes nothing: neither the tree nor,
/// with it, its size.
pub proof fn law_insert_is_idempotent<T: Ord>(tree: HeapNode<T>, value: T)
    requires
        total_order::<T>(),
    ensures
        inserted(inserted(tree, value), value) == inserted(tree, value),
        count(inserted(inserted(tree, value), value)) == count(inserted(tree, value)),
{
    lemma_inserted_found(tree, value);
    lemma_inserted_count(inserted(tree, value), value);
}

/// After a value was removed from a tree in search order, the tree holds no
/// value equal to it. The removal takes away exactly one node if the tree held
/// such a value, and else leaves the tree as it was.
pub proof fn law_removed_is_absent<T: Ord>(tree: HeapNode<T>, value: T)
    requires
        total_order::<T>(),
        ordered(tree),
    ensures
        ordered(removed(tree, value)),
        !found(removed(tree, value), value),
        !has_equal(in_order(removed(tree, value)), value),
        has_equal(in_order(tree), value) ==> count(removed(tree, value)) + 1 == count(tree),
        !has_equal(in_order(tree), value) ==> removed(tree, value) == tree,
{
    lemma_removed_ordered(tree, value);
    lemma_removed_not_found(tree, value);
    lemma_removed_count(tree, value);
    lemma_found_iff_has_equal(tree, value);
    lemma_found_iff_has_equal(removed(tree, value), value);
}

/// A removal that finds a value equal to the given one takes exactly that
/// value out of the ascending order; `at` is where it stood.
pub proof fn law_remove_takes_one_value<T: Ord>(tree: HeapNode<T>, value: T) -> (at: int)
    requires
        total_order::<T>(),
        ordered(tree),
        has_equal(in_order(tree), value),
    ensures
        0 <= at < in_order(tree).len(),
        equiv(value, in_order(tree)[at]),
        in_order(removed(tree, value)) == in_order(tree).remove(at),
{
    lemma_found_iff_has_equal(tree, value);
    lemma_removed_in_order(tree, value)
}

/// Each traversal lists every node once: it is as long as the tree has nodes.
pub proof fn law_traversals_list_every_node<T>(tree: HeapNode<T>)
    ensures
        pre_order(tree).len() == count(tree),
        in_order(tree).len() == count(tree),
        post_order(tree).len() == count(tree),
        level_order(tree).len() == count(tree),
{
    lemma_pre_order_len(tree);
    lemma_in_order_len(tree);
    lemma_post_order_len(tree);
    lemma_level_order_len(tree);
}

/// Changes keep the search order.
pub proof fn law_edits_keep_order<T: Ord>(tree: HeapNode<T>, edits: Seq<Edit<T>>)
    requires
        total_order::<T>(),
        ordered(tree),
    ensures
        ordered(edited(tree, edits)),
        ascending(in_order(edited(tree, edits))),
    decreases edits.len(),
{
    if edits.len() > 0 {
        let before = edited(tree, edits.drop_last());
        law_edits_keep_order(tree, edits.drop_last());
        match edits.last() {
            Edit::Insert(value) => lemma_inserted_ordered(before, value),
            Edit::Remove(value) => lemma_removed_ordered(before, value),
        }
    }
    lemma_ordered_ascending(edited(tree, edits));
}

/// A recursive and an iterative tree that went through the same changes hold
/// the same node graph: so all four traversals of the one are those of the
/// other, and the two are equal as trees are compared, by their values in
/// ascending order.
pub proof fn law_engines_agree<T: Ord>(
    recursive: RecursiveBST<T>,
    iterative: IterativeBST<T>,
    edits: Seq<Edit<T>>,
)
    requires
        total_order::<T>(),
        recursive@ == edited(None, edits),
        iterative@ == edited(None, edits),
    ensures
        pre_order(recursive@) == pre_order(iterative@),
        in_order(recursive@) == in_order(iterative@),
        post_order(recursive@) == post_order(iterative@),
        level_order(recursive@) == level_order(iterative@),
        ascending(in_order(recursive@)),
{
    law_edits_keep_order::<T>(None, edits);
}

/// Two trees with the same node graph, of whatever engines, return the same
/// from each borrowing traversal.
pub proof fn law_traversals_agree<T: Ord, A: BinarySearchTree<T>, B: BinarySearchTree<T>>(
    a: A,
    b: B,
    from_a: Vec<&T>,
    from_b: Vec<&T>,
)
    requires
        a@ == b@,
    ensures
        call_ensures(A::pre_order_vec, (&a,), from_a) && call_ensures(
            B::pre_order_vec,
            (&b,),
            from_b,
        ) ==> from_a@.unref() == from_b@.unref(),
        call_ensures(A::in_order_vec, (&a,), from_a) && call_ensures(
            B::in_order_vec,
            (&b,),
            from_b,
        ) ==> from_a@.unref() == from_b@.unref(),
        call_ensures(A::post_order_vec, (&a,), from_a) && call_ensures(
            B::post_order_vec,
            (&b,),
            from_b,
        ) ==> from_a@.unref() == from_b@.unref(),
        call_ensures(A::level_order_vec, (&a,), from_a) && call_ensures(
            B::level_order_vec,
            (&b,),
            from_b,
        ) ==> from_a@.unref() == from_b@.unref(),
{
}

/// A consuming traversal yields the values that its borrowing counterpart
/// yields references to, in the same order.
pub proof fn law_consuming_matches_borrowing<T: Ord, B: BinarySearchTree<T>>(
    tree: B,
    borrowed: IntoIter<&T>,
    consumed: IntoIter<T>,
)
    ensures
        call_ensures(B::pre_order_iter, (&tree,), borrowed) && call_ensures(
            B::into_pre_order_iter,
            (tree,),
            consumed,
        ) ==> borrowed.remaining().unref() == consumed.remaining(),
        call_ensures(B::in_order_iter, (&tree,), borrowed) && call_ensures(
            B::into_in_order_iter,
            (tree,),
            consumed,
        ) ==> borrowed.remaining().unref() == consumed.remaining(),
        call_ensures(B::asc_order_iter, (&tree,), borrowed) && call_ensures(
            B::into_asc_order_iter,
            (tree,),
            consumed,
        ) ==> borrowed.remaining().unref() == consumed.remaining(),
        call_ensures(B::post_order_iter, (&tree,), borrowed) && call_ensures(
            B::into_post_order_iter,
            (tree,),
            consumed,
        ) ==> borrowed.remaining().unref() == consumed.remaining(),
        call_ensures(B::level_order_iter, (&tree,), borrowed) && call_ensures(
            B::into_level_order_iter,
            (tree,),
            consumed,
        ) ==> borrowed.remaining().unref() == consumed.remaining(),
{
}

} // verus!
