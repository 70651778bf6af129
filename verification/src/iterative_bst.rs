//! The tree that works with loops.

use crate::cloning::{clones_of, exact_clone, lemma_clones_push, lemma_exact_clones};
use crate::equality::{lemma_same_values, same_values};
use crate::node::{HeapNode, Node};
use crate::order::{equiv, total_order};
use crate::search::{
    built, inserted, lemma_inserted_count, lemma_inserted_found, lemma_removed_count, lookup,
    removed, replaced,
};
use crate::shape::{
    count, height, in_order, leftmost, lemma_height_below_count, lemma_leftmost_is_first,
    lemma_rightmost_is_last, rightmost, without_leftmost, without_rightmost,
};
use crate::sorted::{
    lemma_bounds_in_order, lemma_found_iff_has_equal, lemma_inserted_ordered,
    lemma_ordered_ascending, lemma_removed_not_found, lemma_removed_ordered,
    lemma_replaced_ordered, lemma_without_leftmost_ordered, lemma_without_rightmost_ordered,
    ordered,
};
use crate::tree::BinarySearchTree;
use std::vec::IntoIter;
use vstd::prelude::*;
use vstd::std_specs::cmp::{PartialEqSpec, PartialEqSpecImpl};
use vstd::std_specs::convert::FromSpecImpl;

verus! {

/// An iterative binary search tree: every operation is a loop, so that the
/// depth of the tree costs no call stack. This is the tree to prefer.
#[derive(Debug)]
pub struct IterativeBST<T: Ord> {
    root: HeapNode<T>,
    size: usize,
}

impl<T: Ord> IterativeBST<T> {
    /// Creates an empty tree. No node is allocated yet.
    pub fn new() -> (tree: IterativeBST<T>)
        ensures
            tree@ is None,
            tree.spec_size() == 0,
            tree.well_formed(),
    {
        IterativeBST { root: None, size: 0 }
    }

    /// The well-formed tree that owns the node graph `root`.
    pub closed spec fn holding(root: HeapNode<T>) -> IterativeBST<T> {
        IterativeBST { root, size: count(root) as usize }
    }

    /// A tree is known by its node graph and its count.
    pub proof fn lemma_holding(self)
        requires
            self.spec_size() == count(self@),
        ensures
            self == Self::holding(self@),
    {
    }
}

impl<T: Ord> PartialEqSpecImpl for IterativeBST<T> {
    open spec fn obeys_eq_spec() -> bool {
        T::obeys_eq_spec()
    }

    open spec fn eq_spec(&self, other: &Self) -> bool {
        same_values(in_order(self@), in_order(other@))
    }
}

impl<T: Ord> PartialEq for IterativeBST<T> {
    /// Two trees are equal if they list equal values in ascending order,
    /// whatever their shapes.
    fn eq(&self, other: &Self) -> (res: bool) {
        let mine = self.asc_order_vec();
        let theirs = other.asc_order_vec();
        proof {
            lemma_same_values(mine@, theirs@);
        }
        mine == theirs
    }
}

impl<T: Ord> Default for IterativeBST<T> {
    /// Creates an empty tree.
    fn default() -> (tree: IterativeBST<T>)
        ensures
            tree@ is None,
            tree.spec_size() == 0,
            tree.well_formed(),
    {
        IterativeBST::new()
    }
}

impl<T: Ord> FromSpecImpl<Vec<T>> for IterativeBST<T> {
    open spec fn obeys_from_spec() -> bool {
        total_order::<T>()
    }

    open spec fn from_spec(vec: Vec<T>) -> Self {
        Self::holding(built(vec@))
    }
}

impl<T: Ord> From<Vec<T>> for IterativeBST<T> {
    /// The tree that results from inserting the values of `vec` one by one,
    /// in their order, into an empty tree.
    fn from(vec: Vec<T>) -> (bst: Self)
        ensures
            bst.well_formed(),
            total_order::<T>() ==> bst@ == built(vec@),
    {
        let mut bst = IterativeBST::new();
        let ghost values = vec@;
        let ghost limit = vec.len();
        for value in it: vec.into_iter()
            invariant
                it.seq() == values,
                values.len() == limit,
                bst.well_formed(),
                bst.spec_size() <= it.index(),
                total_order::<T>() ==> bst@ == built(values.take(it.index())),
        {
            proof {
                let k = it.index();
                assert(values.take(k + 1).drop_last() =~= values.take(k));
            }
            bst.insert(value);
        }
        proof {
            assert(values.take(values.len() as int) =~= values);
            bst.lemma_holding();
        }
        bst
    }
}

impl<T: Ord + Clone> FromSpecImpl<&[T]> for IterativeBST<T> {
    open spec fn obeys_from_spec() -> bool {
        total_order::<T>() && exact_clone::<T>()
    }

    open spec fn from_spec(slice: &[T]) -> Self {
        Self::holding(built(slice@))
    }
}

impl<T: Ord + Clone> From<&[T]> for IterativeBST<T> {
    /// The tree that results from inserting a clone of each value of `slice`,
    /// one by one and in their order, into an empty tree.
    fn from(slice: &[T]) -> (bst: Self)
        ensures
            bst.well_formed(),
            exists|copies: Seq<T>| #[trigger]
                clones_of(slice@, copies) && (total_order::<T>() ==> bst@ == built(copies)),
    {
        let mut bst = IterativeBST::new();
        let ghost mut copies: Seq<T> = Seq::empty();
        let mut i: usize = 0;
        while i < slice.len()
            invariant
                0 <= i <= slice.len(),
                bst.well_formed(),
                bst.spec_size() <= i,
                clones_of(slice@.take(i as int), copies),
                total_order::<T>() ==> bst@ == built(copies),
            decreases slice.len() - i,
        {
            let value = slice[i].clone();
            proof {
                lemma_clones_push(slice@, i as int, copies, value);
                copies = copies.push(value);
            }
            bst.insert(value);
            i += 1;
        }
        proof {
            assert(slice@.take(i as int) =~= slice@);
            lemma_exact_clones(slice@, copies);
            bst.lemma_holding();
        }
        bst
    }
}

impl<T: Ord + Clone> Clone for IterativeBST<T> {
    /// The tree that results from inserting a clone of each value, in
    /// ascending order, into an empty tree. It holds what the clones are, in
    /// a shape of its own.
    fn clone(&self) -> (bst: Self)
        ensures
            bst.well_formed(),
            exists|copies: Seq<T>| #[trigger]
                clones_of(in_order(self@), copies) && (total_order::<T>() ==> bst@ == built(
                    copies,
                )),
    {
        let mut bst = IterativeBST::new();
        let elements = self.in_order_vec();
        let ghost mut copies: Seq<T> = Seq::empty();
        let mut i: usize = 0;
        while i < elements.len()
            invariant
                0 <= i <= elements.len(),
                elements@.unref() == in_order(self@),
                bst.well_formed(),
                bst.spec_size() <= i,
                clones_of(in_order(self@).take(i as int), copies),
                total_order::<T>() ==> bst@ == built(copies),
            decreases elements.len() - i,
        {
            let value = elements[i].clone();
            proof {
                lemma_clones_push(in_order(self@), i as int, copies, value);
                copies = copies.push(value);
            }
            bst.insert(value);
            i += 1;
        }
        proof {
            assert(in_order(self@).take(i as int) =~= in_order(self@));
        }
        bst
    }
}

impl<T: Ord> BinarySearchTree<T> for IterativeBST<T> {
    closed spec fn view(&self) -> HeapNode<T> {
        self.root
    }

    closed spec fn spec_size(&self) -> usize {
        self.size
    }

    fn size(&self) -> (n: usize) {
        self.size
    }

    fn is_empty(&self) -> (b: bool) {
        self.size == 0
    }

    fn is_not_empty(&self) -> (b: bool) {
        self.size != 0
    }

    fn insert(&mut self, value: T) -> (added: bool) {
        proof {
            lemma_inserted_count(self.root, value);
            if total_order::<T>() {
                lemma_inserted_found(self.root, value);
                if ordered(self.root) {
                    lemma_inserted_ordered(self.root, value);
                    lemma_found_iff_has_equal(self.root, value);
                    lemma_found_iff_has_equal(inserted(self.root, value), value);
                }
            }
        }
        if Node::iterative_insert(&mut self.root, value).is_ok() {
            self.size += 1;
            true
        } else {
            false
        }
    }

    fn contains(&self, value: &T) -> (b: bool) {
        proof {
            if total_order::<T>() && self.well_formed() {
                lemma_found_iff_has_equal(self.root, *value);
            }
        }
        Node::iterative_contains(&self.root, value)
    }

    fn remove(&mut self, value: &T) {
        proof {
            lemma_removed_count(self.root, *value);
            if total_order::<T>() && ordered(self.root) {
                lemma_removed_ordered(self.root, *value);
                lemma_removed_not_found(self.root, *value);
                lemma_found_iff_has_equal(self.root, *value);
                lemma_found_iff_has_equal(removed(self.root, *value), *value);
            }
        }
        if Node::iterative_remove(&mut self.root, value).is_ok() {
            self.size -= 1;
        }
    }

    fn retrieve(&self, value: &T) -> (res: Option<&T>) {
        proof {
            if total_order::<T>() && self.well_formed() {
                lemma_found_iff_has_equal(self.root, *value);
            }
        }
        Node::iterative_retrieve(&self.root, value)
    }

    fn retrieve_as_mut(&mut self, value: &T) -> (res: Option<&mut T>) {
        let ghost graph = self.root;
        let res = Node::iterative_retrieve_as_mut(&mut self.root, value);
        proof {
            if total_order::<T>() && ordered(graph) {
                assert forall|new: T|
                    (lookup(graph, *value) matches Some(hit) ==> equiv(new, hit)) implies ordered(
                    #[trigger] replaced(graph, *value, new),
                ) by {
                    lemma_replaced_ordered(graph, *value, new);
                }
            }
        }
        res
    }

    fn height(&self) -> (res: Option<isize>) {
        proof {
            lemma_height_below_count(self.root);
        }
        match self.root {
            None => None,
            Some(_) => Some(Node::iterative_height(&self.root)),
        }
    }

    fn min(&self) -> (res: Option<&T>) {
        proof {
            lemma_leftmost_is_first(self.root);
            if total_order::<T>() && self.well_formed() {
                lemma_ordered_ascending(self.root);
            }
        }
        Node::iterative_min(&self.root)
    }

    fn max(&self) -> (res: Option<&T>) {
        proof {
            lemma_rightmost_is_last(self.root);
            if total_order::<T>() && self.well_formed() {
                lemma_ordered_ascending(self.root);
            }
        }
        Node::iterative_max(&self.root)
    }

    fn remove_min(&mut self) -> (res: Option<T>) {
        proof {
            lemma_leftmost_is_first(self.root);
            if total_order::<T>() && ordered(self.root) {
                lemma_without_leftmost_ordered(self.root);
                if self.root is Some {
                    lemma_bounds_in_order(
                        without_leftmost(self.root),
                        leftmost(self.root).unwrap(),
                    );
                }
            }
        }
        let removed_min = Node::iterative_remove_min(&mut self.root);
        if removed_min.is_some() {
            self.size -= 1;
        }
        removed_min
    }

    fn remove_max(&mut self) -> (res: Option<T>) {
        proof {
            lemma_rightmost_is_last(self.root);
            if total_order::<T>() && ordered(self.root) {
                lemma_without_rightmost_ordered(self.root);
                if self.root is Some {
                    lemma_bounds_in_order(
                        without_rightmost(self.root),
                        rightmost(self.root).unwrap(),
                    );
                }
            }
        }
        let removed_max = Node::iterative_remove_max(&mut self.root);
        if removed_max.is_some() {
            self.size -= 1;
        }
        removed_max
    }

    fn asc_order_vec(&self) -> (elements: Vec<&T>) {
        self.in_order_vec()
    }

    fn pre_order_vec(&self) -> (elements: Vec<&T>) {
        Node::iterative_pre_order_vec(&self.root)
    }

    fn in_order_vec(&self) -> (elements: Vec<&T>) {
        proof {
            if total_order::<T>() && self.well_formed() {
                lemma_ordered_ascending(self.root);
            }
        }
        Node::iterative_in_order_vec(&self.root)
    }

    fn post_order_vec(&self) -> (elements: Vec<&T>) {
        Node::iterative_post_order_vec(&self.root)
    }

    fn level_order_vec(&self) -> (elements: Vec<&T>) {
        Node::iterative_level_order_vec(&self.root)
    }

    fn asc_order_iter(&self) -> (iter: IntoIter<&T>) {
        self.in_order_iter()
    }

    fn pre_order_iter(&self) -> (iter: IntoIter<&T>) {
        Node::iterative_pre_order_vec(&self.root).into_iter()
    }

    fn in_order_iter(&self) -> (iter: IntoIter<&T>) {
        proof {
            if total_order::<T>() && self.well_formed() {
                lemma_ordered_ascending(self.root);
            }
        }
        Node::iterative_in_order_vec(&self.root).into_iter()
    }

    fn post_order_iter(&self) -> (iter: IntoIter<&T>) {
        Node::iterative_post_order_vec(&self.root).into_iter()
    }

    fn level_order_iter(&self) -> (iter: IntoIter<&T>) {
        Node::iterative_level_order_vec(&self.root).into_iter()
    }

    fn into_asc_order_iter(self) -> (iter: IntoIter<T>) {
        self.into_in_order_iter()
    }

    fn into_pre_order_iter(self) -> (iter: IntoIter<T>) {
        Node::iterative_consume_pre_order_vec(self.root).into_iter()
    }

    fn into_in_order_iter(self) -> (iter: IntoIter<T>) {
        proof {
            if total_order::<T>() && self.well_formed() {
                lemma_ordered_ascending(self.root);
            }
        }
        Node::iterative_consume_in_order_vec(self.root).into_iter()
    }

    fn into_post_order_iter(self) -> (iter: IntoIter<T>) {
        Node::iterative_consume_post_order_vec(self.root).into_iter()
    }

    fn into_level_order_iter(self) -> (iter: IntoIter<T>) {
        Node::iterative_consume_level_order_vec(self.root).into_iter()
    }
}

} // verus!
