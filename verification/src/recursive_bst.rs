//! The tree that works by recursion.

use crate::cloning::{clones_of, exact_clone, lemma_clones_push, lemma_exact_clones};
use crate::equality::{lemma_same_values, same_values};
use crate::node::{HeapNode, Node};
use crate::order::{equiv, total_order};
use crate::search::{
    built, inserted, lemma_inserted_count, lemma_inserted_found, lemma_removed_count, lookup,
    removed, replaced,
};
use crate::shape::{
    count, height, in_order, leftmost, lemma_height_below_count, lemma_leftmost_is_first,
    lemma_rightmost_is_last, rightmost, without_leftmost, without_rightmost,
};
use crate::sorted::{
    lemma_bounds_in_order, lemma_found_iff_has_equal, lemma_inserted_ordered,
    lemma_ordered_ascending, lemma_removed_not_found, lemma_removed_ordered,
    lemma_replaced_ordered, lemma_without_leftmost_ordered, lemma_without_rightmost_ordered,
    ordered,
};
use crate::tree::BinarySearchTree;
use std::vec::IntoIter;
use vstd::prelude::*;
use vstd::std_specs::cmp::{PartialEqSpec, PartialEqSpecImpl};
use vstd::std_specs::convert::FromSpecImpl;

verus! {

/// A recursive binary search tree: every operation calls itself once per
/// level, so that a very deep tree can exhaust the call stack. It does what
/// `IterativeBST` does, by other means.
#[derive(Debug)]
pub struct RecursiveBST<T: Ord> {
    root: HeapNode<T>,
    size: usize,
}

impl<T: Ord> RecursiveBST<T> {
    /// Creates an empty tree. No node is allocated yet.
    pub fn new() -> (tree: RecursiveBST<T>)
        ensures
            tree@ is None,
            tree.spec_size() == 0,
            tree.well_formed(),
    {
        RecursiveBST { root: None, size: 0 }
    }

    /// The well-formed tree that owns the node graph `root`.
    pub closed spec fn holding(root: HeapNode<T>) -> RecursiveBST<T> {
        RecursiveBST { root, size: count(root) as usize }
    }

    /// A tree is known by its node graph and its count.
    pub proof fn lemma_holding(self)
        requires
            self.spec_size() == count(self@),
        ensures
            self == Self::holding(self@),
    {
    }
}

impl<T: Ord> PartialEqSpecImpl for RecursiveBST<T> {
    open spec fn obeys_eq_spec() -> bool {
        T::obeys_eq_spec()
    }

    open spec fn eq_spec(&self, other: &Self) -> bool {
        same_values(in_order(self@), in_order(other@))
    }
}

impl<T: Ord> PartialEq for RecursiveBST<T> {
    /// Two trees are equal if they list equal values in ascending order,
    /// whatever their shapes.
    fn eq(&self, other: &Self) -> (res: bool) {
        let mine = self.asc_order_vec();
        let theirs = other.asc_order_vec();
        proof {
            lemma_same_values(mine@, theirs@);
        }
        mine == theirs
    }
}

impl<T: Ord> Default for RecursiveBST<T> {
    /// Creates an empty tree.
    fn default() -> (tree: RecursiveBST<T>)
        ensures
            tree@ is None,
            tree.spec_size() == 0,
            tree.well_formed(),
    {
        RecursiveBST::new()
    }
}

impl<T: Ord> FromSpecImpl<Vec<T>> for RecursiveBST<T> {
    open spec fn obeys_from_spec() -> bool {
        total_order::<T>()
    }

    open spec fn from_spec(vec: Vec<T>) -> Self {
        Self::holding(built(vec@))
    }
}

impl<T: Ord> From<Vec<T>> for RecursiveBST<T> {
    /// The tree that results from inserting the values of `vec` one by one,
    /// in their order, into an empty tree.
    fn from(vec: Vec<T>) -> (bst: Self)
        ensures
            bst.well_formed(),
            total_order::<T>() ==> bst@ == built(vec@),
    {
        let mut bst = RecursiveBST::new();
        let ghost values = vec@;
        let ghost limit = vec.len();
        for value in it: vec.into_iter()
            invariant
                it.seq() == values,
                values.len() == limit,
                bst.well_formed(),
                bst.spec_size() <= it.index(),
                total_order::<T>() ==> bst@ == built(values.take(it.index())),
        {
            proof {
                let k = it.index();
                assert(values.take(k + 1).drop_last() =~= values.take(k));
            }
            bst.insert(value);
        }
        proof {
            assert(values.take(values.len() as int) =~= values);
            bst.lemma_holding();
        }
        bst
    }
}

impl<T: Ord + Clone> FromSpecImpl<&[T]> for RecursiveBST<T> {
    open spec fn obeys_from_spec() -> bool {
        total_order::<T>() && exact_clone::<T>()
    }

    open spec fn from_spec(slice: &[T]) -> Self {
        Self::holding(built(slice@))
    }
}

impl<T: Ord + Clone> From<&[T]> for RecursiveBST<T> {
    /// The tree that results from inserting a clone of each value of `slice`,
    /// one by one and in their order, into an empty tree.
    fn from(slice: &[T]) -> (bst: Self)
        ensures
            bst.well_formed(),
            exists|copies: Seq<T>| #[trigger]
                clones_of(slice@, copies) && (total_order::<T>() ==> bst@ == built(copies)),
    {
        let mut bst = RecursiveBST::new();
        let ghost mut copies: Seq<T> = Seq::empty();
        let mut i: usize = 0;
        while i < slice.len()
            invariant
                0 <= i <= slice.len(),
                bst.well_formed(),
                bst.spec_size() <= i,
                clones_of(slice@.take(i as int), copies),
                total_order::<T>() ==> bst@ == built(copies),
            decreases slice.len() - i,
        {
            let value = slice[i].clone();
            proof {
                lemma_clones_push(slice@, i as int, copies, value);
                copies = copies.push(value);
            }
            bst.insert(value);
            i += 1;
        }
        proof {
            assert(slice@.take(i as int) =~= slice@);
            lemma_exact_clones(slice@, copies);
            bst.lemma_holding();
        }
        bst
    }
}

impl<T: Ord + Clone> Clone for RecursiveBST<T> {
    /// The tree that results from inserting a clone of each value, in
    /// ascending order, into an empty tree. It holds what the clones are, in
    /// a shape of its own.
    fn clone(&self) -> (bst: Self)
        ensures
            bst.well_formed(),
            exists|copies: Seq<T>| #[trigger]
                clones_of(in_order(self@), copies) && (total_order::<T>() ==> bst@ == built(
                    copies,
                )),
    {
        let mut bst = RecursiveBST::new();
        let elements = self.in_order_vec();
        let ghost mut copies: Seq<T> = Seq::empty();
        let mut i: usize = 0;
        while i < elements.len()
            invariant
                0 <= i <= elements.len(),
                elements@.unref() == in_order(self@),
                bst.well_formed(),
                bst.spec_size() <= i,
                clones_of(in_order(self@).take(i as int), copies),
                total_order::<T>() ==> bst@ == built(copies),
            decreases elements.len() - i,
        {
            let value = elements[i].clone();
            proof {
                lemma_clones_push(in_order(self@), i as int, copies, value);
                copies = copies.push(value);
            }
            bst.insert(value);
            i += 1;
        }
        proof {
            assert(in_order(self@).take(i as int) =~= in_order(self@));
        }
        bst
    }
}

impl<T: Ord> BinarySearchTree<T> for RecursiveBST<T> {
    closed spec fn view(&self) -> HeapNode<T> {
        self.root
    }

    closed spec fn spec_size(&self) -> usize {
        self.size
    }

    fn size(&self) -> (n: usize) {
        self.size
    }

    fn is_empty(&self) -> (b: bool) {
        self.size == 0
    }

    fn is_not_empty(&self) -> (b: bool) {
        self.size != 0
    }

    fn insert(&mut self, value: T) -> (added: bool) {
        proof {
            lemma_inserted_count(self.root, value);
            if total_order::<T>() {
                lemma_inserted_found(self.root, value);
                if ordered(self.root) {
                    lemma_inserted_ordered(self.root, value);
                    lemma_found_iff_has_equal(self.root, value);
                    lemma_found_iff_has_equal(inserted(self.root, value), value);
                }
            }
        }
        match self.root {
            None => {
                self.root = Some(Box::new(Node::new(value)));
                self.size += 1;
                true
            },
            Some(ref mut node) => {
                if node.recursive_insert(value).is_ok() {
                    self.size += 1;
                    true
                } else {
                    false
                }
            },
        }
    }

    fn contains(&self, value: &T) -> (b: bool) {
        proof {
            if total_order::<T>() && self.well_formed() {
                lemma_found_iff_has_equal(self.root, *value);
            }
        }
        match self.root {
            None => false,
            Some(ref node) => node.recursive_contains(value),
        }
    }

    fn remove(&mut self, value: &T) {
        proof {
            lemma_removed_count(self.root, *value);
            if total_order::<T>() && ordered(self.root) {
                lemma_removed_ordered(self.root, *value);
                lemma_removed_not_found(self.root, *value);
                lemma_found_iff_has_equal(self.root, *value);
                lemma_found_iff_has_equal(removed(self.root, *value), *value);
            }
        }
        if Node::recursive_remove(&mut self.root, value).is_ok() {
            self.size -= 1;
        }
    }

    fn retrieve(&self, value: &T) -> (res: Option<&T>) {
        proof {
            if total_order::<T>() && self.well_formed() {
                lemma_found_iff_has_equal(self.root, *value);
            }
        }
        match self.root {
            None => None,
            Some(ref node) => node.recursive_retrieve(value),
        }
    }

    fn retrieve_as_mut(&mut self, value: &T) -> (res: Option<&mut T>) {
        let ghost graph = self.root;
        let res = match self.root {
            None => None,
            Some(ref mut node) => node.recursive_retrieve_as_mut(value),
        };
        proof {
            if total_order::<T>() && ordered(graph) {
                assert forall|new: T|
                    (lookup(graph, *value) matches Some(hit) ==> equiv(new, hit)) implies ordered(
                    #[trigger] replaced(graph, *value, new),
                ) by {
                    lemma_replaced_ordered(graph, *value, new);
                }
            }
        }
        res
    }

    fn height(&self) -> (res: Option<isize>) {
        proof {
            lemma_height_below_count(self.root);
        }
        match self.root {
            None => None,
            Some(_) => Some(Node::recursive_height(&self.root)),
        }
    }

    fn min(&self) -> (res: Option<&T>) {
        proof {
            lemma_leftmost_is_first(self.root);
            if total_order::<T>() && self.well_formed() {
                lemma_ordered_ascending(self.root);
            }
        }
        match self.root {
            None => None,
            Some(ref node) => node.recursive_min(),
        }
    }

    fn max(&self) -> (res: Option<&T>) {
        proof {
            lemma_rightmost_is_last(self.root);
            if total_order::<T>() && self.well_formed() {
                lemma_ordered_ascending(self.root);
            }
        }
        match self.root {
            None => None,
            Some(ref node) => node.recursive_max(),
        }
    }

    fn remove_min(&mut self) -> (res: Option<T>) {
        proof {
            lemma_leftmost_is_first(self.root);
            if total_order::<T>() && ordered(self.root) {
                lemma_without_leftmost_ordered(self.root);
                if self.root is Some {
                    lemma_bounds_in_order(
                        without_leftmost(self.root),
                        leftmost(self.root).unwrap(),
                    );
                }
            }
        }
        let removed_min = match self.root {
            None => None,
            Some(_) => Node::recursive_remove_min(&mut self.root),
        };
        if removed_min.is_some() {
            self.size -= 1;
        }
        removed_min
    }

    fn remove_max(&mut self) -> (res: Option<T>) {
        proof {
            lemma_rightmost_is_last(self.root);
            if total_order::<T>() && ordered(self.root) {
                lemma_without_rightmost_ordered(self.root);
                if self.root is Some {
                    lemma_bounds_in_order(
                        without_rightmost(self.root),
                        rightmost(self.root).unwrap(),
                    );
                }
            }
        }
        let removed_max = match self.root {
            None => None,
            Some(_) => Node::recursive_remove_max(&mut self.root),
        };
        if removed_max.is_some() {
            self.size -= 1;
        }
        removed_max
    }

    fn asc_order_vec(&self) -> (elements: Vec<&T>) {
        proof {
            if total_order::<T>() && self.well_formed() {
                lemma_ordered_ascending(self.root);
            }
        }
        let mut elements: Vec<&T> = Vec::new();
        Node::recursive_in_order_vec(&self.root, &mut elements);
        elements
    }

    fn pre_order_vec(&self) -> (elements: Vec<&T>) {
        let mut elements: Vec<&T> = Vec::new();
        Node::recursive_pre_order_vec(&self.root, &mut elements);
        elements
    }

    fn in_order_vec(&self) -> (elements: Vec<&T>) {
        proof {
            if total_order::<T>() && self.well_formed() {
                lemma_ordered_ascending(self.root);
            }
        }
        let mut elements: Vec<&T> = Vec::new();
        Node::recursive_in_order_vec(&self.root, &mut elements);
        elements
    }

    fn post_order_vec(&self) -> (elements: Vec<&T>) {
        let mut elements: Vec<&T> = Vec::new();
        Node::recursive_post_order_vec(&self.root, &mut elements);
        elements
    }

    fn level_order_vec(&self) -> (elements: Vec<&T>) {
        let mut elements: Vec<&T> = Vec::new();
        Node::recursive_level_order_vec(&self.root, &mut elements);
        elements
    }

    fn asc_order_iter(&self) -> (iter: IntoIter<&T>) {
        proof {
            if total_order::<T>() && self.well_formed() {
                lemma_ordered_ascending(self.root);
            }
        }
        let mut elements: Vec<&T> = Vec::new();
        Node::recursive_in_order_vec(&self.root, &mut elements);
        elements.into_iter()
    }

    fn pre_order_iter(&self) -> (iter: IntoIter<&T>) {
        let mut elements: Vec<&T> = Vec::new();
        Node::recursive_pre_order_vec(&self.root, &mut elements);
        elements.into_iter()
    }

    fn in_order_iter(&self) -> (iter: IntoIter<&T>) {
        proof {
            if total_order::<T>() && self.well_formed() {
                lemma_ordered_ascending(self.root);
            }
        }
        let mut elements: Vec<&T> = Vec::new();
        Node::recursive_in_order_vec(&self.root, &mut elements);
        elements.into_iter()
    }

    fn post_order_iter(&self) -> (iter: IntoIter<&T>) {
        let mut elements: Vec<&T> = Vec::new();
        Node::recursive_post_order_vec(&self.root, &mut elements);
        elements.into_iter()
    }

    fn level_order_iter(&self) -> (iter: IntoIter<&T>) {
        let mut elements: Vec<&T> = Vec::new();
        Node::recursive_level_order_vec(&self.root, &mut elements);
        elements.into_iter()
    }

    fn into_asc_order_iter(self) -> (iter: IntoIter<T>) {
        self.into_in_order_iter()
    }

    fn into_pre_order_iter(self) -> (iter: IntoIter<T>) {
        let mut elements: Vec<T> = Vec::new();
        Node::recursive_consume_pre_order_vec(self.root, &mut elements);
        elements.into_iter()
    }

    fn into_in_order_iter(self) -> (iter: IntoIter<T>) {
        proof {
            if total_order::<T>() && self.well_formed() {
                lemma_ordered_ascending(self.root);
            }
        }
        let mut elements: Vec<T> = Vec::new();
        Node::recursive_consume_in_order_vec(self.root, &mut elements);
        elements.into_iter()
    }

    fn into_post_order_iter(self) -> (iter: IntoIter<T>) {
        let mut elements: Vec<T> = Vec::new();
        Node::recursive_consume_post_order_vec(self.root, &mut elements);
        elements.into_iter()
    }

    fn into_level_order_iter(self) -> (iter: IntoIter<T>) {
        let mut elements: Vec<T> = Vec::new();
        Node::recursive_consume_level_order_vec(self.root, &mut elements);
        elements.into_iter()
    }
}

} // verus!
