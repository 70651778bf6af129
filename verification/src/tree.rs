//! The operations of a binary search tree, with one contract for every
//! engine.

use crate::node::HeapNode;
use crate::order::{equiv, lt, total_order};
use crate::search::{found, inserted, lookup, removed, replaced};
use crate::shape::{
    count, height, in_order, leftmost, level_order, post_order, pre_order, rightmost,
    without_leftmost, without_rightmost,
};
use crate::sorted::{ascending, has_equal, ordered};
use std::vec::IntoIter;
use vstd::prelude::*;
use vstd::std_specs::iter::IteratorSpec;

verus! {

/// The operations that the recursive and the iterative tree share.
///
/// A tree is described by the node graph that it owns, `self@`, and by the
/// number that it keeps of its nodes. What an operation does to the graph is
/// stated where `T::cmp` is a total order (`total_order::<T>()`); with any
/// other `T` the operations still run and still keep the count right, and
/// nothing more is promised of them.
pub trait BinarySearchTree<T: Ord>: Sized {
    /// The node graph that the tree owns.
    spec fn view(&self) -> HeapNode<T>;

    /// The number that the tree keeps of its nodes.
    spec fn spec_size(&self) -> usize;

    /// The number that the tree keeps is the number of its nodes. Every
    /// operation keeps it so.
    open spec fn counted(&self) -> bool {
        self.spec_size() == count(self@)
    }

    /// The count is right and, where `T` is totally ordered, the graph is in
    /// search order. Every operation keeps it so but `retrieve_as_mut`, whose
    /// caller decides what is written into the tree.
    open spec fn well_formed(&self) -> bool {
        &&& self.counted()
        &&& total_order::<T>() ==> ordered(self@)
    }

    /// Returns the total number of nodes within the tree.
    fn size(&self) -> (n: usize)
        ensures
            n == self.spec_size(),
            self.counted() ==> n == count(self@),
    ;

    /// Returns `true` if the binary search tree contains no nodes.
    fn is_empty(&self) -> (b: bool)
        ensures
            b == (self.spec_size() == 0),
            self.counted() ==> b == (self@ is None),
    ;

    /// Returns `true` if the binary search tree contains one or more nodes.
    fn is_not_empty(&self) -> (b: bool)
        ensures
            b == (self.spec_size() != 0),
            self.counted() ==> b == (self@ is Some),
    ;

    /// Inserts the given value as a new leaf, unless the walk for it ends at a
    /// value that compares equal to it: then the tree stays as it is. Returns
    /// `true` if the value was inserted.
    fn insert(&mut self, value: T) -> (added: bool)
        requires
            old(self).counted(),
            old(self).spec_size() < usize::MAX,
        ensures
            final(self).counted(),
            old(self).well_formed() ==> final(self).well_formed(),
            final(self).spec_size() == old(self).spec_size() + if added {
                1int
            } else {
                0int
            },
            !added ==> final(self)@ == old(self)@,
            total_order::<T>() ==> {
                &&& final(self)@ == inserted(old(self)@, value)
                &&& added == !found(old(self)@, value)
                &&& found(final(self)@, value)
            },
            total_order::<T>() && old(self).well_formed() ==> {
                &&& added == !has_equal(in_order(old(self)@), value)
                &&& has_equal(in_order(final(self)@), value)
            },
    ;

    /// Returns `true` if the tree holds a value that compares equal to the
    /// given one.
    fn contains(&self, value: &T) -> (b: bool)
        ensures
            total_order::<T>() ==> b == found(self@, *value),
            total_order::<T>() && self.well_formed() ==> b == has_equal(in_order(self@), *value),
    ;

    /// Removes the value at which the walk for the given one ends, which
    /// compares equal to it; the tree stays as it is if the walk finds none.
    fn remove(&mut self, value: &T)
        requires
            old(self).counted(),
        ensures
            final(self).counted(),
            old(self).well_formed() ==> final(self).well_formed(),
            final(self).spec_size() == old(self).spec_size() || final(self).spec_size() + 1
                == old(self).spec_size(),
            final(self).spec_size() == old(self).spec_size() ==> final(self)@ == old(self)@,
            total_order::<T>() ==> {
                &&& final(self)@ == removed(old(self)@, *value)
                &&& final(self).spec_size() + if found(old(self)@, *value) {
                    1int
                } else {
                    0int
                } == old(self).spec_size()
            },
            total_order::<T>() && old(self).well_formed() ==> {
                &&& !has_equal(in_order(final(self)@), *value)
                &&& found(old(self)@, *value) == has_equal(in_order(old(self)@), *value)
            },
    ;

    /// Returns a reference to the value that compares equal to the given one,
    /// or `None` if the tree holds none.
    fn retrieve(&self, value: &T) -> (res: Option<&T>)
        ensures
            total_order::<T>() ==> match res {
                Some(hit) => lookup(self@, *value) == Some(*hit),
                None => lookup(self@, *value) is None,
            },
            total_order::<T>() && self.well_formed() ==> (res is Some <==> has_equal(
                in_order(self@),
                *value,
            )),
    ;

    /// Returns a mutable reference to the value that compares equal to the
    /// given one, or `None` if the tree holds none.
    ///
    /// What the caller writes through the reference takes the place of that
    /// value, whatever it is: the count stays right, but the search order
    /// holds afterwards only if the new value fits where the old one stood,
    /// as a value that compares equal to the old one does.
    fn retrieve_as_mut(&mut self, value: &T) -> (res: Option<&mut T>)
        ensures
            final(self).spec_size() == old(self).spec_size(),
            count(final(self)@) == count(old(self)@),
            old(self).counted() ==> final(self).counted(),
            res is None ==> final(self)@ == old(self)@,
            total_order::<T>() ==> match res {
                Some(hit) => {
                    &&& lookup(old(self)@, *value) == Some(*hit)
                    &&& final(self)@ == replaced(old(self)@, *value, *final(hit))
                    &&& old(self).well_formed() && equiv(*final(hit), *hit)
                        ==> final(self).well_formed()
                },
                None => lookup(old(self)@, *value) is None,
            },
    ;

    /// Returns the height, the number of edges between the root and its
    /// furthest leaf, or `None` if the tree is empty.
    fn height(&self) -> (res: Option<isize>)
        requires
            height(self@) <= isize::MAX,
        ensures
            match res {
                Some(edges) => self@ is Some && edges == height(self@),
                None => self@ is None,
            },
    ;

    /// Returns a reference to the minimum, the first value in ascending
    /// order, or `None` if the tree is empty.
    fn min(&self) -> (res: Option<&T>)
        ensures
            match res {
                Some(least) => {
                    &&& self@ is Some
                    &&& leftmost(self@) == Some(*least)
                    &&& *least == in_order(self@).first()
                    &&& total_order::<T>() && self.well_formed() ==> forall|i: int|
                        0 < i < in_order(self@).len() ==> lt(
                            *least,
                            #[trigger] in_order(self@)[i],
                        )
                },
                None => self@ is None,
            },
    ;

    /// Returns a reference to the maximum, the last value in ascending order,
    /// or `None` if the tree is empty.
    fn max(&self) -> (res: Option<&T>)
        ensures
            match res {
                Some(greatest) => {
                    &&& self@ is Some
                    &&& rightmost(self@) == Some(*greatest)
                    &&& *greatest == in_order(self@).last()
                    &&& total_order::<T>() && self.well_formed() ==> forall|i: int|
                        0 <= i < in_order(self@).len() - 1 ==> lt(
                            #[trigger] in_order(self@)[i],
                            *greatest,
                        )
                },
                None => self@ is None,
            },
    ;

    /// Removes and returns the minimum, or returns `None` if the tree is
    /// empty.
    fn remove_min(&mut self) -> (res: Option<T>)
        requires
            old(self).counted(),
        ensures
            final(self).counted(),
            old(self).well_formed() ==> final(self).well_formed(),
            final(self)@ == without_leftmost(old(self)@),
            match res {
                Some(least) => {
                    &&& old(self)@ is Some
                    &&& least == in_order(old(self)@).first()
                    &&& in_order(final(self)@) == in_order(old(self)@).drop_first()
                    &&& final(self).spec_size() + 1 == old(self).spec_size()
                    &&& total_order::<T>() && old(self).well_formed() ==> forall|i: int|
                        0 <= i < in_order(final(self)@).len() ==> lt(
                            least,
                            #[trigger] in_order(final(self)@)[i],
                        )
                },
                None => old(self)@ is None && final(self).spec_size() == old(self).spec_size(),
            },
    ;

    /// Removes and returns the maximum, or returns `None` if the tree is
    /// empty.
    fn remove_max(&mut self) -> (res: Option<T>)
        requires
            old(self).counted(),
        ensures
            final(self).counted(),
            old(self).well_formed() ==> final(self).well_formed(),
            final(self)@ == without_rightmost(old(self)@),
            match res {
                Some(greatest) => {
                    &&& old(self)@ is Some
                    &&& greatest == in_order(old(self)@).last()
                    &&& in_order(final(self)@) == in_order(old(self)@).drop_last()
                    &&& final(self).spec_size() + 1 == old(self).spec_size()
                    &&& total_order::<T>() && old(self).well_formed() ==> forall|i: int|
                        0 <= i < in_order(final(self)@).len() ==> lt(
                            #[trigger] in_order(final(self)@)[i],
                            greatest,
                        )
                },
                None => old(self)@ is None && final(self).spec_size() == old(self).spec_size(),
            },
    ;

    /// Returns references to the values in ascending order, which is the
    /// in-order of a tree in search order.
    fn asc_order_vec(&self) -> (elements: Vec<&T>)
        ensures
            elements@.unref() == in_order(self@),
            total_order::<T>() && self.well_formed() ==> ascending(elements@.unref()),
    ;

    /// Returns references to the values in pre-order.
    fn pre_order_vec(&self) -> (elements: Vec<&T>)
        ensures
            elements@.unref() == pre_order(self@),
    ;

    /// Returns references to the values in in-order.
    fn in_order_vec(&self) -> (elements: Vec<&T>)
        ensures
            elements@.unref() == in_order(self@),
            total_order::<T>() && self.well_formed() ==> ascending(elements@.unref()),
    ;

    /// Returns references to the values in post-order.
    fn post_order_vec(&self) -> (elements: Vec<&T>)
        ensures
            elements@.unref() == post_order(self@),
    ;

    /// Returns references to the values in level-order.
    fn level_order_vec(&self) -> (elements: Vec<&T>)
        requires
            height(self@) < isize::MAX,
        ensures
            elements@.unref() == level_order(self@),
    ;

    /// Returns an iterator over what `asc_order_vec` returns.
    fn asc_order_iter(&self) -> (iter: IntoIter<&T>)
        ensures
            iter.remaining().unref() == in_order(self@),
            total_order::<T>() && self.well_formed() ==> ascending(iter.remaining().unref()),
    ;

    /// Returns an iterator over what `pre_order_vec` returns.
    fn pre_order_iter(&self) -> (iter: IntoIter<&T>)
        ensures
            iter.remaining().unref() == pre_order(self@),
    ;

    /// Returns an iterator over what `in_order_vec` returns.
    fn in_order_iter(&self) -> (iter: IntoIter<&T>)
        ensures
            iter.remaining().unref() == in_order(self@),
            total_order::<T>() && self.well_formed() ==> ascending(iter.remaining().unref()),
    ;

    /// Returns an iterator over what `post_order_vec` returns.
    fn post_order_iter(&self) -> (iter: IntoIter<&T>)
        ensures
            iter.remaining().unref() == post_order(self@),
    ;

    /// Returns an iterator over what `level_order_vec` returns.
    fn level_order_iter(&self) -> (iter: IntoIter<&T>)
        requires
            height(self@) < isize::MAX,
        ensures
            iter.remaining().unref() == level_order(self@),
    ;

    /// Takes the tree apart and returns an iterator over its values in
    /// ascending order.
    fn into_asc_order_iter(self) -> (iter: IntoIter<T>)
        ensures
            iter.remaining() == in_order(self@),
            total_order::<T>() && self.well_formed() ==> ascending(iter.remaining()),
    ;

    /// Takes the tree apart and returns an iterator over its values in
    /// pre-order.
    fn into_pre_order_iter(self) -> (iter: IntoIter<T>)
        ensures
            iter.remaining() == pre_order(self@),
    ;

    /// Takes the tree apart and returns an iterator over its values in
    /// in-order.
    fn into_in_order_iter(self) -> (iter: IntoIter<T>)
        ensures
            iter.remaining() == in_order(self@),
            total_order::<T>() && self.well_formed() ==> ascending(iter.remaining()),
    ;

    /// Takes the tree apart and returns an iterator over its values in
    /// post-order.
    fn into_post_order_iter(self) -> (iter: IntoIter<T>)
        ensures
            iter.remaining() == post_order(self@),
    ;

    /// Takes the tree apart and returns an iterator over its values in
    /// level-order.
    fn into_level_order_iter(self) -> (iter: IntoIter<T>)
        ensures
            iter.remaining() == level_order(self@),
    ;
}

} // verus!
