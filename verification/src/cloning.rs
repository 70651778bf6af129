//! Sequences of clones, as a tree holds them that was built from the values of
//! a slice or of another tree.

use vstd::prelude::*;

verus! {

/// `copies` holds, position by position, a clone of each of `values`.
pub open spec fn clones_of<T: Clone>(values: Seq<T>, copies: Seq<T>) -> bool {
    &&& copies.len() == values.len()
    &&& forall|i: int| 0 <= i < values.len() ==> cloned(#[trigger] values[i], copies[i])
}

/// A clone of a `T` is that `T` again.
pub open spec fn exact_clone<T: Clone>() -> bool {
    forall|value: T, copy: T| #[trigger] cloned(value, copy) ==> copy == value
}

/// One more clone, of the next value.
pub proof fn lemma_clones_push<T: Clone>(values: Seq<T>, done: int, copies: Seq<T>, copy: T)
    requires
        0 <= done < values.len(),
        clones_of(values.take(done), copies),
        cloned(values[done], copy),
    ensures
        clones_of(values.take(done + 1), copies.push(copy)),
        copies.push(copy).drop_last() == copies,
        copies.push(copy).last() == copy,
{
    let longer = copies.push(copy);
    assert(longer.drop_last() =~= copies);
    assert forall|k: int| 0 <= k < done + 1 implies cloned(
        #[trigger] values.take(done + 1)[k],
        longer[k],
    ) by {
        if k < done {
            assert(values.take(done)[k] == values.take(done + 1)[k]);
        }
    }
}

/// Where a clone is the value again, clones of a sequence are that sequence.
pub proof fn lemma_exact_clones<T: Clone>(values: Seq<T>, copies: Seq<T>)
    requires
        clones_of(values, copies),
    ensures
        exact_clone::<T>() ==> copies == values,
{
    if exact_clone::<T>() {
        assert(copies =~= values);
    }
}

} // verus!
