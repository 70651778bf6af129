//! When two trees count as equal.

use vstd::prelude::*;
use vstd::std_specs::cmp::PartialEqSpec;

verus! {

/// The two sequences are of one length and hold, position by position, values
/// that `==` takes for equal.
pub open spec fn same_values<T: PartialEq>(a: Seq<T>, b: Seq<T>) -> bool {
    &&& a.len() == b.len()
    &&& forall|i: int| 0 <= i < a.len() ==> (#[trigger] a[i]).eq_spec(&b[i])
}

/// Vectors of references compare as the values that they refer to.
pub proof fn lemma_same_values<T: PartialEq>(a: Seq<&T>, b: Seq<&T>)
    ensures
        same_values(a.unref(), b.unref()) <==> (a.len() == b.len() && forall|i: int|
            #![auto]
            0 <= i < a.len() ==> a[i].eq_spec(&b[i])),
{
    if same_values(a.unref(), b.unref()) {
        assert forall|i: int| #![auto] 0 <= i < a.len() implies a[i].eq_spec(&b[i]) by {
            assert(a.unref()[i].eq_spec(&b.unref()[i]));
        }
    }
}

} // verus!
