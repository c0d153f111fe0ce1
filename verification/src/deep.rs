//! Lemmas relating a vector's deep view to the deep views of its elements
//! under the operations the library uses: indexing, push, pop, and removal
//! of the first element.

use vstd::prelude::*;

verus! {

/// Indexing the deep view is the deep view of the element.
pub proof fn lemma_dv_index<T: DeepView>(v: Vec<T>, i: int)
    requires
        0 <= i < v@.len(),
    ensures
        v.deep_view()[i] == v@[i].deep_view(),
{
}

/// A push appends the element's deep view to the deep view.
pub proof fn lemma_dv_push<T: DeepView>(before: Vec<T>, v: Vec<T>, x: T)
    requires
        v@ == before@.push(x),
    ensures
        v.deep_view() =~= before.deep_view().push(x.deep_view()),
{
    assert forall|i: int| 0 <= i < v@.len() implies v.deep_view()[i] == before.deep_view().push(
        x.deep_view(),
    )[i] by {
        if i < before@.len() {
            assert(v@[i] == before@[i]);
        } else {
            assert(v@[i] == x);
        }
    }
}

/// A pop drops the last element of the deep view.
pub proof fn lemma_dv_drop_last<T: DeepView>(before: Vec<T>, v: Vec<T>)
    requires
        before@.len() > 0,
        v@ == before@.drop_last(),
    ensures
        v.deep_view() =~= before.deep_view().drop_last(),
{
    assert forall|i: int| 0 <= i < v@.len() implies v.deep_view()[i]
        == before.deep_view().drop_last()[i] by {
        assert(v@[i] == before@[i]);
    }
}

/// Removing the first element shifts the deep view left by one.
pub proof fn lemma_dv_remove_first<T: DeepView>(before: Vec<T>, v: Vec<T>)
    requires
        before@.len() > 0,
        v@ == before@.remove(0),
    ensures
        v.deep_view() =~= before.deep_view().subrange(1, before@.len() as int),
{
    assert forall|i: int| 0 <= i < v@.len() implies v.deep_view()[i]
        == before.deep_view().subrange(1, before@.len() as int)[i] by {
        assert(v@[i] == before@[i + 1]);
    }
}

} // verus!
