//! Facts about lists of ids that the registries and the cells lean on.

use vstd::prelude::*;

verus! {

/// An id that stands at `index` and at no place before it first occurs at
/// `index`.
pub proof fn lemma_first_index<A>(ids: Seq<A>, id: A, index: int)
    requires
        0 <= index < ids.len(),
        ids[index] == id,
        forall|j: int| 0 <= j < index ==> ids[j] != id,
    ensures
        ids.index_of_first(id) == Some(index),
{
    ids.index_of_first_ensures(id);
    assert(ids.contains(id));
}

/// An id that stands at no place does not occur.
pub proof fn lemma_no_index<A>(ids: Seq<A>, id: A)
    requires
        forall|j: int| 0 <= j < ids.len() ==> ids[j] != id,
    ensures
        ids.index_of_first(id) is None,
{
    ids.index_of_first_ensures(id);
}

/// Where the ids grow from each place to the next, an id occurs at one place
/// at most.
pub proof fn lemma_only_index(ids: Seq<u16>, id: u16, index: int)
    requires
        0 <= index < ids.len(),
        ids[index] == id,
        forall|i: int, j: int| 0 <= i < j < ids.len() ==> ids[i] < ids[j],
    ensures
        ids.index_of_first(id) == Some(index),
{
    lemma_first_index(ids, id, index);
}

} // verus!
