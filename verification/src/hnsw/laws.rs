//! Properties that relate several operations of the index, stated over the
//! spec functions that the operations' contracts use.
use vstd::prelude::*;

use crate::query::SearchResult;
use crate::vector::VectorId;

use super::index::{dimension_after, hits_valid, insert_check, update_check, vector_check};

verus! {

/// A deleted id can be inserted again: after the id leaves the live
/// vectors, inserting it with a vector that passes the checks succeeds.
pub proof fn law_deleted_id_can_be_inserted_again<T>(
    vectors: Map<VectorId, Seq<T>>,
    dimension: Option<usize>,
    id: VectorId,
    vector: Seq<T>,
)
    requires
        vector_check(dimension, vector) is Ok,
    ensures
        insert_check(vectors.remove(id), dimension, id, vector) is Ok,
        vectors.remove(id).insert(id, vector) == vectors.insert(id, vector),
{
    assert(vectors.remove(id).insert(id, vector) =~= vectors.insert(id, vector));
}

/// An update is a deletion followed by an insertion under the same id: when
/// the update is accepted, so is the insertion after the deletion, and both
/// leave the same vectors.
pub proof fn law_update_is_delete_then_insert<T>(
    vectors: Map<VectorId, Seq<T>>,
    dimension: Option<usize>,
    id: VectorId,
    vector: Seq<T>,
)
    requires
        update_check(vectors, dimension, id, vector) is Ok,
    ensures
        vectors.contains_key(id),
        insert_check(vectors.remove(id), dimension, id, vector) is Ok,
        vectors.remove(id).insert(id, vector) == vectors.insert(id, vector),
{
    assert(vectors.remove(id).insert(id, vector) =~= vectors.insert(id, vector));
}

/// Updating a live id succeeds exactly when the vector has the fixed
/// dimension; a live vector means the dimension is fixed and not zero.
pub proof fn law_update_of_live_id_checks_dimension<T>(
    vectors: Map<VectorId, Seq<T>>,
    dimension: Option<usize>,
    id: VectorId,
    vector: Seq<T>,
)
    requires
        vectors.contains_key(id),
        dimension matches Some(d) && d > 0,
    ensures
        update_check(vectors, dimension, id, vector) is Ok <==> vector.len() == dimension->0,
{
}

/// An id is either live or not, so insertion and update never both accept
/// the same id: one of them answers `DuplicateVectorId` or `VectorNotFound`.
pub proof fn law_insert_and_update_exclusive<T>(
    vectors: Map<VectorId, Seq<T>>,
    dimension: Option<usize>,
    id: VectorId,
    vector: Seq<T>,
)
    ensures
        !(insert_check(vectors, dimension, id, vector) is Ok && update_check(
            vectors,
            dimension,
            id,
            vector,
        ) is Ok),
{
}

/// A deleted vector is never a hit: hits over the vectors left after
/// deleting `id` never name `id`.
pub proof fn law_deleted_id_is_never_a_hit<T>(
    vectors: Map<VectorId, Seq<T>>,
    id: VectorId,
    k: usize,
    hits: Seq<SearchResult>,
)
    requires
        hits_valid(vectors.remove(id), k, hits),
    ensures
        forall|i: int| 0 <= i < hits.len() ==> (#[trigger] hits[i]).id != id,
{
    assert forall|i: int| 0 <= i < hits.len() implies (#[trigger] hits[i]).id != id by {
        assert(vectors.remove(id).contains_key(hits[i].id));
    }
}

/// A lone vector is found: when `id` is the only live id, valid hits that
/// are not empty are exactly `id`. With `search`'s guarantee of at least one
/// hit once no node is deleted, a search after the first insertion into an
/// empty index answers that vector alone.
pub proof fn law_lone_vector_is_found<T>(
    vectors: Map<VectorId, Seq<T>>,
    id: VectorId,
    k: usize,
    hits: Seq<SearchResult>,
)
    requires
        forall|other: VectorId| vectors.contains_key(other) ==> other == id,
        hits_valid(vectors, k, hits),
        hits.len() >= 1,
    ensures
        hits.len() == 1,
        hits[0].id == id,
{
    assert(vectors.contains_key(hits[0].id));
    if hits.len() >= 2 {
        assert(vectors.contains_key(hits[1].id));
        assert(hits[0].id != hits[1].id);
    }
}

/// Valid hits never outnumber the live vectors: their ids are distinct and
/// each is live.
pub proof fn law_hits_within_live_vectors<T>(vectors: Map<VectorId, Seq<T>>, k: usize, hits: Seq<SearchResult>)
    requires
        vectors.dom().finite(),
        hits_valid(vectors, k, hits),
    ensures
        hits.len() <= vectors.len(),
{
    let ids = hits.map_values(|hit: SearchResult| hit.id);
    assert(ids.no_duplicates()) by {
        assert forall|i: int, j: int| 0 <= i < ids.len() && 0 <= j < ids.len() && i != j implies ids[i]
            != ids[j] by {
            if i < j {
                assert(hits[i].id != hits[j].id);
            } else {
                assert(hits[j].id != hits[i].id);
            }
        }
    }
    ids.unique_seq_to_set();
    assert forall|id: VectorId| ids.to_set().contains(id) implies vectors.dom().contains(id) by {
        let i = choose|i: int| 0 <= i < ids.len() && ids[i] == id;
        assert(vectors.contains_key(hits[i].id));
    }
    vstd::set_lib::lemma_len_subset(ids.to_set(), vectors.dom());
}

/// Deleting a live id lowers the number of live vectors by one, and
/// inserting a new one raises it by one.
pub proof fn law_len_counts_live_vectors<T>(vectors: Map<VectorId, Seq<T>>, id: VectorId, vector: Seq<T>)
    requires
        vectors.dom().finite(),
    ensures
        vectors.contains_key(id) ==> vectors.remove(id).len() == vectors.len() - 1,
        !vectors.contains_key(id) ==> vectors.insert(id, vector).len() == vectors.len() + 1,
{
}

/// The first accepted vector fixes the dimension for good: later vectors of
/// another length are refused, and later acceptances keep it.
pub proof fn law_dimension_is_fixed_once<T>(dimension: Option<usize>, first: Seq<T>, later: Seq<T>)
    requires
        vector_check(dimension, first) is Ok,
    ensures
        dimension_after(dimension, first) is Some,
        vector_check(dimension_after(dimension, first), later) is Ok ==> later.len() == dimension_after(
            dimension,
            first,
        )->0,
        vector_check(dimension_after(dimension, first), later) is Ok ==> dimension_after(
            dimension_after(dimension, first),
            later,
        ) == dimension_after(dimension, first),
        dimension is Some ==> dimension_after(dimension, first) == dimension,
        dimension is None ==> dimension_after(dimension, first) == Some(first.len() as usize),
{
}

} // verus!
