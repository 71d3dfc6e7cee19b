//! Laws of the reordering plan, stated over declared names and field keys.

use vstd::prelude::*;
use crate::rank::{rank, ranks_of, UNRANKED};
use crate::plan::{goes_before, identity, is_stable_sort, occurs, permuted, ranks_sorted};

verus! {

/// In a reordered construct the fields whose keys are declared names come in
/// declaration order: along the new order, ranks never decrease.
pub proof fn lemma_declared_fields_in_order(
    decl: Seq<Seq<u8>>,
    keys: Seq<Seq<u8>>,
    order: Seq<int>,
)
    requires
        is_stable_sort(ranks_of(decl, keys), order),
    ensures
        forall|i: int, j: int|
            0 <= i < j < order.len() ==> rank(decl, keys[#[trigger] order[i]]) <= rank(
                decl,
                keys[#[trigger] order[j]],
            ),
{
    let rk = ranks_of(decl, keys);
    assert forall|i: int, j: int| 0 <= i < j < order.len() implies rank(
        decl,
        keys[#[trigger] order[i]],
    ) <= rank(decl, keys[#[trigger] order[j]]) by {
        assert(goes_before(rk, order[i], order[j]));
    }
}

/// Fields whose keys name no declared field keep their relative source order,
/// and come after every field whose key is declared.
pub proof fn lemma_extra_fields_stable_and_last(
    decl: Seq<Seq<u8>>,
    keys: Seq<Seq<u8>>,
    order: Seq<int>,
)
    requires
        decl.len() < UNRANKED,
        is_stable_sort(ranks_of(decl, keys), order),
    ensures
        forall|i: int, j: int|
            0 <= i < j < order.len() && rank(decl, keys[#[trigger] order[i]]) == UNRANKED && rank(
                decl,
                keys[#[trigger] order[j]],
            ) == UNRANKED ==> order[i] < order[j],
        forall|i: int, j: int|
            0 <= i < order.len() && 0 <= j < order.len() && rank(decl, keys[#[trigger] order[i]])
                == UNRANKED && rank(decl, keys[#[trigger] order[j]]) != UNRANKED ==> j < i,
{
    let rk = ranks_of(decl, keys);
    assert forall|i: int, j: int|
        0 <= i < order.len() && 0 <= j < order.len() && rank(decl, keys[#[trigger] order[i]])
            == UNRANKED && rank(decl, keys[#[trigger] order[j]]) != UNRANKED implies j < i by {
        lemma_rank_bounded(decl, keys[order[j]]);
        if i < j {
            assert(goes_before(rk, order[i], order[j]));
        }
    }
    assert forall|i: int, j: int|
        0 <= i < j < order.len() && rank(decl, keys[#[trigger] order[i]]) == UNRANKED && rank(
            decl,
            keys[#[trigger] order[j]],
        ) == UNRANKED implies order[i] < order[j] by {
        assert(goes_before(rk, order[i], order[j]));
    }
}

/// A rank is a declared position or the sentinel.
pub proof fn lemma_rank_bounded(decl: Seq<Seq<u8>>, key: Seq<u8>)
    requires
        decl.len() < UNRANKED,
    ensures
        0 <= rank(decl, key) < decl.len() || rank(decl, key) == UNRANKED,
        0 <= rank(decl, key) < decl.len() ==> decl[rank(decl, key)] == key,
{
}

/// A construct with no fields, or whose fields already follow the declaration
/// order, is left as it is: the identity is its stable sort.
pub proof fn lemma_sorted_fields_not_applicable(decl: Seq<Seq<u8>>, keys: Seq<Seq<u8>>)
    requires
        keys.len() == 0 || ranks_sorted(ranks_of(decl, keys)),
    ensures
        is_stable_sort(ranks_of(decl, keys), identity(keys.len())),
{
    let rk = ranks_of(decl, keys);
    let id = identity(keys.len());
    assert forall|k: int| 0 <= k < rk.len() implies #[trigger] occurs(id, k) by {
        assert(id[k] == k);
    }
}

/// Reordering is idempotent: once the fields stand in the planned order, planning
/// again leaves them where they are.
pub proof fn lemma_reorder_idempotent(decl: Seq<Seq<u8>>, keys: Seq<Seq<u8>>, order: Seq<int>)
    requires
        is_stable_sort(ranks_of(decl, keys), order),
    ensures
        is_stable_sort(ranks_of(decl, permuted(keys, order)), identity(keys.len())),
{
    let rk = ranks_of(decl, keys);
    let nk = permuted(keys, order);
    let nr = ranks_of(decl, nk);
    assert forall|i: int, j: int| 0 <= i < j < nr.len() implies nr[i] <= nr[j] by {
        assert(goes_before(rk, order[i], order[j]));
    }
    lemma_sorted_fields_not_applicable(decl, nk);
}

} // verus!
