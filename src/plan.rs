//! Planning the reordering: a stable sort of the fields by rank, and the laws
//! that such a plan obeys.

use itertools::Itertools;
use vstd::prelude::*;
use crate::rank::{rank, ranks_of, UNRANKED};

verus! {

broadcast use vstd::seq_lib::group_to_multiset_ensures;

/// Positions as mathematical integers.
pub open spec fn positions(v: Seq<usize>) -> Seq<int> {
    v.map_values(|x: usize| x as int)
}

/// Field `a` goes strictly before field `b`: a lower rank, or the same rank and an
/// earlier source position.
pub open spec fn goes_before(ranks: Seq<int>, a: int, b: int) -> bool {
    ranks[a] < ranks[b] || (ranks[a] == ranks[b] && a < b)
}

/// `order` lists every source position once, and is sorted by rank with ties kept
/// in source order: it is the stable sort of the fields by rank.
pub open spec fn is_stable_sort(ranks: Seq<int>, order: Seq<int>) -> bool {
    &&& order.len() == ranks.len()
    &&& forall|i: int| 0 <= i < order.len() ==> 0 <= #[trigger] order[i] < ranks.len()
    &&& forall|k: int| 0 <= k < ranks.len() ==> #[trigger] occurs(order, k)
    &&& forall|i: int, j: int|
        0 <= i < j < order.len() ==> goes_before(ranks, #[trigger] order[i], #[trigger] order[j])
}

/// Position `k` appears somewhere in `order`.
pub open spec fn occurs(order: Seq<int>, k: int) -> bool {
    exists|i: int| 0 <= i < order.len() && order[i] == k
}

/// The order that leaves `n` fields where they are.
pub open spec fn identity(n: nat) -> Seq<int> {
    Seq::new(n, |i: int| i)
}

/// The ranks never decrease along the fields.
pub open spec fn ranks_sorted(ranks: Seq<int>) -> bool {
    forall|i: int, j: int| 0 <= i < j < ranks.len() ==> ranks[i] <= ranks[j]
}

/// The keys in the new order.
pub open spec fn permuted<A>(keys: Seq<A>, order: Seq<int>) -> Seq<A> {
    Seq::new(order.len(), |i: int| keys[order[i]])
}

/// Relies on itertools' `Itertools::sorted_by_key`, which sorts with std's stable
/// `slice::sort_by_key`: the pairs are sorted by their first component, and pairs
/// with equal first components keep their input order, in which the second
/// components (the input positions) increase.
#[verifier::external_body]
fn sort_pairs_by_rank(v: Vec<(usize, usize)>) -> (r: Vec<(usize, usize)>)
    requires
        forall|i: int| 0 <= i < v@.len() ==> (#[trigger] v@[i]).1 == i,
    ensures
        r@.to_multiset() == v@.to_multiset(),
        forall|i: int, j: int|
            0 <= i < j < r@.len() ==> (#[trigger] r@[i]).0 < (#[trigger] r@[j]).0 || (r@[i].0
                == r@[j].0 && r@[i].1 < r@[j].1),
{
    v.into_iter().sorted_by_key(|p| p.0).collect()
}

/// The stable sort of the fields by rank, as a list of source positions.
pub fn sorted_by_rank(ranks: &Vec<usize>) -> (order: Vec<usize>)
    ensures
        is_stable_sort(positions(ranks@), positions(order@)),
{
    let ghost rk = positions(ranks@);
    let mut v: Vec<(usize, usize)> = Vec::new();
    let mut i: usize = 0;
    while i < ranks.len()
        invariant
            i <= ranks.len(),
            v@.len() == i,
            forall|j: int| 0 <= j < i ==> (#[trigger] v@[j]) == (ranks@[j], j as usize),
        decreases ranks.len() - i,
    {
        v.push((ranks[i], i));
        i = i + 1;
    }
    let ghost v0 = v@;
    let s = sort_pairs_by_rank(v);
    assert(s@.len() == v0.len()) by {
        assert(s@.to_multiset().len() == s@.len());
        assert(v0.to_multiset().len() == v0.len());
    }
    assert forall|i: int| 0 <= i < s@.len() implies #[trigger] s@[i] == (
    ranks@[s@[i].1 as int],
    s@[i].1,
    ) && s@[i].1 < ranks.len() by {
        assert(s@.contains(s@[i]));
        assert(v0.to_multiset().count(s@[i]) > 0);
        assert(v0.contains(s@[i]));
        let k = choose|k: int| 0 <= k < v0.len() && v0[k] == s@[i];
        assert(v0[k] == (ranks@[k], k as usize));
    }
    let mut order: Vec<usize> = Vec::new();
    let mut i: usize = 0;
    while i < s.len()
        invariant
            i <= s.len(),
            order@.len() == i,
            forall|j: int| 0 <= j < i ==> (#[trigger] order@[j]) == s@[j].1,
        decreases s.len() - i,
    {
        order.push(s[i].1);
        i = i + 1;
    }
    let ghost o = positions(order@);
    assert forall|k: int| 0 <= k < rk.len() implies occurs(o, k) by {
        assert(v0[k] == (ranks@[k], k as usize));
        assert(v0.contains(v0[k]));
        assert(s@.to_multiset().count(v0[k]) > 0);
        assert(s@.contains(v0[k]));
        let i = choose|i: int| 0 <= i < s@.len() && s@[i] == v0[k];
        assert(o[i] == k);
    }
    assert forall|i: int, j: int| 0 <= i < j < o.len() implies goes_before(
        rk,
        #[trigger] o[i],
        #[trigger] o[j],
    ) by {
        assert(s@[i] == (ranks@[s@[i].1 as int], s@[i].1));
        assert(s@[j] == (ranks@[s@[j].1 as int], s@[j].1));
    }
    order
}

/// The plan for `ranks`: `None` when the fields already stand in their stable
/// sorted order, else that order, which then moves at least one field.
pub fn plan_reorder(ranks: &Vec<usize>) -> (r: Option<Vec<usize>>)
    ensures
        r is None <==> is_stable_sort(positions(ranks@), identity(ranks@.len())),
        r matches Some(order) ==> is_stable_sort(positions(ranks@), positions(order@)),
        r matches Some(order) ==> positions(order@) != identity(ranks@.len()),
{
    let order = sorted_by_rank(ranks);
    let ghost rk = positions(ranks@);
    let mut i: usize = 0;
    while i < order.len()
        invariant
            rk == positions(ranks@),
            is_stable_sort(rk, positions(order@)),
            i <= order.len(),
            forall|j: int| 0 <= j < i ==> order@[j] == j,
        decreases order.len() - i,
    {
        if order[i] != i {
            proof {
                if is_stable_sort(rk, identity(rk.len())) {
                    lemma_stable_sort_unique(rk, identity(rk.len()), positions(order@));
                    assert(positions(order@)[i as int] == i);
                }
                assert(positions(order@)[i as int] != identity(rk.len())[i as int]);
            }
            return Some(order);
        }
        i = i + 1;
    }
    assert(positions(order@) =~= identity(rk.len()));
    None
}

proof fn lemma_stable_sorts_agree_upto(ranks: Seq<int>, o1: Seq<int>, o2: Seq<int>, i: int)
    requires
        is_stable_sort(ranks, o1),
        is_stable_sort(ranks, o2),
        0 <= i < o1.len(),
    ensures
        forall|j: int| 0 <= j <= i ==> o1[j] == o2[j],
    decreases i,
{
    if i > 0 {
        lemma_stable_sorts_agree_upto(ranks, o1, o2, i - 1);
    }
    let x = o1[i];
    let y = o2[i];
    if x != y {
        assert(occurs(o2, x));
        let jx = choose|j: int| 0 <= j < o2.len() && o2[j] == x;
        assert(occurs(o1, y));
        let jy = choose|j: int| 0 <= j < o1.len() && o1[j] == y;
        if jx < i {
            assert(o1[jx] == x);
            assert(goes_before(ranks, o1[jx], o1[i]));
        } else if jy < i {
            assert(o2[jy] == y);
            assert(goes_before(ranks, o2[jy], o2[i]));
        } else {
            assert(goes_before(ranks, o2[i], o2[jx]));
            assert(goes_before(ranks, o1[i], o1[jy]));
        }
    }
}

/// A stable sort is unique: two orders that both sort the fields stably by
/// rank are the same order.
pub proof fn lemma_stable_sort_unique(ranks: Seq<int>, o1: Seq<int>, o2: Seq<int>)
    requires
        is_stable_sort(ranks, o1),
        is_stable_sort(ranks, o2),
    ensures
        o1 == o2,
{
    if o1.len() > 0 {
        lemma_stable_sorts_agree_upto(ranks, o1, o2, o1.len() - 1);
    }
    assert(o1 =~= o2);
}

} // verus!
