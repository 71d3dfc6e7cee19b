//! Ranks of field keys: the position of a key among the declared field names.

use vstd::prelude::*;
use crate::edit::{keys_of, FieldNode};
use crate::plan::positions;

verus! {

/// Rank given to a key that names no declared field; greater than every real index.
pub const UNRANKED: usize = usize::MAX;

/// The declared names as byte sequences.
pub open spec fn names_view(names: Seq<Vec<u8>>) -> Seq<Seq<u8>> {
    names.map_values(|n: Vec<u8>| n@)
}

/// `i` is the first position of `key` in `decl`.
pub open spec fn is_first_index(decl: Seq<Seq<u8>>, key: Seq<u8>, i: int) -> bool {
    &&& 0 <= i < decl.len()
    &&& decl[i] == key
    &&& forall|j: int| 0 <= j < i ==> decl[j] != key
}

/// The rank of `key`: its first position among the declared names, or `UNRANKED`.
pub open spec fn rank(decl: Seq<Seq<u8>>, key: Seq<u8>) -> int {
    if exists|i: int| is_first_index(decl, key, i) {
        choose|i: int| is_first_index(decl, key, i)
    } else {
        UNRANKED as int
    }
}

/// The rank of every key, in the order of the keys.
pub open spec fn ranks_of(decl: Seq<Seq<u8>>, keys: Seq<Seq<u8>>) -> Seq<int> {
    Seq::new(keys.len(), |i: int| rank(decl, keys[i]))
}

/// Byte-wise equality of two strings.
pub fn bytes_eq(a: &Vec<u8>, b: &Vec<u8>) -> (r: bool)
    ensures
        r == (a@ == b@),
{
    if a.len() != b.len() {
        return false;
    }
    let mut i: usize = 0;
    while i < a.len()
        invariant
            a.len() == b.len(),
            i <= a.len(),
            forall|j: int| 0 <= j < i ==> a@[j] == b@[j],
        decreases a.len() - i,
    {
        if a[i] != b[i] {
            return false;
        }
        i = i + 1;
    }
    assert(a@ =~= b@);
    true
}

/// The rank of `key` among the declared names `decl`.
pub fn rank_of(decl: &Vec<Vec<u8>>, key: &Vec<u8>) -> (r: usize)
    requires
        decl.len() < UNRANKED,
    ensures
        r as int == rank(names_view(decl@), key@),
        r < decl.len() || r == UNRANKED,
{
    let ghost d = names_view(decl@);
    let mut i: usize = 0;
    while i < decl.len()
        invariant
            d == names_view(decl@),
            i <= decl.len(),
            forall|j: int| 0 <= j < i ==> d[j] != key@,
        decreases decl.len() - i,
    {
        if bytes_eq(&decl[i], key) {
            assert(is_first_index(d, key@, i as int));
            let ghost c = choose|c: int| is_first_index(d, key@, c);
            assert(c == i as int) by {
                if c < i {
                    assert(d[c] != key@);
                } else if c > i {
                    assert(d[i as int] == key@);
                }
            }
            return i;
        }
        i = i + 1;
    }
    assert(!exists|c: int| is_first_index(d, key@, c));
    UNRANKED
}

/// The rank of each field's key among the declared names, in field order.
pub fn compute_fields_ranks(decl: &Vec<Vec<u8>>, fields: &Vec<FieldNode>) -> (r: Vec<usize>)
    requires
        decl.len() < UNRANKED,
    ensures
        positions(r@) == ranks_of(names_view(decl@), keys_of(fields@)),
{
    let ghost d = names_view(decl@);
    let ghost keys = keys_of(fields@);
    let mut r: Vec<usize> = Vec::new();
    let mut i: usize = 0;
    while i < fields.len()
        invariant
            decl@.len() < UNRANKED,
            d == names_view(decl@),
            keys == keys_of(fields@),
            i <= fields@.len(),
            r@.len() == i,
            forall|j: int| 0 <= j < i ==> r@[j] as int == ranks_of(d, keys)[j],
        decreases fields.len() - i,
    {
        let k = rank_of(decl, &fields[i].key);
        r.push(k);
        i = i + 1;
    }
    assert(positions(r@) =~= ranks_of(d, keys));
    r
}

} // verus!
