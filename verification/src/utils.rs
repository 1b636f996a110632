//! Small helpers on sets and vectors.

use crate::types::PosSet;
use vstd::prelude::*;
use vstd::std_specs::cmp::PartialEqSpec;

verus! {

/// The empty set.
pub fn make_empty_set() -> (set: PosSet)
    ensures
        set@ == Set::<usize>::empty(),
{
    PosSet::new()
}

/// The set of the numbers that `v` holds.
pub fn make_set_from_vec(v: Vec<usize>) -> (set: PosSet)
    ensures
        set@ == v@.to_set(),
{
    PosSet::from_vec(v)
}

/// The union of two sets.
pub fn make_sets_union(s1: &PosSet, s2: &PosSet) -> (set: PosSet)
    ensures
        set@ == s1@.union(s2@),
{
    s1.union(s2)
}

/// The items of `v1` followed by those of `v2`.
pub fn merge_vectors<T>(v1: Vec<T>, v2: Vec<T>) -> (merged: Vec<T>)
    ensures
        merged@ == v1@ + v2@,
{
    let mut merged = v1;
    let mut rest = v2;
    merged.append(&mut rest);
    merged
}

/// Whether one of `items` equals `item`, by the equality of `T`.
pub open spec fn holds_equal<T: PartialEq>(items: Seq<T>, item: T) -> bool {
    exists|k: int| 0 <= k < items.len() && (#[trigger] items[k]).eq_spec(&item)
}

/// The items of `v1` of which `v2` holds no equal, in the order of `v1`.
pub fn find_diff<T>(v1: &[T], v2: &[T]) -> (diff: Vec<T>) where T: Eq + Copy
    ensures
        T::obeys_eq_spec() ==> diff@ == v1@.filter(|item: T| !holds_equal(v2@, item)),
{
    let ghost keep = |item: T| !holds_equal(v2@, item);
    let mut result: Vec<T> = Vec::new();
    let mut i: usize = 0;
    assert(v1@.take(0) =~= Seq::<T>::empty());
    proof {
        reveal(Seq::filter);
    }
    while i < v1.len()
        invariant
            i <= v1@.len(),
            keep == |item: T| !holds_equal(v2@, item),
            T::obeys_eq_spec() ==> result@ == v1@.take(i as int).filter(keep),
        decreases v1@.len() - i,
    {
        let item = v1[i];
        let mut found = false;
        let mut j: usize = 0;
        while j < v2.len()
            invariant
                j <= v2@.len(),
                T::obeys_eq_spec() ==> found == exists|k: int|
                    0 <= k < j && (#[trigger] v2@[k]).eq_spec(&item),
            decreases v2@.len() - j,
        {
            if v2[j] == item {
                found = true;
            }
            j += 1;
        }
        proof {
            assert(v1@.take(i + 1) =~= v1@.take(i as int).push(item));
            v1@.take(i as int).lemma_filter_push(item, keep);
        }
        if !found {
            result.push(item);
        }
        i += 1;
    }
    assert(v1@.take(v1@.len() as int) =~= v1@);
    result
}

} // verus!
