//! How many different subsets a finite set has, at most.

use vstd::prelude::*;
use vstd::relations::injective_on;
use vstd::set_lib::{lemma_len_subset, lemma_map_size, lemma_set_disjoint_lens};

verus! {

/// Two to the power `n`.
pub open spec fn two_to(n: nat) -> nat
    decreases n,
{
    if n == 0 {
        1
    } else {
        2 * two_to((n - 1) as nat)
    }
}

/// The subsets of `universe`.
pub open spec fn subsets(universe: Set<usize>) -> Set<Set<usize>> {
    Set::new(|s: Set<usize>| s.subset_of(universe))
}

/// A finite set of `n` members has two to the power `n` subsets.
pub proof fn lemma_subsets_count(universe: Set<usize>)
    requires
        universe.finite(),
    ensures
        subsets(universe).finite(),
        subsets(universe).len() == two_to(universe.len()),
    decreases universe.len(),
{
    if universe.len() == 0 {
        assert(universe =~= Set::empty());
        assert forall|s: Set<usize>| subsets(universe).contains(s) implies s == Set::<
            usize,
        >::empty() by {
            assert(s =~= Set::<usize>::empty());
        }
        assert(subsets(universe) =~= set![Set::<usize>::empty()]);
    } else {
        let x = universe.choose();
        let rest = universe.remove(x);
        lemma_subsets_count(rest);
        let without = subsets(rest);
        let put = |s: Set<usize>| s.insert(x);
        let with = without.map(put);
        assert(injective_on(put, without)) by {
            assert forall|a: Set<usize>, b: Set<usize>|
                without.contains(a) && without.contains(b) && #[trigger] put(a) == #[trigger] put(
                    b,
                ) implies a == b by {
                assert forall|y: usize| a.contains(y) == b.contains(y) by {
                    if y != x {
                        assert(put(a).contains(y) == a.contains(y));
                        assert(put(b).contains(y) == b.contains(y));
                    }
                }
                assert(a =~= b);
            }
        }
        lemma_map_size(without, with, put);
        assert(without.disjoint(with)) by {
            assert forall|s: Set<usize>| without.contains(s) implies !with.contains(s) by {
                if with.contains(s) {
                    let a = choose|a: Set<usize>| without.contains(a) && s == put(a);
                    assert(s.contains(x));
                }
            }
        }
        lemma_set_disjoint_lens(without, with);
        assert forall|s: Set<usize>| subsets(universe).contains(s) == (without + with).contains(
            s,
        ) by {
            if s.subset_of(universe) {
                if s.contains(x) {
                    let a = s.remove(x);
                    assert(a.subset_of(rest));
                    assert(put(a) =~= s);
                    assert(without.contains(a));
                    assert(with.contains(s));
                } else {
                    assert(s.subset_of(rest));
                }
            }
            if with.contains(s) {
                let a = choose|a: Set<usize>| without.contains(a) && s == put(a);
                assert(s.subset_of(universe));
            }
        }
        assert(subsets(universe) =~= without + with);
    }
}

/// Different subsets of a finite set of `n` members are at most two to the
/// power `n`.
pub proof fn lemma_distinct_subsets(sets: Seq<Set<usize>>, universe: Set<usize>)
    requires
        universe.finite(),
        sets.no_duplicates(),
        forall|i: int| 0 <= i < sets.len() ==> (#[trigger] sets[i]).subset_of(universe),
    ensures
        sets.len() <= two_to(universe.len()),
{
    lemma_subsets_count(universe);
    sets.unique_seq_to_set();
    assert(sets.to_set().subset_of(subsets(universe))) by {
        assert forall|s: Set<usize>| sets.to_set().contains(s) implies subsets(universe).contains(
            s,
        ) by {
            let i = choose|i: int| 0 <= i < sets.len() && sets[i] == s;
            assert(sets[i].subset_of(universe));
        }
    }
    lemma_len_subset(sets.to_set(), subsets(universe));
}

} // verus!
