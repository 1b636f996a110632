//! The collections that the stages of the construction share.

use std::collections::VecDeque;
use vstd::prelude::*;
use vstd::string::StrSliceExecFns;

verus! {

/// A stack: the top is the end of the vector.
pub type Stack<T> = Vec<T>;

/// A queue: items enter at the back and are read from the front.
pub type Queue<T> = VecDeque<T>;

/// The character of a text that holds exactly one, else nothing.
pub open spec fn sole(text: Seq<char>) -> Option<char> {
    if text.len() == 1 {
        Some(text[0])
    } else {
        None
    }
}

/// The character of a string that holds exactly one.
pub fn sole_char(s: &str) -> (c: Option<char>)
    ensures
        c == sole(s@),
{
    if s.unicode_len() == 1 {
        Some(s.get_char(0))
    } else {
        None
    }
}

/// Whether the numbers of `s` stand in strictly increasing order.
pub open spec fn ascending(s: Seq<usize>) -> bool {
    forall|i: int, j: int| 0 <= i < j < s.len() ==> s[i] < s[j]
}

/// Two strictly increasing sequences that hold the same numbers are equal.
pub proof fn lemma_ascending_same_set(a: Seq<usize>, b: Seq<usize>)
    requires
        ascending(a),
        ascending(b),
        a.to_set() == b.to_set(),
    ensures
        a == b,
    decreases a.len(),
{
    if a.len() == 0 {
        if b.len() > 0 {
            assert(b.to_set().contains(b[0]));
            assert(a.contains(b[0]));
        }
        assert(a =~= b);
    } else {
        assert(a.to_set().contains(a.last()));
        assert(b.contains(a.last()));
        assert(b.to_set().contains(b.last()));
        assert(a.contains(b.last()));
        assert(a.last() == b.last());
        let a0 = a.drop_last();
        let b0 = b.drop_last();
        assert forall|x: usize| a0.to_set().contains(x) == b0.to_set().contains(x) by {
            if a0.contains(x) {
                assert(a.to_set().contains(x));
                assert(b.contains(x));
                assert(x != b.last());
                let k = choose|k: int| 0 <= k < b.len() && b[k] == x;
                assert(b0[k] == x);
            }
            if b0.contains(x) {
                assert(b.to_set().contains(x));
                assert(a.contains(x));
                assert(x != a.last());
                let k = choose|k: int| 0 <= k < a.len() && a[k] == x;
                assert(a0[k] == x);
            }
        }
        assert(a0.to_set() =~= b0.to_set());
        lemma_ascending_same_set(a0, b0);
        assert(a =~= a0.push(a.last()));
        assert(b =~= b0.push(b.last()));
    }
}

/// A strictly increasing sequence holds nothing twice.
pub proof fn lemma_ascending_no_duplicates(s: Seq<usize>)
    requires
        ascending(s),
    ensures
        s.no_duplicates(),
        s.to_set().len() == s.len(),
{
    assert forall|i: int, j: int| 0 <= i < s.len() && 0 <= j < s.len() && i != j implies s[i]
        != s[j] by {
        if i < j {
            assert(s[i] < s[j]);
        } else {
            assert(s[j] < s[i]);
        }
    }
    s.unique_seq_to_set();
}

/// A vector that holds what `v` holds.
pub fn copy_of(v: &Vec<usize>) -> (copy: Vec<usize>)
    ensures
        copy@ == v@,
{
    let mut copy: Vec<usize> = Vec::new();
    let mut i: usize = 0;
    while i < v.len()
        invariant
            i <= v.len(),
            copy@ == v@.take(i as int),
        decreases v.len() - i,
    {
        copy.push(v[i]);
        i += 1;
        assert(copy@ =~= v@.take(i as int));
    }
    assert(v@.take(v.len() as int) =~= v@);
    copy
}

/// Puts `x` at its place in a strictly increasing vector, unless it is there.
fn insert_ascending(v: &mut Vec<usize>, x: usize)
    requires
        ascending(old(v)@),
    ensures
        ascending(final(v)@),
        final(v)@.to_set() == old(v)@.to_set().insert(x),
{
    let mut i: usize = 0;
    while i < v.len() && v[i] < x
        invariant
            i <= v.len(),
            v@ == old(v)@,
            forall|k: int| 0 <= k < i ==> v@[k] < x,
        decreases v.len() - i,
    {
        i += 1;
    }
    if i < v.len() && v[i] == x {
        assert(v@.to_set().contains(x));
        assert(v@.to_set() =~= v@.to_set().insert(x));
    } else {
        let ghost before = v@;
        v.insert(i, x);
        assert forall|a: int, b: int| 0 <= a < b < v@.len() implies v@[a] < v@[b] by {
            if b < i {
                assert(v@[a] == before[a] && v@[b] == before[b]);
            } else if b == i {
                assert(v@[a] == before[a]);
            } else if a < i {
                assert(v@[a] == before[a] && v@[b] == before[b - 1]);
            } else if a == i {
                assert(v@[b] == before[b - 1]);
                assert(before[i as int] <= before[b - 1]) by {
                    if (i as int) < b - 1 {
                        assert(before[i as int] < before[b - 1]);
                    }
                }
            } else {
                assert(v@[a] == before[a - 1] && v@[b] == before[b - 1]);
            }
        }
        assert forall|y: usize| v@.to_set().contains(y) == before.to_set().insert(x).contains(
            y,
        ) by {
            if v@.contains(y) {
                let k = choose|k: int| 0 <= k < v@.len() && v@[k] == y;
                if k < i {
                    assert(before[k] == y);
                } else if k > i {
                    assert(before[k - 1] == y);
                }
            }
            if before.contains(y) {
                let k = choose|k: int| 0 <= k < before.len() && before[k] == y;
                if k < i {
                    assert(v@[k] == y);
                } else {
                    assert(v@[k + 1] == y);
                }
            }
            if y == x {
                assert(v@[i as int] == y);
            }
        }
        assert(v@.to_set() =~= before.to_set().insert(x));
    }
}

/// A finite set of positions, held in increasing order, so that two equal
/// sets are equal values and are walked in the same order.
#[derive(PartialEq, Eq, Debug)]
pub struct PosSet {
    elems: Vec<usize>,
}

impl View for PosSet {
    type V = Set<usize>;

    closed spec fn view(&self) -> Set<usize> {
        self.elems@.to_set()
    }
}

impl PosSet {
    #[verifier::type_invariant]
    spec fn increasing(&self) -> bool {
        ascending(self.elems@)
    }

    /// The members in increasing order.
    pub closed spec fn listing(&self) -> Seq<usize> {
        self.elems@
    }

    /// The listing holds the members and nothing else, and the set is finite.
    pub proof fn lemma_listing(&self)
        ensures
            self.listing().to_set() == self@,
            forall|i: int| 0 <= i < self.listing().len() ==> self@.contains(#[trigger] self.listing()[i]),
            self@.finite(),
    {
        assert forall|i: int| 0 <= i < self.listing().len() implies self@.contains(
            #[trigger] self.listing()[i],
        ) by {
            assert(self.elems@.contains(self.elems@[i]));
        }
    }

    /// The empty set.
    pub fn new() -> (set: Self)
        ensures
            set@ == Set::<usize>::empty(),
    {
        let elems: Vec<usize> = Vec::new();
        assert(elems@.to_set() =~= Set::<usize>::empty());
        PosSet { elems }
    }

    /// The set of the numbers that `v` holds.
    pub fn from_vec(v: Vec<usize>) -> (set: Self)
        ensures
            set@ == v@.to_set(),
    {
        let mut elems: Vec<usize> = Vec::new();
        let mut i: usize = 0;
        assert(elems@.to_set() =~= v@.take(0).to_set());
        while i < v.len()
            invariant
                i <= v.len(),
                ascending(elems@),
                elems@.to_set() == v@.take(i as int).to_set(),
            decreases v.len() - i,
        {
            insert_ascending(&mut elems, v[i]);
            assert(v@.take(i + 1) =~= v@.take(i as int).push(v@[i as int]));
            assert(v@.take(i as int).push(v@[i as int]).to_set() =~= v@.take(i as int).to_set().insert(
                v@[i as int],
            )) by {
                v@.take(i as int).lemma_push_to_set_commute(v@[i as int]);

            }
            i += 1;
        }
        assert(v@.take(v.len() as int) =~= v@);
        PosSet { elems }
    }

    /// The set with `x` added.
    pub fn with(&self, x: usize) -> (set: Self)
        ensures
            set@ == self@.insert(x),
    {
        proof {
            use_type_invariant(self);
        }
        let mut elems = copy_of(&self.elems);
        insert_ascending(&mut elems, x);
        PosSet { elems }
    }

    /// The union of the two sets.
    pub fn union(&self, other: &PosSet) -> (set: Self)
        ensures
            set@ == self@.union(other@),
    {
        proof {
            use_type_invariant(self);
            use_type_invariant(other);
        }
        let mut elems = copy_of(&self.elems);
        let mut i: usize = 0;
        assert(elems@.to_set() =~= self.elems@.to_set().union(other.elems@.take(0).to_set()));
        while i < other.elems.len()
            invariant
                i <= other.elems.len(),
                ascending(elems@),
                elems@.to_set() == self.elems@.to_set().union(
                    other.elems@.take(i as int).to_set(),
                ),
            decreases other.elems.len() - i,
        {
            insert_ascending(&mut elems, other.elems[i]);
            assert(other.elems@.take(i + 1) =~= other.elems@.take(i as int).push(
                other.elems@[i as int],
            ));
            assert(other.elems@.take(i as int).push(other.elems@[i as int]).to_set()
                =~= other.elems@.take(i as int).to_set().insert(other.elems@[i as int])) by {
                other.elems@.take(i as int).lemma_push_to_set_commute(other.elems@[i as int]);

            }
            i += 1;
            assert(elems@.to_set() =~= self.elems@.to_set().union(
                other.elems@.take(i as int).to_set(),
            ));
        }
        assert(other.elems@.take(other.elems.len() as int) =~= other.elems@);
        PosSet { elems }
    }

    /// Whether `x` is a member.
    pub fn contains(&self, x: usize) -> (found: bool)
        ensures
            found == self@.contains(x),
    {
        let mut i: usize = 0;
        while i < self.elems.len()
            invariant
                i <= self.elems.len(),
                forall|k: int| 0 <= k < i ==> self.elems@[k] != x,
            decreases self.elems.len() - i,
        {
            if self.elems[i] == x {
                return true;
            }
            i += 1;
        }
        false
    }

    /// The number of members.
    pub fn len(&self) -> (n: usize)
        ensures
            n == self@.len(),
            n == self.listing().len(),
            ascending(self.listing()),
    {
        proof {
            use_type_invariant(self);
            lemma_ascending_no_duplicates(self.elems@);
        }
        self.elems.len()
    }

    /// Whether the set has no member.
    pub fn is_empty(&self) -> (empty: bool)
        ensures
            empty == (self@ == Set::<usize>::empty()),
    {
        proof {
            if self.elems@.len() == 0 {
                assert(self.elems@.to_set() =~= Set::<usize>::empty());
            } else {
                assert(self.elems@.to_set().contains(self.elems@[0]));
            }
        }
        self.elems.len() == 0
    }

    /// The member at place `i` of the increasing listing.
    pub fn get(&self, i: usize) -> (x: usize)
        requires
            i < self.listing().len(),
        ensures
            x == self.listing()[i as int],
            self@.contains(x),
    {
        self.elems[i]
    }

    /// Whether the two sets have the same members.
    pub fn same(&self, other: &PosSet) -> (equal: bool)
        ensures
            equal == (self@ == other@),
    {
        proof {
            use_type_invariant(self);
            use_type_invariant(other);
            if self@ == other@ {
                lemma_ascending_same_set(self.elems@, other.elems@);
            }
        }
        if self.elems.len() != other.elems.len() {
            return false;
        }
        let mut i: usize = 0;
        while i < self.elems.len()
            invariant
                i <= self.elems.len(),
                self.elems.len() == other.elems.len(),
                self@ == other@ ==> self.elems@ == other.elems@,
                forall|k: int| 0 <= k < i ==> self.elems@[k] == other.elems@[k],
            decreases self.elems.len() - i,
        {
            if self.elems[i] != other.elems[i] {
                return false;
            }
            i += 1;
        }
        assert(self.elems@ =~= other.elems@);
        true
    }

    /// The members in increasing order.
    pub fn to_vec(&self) -> (v: Vec<usize>)
        ensures
            v@ == self.listing(),
    {
        copy_of(&self.elems)
    }
}

impl Clone for PosSet {
    fn clone(&self) -> (copy: Self)
        ensures
            copy@ == self@,
            copy.listing() == self.listing(),
    {
        proof {
            use_type_invariant(self);
        }
        PosSet { elems: copy_of(&self.elems) }
    }
}

} // verus!
