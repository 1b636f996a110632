//! A machine has one machine of classes.

use super::machine::{leaves_on, Machine, Transition};
use super::quotient::{
    classifies, first_of, lemma_first_of, lemma_quotient_distinct, precedes, quotient, together,
};
use super::synthesis::numbers;
use crate::types::ascending;
use crate::types::lemma_ascending_same_set;
use vstd::prelude::*;

verus! {

/// The least state for which a state of the machine of classes stands.
pub open spec fn least_of(map: Seq<usize>, class: usize) -> int {
    first_of(map, class, 0)
}

/// Whether `state` is the least of the states that accept the words that it
/// accepts, and the sink is not among them.
pub open spec fn leads(machine: Machine, state: int) -> bool {
    &&& 0 <= state < machine.states.len()
    &&& !machine.equivalent(state as usize, machine.sink())
    &&& forall|t: usize| t < state ==> !#[trigger] machine.equivalent(t, state as usize)
}

/// The least state for which a state other than the sink stands leads its
/// class, and every state that leads its class is such a least state.
pub proof fn lemma_leaders(machine: Machine, small: Machine, map: Seq<usize>)
    requires
        machine.well_formed(),
        quotient(machine, small, map),
    ensures
        forall|c: usize|
            c < small.sink() ==> leads(machine, #[trigger] least_of(map, c)) && map[least_of(
                map,
                c,
            )] == c,
        forall|s: int|
            leads(machine, s) ==> (#[trigger] map[s]) < small.sink() && least_of(map, map[s]) == s,
{
    let sink = machine.sink();
    machine.lemma_states_fit();
    small.lemma_states_fit();
    assert forall|c: usize| c < small.sink() implies leads(machine, #[trigger] least_of(map, c))
        && map[least_of(map, c)] == c by {
        lemma_first_of(map, c, 0);
        let l = least_of(map, c);
        assert(small.has_state(c));
        assert(!together(map, l as usize, sink));
        assert forall|t: usize| t < l implies !#[trigger] machine.equivalent(t, l as usize) by {
            assert(map[t as int] != c);
            assert(!together(map, t, l as usize));
        }
    }
    assert forall|s: int| leads(machine, s) implies (#[trigger] map[s]) < small.sink() && least_of(
        map,
        map[s],
    ) == s by {
        let c = map[s];
        assert(small.has_state(c));
        assert(small.states[small.states.len() - 1] == small.states.len() - 1);
        assert(machine.equivalent(s as usize, sink) <==> together(map, s as usize, sink));
        assert(!together(map, s as usize, sink));
        assert(c != small.sink());
        lemma_first_of(map, c, 0);
        let l = least_of(map, c);
        if s < l {
            assert(map[s] != c);
        }
        if l < s {
            assert(together(map, l as usize, s as usize));
            assert(machine.equivalent(l as usize, s as usize));
        }
    }
}

/// Two machines of classes of one machine give each state other than the
/// sink the same least state.
proof fn lemma_same_leaders(
    machine: Machine,
    one: Machine,
    map: Seq<usize>,
    other: Machine,
    again: Seq<usize>,
    c: usize,
)
    requires
        machine.well_formed(),
        quotient(machine, one, map),
        quotient(machine, other, again),
        c < one.sink(),
    ensures
        c < other.sink(),
        least_of(map, c) == least_of(again, c),
    decreases c,
{
    lemma_leaders(machine, one, map);
    lemma_leaders(machine, other, again);
    let l = least_of(map, c);
    assert(leads(machine, l));
    let d = again[l];
    assert(d < other.sink() && least_of(again, d) == l);
    if d < c {
        lemma_same_leaders(machine, one, map, other, again, d);
        assert(least_of(map, d) == l);
        assert(map[least_of(map, d)] == d);
    } else if c < d {
        let r = least_of(again, c);
        assert(leads(machine, r));
        let e = map[r];
        assert(least_of(map, e) == r);
        assert(r < l);
        if e < c {
            lemma_same_leaders(machine, one, map, other, again, e);
            assert(again[least_of(again, e)] == e);
        } else if c < e {
            assert(least_of(map, c) < least_of(map, e));
        }
    }
}

/// Two machines of classes of one machine have the same states, and each
/// state of the machine is stood for by the same state in both.
pub proof fn lemma_one_map(
    machine: Machine,
    one: Machine,
    map: Seq<usize>,
    other: Machine,
    again: Seq<usize>,
)
    requires
        machine.well_formed(),
        quotient(machine, one, map),
        quotient(machine, other, again),
    ensures
        one.sink() == other.sink(),
        map == again,
{
    lemma_leaders(machine, one, map);
    lemma_leaders(machine, other, again);
    machine.lemma_states_fit();
    if one.sink() < other.sink() {
        let c = one.sink();
        let l = least_of(again, c);
        assert(leads(machine, l));
        let d = map[l];
        lemma_same_leaders(machine, one, map, other, again, d);
        assert(again[least_of(again, d)] == d);
    }
    if other.sink() < one.sink() {
        let c = other.sink();
        let l = least_of(map, c);
        assert(leads(machine, l));
        let d = again[l];
        lemma_same_leaders(machine, other, again, one, map, d);
        assert(map[least_of(map, d)] == d);
    }
    let sink = machine.sink();
    assert forall|s: int| 0 <= s < map.len() implies map[s] == again[s] by {
        let c = map[s];
        let d = again[s];
        if c < one.sink() {
            lemma_same_leaders(machine, one, map, other, again, c);
            let l = least_of(map, c);
            assert(together(map, l as usize, s as usize));
            assert(machine.equivalent(l as usize, s as usize));
            assert(together(again, l as usize, s as usize));
            assert(again[least_of(again, c)] == c);
        } else {
            assert(one.has_state(c));
            assert(one.states[one.states.len() - 1] == one.states.len() - 1);
            assert(c == one.sink());
            assert(together(map, s as usize, sink));
            assert(machine.equivalent(s as usize, sink));
            assert(together(again, s as usize, sink));
        }
    }
    assert(map =~= again);
}

/// Two sequences of transitions that stand in order and hold the same
/// transitions are equal.
pub proof fn lemma_ordered_same(one: Seq<Transition>, other: Seq<Transition>)
    requires
        forall|k: int, l: int|
            0 <= k < l < one.len() ==> precedes(#[trigger] one[k], #[trigger] one[l]),
        forall|k: int, l: int|
            0 <= k < l < other.len() ==> precedes(#[trigger] other[k], #[trigger] other[l]),
        forall|t: Transition| one.contains(t) <==> other.contains(t),
    ensures
        one == other,
    decreases one.len(),
{
    if one.len() == 0 {
        if other.len() > 0 {
            assert(other.contains(other[0]));
        }
        assert(one =~= other);
    } else {
        assert(one.contains(one.last()));
        assert(other.contains(one.last()));
        assert(other.contains(other.last()));
        assert(one.contains(other.last()));
        let k = choose|k: int| 0 <= k < other.len() && other[k] == one.last();
        let j = choose|j: int| 0 <= j < one.len() && one[j] == other.last();
        if k < other.len() - 1 {
            assert(precedes(other[k], other[other.len() - 1]));
            if j < one.len() - 1 {
                assert(precedes(one[j], one[one.len() - 1]));
            }
        }
        assert(one.last() == other.last());
        let a = one.drop_last();
        let b = other.drop_last();
        assert forall|t: Transition| a.contains(t) <==> b.contains(t) by {
            if a.contains(t) {
                let i = choose|i: int| 0 <= i < a.len() && a[i] == t;
                assert(one[i] == t);
                assert(precedes(one[i], one[one.len() - 1]));
                assert(one.contains(t));
                let i2 = choose|i2: int| 0 <= i2 < other.len() && other[i2] == t;
                assert(b[i2] == t);
            }
            if b.contains(t) {
                let i = choose|i: int| 0 <= i < b.len() && b[i] == t;
                assert(other[i] == t);
                assert(precedes(other[i], other[other.len() - 1]));
                assert(other.contains(t));
                let i2 = choose|i2: int| 0 <= i2 < one.len() && one[i2] == t;
                assert(a[i2] == t);
            }
        }
        assert forall|k: int, l: int| 0 <= k < l < a.len() implies precedes(
            #[trigger] a[k],
            #[trigger] a[l],
        ) by {
            assert(precedes(one[k], one[l]));
        }
        assert forall|k: int, l: int| 0 <= k < l < b.len() implies precedes(
            #[trigger] b[k],
            #[trigger] b[l],
        ) by {
            assert(precedes(other[k], other[l]));
        }
        lemma_ordered_same(a, b);
        assert(one =~= a.push(one.last()));
        assert(other =~= b.push(other.last()));
    }
}

/// A transition of one machine of classes is a transition of every other.
proof fn lemma_shared_transition(
    machine: Machine,
    one: Machine,
    other: Machine,
    map: Seq<usize>,
    t: Transition,
)
    requires
        machine.well_formed(),
        quotient(machine, one, map),
        quotient(machine, other, map),
        one.sink() == other.sink(),
        one.transitions.contains(t),
    ensures
        other.transitions.contains(t),
{
    machine.lemma_states_fit();
    let k = choose|k: int| 0 <= k < one.transitions.len() && one.transitions[k] == t;
    assert(one.transitions[k].initial_state < one.sink());
    assert(one.symbols.contains(one.transitions[k].symbol));
    let c = t.initial_state;
    let a = t.symbol;
    one.lemma_total(c, a);
    other.lemma_total(c, a);
    lemma_first_of(map, c, 0);
    let s = least_of(map, c);
    assert(one.has_state(c));
    assert(machine.has_state(machine.next(s as usize, a)));
    assert(one.next(map[s as usize as int], a) == map[machine.next(s as usize, a) as int]);
    assert(other.next(map[s as usize as int], a) == map[machine.next(s as usize, a) as int]);
    let l = choose|l: int|
        0 <= l < other.transitions.len() && leaves_on(#[trigger] other.transitions[l], c, a)
            && other.transitions[l].final_state == other.next(c, a);
    assert(other.transitions[l] == t);
}

/// A state that accepts in one machine of classes accepts in every other.
proof fn lemma_shared_final(
    machine: Machine,
    one: Machine,
    other: Machine,
    map: Seq<usize>,
    c: usize,
)
    requires
        machine.well_formed(),
        quotient(machine, one, map),
        quotient(machine, other, map),
        one.sink() == other.sink(),
        one.finals.contains(c),
    ensures
        other.finals.contains(c),
{
    machine.lemma_states_fit();
    let i = choose|i: int| 0 <= i < one.finals.len() && one.finals[i] == c;
    assert(one.finals[i] < one.sink());
    assert(one.has_state(c));
    lemma_first_of(map, c, 0);
    let s = least_of(map, c);
    assert(map[s as usize as int] == c);
}

/// A machine has one machine of classes: two machines that both are the
/// machine of its classes are equal.
pub proof fn lemma_one_quotient(
    machine: Machine,
    one: Machine,
    map: Seq<usize>,
    other: Machine,
    again: Seq<usize>,
)
    requires
        machine.well_formed(),
        quotient(machine, one, map),
        quotient(machine, other, again),
    ensures
        map == again,
        one == other,
{
    lemma_one_map(machine, one, map, other, again);
    assert(one.states[one.states.len() - 1] == one.states.len() - 1);
    assert(other.states[other.states.len() - 1] == other.states.len() - 1);
    assert(one.states =~= other.states);
    assert forall|t: Transition| one.transitions.contains(t) <==> other.transitions.contains(t) by {
        if one.transitions.contains(t) {
            lemma_shared_transition(machine, one, other, map, t);
        }
        if other.transitions.contains(t) {
            lemma_shared_transition(machine, other, one, map, t);
        }
    }
    lemma_ordered_same(one.transitions, other.transitions);
    assert forall|c: usize| one.finals.to_set().contains(c) == other.finals.to_set().contains(c) by {
        if one.finals.contains(c) {
            lemma_shared_final(machine, one, other, map, c);
        }
        if other.finals.contains(c) {
            lemma_shared_final(machine, other, one, map, c);
        }
    }
    assert(one.finals.to_set() =~= other.finals.to_set());
    lemma_ascending_same_set(one.finals, other.finals);
}

/// Among the numbers from 0 on, each stands first at its own place.
proof fn lemma_first_of_numbers(count: nat, c: usize, from: int)
    requires
        0 <= from <= c < count,
    ensures
        first_of(numbers(count), c, from) == c,
    decreases c - from,
{
    if from < c {
        lemma_first_of_numbers(count, c, from + 1);
    }
}

/// A machine of classes is its own machine of classes: minimizing what is
/// minimal gives the same machine.
pub proof fn lemma_minimal_fixed(
    machine: Machine,
    small: Machine,
    map: Seq<usize>,
    smaller: Machine,
    again: Seq<usize>,
)
    requires
        machine.well_formed(),
        quotient(machine, small, map),
        quotient(small, smaller, again),
    ensures
        smaller == small,
{
    let same = numbers(small.states.len());
    assert(small.states[small.states.len() - 1] == small.states.len() - 1);
    assert forall|c: usize| small.has_state(c) implies 0 <= #[trigger] first_of(same, c, 0)
        < same.len() by {
        lemma_first_of_numbers(small.states.len(), c, 0);
    }
    assert forall|s: usize, t: usize| s < same.len() && t < same.len() implies (#[trigger] together(
        same,
        s,
        t,
    ) <==> small.equivalent(s, t)) by {
        if s != t {
            lemma_quotient_distinct(machine, small, map, s, t);
        } else {
            small.lemma_equivalence(s, s, s);
        }
    }
    assert forall|s: usize, a: char| s < same.len() && small.symbols.contains(a) implies small.has_state(
        #[trigger] small.next(s, a),
    ) && small.next(same[s as int], a) == same[small.next(s, a) as int] by {
        small.lemma_total(s, a);
    }
    assert forall|c: usize, d: usize| c < d < small.sink() implies #[trigger] first_of(same, c, 0)
        < #[trigger] first_of(same, d, 0) by {
        lemma_first_of_numbers(small.states.len(), c, 0);
        lemma_first_of_numbers(small.states.len(), d, 0);
    }
    assert(quotient(small, small, same));
    lemma_one_quotient(small, smaller, again, small, same);
}

/// Whether `state` is the least of the states that accept the words that it
/// accepts.
pub open spec fn least(machine: Machine, state: usize) -> bool {
    machine.has_state(state) && forall|t: usize| t < state ==> !#[trigger] machine.equivalent(
        t,
        state,
    )
}

/// The first member of each class is the least of the states that accept the
/// words that it accepts, and each such state is the first member of a class.
proof fn lemma_class_leaders(machine: Machine, classes: Seq<Seq<usize>>)
    requires
        classifies(machine, classes),
    ensures
        forall|c: int| 0 <= c < classes.len() ==> least(machine, (#[trigger] classes[c])[0]),
        forall|s: usize|
            #[trigger] least(machine, s) ==> exists|c: int|
                0 <= c < classes.len() && (#[trigger] classes[c])[0] == s,
{
    assert forall|c: int| 0 <= c < classes.len() implies least(
        machine,
        (#[trigger] classes[c])[0],
    ) by {
        let first = classes[c][0];
        assert(machine.has_state(classes[c][0]));
        assert forall|t: usize| t < first implies !#[trigger] machine.equivalent(t, first) by {
            if machine.equivalent(t, first) {
                assert(machine.has_state(t));
                let d = choose|d: int| 0 <= d < classes.len() && (#[trigger] classes[d]).contains(t);
                let l = choose|l: int| 0 <= l < classes[d].len() && classes[d][l] == t;
                assert(machine.equivalent(classes[d][l], classes[c][0]) <==> d == c);
                assert(ascending(classes[c]));
                if l > 0 {
                    assert(classes[c][0] < classes[c][l]);
                }
            }
        }
    }
    assert forall|s: usize| #[trigger] least(machine, s) implies exists|c: int|
        0 <= c < classes.len() && (#[trigger] classes[c])[0] == s by {
        assert(machine.has_state(s));
        let c = choose|c: int| 0 <= c < classes.len() && (#[trigger] classes[c]).contains(s);
        let l = choose|l: int| 0 <= l < classes[c].len() && classes[c][l] == s;
        assert(machine.equivalent(classes[c][0], classes[c][l]) <==> c == c);
        assert(ascending(classes[c]));
        if l > 0 {
            assert(classes[c][0] < classes[c][l]);
        }
    }
}

proof fn lemma_same_firsts(
    machine: Machine,
    one: Seq<Seq<usize>>,
    other: Seq<Seq<usize>>,
    c: int,
)
    requires
        classifies(machine, one),
        classifies(machine, other),
        0 <= c < one.len(),
    ensures
        c < other.len(),
        one[c][0] == other[c][0],
    decreases c,
{
    lemma_class_leaders(machine, one);
    lemma_class_leaders(machine, other);
    let s = one[c][0];
    assert(least(machine, s));
    let d = choose|d: int| 0 <= d < other.len() && (#[trigger] other[d])[0] == s;
    if d < c {
        lemma_same_firsts(machine, one, other, d);
        assert(one[d][0] < one[c][0]);
    } else if c < d {
        let r = other[c][0];
        assert(other[c][0] < other[d][0]);
        assert(least(machine, r));
        let e = choose|e: int| 0 <= e < one.len() && (#[trigger] one[e])[0] == r;
        if e < c {
            lemma_same_firsts(machine, one, other, e);
            assert(other[e][0] < other[c][0]);
        } else if c < e {
            assert(one[c][0] < one[e][0]);
        }
    }
}

/// The states of a machine have one list of classes: two lists that both
/// list the classes of the states that accept the same words are equal.
pub proof fn lemma_one_classification(
    machine: Machine,
    one: Seq<Seq<usize>>,
    other: Seq<Seq<usize>>,
)
    requires
        classifies(machine, one),
        classifies(machine, other),
    ensures
        one == other,
{
    if one.len() < other.len() {
        lemma_class_leaders(machine, one);
        lemma_class_leaders(machine, other);
        let s = other[one.len() as int][0];
        assert(least(machine, s));
        let e = choose|e: int| 0 <= e < one.len() && (#[trigger] one[e])[0] == s;
        lemma_same_firsts(machine, one, other, e);
        assert(other[e][0] < other[one.len() as int][0]);
    }
    if other.len() < one.len() {
        lemma_same_firsts(machine, one, other, other.len() as int);
    }
    assert forall|c: int| 0 <= c < one.len() implies one[c] == other[c] by {
        lemma_same_firsts(machine, one, other, c);
        assert forall|x: usize| one[c].to_set().contains(x) == other[c].to_set().contains(x) by {
            if one[c].contains(x) {
                let k = choose|k: int| 0 <= k < one[c].len() && one[c][k] == x;
                assert(machine.has_state(one[c][k]));
                assert(machine.equivalent(one[c][k], one[c][0]) <==> c == c);
                let d = choose|d: int| 0 <= d < other.len() && (#[trigger] other[d]).contains(x);
                let l = choose|l: int| 0 <= l < other[d].len() && other[d][l] == x;
                assert(machine.equivalent(other[d][l], other[c][0]) <==> d == c);
            }
            if other[c].contains(x) {
                let k = choose|k: int| 0 <= k < other[c].len() && other[c][k] == x;
                assert(machine.has_state(other[c][k]));
                assert(machine.equivalent(other[c][k], other[c][0]) <==> c == c);
                let d = choose|d: int| 0 <= d < one.len() && (#[trigger] one[d]).contains(x);
                let l = choose|l: int| 0 <= l < one[d].len() && one[d][l] == x;
                assert(machine.equivalent(one[d][l], one[c][0]) <==> d == c);
            }
        }
        assert(one[c].to_set() =~= other[c].to_set());
        assert(ascending(one[c]));
        assert(ascending(other[c]));
        lemma_ascending_same_set(one[c], other[c]);
    }
    assert(one =~= other);
}

} // verus!
