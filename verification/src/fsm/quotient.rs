//! The machine of the classes of states that accept the same words.

use super::machine::Machine;
use super::partition::{below, lemma_below, lemma_classes_bounded, lemma_distinct_below, partitions};
use super::synthesis::numbers;
use crate::types::ascending;
use vstd::prelude::*;
use vstd::set_lib::lemma_len_subset;

verus! {

/// Whether `classes` lists the classes of the states of `machine` that accept
/// the same words: each class in increasing order, and the classes in the
/// order of their least members. Every state is in a class, and two states
/// accept the same words where, and only where, they are in the same class.
pub open spec fn classifies(machine: Machine, classes: Seq<Seq<usize>>) -> bool {
    &&& forall|c: int|
        0 <= c < classes.len() ==> (#[trigger] classes[c]).len() > 0 && ascending(classes[c])
    &&& forall|c: int, k: int|
        0 <= c < classes.len() && 0 <= k < classes[c].len() ==> machine.has_state(
            #[trigger] classes[c][k],
        )
    &&& forall|c: int, d: int|
        0 <= c < d < classes.len() ==> (#[trigger] classes[c])[0] < (#[trigger] classes[d])[0]
    &&& forall|s: usize|
        machine.has_state(s) ==> exists|c: int|
            0 <= c < classes.len() && (#[trigger] classes[c]).contains(s)
    &&& forall|c: int, k: int, d: int, l: int|
        0 <= c < classes.len() && 0 <= k < classes[c].len() && 0 <= d < classes.len() && 0 <= l
            < classes[d].len() ==> (machine.equivalent(
            #[trigger] classes[c][k],
            #[trigger] classes[d][l],
        ) <==> c == d)
}

/// The first place from `from` on at which `map` holds `class`; the length of
/// `map` where it does not hold it.
pub open spec fn first_of(map: Seq<usize>, class: usize, from: int) -> int
    decreases map.len() - from,
{
    if from < 0 || from >= map.len() {
        map.len() as int
    } else if map[from] == class {
        from
    } else {
        first_of(map, class, from + 1)
    }
}

/// Whether one state stands for both `s` and `t`.
pub open spec fn together(map: Seq<usize>, s: usize, t: usize) -> bool {
    map[s as int] == map[t as int]
}

/// Whether transition `one` stands before transition `other` in the order of
/// the states that they leave and, for one state, of their symbols.
pub open spec fn precedes(
    one: super::machine::Transition,
    other: super::machine::Transition,
) -> bool {
    one.initial_state < other.initial_state || (one.initial_state == other.initial_state
        && one.symbol < other.symbol)
}

/// Whether `small` is the machine of the classes of `machine`, where `map`
/// tells the state of `small` that stands for each state of `machine`.
///
/// Two states are stood for by one state where, and only where, they accept
/// the same words, and every state of `small` stands for some state. The
/// sink stands for the sink and the initial state for the initial state. A
/// state accepts where the states for which it stands do, and it is followed
/// on a symbol by the state that stands for the states that follow them.
/// The states other than the sink are numbered in the order of the least
/// states for which they stand, and the transitions are listed in the order
/// of the states that they leave and, for one state, of their symbols.
pub open spec fn quotient(machine: Machine, small: Machine, map: Seq<usize>) -> bool {
    &&& small.well_formed()
    &&& small.symbols == machine.symbols
    &&& map.len() == machine.states.len()
    &&& forall|s: int| 0 <= s < map.len() ==> small.has_state(#[trigger] map[s])
    &&& forall|c: usize|
        small.has_state(c) ==> 0 <= #[trigger] first_of(map, c, 0) < map.len()
    &&& forall|s: usize, t: usize|
        s < map.len() && t < map.len() ==> (#[trigger] together(map, s, t) <==> machine.equivalent(
            s,
            t,
        ))
    &&& map[machine.sink() as int] == small.sink()
    &&& small.initial == map[machine.initial as int]
    &&& forall|s: usize, a: char|
        s < map.len() && machine.symbols.contains(a) ==> machine.has_state(
            #[trigger] machine.next(s, a),
        ) && small.next(map[s as int], a) == map[machine.next(s, a) as int]
    &&& forall|s: usize|
        s < map.len() ==> (small.finals.contains(#[trigger] map[s as int])
            <==> machine.finals.contains(s))
    &&& forall|c: usize, d: usize|
        c < d < small.sink() ==> #[trigger] first_of(map, c, 0) < #[trigger] first_of(map, d, 0)
    &&& forall|k: int, l: int|
        0 <= k < l < small.transitions.len() ==> precedes(
            #[trigger] small.transitions[k],
            #[trigger] small.transitions[l],
        )
}

/// What the search for a class finds: the first place from `from` on at which
/// `map` holds the class.
pub proof fn lemma_first_of(map: Seq<usize>, class: usize, from: int)
    requires
        0 <= from <= map.len(),
    ensures
        from <= first_of(map, class, from) <= map.len(),
        first_of(map, class, from) < map.len() ==> map[first_of(map, class, from)] == class,
        forall|s: int| from <= s < first_of(map, class, from) ==> #[trigger] map[s] != class,
    decreases map.len() - from,
{
    if from < map.len() && map[from] != class {
        lemma_first_of(map, class, from + 1);
    }
}

/// The machine of the classes runs as the machine does: the state that stands
/// for a state reaches, by a word, the state that stands for the state that
/// the state reaches, and it accepts the words that the state accepts.
pub proof fn lemma_quotient_run(
    machine: Machine,
    small: Machine,
    map: Seq<usize>,
    s: usize,
    word: Seq<char>,
)
    requires
        machine.well_formed(),
        quotient(machine, small, map),
        machine.has_state(s),
        machine.reads(word),
    ensures
        machine.has_state(machine.run(s, word)),
        small.run(map[s as int], word) == map[machine.run(s, word) as int],
        small.accepts_from(map[s as int], word) == machine.accepts_from(s, word),
    decreases word.len(),
{
    if word.len() > 0 {
        let a = word[0];
        assert(machine.symbols.contains(a));
        assert(machine.has_state(machine.next(s, a)));
        assert forall|i: int| 0 <= i < word.drop_first().len() implies machine.symbols.contains(
            #[trigger] word.drop_first()[i],
        ) by {
            assert(word.drop_first()[i] == word[i + 1]);
        }
        lemma_quotient_run(machine, small, map, machine.next(s, a), word.drop_first());
    }
}

/// Different states of the machine of the classes are told apart by some
/// word.
pub proof fn lemma_quotient_distinct(
    machine: Machine,
    small: Machine,
    map: Seq<usize>,
    c: usize,
    d: usize,
)
    requires
        machine.well_formed(),
        quotient(machine, small, map),
        small.has_state(c),
        small.has_state(d),
        c != d,
    ensures
        small.distinguishable(c, d),
{
    machine.lemma_states_fit();
    lemma_first_of(map, c, 0);
    lemma_first_of(map, d, 0);
    let s = first_of(map, c, 0) as usize;
    let t = first_of(map, d, 0) as usize;
    assert(map[s as int] == c && map[t as int] == d);
    assert(!together(map, s, t));
    assert(!machine.equivalent(s, t));
    let word = choose|word: Seq<char>| machine.tells_apart(word, s, t);
    lemma_quotient_run(machine, small, map, s, word);
    lemma_quotient_run(machine, small, map, t, word);
    assert(small.tells_apart(word, c, d));
}

/// The machine of the classes of a machine of classes has as many states as
/// that machine: what is minimal stays as it is, but for the names of its
/// states.
pub proof fn lemma_minimal_again(
    machine: Machine,
    small: Machine,
    map: Seq<usize>,
    smaller: Machine,
    again: Seq<usize>,
)
    requires
        machine.well_formed(),
        quotient(machine, small, map),
        quotient(small, smaller, again),
    ensures
        smaller.states.len() == small.states.len(),
{
    small.lemma_states_fit();
    smaller.lemma_states_fit();
    assert forall|c: int, d: int|
        0 <= c < again.len() && 0 <= d < again.len() && c != d implies again[c] != again[d] by {
        lemma_quotient_distinct(machine, small, map, c as usize, d as usize);
        assert(together(again, c as usize, d as usize) <==> small.equivalent(
            c as usize,
            d as usize,
        ));
    }
    lemma_distinct_below(again, smaller.states.len());
    lemma_below(smaller.states.len());
    assert(below(smaller.states.len()).subset_of(again.to_set())) by {
        assert forall|x: usize| below(smaller.states.len()).contains(x) implies again.to_set().contains(
            x,
        ) by {
            assert(smaller.has_state(x));
            lemma_first_of(again, x, 0);
            let s = first_of(again, x, 0);
            assert(again[s] == x);
        }
    }
    vstd::seq_lib::seq_to_set_is_finite(again);
    lemma_len_subset(below(smaller.states.len()), again.to_set());
    again.lemma_cardinality_of_set();
}

/// The number that a class gets as a state: the classes keep their order,
/// but the class of the sink goes last.
pub open spec fn renumbered(class: int, sink_class: int, classes: int) -> int {
    if class < sink_class {
        class
    } else if class == sink_class {
        classes - 1
    } else {
        class - 1
    }
}

/// The class that stands behind a state other than the sink.
pub open spec fn class_behind(state: int, sink_class: int) -> int {
    if state < sink_class {
        state
    } else {
        state + 1
    }
}

/// Whether `transitions` are the transitions of the machine of the classes as
/// far as they are built, up to the state `state` and the symbol at place
/// `symbol`: each leaves a state other than the sink on a symbol that has had
/// its turn, they stand in order, and one leaves each state on each symbol
/// that has had its turn, for the state that stands for the states that
/// follow the least state of the class.
pub open spec fn built_up(
    machine: Machine,
    classes: Seq<Seq<usize>>,
    map: Seq<usize>,
    sink_class: int,
    transitions: Seq<super::machine::Transition>,
    state: int,
    symbol: int,
) -> bool {
    &&& forall|k: int|
        0 <= k < transitions.len() ==> {
            &&& (#[trigger] transitions[k]).initial_state < classes.len() - 1
            &&& transitions[k].final_state <= classes.len() - 1
            &&& exists|i: int|
                0 <= i < machine.symbols.len() && #[trigger] machine.symbols[i]
                    == transitions[k].symbol && (transitions[k].initial_state < state || (
                transitions[k].initial_state == state && i < symbol))
        }
    &&& forall|k: int, l: int|
        0 <= k < l < transitions.len() ==> precedes(
            #[trigger] transitions[k],
            #[trigger] transitions[l],
        )
    &&& forall|c: usize, i: int|
        c < classes.len() - 1 && 0 <= i < machine.symbols.len() && (c < state || (c == state && i
            < symbol)) ==> #[trigger] super::machine::arrow_from(
            transitions,
            c,
            machine.symbols[i],
            0,
        ) == Some(map[machine.next(classes[class_behind(c as int, sink_class)][0], machine.symbols[i]) as int])
}

/// One more transition, for the state and the symbol whose turn it is, keeps
/// the transitions as they must be.
pub proof fn lemma_built_up_push(
    machine: Machine,
    classes: Seq<Seq<usize>>,
    map: Seq<usize>,
    sink_class: int,
    transitions: Seq<super::machine::Transition>,
    state: usize,
    symbol: int,
    a: char,
)
    requires
        built_up(machine, classes, map, sink_class, transitions, state as int, symbol),
        forall|i: int, j: int|
            0 <= i < j < machine.symbols.len() ==> machine.symbols[i] < machine.symbols[j],
        state < classes.len() - 1,
        0 <= symbol < machine.symbols.len(),
        a == machine.symbols[symbol],
        map[machine.next(classes[class_behind(state as int, sink_class)][0], a) as int] <= classes.len()
            - 1,
    ensures
        built_up(
            machine,
            classes,
            map,
            sink_class,
            transitions.push(
                super::machine::Transition {
                    initial_state: state,
                    final_state: map[machine.next(classes[class_behind(state as int, sink_class)][0], a) as int],
                    symbol: a,
                },
            ),
            state as int,
            symbol + 1,
        ),
{
    let added = super::machine::Transition {
        initial_state: state,
        final_state: map[machine.next(classes[class_behind(state as int, sink_class)][0], a) as int],
        symbol: a,
    };
    let longer = transitions.push(added);
    assert forall|k: int| 0 <= k < longer.len() implies {
        &&& (#[trigger] longer[k]).initial_state < classes.len() - 1
        &&& longer[k].final_state <= classes.len() - 1
        &&& exists|i: int|
            0 <= i < machine.symbols.len() && #[trigger] machine.symbols[i] == longer[k].symbol && (
            longer[k].initial_state < state || (longer[k].initial_state == state && i < symbol + 1))
    } by {
        if k < transitions.len() {
            assert(longer[k] == transitions[k]);
            let i = choose|i: int|
                0 <= i < machine.symbols.len() && #[trigger] machine.symbols[i]
                    == transitions[k].symbol && (transitions[k].initial_state < state || (
                transitions[k].initial_state == state && i < symbol));
            assert(machine.symbols[i] == longer[k].symbol);
        } else {
            assert(machine.symbols[symbol] == longer[k].symbol);
        }
    }
    assert forall|k: int, l: int| 0 <= k < l < longer.len() implies precedes(
        #[trigger] longer[k],
        #[trigger] longer[l],
    ) by {
        assert(longer[k] == transitions[k]);
        if l < transitions.len() {
            assert(longer[l] == transitions[l]);
        } else {
            let i = choose|i: int|
                0 <= i < machine.symbols.len() && #[trigger] machine.symbols[i]
                    == transitions[k].symbol && (transitions[k].initial_state < state || (
                transitions[k].initial_state == state && i < symbol));
            if transitions[k].initial_state == state {
                assert(machine.symbols[i] < machine.symbols[symbol]);
            }
        }
    }
    assert forall|c: usize, i: int|
        c < classes.len() - 1 && 0 <= i < machine.symbols.len() && (c < state || (c == state && i
            < symbol + 1)) implies #[trigger] super::machine::arrow_from(
        longer,
        c,
        machine.symbols[i],
        0,
    ) == Some(map[machine.next(classes[class_behind(c as int, sink_class)][0], machine.symbols[i]) as int]) by {
        super::synthesis::lemma_arrow_push(transitions, added, c, machine.symbols[i], 0);
        if c < state || (c == state && i < symbol) {
        } else {
            super::machine::lemma_arrow_found(transitions, c, machine.symbols[i], 0);
            if super::machine::arrow_from(transitions, c, machine.symbols[i], 0) is Some {
                let k = choose|k: int|
                    0 <= k < transitions.len() && super::machine::leaves_on(
                        #[trigger] transitions[k],
                        c,
                        machine.symbols[i],
                    );
                let i2 = choose|i2: int|
                    0 <= i2 < machine.symbols.len() && #[trigger] machine.symbols[i2]
                        == transitions[k].symbol && (transitions[k].initial_state < state || (
                    transitions[k].initial_state == state && i2 < symbol));
                if i2 < i {
                    assert(machine.symbols[i2] < machine.symbols[i]);
                } else if i < i2 {
                    assert(machine.symbols[i] < machine.symbols[i2]);
                }
            }
        }
    }
}

/// Transitions that are built up to the last symbol of a state are built up
/// to the next state.
pub proof fn lemma_built_up_next(
    machine: Machine,
    classes: Seq<Seq<usize>>,
    map: Seq<usize>,
    sink_class: int,
    transitions: Seq<super::machine::Transition>,
    state: int,
)
    requires
        built_up(
            machine,
            classes,
            map,
            sink_class,
            transitions,
            state,
            machine.symbols.len() as int,
        ),
    ensures
        built_up(machine, classes, map, sink_class, transitions, state + 1, 0),
{
    assert forall|k: int| 0 <= k < transitions.len() implies {
        &&& (#[trigger] transitions[k]).initial_state < classes.len() - 1
        &&& transitions[k].final_state <= classes.len() - 1
        &&& exists|i: int|
            0 <= i < machine.symbols.len() && #[trigger] machine.symbols[i] == transitions[k].symbol
                && (transitions[k].initial_state < state + 1 || (transitions[k].initial_state
                == state + 1 && i < 0))
    } by {
        let i = choose|i: int|
            0 <= i < machine.symbols.len() && #[trigger] machine.symbols[i] == transitions[k].symbol
                && (transitions[k].initial_state < state || (transitions[k].initial_state == state
                && i < machine.symbols.len()));
        assert(machine.symbols[i] == transitions[k].symbol);
    }
}

/// Whether `s` and `t` are in one class.
pub open spec fn same_class(class_of: Seq<int>, s: usize, t: usize) -> bool {
    class_of[s as int] == class_of[t as int]
}

/// Whether the parts of a machine of classes are as its construction leaves
/// them: `classes` are the classes of the states of `machine` that accept the
/// same words, in the order of their least members, and `class_of` tells the
/// class of each state; `map` tells for each state the number of its class
/// as a state of `small`; and the states, symbols, transitions and accepting
/// states of `small` are those that the construction makes.
pub open spec fn constructed(
    machine: Machine,
    classes: Seq<Seq<usize>>,
    class_of: Seq<int>,
    small: Machine,
    map: Seq<usize>,
    sink_class: int,
) -> bool {
    &&& machine.well_formed()
    &&& machine.states.len() <= usize::MAX
    &&& partitions(classes, class_of, machine.states.len())
    &&& forall|s: usize, t: usize|
        s < machine.states.len() && t < machine.states.len() ==> (#[trigger] same_class(
            class_of,
            s,
            t,
        ) <==> machine.equivalent(s, t))
    &&& forall|c: int, d: int|
        0 <= c < d < classes.len() ==> (#[trigger] classes[c])[0] < (#[trigger] classes[d])[0]
    &&& sink_class == class_of[machine.sink() as int]
    &&& map.len() == machine.states.len()
    &&& forall|s: int|
        0 <= s < map.len() ==> #[trigger] map[s] == renumbered(
            class_of[s],
            sink_class,
            classes.len() as int,
        )
    &&& small.states == numbers(classes.len())
    &&& small.symbols == machine.symbols
    &&& small.initial == map[machine.initial as int]
    &&& built_up(machine, classes, map, sink_class, small.transitions, classes.len() - 1, 0)
    &&& forall|i: int, j: int| 0 <= i < j < small.finals.len() ==> small.finals[i] < small.finals[j]
    &&& forall|i: int| 0 <= i < small.finals.len() ==> #[trigger] small.finals[i] < classes.len() - 1
    &&& forall|c: usize|
        c < classes.len() - 1 ==> (#[trigger] small.finals.contains(c) <==> machine.finals.contains(
            classes[class_behind(c as int, sink_class)][0],
        ))
}

/// The least state of the class that stands behind a state of the machine of
/// classes is a state of that class, and `map` gives it that state.
pub proof fn lemma_least_member(
    machine: Machine,
    classes: Seq<Seq<usize>>,
    class_of: Seq<int>,
    small: Machine,
    map: Seq<usize>,
    sink_class: int,
    c: usize,
)
    requires
        constructed(machine, classes, class_of, small, map, sink_class),
        c < classes.len() - 1,
    ensures
        0 <= class_behind(c as int, sink_class) < classes.len(),
        class_behind(c as int, sink_class) != sink_class,
        machine.has_state(classes[class_behind(c as int, sink_class)][0]),
        class_of[classes[class_behind(c as int, sink_class)][0] as int] == class_behind(
            c as int,
            sink_class,
        ),
        map[classes[class_behind(c as int, sink_class)][0] as int] == c,
        first_of(map, c, 0) == classes[class_behind(c as int, sink_class)][0],
{
    let o = class_behind(c as int, sink_class);
    lemma_classes_bounded(classes, class_of, machine.states.len());
    assert(0 <= sink_class < classes.len());
    let least = classes[o][0];
    assert(least < machine.states.len() && class_of[classes[o][0] as int] == o);
    lemma_first_of(map, c, 0);
    let found = first_of(map, c, 0);
    if found < least {
        assert(map[found] == c);
        assert(map[found] == renumbered(class_of[found], sink_class, classes.len() as int));
        assert(class_of[found] == o);
        assert(classes[class_of[found]].contains(found as usize));
        let k = choose|k: int| 0 <= k < classes[o].len() && classes[o][k] == found as usize;
        assert(ascending(classes[o]));
        if k > 0 {
            assert(classes[o][0] < classes[o][k]);
        }
    }
    assert(map[least as int] == renumbered(class_of[least as int], sink_class, classes.len() as int));
}

/// The parts that the construction leaves make a well-formed machine.
pub proof fn lemma_constructed_well_formed(
    machine: Machine,
    classes: Seq<Seq<usize>>,
    class_of: Seq<int>,
    small: Machine,
    map: Seq<usize>,
    sink_class: int,
)
    requires
        constructed(machine, classes, class_of, small, map, sink_class),
    ensures
        small.well_formed(),
        small.sink() == classes.len() - 1,
        forall|s: int| 0 <= s < map.len() ==> small.has_state(#[trigger] map[s]),
        map[machine.sink() as int] == small.sink(),
{
    lemma_classes_bounded(classes, class_of, machine.states.len());
    assert(0 <= class_of[0] < classes.len());
    assert(small.sink() == classes.len() - 1);
    let transitions = small.transitions;
    assert forall|k: int| 0 <= k < transitions.len() implies {
        &&& (#[trigger] transitions[k]).initial_state < small.sink()
        &&& transitions[k].final_state <= small.sink()
        &&& small.symbols.contains(transitions[k].symbol)
    } by {
        let i = choose|i: int|
            0 <= i < machine.symbols.len() && #[trigger] machine.symbols[i] == transitions[k].symbol
                && (transitions[k].initial_state < classes.len() - 1 || (
            transitions[k].initial_state == classes.len() - 1 && i < 0));
        assert(small.symbols[i] == transitions[k].symbol);
    }
    assert forall|k: int, l: int| 0 <= k < l < transitions.len() implies !super::machine::leaves_on(
        #[trigger] transitions[k],
        (#[trigger] transitions[l]).initial_state,
        transitions[l].symbol,
    ) by {
        assert(precedes(transitions[k], transitions[l]));
    }
    assert forall|state: usize, i: int|
        state < small.sink() && 0 <= i < small.symbols.len() implies (
    #[trigger] super::machine::arrow_from(small.transitions, state, small.symbols[i], 0)) is Some by {
        assert(super::machine::arrow_from(transitions, state, machine.symbols[i], 0) is Some);
    }
    assert forall|s: int| 0 <= s < map.len() implies small.has_state(#[trigger] map[s]) by {
        assert(0 <= class_of[s] < classes.len());
    }
    assert(small.has_state(map[machine.initial as int]));
}

/// The parts that the construction leaves are the machine of the classes.
pub proof fn lemma_constructed_quotient(
    machine: Machine,
    classes: Seq<Seq<usize>>,
    class_of: Seq<int>,
    small: Machine,
    map: Seq<usize>,
    sink_class: int,
)
    requires
        constructed(machine, classes, class_of, small, map, sink_class),
    ensures
        quotient(machine, small, map),
{
    lemma_constructed_well_formed(machine, classes, class_of, small, map, sink_class);
    lemma_classes_bounded(classes, class_of, machine.states.len());
    let count = classes.len() as int;
    let sink = machine.sink();
    assert(0 <= sink_class < count);
    assert forall|c: usize| small.has_state(c) implies 0 <= #[trigger] first_of(map, c, 0)
        < map.len() by {
        lemma_first_of(map, c, 0);
        if c < count - 1 {
            lemma_least_member(machine, classes, class_of, small, map, sink_class, c);
        } else {
            assert(map[sink as int] == c);
        }
    }
    assert forall|s: usize, t: usize| s < map.len() && t < map.len() implies (#[trigger] together(
        map,
        s,
        t,
    ) <==> machine.equivalent(s, t)) by {
        assert(map[s as int] == renumbered(class_of[s as int], sink_class, count));
        assert(map[t as int] == renumbered(class_of[t as int], sink_class, count));
        assert(same_class(class_of, s, t) <==> machine.equivalent(s, t));
    }
    assert forall|s: usize, a: char| s < map.len() && machine.symbols.contains(a) implies machine.has_state(
        #[trigger] machine.next(s, a),
    ) && small.next(map[s as int], a) == map[machine.next(s, a) as int] by {
        lemma_follows(machine, classes, class_of, small, map, sink_class, s, a);
    }
    assert forall|s: usize| s < map.len() implies (small.finals.contains(#[trigger] map[s as int])
        <==> machine.finals.contains(s)) by {
        lemma_accepts(machine, classes, class_of, small, map, sink_class, s);
    }
    assert forall|c: usize, d: usize| c < d < small.sink() implies #[trigger] first_of(map, c, 0)
        < #[trigger] first_of(map, d, 0) by {
        lemma_least_member(machine, classes, class_of, small, map, sink_class, c);
        lemma_least_member(machine, classes, class_of, small, map, sink_class, d);
        assert(classes[class_behind(c as int, sink_class)][0] < classes[class_behind(d as int, sink_class)][0]);
    }
}

proof fn lemma_follows(
    machine: Machine,
    classes: Seq<Seq<usize>>,
    class_of: Seq<int>,
    small: Machine,
    map: Seq<usize>,
    sink_class: int,
    s: usize,
    a: char,
)
    requires
        constructed(machine, classes, class_of, small, map, sink_class),
        small.well_formed(),
        small.sink() == classes.len() - 1,
        s < map.len(),
        machine.symbols.contains(a),
    ensures
        machine.has_state(machine.next(s, a)),
        small.next(map[s as int], a) == map[machine.next(s, a) as int],
{
    let count = classes.len() as int;
    let sink = machine.sink();
    machine.lemma_total(s, a);
    machine.lemma_total(sink, a);
    let c = map[s as int];
    let i = choose|i: int| 0 <= i < machine.symbols.len() && machine.symbols[i] == a;
    assert(map[s as int] == renumbered(class_of[s as int], sink_class, count));
    let ns = machine.next(s, a);
    assert(map[ns as int] == renumbered(class_of[ns as int], sink_class, count));
    if c < count - 1 {
        lemma_least_member(machine, classes, class_of, small, map, sink_class, c);
        let least = classes[class_behind(c as int, sink_class)][0];
        machine.lemma_total(least, a);
        assert(super::machine::arrow_from(small.transitions, c, machine.symbols[i], 0) == Some(
            map[machine.next(least, machine.symbols[i]) as int],
        ));
        assert(same_class(class_of, s, least));
        assert(machine.equivalent(s, least));
        machine.lemma_equivalent_step(s, least, a);
        let nl = machine.next(least, a);
        assert(same_class(class_of, ns, nl));
        assert(map[nl as int] == renumbered(class_of[nl as int], sink_class, count));
    } else {
        assert(class_of[s as int] == sink_class);
        assert(same_class(class_of, s, sink));
        assert(machine.equivalent(s, sink));
        machine.lemma_equivalent_step(s, sink, a);
        assert(same_class(class_of, ns, sink));
        small.lemma_total(c, a);
    }
}

proof fn lemma_accepts(
    machine: Machine,
    classes: Seq<Seq<usize>>,
    class_of: Seq<int>,
    small: Machine,
    map: Seq<usize>,
    sink_class: int,
    s: usize,
)
    requires
        constructed(machine, classes, class_of, small, map, sink_class),
        small.well_formed(),
        small.sink() == classes.len() - 1,
        s < map.len(),
    ensures
        small.finals.contains(map[s as int]) <==> machine.finals.contains(s),
{
    let count = classes.len() as int;
    let sink = machine.sink();
    let c = map[s as int];
    assert(map[s as int] == renumbered(class_of[s as int], sink_class, count));
    if c < count - 1 {
        lemma_least_member(machine, classes, class_of, small, map, sink_class, c);
        let least = classes[class_behind(c as int, sink_class)][0];
        assert(same_class(class_of, s, least));
        assert(machine.equivalent(s, least));
        if machine.finals.contains(s) != machine.finals.contains(least) {
            machine.lemma_apart_by_acceptance(s, least);
        }
    } else {
        assert(same_class(class_of, s, sink));
        assert(machine.equivalent(s, sink));
        if machine.finals.contains(s) != machine.finals.contains(sink) {
            machine.lemma_apart_by_acceptance(s, sink);
        }
        if machine.finals.contains(sink) {
            let i = choose|i: int| 0 <= i < machine.finals.len() && machine.finals[i] == sink;
            assert(machine.finals[i] < machine.sink());
        }
        if small.finals.contains(c) {
            let i = choose|i: int| 0 <= i < small.finals.len() && small.finals[i] == c;
            assert(small.finals[i] < count - 1);
        }
    }
}

} // verus!
