//! The deterministic machine of a regular expression, and its minimization.

use super::counting::two_to;
use super::error::ParserError;
use super::machine::{arrow_from, leaves_on, Machine};
use super::partition::{
    lemma_class_kept, lemma_class_parted, lemma_classes_bounded, lemma_filter,
    lemma_partition_parted, lemma_push_contains, lemma_round_opens, lemma_stable_classes, names,
    partitions, queued, separates, splits, tells, watched,
};
use super::quotient::{
    built_up, class_behind, classifies, constructed, lemma_built_up_next, lemma_built_up_push,
    lemma_constructed_quotient, lemma_constructed_well_formed, quotient, renumbered, same_class,
};
use super::synthesis::{
    accepting, alphabet, alphabet_of, consistent, end_position, explore, explored, fill, fill_states,
    increasing, lemma_end_position, lemma_machine, lemma_next_state_consistent,
    lemma_start_consistent, lemma_states_bounded, lemma_visit_consistent, lemma_with_symbol,
    lemma_with_symbol_at, lemma_with_symbol_present, machine_of, numbers, place_of, realizes,
    target, unique, universe, visit, visit_all, with_symbol, Exploration,
};
use crate::regexp::ast::{lexemes_of, postfix_of, tree_of};
use crate::regexp::errs::ParseExpError;
use crate::regexp::params::{
    annotated, first_pos, leaf_views, leaves, lemma_annotated_root, views,
};
use crate::regexp::end_marked;
use crate::regexp::vals::{Value, SPECIAL_SYMBOL};
use crate::regexp::RegExp;
use crate::trees::BinTree;
use crate::types::{ascending, copy_of, PosSet, Queue};
use crate::utils;
use crate::utils::holds_equal;
use vstd::std_specs::cmp::PartialEqSpec;
use vstd::prelude::*;

pub use super::machine::Transition;

verus! {

/// A deterministic finite-state machine. Its states are numbered from 0; the
/// last is the sink.
#[derive(PartialEq, Eq, Debug)]
pub struct DFSM {
    states: Vec<usize>,
    valid_symbols: Vec<char>,
    transitions: Vec<Transition>,
    initial_state: usize,
    final_states: Vec<usize>,
}

impl View for DFSM {
    type V = Machine;

    closed spec fn view(&self) -> Machine {
        Machine {
            states: self.states@,
            symbols: self.valid_symbols@,
            transitions: self.transitions@,
            initial: self.initial_state,
            finals: self.final_states@,
        }
    }
}

/// The machine of the expression `text`, or the error with which `text` is
/// refused: the machine of the first positions and of the leaves of the
/// syntax tree of the postfix form of `text` with the end marker behind it.
pub open spec fn machine_of_expression(text: Seq<char>) -> Result<Machine, ParseExpError> {
    match postfix_of(lexemes_of(text)) {
        Ok(given) => {
            let tree = tree_of(end_marked(given))->Ok_0;
            let table = leaves(tree, annotated(tree, Set::empty(), Set::empty()));
            Ok(machine_of(first_pos(tree), table, end_position(table, 0)->Some_0))
        },
        Err(error) => Err(error),
    }
}

/// An expression has one machine: what is built from one text twice is the
/// same, state for state and transition for transition.
pub proof fn lemma_one_machine(
    text: Seq<char>,
    one: Result<Machine, ParseExpError>,
    other: Result<Machine, ParseExpError>,
)
    requires
        one == machine_of_expression(text),
        other == machine_of_expression(text),
    ensures
        one == other,
{
}

/// The sets of positions that the sets of `sets` stand for.
pub open spec fn set_views(sets: Seq<PosSet>) -> Seq<Set<usize>> {
    sets.map_values(|set: PosSet| set@)
}

/// Puts `c` at its place among increasing symbols, unless it is there.
fn insert_symbol(symbols: &mut Vec<char>, c: char)
    requires
        increasing(old(symbols)@),
    ensures
        final(symbols)@ == with_symbol(old(symbols)@, c),
{
    let mut at: usize = symbols.len();
    while at > 0 && symbols[at - 1] > c
        invariant
            at <= symbols.len(),
            symbols@ == old(symbols)@,
            forall|k: int| at <= k < symbols.len() ==> symbols@[k] > c,
        decreases at,
    {
        at -= 1;
    }
    if at > 0 && symbols[at - 1] == c {
        proof {
            lemma_with_symbol_present(symbols@, c, at as int);
        }
    } else {
        proof {
            lemma_with_symbol_at(symbols@, c, at as int);
        }
        symbols.insert(at, c);
    }
}

/// The alphabet of the leaves.
fn alphabet_of_values(values: &Vec<(usize, &Value, &PosSet)>) -> (symbols: Vec<char>)
    ensures
        symbols@ == alphabet(leaf_views(values@)),
        increasing(symbols@),
{
    let ghost leaves = leaf_views(values@);
    let mut symbols: Vec<char> = Vec::new();
    let mut k: usize = 0;
    while k < values.len()
        invariant
            k <= values.len(),
            leaves == leaf_views(values@),
            symbols@ == alphabet_of(leaves, k as int),
            increasing(symbols@),
        decreases values.len() - k,
    {
        let c = values[k].1.symbol;
        assert(leaves[k as int].1.symbol == c);
        if c != SPECIAL_SYMBOL {
            proof {
                lemma_with_symbol(symbols@, c);
            }
            insert_symbol(&mut symbols, c);
        }
        k += 1;
    }
    symbols
}

/// The positions that follow a position of `state` whose leaf holds `symbol`.
fn follow_union(state: &PosSet, values: &Vec<(usize, &Value, &PosSet)>, symbol: char) -> (union:
    PosSet)
    ensures
        union@ == target(leaf_views(values@), state@, symbol),
{
    let ghost leaves = leaf_views(values@);
    let mut union = PosSet::new();
    let mut k: usize = 0;
    assert(union@ =~= target(leaves.take(0), state@, symbol));
    while k < values.len()
        invariant
            k <= values.len(),
            leaves == leaf_views(values@),
            union@ == target(leaves.take(k as int), state@, symbol),
        decreases values.len() - k,
    {
        let (position, value, follow) = values[k];
        let ghost before = union@;
        let joins = value.symbol == symbol && state.contains(position);
        if joins {
            union = union.union(follow);
        }
        proof {
            let shorter = leaves.take(k as int);
            let longer = leaves.take(k + 1);
            assert(leaves[k as int] == (position, *value, follow@));
            assert forall|q: usize| union@.contains(q) == target(longer, state@, symbol).contains(
                q,
            ) by {
                if target(longer, state@, symbol).contains(q) {
                    let l = choose|l: int|
                        0 <= l < longer.len() && state@.contains((#[trigger] longer[l]).0)
                            && longer[l].1.symbol == symbol && longer[l].2.contains(q);
                    if l < k {
                        assert(shorter[l] == longer[l]);
                        assert(before.contains(q));
                    }
                }
                if before.contains(q) {
                    let l = choose|l: int|
                        0 <= l < shorter.len() && state@.contains((#[trigger] shorter[l]).0)
                            && shorter[l].1.symbol == symbol && shorter[l].2.contains(q);
                    assert(longer[l] == shorter[l]);
                }
                if joins && follow@.contains(q) {
                    assert(longer[k as int] == leaves[k as int]);
                }
            }
            assert(union@ =~= target(longer, state@, symbol));
        }
        k += 1;
    }
    assert(leaves.take(values.len() as int) =~= leaves);
    union
}

/// The place of the first of `sets` that equals `set`, or their number.
fn find_state(sets: &Vec<PosSet>, set: &PosSet) -> (place: usize)
    ensures
        place == place_of(set_views(sets@), set@, 0),
{
    let mut place: usize = 0;
    while place < sets.len()
        invariant
            place <= sets.len(),
            place_of(set_views(sets@), set@, place as int) == place_of(set_views(sets@), set@, 0),
        decreases sets.len() - place,
    {
        if sets[place].same(set) {
            return place;
        }
        place += 1;
    }
    place
}

/// The position of the first leaf that holds the end marker.
fn end_position_of(values: &Vec<(usize, &Value, &PosSet)>) -> (end: Option<usize>)
    ensures
        end == end_position(leaf_views(values@), 0),
{
    let mut k: usize = 0;
    while k < values.len()
        invariant
            k <= values.len(),
            end_position(leaf_views(values@), k as int) == end_position(leaf_views(values@), 0),
        decreases values.len() - k,
    {
        if values[k].1.symbol == SPECIAL_SYMBOL {
            return Some(values[k].0);
        }
        k += 1;
    }
    None
}

/// The places of the sets that hold `end`.
fn accepting_states(sets: &Vec<PosSet>, end: usize) -> (finals: Vec<usize>)
    ensures
        finals@ == accepting(set_views(sets@), end, sets.len() as int),
{
    let mut finals: Vec<usize> = Vec::new();
    let mut i: usize = 0;
    while i < sets.len()
        invariant
            i <= sets.len(),
            finals@ == accepting(set_views(sets@), end, i as int),
        decreases sets.len() - i,
    {
        if sets[i].contains(end) {
            finals.push(i);
        }
        i += 1;
    }
    finals
}

/// Whether a transition leaves `state` on `symbol`.
fn is_covered(transitions: &Vec<Transition>, state: usize, symbol: char) -> (covered: bool)
    ensures
        covered == arrow_from(transitions@, state, symbol, 0) is Some,
{
    let mut k: usize = 0;
    while k < transitions.len()
        invariant
            k <= transitions.len(),
            arrow_from(transitions@, state, symbol, k as int) == arrow_from(
                transitions@,
                state,
                symbol,
                0,
            ),
        decreases transitions.len() - k,
    {
        if transitions[k].initial_state == state && transitions[k].symbol == symbol {
            return true;
        }
        k += 1;
    }
    false
}

/// Adds a transition to the sink wherever none leaves a state on a symbol.
fn fill_transitions(transitions: &mut Vec<Transition>, symbols: &Vec<char>, sink: usize)
    ensures
        final(transitions)@ == fill(old(transitions)@, symbols@, sink, 0),
{
    let mut j: usize = 0;
    while j < symbols.len()
        invariant
            j <= symbols.len(),
            fill(transitions@, symbols@, sink, j as int) == fill(
                old(transitions)@,
                symbols@,
                sink,
                0,
            ),
        decreases symbols.len() - j,
    {
        let symbol = symbols[j];
        let ghost start = transitions@;
        let mut state: usize = 0;
        while state < sink
            invariant
                state <= sink,
                fill_states(transitions@, symbol, sink, state as int) == fill_states(
                    start,
                    symbol,
                    sink,
                    0,
                ),
            decreases sink - state,
        {
            if !is_covered(transitions, state, symbol) {
                transitions.push(Transition { initial_state: state, final_state: sink, symbol });
            }
            state += 1;
        }
        j += 1;
    }
}

/// The numbers from 0 to `last`.
fn numbers_to(last: usize) -> (states: Vec<usize>)
    ensures
        states@ == numbers((last + 1) as nat),
        last < usize::MAX,
{
    let mut states: Vec<usize> = Vec::new();
    states.push(0);
    let mut j: usize = 0;
    assert(states@ =~= numbers(1));
    while j < last
        invariant
            j <= last,
            states@ == numbers((j + 1) as nat),
        decreases last - j,
    {
        j += 1;
        states.push(j);
        assert(states@ =~= numbers((j + 1) as nat));
    }
    assert(states.len() == last + 1);
    states
}

/// Whether the states are the numbers from 0 on, and there is one at least.
fn are_numbered(states: &Vec<usize>) -> (numbered: bool)
    ensures
        numbered == (states@.len() >= 1 && forall|i: int|
            0 <= i < states@.len() ==> #[trigger] states@[i] == i),
{
    if states.len() == 0 {
        return false;
    }
    let mut i: usize = 0;
    while i < states.len()
        invariant
            i <= states@.len(),
            forall|j: int| 0 <= j < i ==> #[trigger] states@[j] == j,
        decreases states@.len() - i,
    {
        if states[i] != i {
            return false;
        }
        i += 1;
    }
    true
}

/// Whether the symbols stand in strictly increasing order.
fn are_increasing(symbols: &Vec<char>) -> (ordered: bool)
    ensures
        ordered == increasing(symbols@),
{
    let mut i: usize = 1;
    while i < symbols.len()
        invariant
            1 <= i,
            forall|a: int, b: int| 0 <= a < b < i && b < symbols@.len() ==> symbols@[a] < symbols@[b],
        decreases symbols@.len() - i,
    {
        if symbols[i - 1] >= symbols[i] {
            return false;
        }
        proof {
            assert forall|a: int, b: int| 0 <= a < b < i + 1 && b < symbols@.len() implies symbols@[a]
                < symbols@[b] by {
                if b == i && a < i - 1 {
                    assert(symbols@[a] < symbols@[i - 1]);
                }
            }
        }
        i += 1;
    }
    true
}

/// Whether the numbers stand in strictly increasing order and are less than
/// `bound`.
fn are_ascending_below(numbers: &Vec<usize>, bound: usize) -> (ordered: bool)
    ensures
        ordered == (ascending(numbers@) && forall|i: int|
            0 <= i < numbers@.len() ==> #[trigger] numbers@[i] < bound),
{
    let mut i: usize = 0;
    while i < numbers.len()
        invariant
            i <= numbers@.len(),
            forall|a: int, b: int| 0 <= a < b < i ==> numbers@[a] < numbers@[b],
            forall|a: int| 0 <= a < i ==> #[trigger] numbers@[a] < bound,
        decreases numbers@.len() - i,
    {
        if numbers[i] >= bound {
            return false;
        }
        if i > 0 && numbers[i - 1] >= numbers[i] {
            return false;
        }
        proof {
            assert forall|a: int, b: int| 0 <= a < b < i + 1 implies numbers@[a] < numbers@[b] by {
                if b == i && a < i - 1 {
                    assert(numbers@[a] < numbers@[i - 1]);
                }
            }
        }
        i += 1;
    }
    true
}

/// Whether `symbols` holds `symbol`.
fn holds_symbol(symbols: &Vec<char>, symbol: char) -> (found: bool)
    ensures
        found == symbols@.contains(symbol),
{
    let mut k: usize = 0;
    while k < symbols.len()
        invariant
            k <= symbols.len(),
            forall|l: int| 0 <= l < k ==> symbols@[l] != symbol,
        decreases symbols.len() - k,
    {
        if symbols[k] == symbol {
            return true;
        }
        k += 1;
    }
    false
}

/// Whether every transition leaves a state below `sink` on one of the
/// symbols and leads to a state up to `sink`.
fn are_within(transitions: &Vec<Transition>, symbols: &Vec<char>, sink: usize) -> (within: bool)
    ensures
        within == forall|k: int|
            0 <= k < transitions@.len() ==> {
                &&& (#[trigger] transitions@[k]).initial_state < sink
                &&& transitions@[k].final_state <= sink
                &&& symbols@.contains(transitions@[k].symbol)
            },
{
    let mut i: usize = 0;
    while i < transitions.len()
        invariant
            i <= transitions@.len(),
            forall|k: int|
                0 <= k < i ==> {
                    &&& (#[trigger] transitions@[k]).initial_state < sink
                    &&& transitions@[k].final_state <= sink
                    &&& symbols@.contains(transitions@[k].symbol)
                },
        decreases transitions@.len() - i,
    {
        let t = &transitions[i];
        if t.initial_state >= sink || t.final_state > sink || !holds_symbol(symbols, t.symbol) {
            return false;
        }
        i += 1;
    }
    true
}

/// Whether no two transitions leave one state on one symbol.
fn are_unique(transitions: &Vec<Transition>) -> (single: bool)
    ensures
        single == unique(transitions@),
{
    let mut l: usize = 0;
    while l < transitions.len()
        invariant
            l <= transitions@.len(),
            forall|a: int, b: int|
                0 <= a < b < l ==> !leaves_on(
                    #[trigger] transitions@[a],
                    (#[trigger] transitions@[b]).initial_state,
                    transitions@[b].symbol,
                ),
        decreases transitions@.len() - l,
    {
        let mut k: usize = 0;
        while k < l
            invariant
                k <= l < transitions@.len(),
                forall|a: int|
                    0 <= a < k ==> !leaves_on(
                        #[trigger] transitions@[a],
                        transitions@[l as int].initial_state,
                        transitions@[l as int].symbol,
                    ),
            decreases l - k,
        {
            if transitions[k].initial_state == transitions[l].initial_state
                && transitions[k].symbol == transitions[l].symbol {
                return false;
            }
            k += 1;
        }
        l += 1;
    }
    true
}

/// Whether a transition leaves each state below `sink` on each symbol.
fn are_total(transitions: &Vec<Transition>, symbols: &Vec<char>, sink: usize) -> (total: bool)
    ensures
        total == forall|state: usize, i: int|
            state < sink && 0 <= i < symbols@.len() ==> (#[trigger] arrow_from(
                transitions@,
                state,
                symbols@[i],
                0,
            )) is Some,
{
    let mut state: usize = 0;
    while state < sink
        invariant
            state <= sink,
            forall|s: usize, i: int|
                s < state && 0 <= i < symbols@.len() ==> (#[trigger] arrow_from(
                    transitions@,
                    s,
                    symbols@[i],
                    0,
                )) is Some,
        decreases sink - state,
    {
        let mut j: usize = 0;
        while j < symbols.len()
            invariant
                j <= symbols@.len(),
                state < sink,
                forall|i: int|
                    0 <= i < j ==> (#[trigger] arrow_from(transitions@, state, symbols@[i], 0)) is Some,
            decreases symbols@.len() - j,
        {
            if !is_covered(transitions, state, symbols[j]) {
                return false;
            }
            j += 1;
        }
        state += 1;
    }
    true
}

/// Whether `v` holds `x`.
fn holds(v: &Vec<usize>, x: usize) -> (found: bool)
    ensures
        found == v@.contains(x),
{
    let mut k: usize = 0;
    while k < v.len()
        invariant
            k <= v.len(),
            forall|l: int| 0 <= l < k ==> v@[l] != x,
        decreases v.len() - k,
    {
        if v[k] == x {
            return true;
        }
        k += 1;
    }
    false
}

/// Whether the class at place `class` waits in `work` with `symbol`.
fn waits(work: &Queue<(usize, char)>, class: usize, symbol: char) -> (found: bool)
    ensures
        found == work@.contains((class, symbol)),
{
    let mut k: usize = 0;
    while k < work.len()
        invariant
            k <= work.len(),
            forall|l: int| 0 <= l < k ==> work@[l] != (class, symbol),
        decreases work.len() - k,
    {
        let entry = work[k];
        if entry.0 == class && entry.1 == symbol {
            return true;
        }
        k += 1;
    }
    false
}

/// A vector that holds what `v` holds.
fn copy_symbols(v: &Vec<char>) -> (copy: Vec<char>)
    ensures
        copy@ == v@,
{
    let mut copy: Vec<char> = Vec::new();
    let mut i: usize = 0;
    while i < v.len()
        invariant
            i <= v.len(),
            copy@ == v@.take(i as int),
        decreases v.len() - i,
    {
        copy.push(v[i]);
        i += 1;
        assert(copy@ =~= v@.take(i as int));
    }
    assert(v@.take(v.len() as int) =~= v@);
    copy
}

/// The number that a class gets as a state.
fn renumber(class: usize, sink_class: usize, classes: usize) -> (state: usize)
    requires
        class < classes,
        sink_class < classes,
    ensures
        state == renumbered(class as int, sink_class as int, classes as int),
        state < classes,
{
    if class < sink_class {
        class
    } else if class == sink_class {
        classes - 1
    } else {
        class - 1
    }
}

/// For each state the place of its class.
fn class_table(classes: &Vec<Vec<usize>>, Ghost(class_of): Ghost<Seq<int>>, count: usize) -> (table:
    Vec<usize>)
    requires
        partitions(class_views(classes@), class_of, count as nat),
    ensures
        table@.len() == count,
        forall|x: int| 0 <= x < count ==> #[trigger] table@[x] == class_of[x],
{
    let ghost views = class_views(classes@);
    let mut table: Vec<usize> = Vec::new();
    let mut x: usize = 0;
    while x < count
        invariant
            x <= count,
            table@.len() == x,
        decreases count - x,
    {
        table.push(0);
        x += 1;
    }
    let mut c: usize = 0;
    while c < classes.len()
        invariant
            c <= classes@.len(),
            table@.len() == count,
            views == class_views(classes@),
            partitions(views, class_of, count as nat),
            forall|d: int, l: int|
                0 <= d < c && 0 <= l < views[d].len() ==> table@[(#[trigger] views[d][l]) as int] == d,
        decreases classes@.len() - c,
    {
        let class = &classes[c];
        assert(views[c as int] == class@);
        let mut k: usize = 0;
        while k < class.len()
            invariant
                k <= class@.len(),
                c < classes@.len(),
                views.len() == classes@.len(),
                class@ == views[c as int],
                table@.len() == count,
                partitions(views, class_of, count as nat),
                forall|d: int, l: int|
                    0 <= d < c && 0 <= l < views[d].len() ==> table@[(#[trigger] views[d][l]) as int]
                        == d,
                forall|l: int| 0 <= l < k ==> table@[(#[trigger] views[c as int][l]) as int] == c,
            decreases class@.len() - k,
        {
            let state = class[k];
            let ghost before = table@;
            assert(views[c as int][k as int] < count && class_of[views[c as int][k as int] as int] == c);
            table.set(state, c);
            proof {
                assert forall|d: int, l: int| 0 <= d < c && 0 <= l < views[d].len() implies table@[(
                #[trigger] views[d][l]) as int] == d by {
                    assert(class_of[views[d][l] as int] == d);
                    assert(before[views[d][l] as int] == d);
                }
                assert forall|l: int| 0 <= l < k + 1 implies table@[(
                #[trigger] views[c as int][l]) as int] == c by {
                    if l < k {
                        assert(before[views[c as int][l] as int] == c);
                    }
                }
            }
            k += 1;
        }
        c += 1;
    }
    proof {
        assert forall|x: int| 0 <= x < count implies #[trigger] table@[x] == class_of[x] by {
            assert(views[class_of[x]].contains(x as usize));
            let l = choose|l: int|
                0 <= l < views[class_of[x]].len() && views[class_of[x]][l] == x as usize;
            assert(table@[views[class_of[x]][l] as int] == class_of[x]);
        }
    }
    table
}

/// The states that the vectors of `classes` hold.
pub open spec fn class_views(classes: Seq<Vec<usize>>) -> Seq<Seq<usize>> {
    classes.map_values(|class: Vec<usize>| class@)
}

impl DFSM {
    #[verifier::type_invariant]
    spec fn sound(&self) -> bool {
        self@.well_formed()
    }

    /// The machine of the given parts, where they fit together; else they
    /// are refused.
    pub fn new(
        states: Vec<usize>,
        valid_symbols: Vec<char>,
        transitions: Vec<Transition>,
        initial_state: usize,
        final_states: Vec<usize>,
    ) -> (machine: Result<DFSM, ParserError>)
        ensures
            match machine {
                Ok(m) => m@ == (Machine {
                    states: states@,
                    symbols: valid_symbols@,
                    transitions: transitions@,
                    initial: initial_state,
                    finals: final_states@,
                }) && m@.well_formed(),
                Err(_) => !(Machine {
                    states: states@,
                    symbols: valid_symbols@,
                    transitions: transitions@,
                    initial: initial_state,
                    finals: final_states@,
                }).well_formed(),
            },
    {
        if !are_numbered(&states) {
            return Err(ParserError);
        }
        let sink = states.len() - 1;
        if !are_increasing(&valid_symbols) {
            return Err(ParserError);
        }
        if !are_within(&transitions, &valid_symbols, sink) {
            return Err(ParserError);
        }
        if !are_unique(&transitions) {
            return Err(ParserError);
        }
        if !are_total(&transitions, &valid_symbols, sink) {
            return Err(ParserError);
        }
        if initial_state > sink {
            return Err(ParserError);
        }
        if !are_ascending_below(&final_states, sink) {
            proof {
                let parts = Machine {
                    states: states@,
                    symbols: valid_symbols@,
                    transitions: transitions@,
                    initial: initial_state,
                    finals: final_states@,
                };
                if parts.well_formed() {
                    parts.lemma_finals();
                }
            }
            return Err(ParserError);
        }
        Ok(DFSM { states, valid_symbols, transitions, initial_state, final_states })
    }

    /// The states: the numbers from 0 to the sink.
    pub fn states(&self) -> (states: &Vec<usize>)
        ensures
            states@ == self@.states,
            self@.well_formed(),
    {
        proof {
            use_type_invariant(self);
        }
        &self.states
    }

    /// The symbols, in increasing order.
    pub fn valid_symbols(&self) -> (symbols: &Vec<char>)
        ensures
            symbols@ == self@.symbols,
            self@.well_formed(),
    {
        proof {
            use_type_invariant(self);
        }
        &self.valid_symbols
    }

    /// The transitions: one from each state other than the sink on each
    /// symbol.
    pub fn transitions(&self) -> (transitions: &Vec<Transition>)
        ensures
            transitions@ == self@.transitions,
            self@.well_formed(),
    {
        proof {
            use_type_invariant(self);
        }
        &self.transitions
    }

    /// The initial state.
    pub fn initial_state(&self) -> (state: usize)
        ensures
            state == self@.initial,
            self@.well_formed(),
    {
        proof {
            use_type_invariant(self);
        }
        self.initial_state
    }

    /// The accepting states, in increasing order.
    pub fn final_states(&self) -> (states: &Vec<usize>)
        ensures
            states@ == self@.finals,
            self@.well_formed(),
    {
        proof {
            use_type_invariant(self);
        }
        &self.final_states
    }

    /// The machine of leaves and first positions: its states are the sets of
    /// positions found from `first`, and one of them accepts where it holds
    /// the position of the first leaf with the end marker. There are at most
    /// as many of them as the first positions and the follow sets together
    /// have subsets. Leaves without an end marker are refused.
    pub fn synthesize(first: &PosSet, values: &Vec<(usize, &Value, &PosSet)>) -> (machine: Result<
        DFSM,
        ParserError,
    >)
        ensures
            match end_position(leaf_views(values@), 0) {
                Some(end) => {
                    &&& machine matches Ok(m)
                    &&& m@ == machine_of(first@, leaf_views(values@), end)
                    &&& m@.well_formed()
                    &&& realizes(
                        m@,
                        first@,
                        leaf_views(values@),
                        end,
                        explored(first@, leaf_views(values@)).sets,
                    )
                    &&& m@.states.len() <= two_to(universe(first@, leaf_views(values@)).len()) + 1
                },
                None => machine is Err,
            },
    {
        let end = match end_position_of(values) {
            Some(end) => end,
            None => {
                return Err(ParserError);
            },
        };
        let ghost leaves = leaf_views(values@);
        let ghost total = two_to(universe(first@, leaves).len());
        let valid_symbols = alphabet_of_values(values);
        let mut sets: Vec<PosSet> = Vec::new();
        sets.push(first.clone());
        let mut transitions: Vec<Transition> = Vec::new();
        proof {
            lemma_start_consistent(first@, leaves, valid_symbols@);
            assert(set_views(sets@) =~= seq![first@]);
            first.lemma_listing();
            assert forall|k: int| 0 <= k < leaves.len() implies (#[trigger] leaves[k]).2.finite() by {
                values@[k].2.lemma_listing();
            }
        }
        let mut i: usize = 0;
        while i < sets.len()
            invariant
                valid_symbols@ == alphabet(leaves),
                increasing(valid_symbols@),
                leaves == leaf_views(values@),
                total == two_to(universe(first@, leaves).len()),
                first@.finite(),
                forall|k: int| 0 <= k < leaves.len() ==> (#[trigger] leaves[k]).2.finite(),
                consistent(
                    first@,
                    leaves,
                    valid_symbols@,
                    Exploration { sets: set_views(sets@), transitions: transitions@ },
                    i as int,
                    0,
                ),
                i <= total,
                explore(
                    leaves,
                    valid_symbols@,
                    Exploration { sets: set_views(sets@), transitions: transitions@ },
                    i as int,
                    (total - i) as nat,
                ) == explored(first@, leaves),
            decreases total - i,
        {
            let ghost start = Exploration { sets: set_views(sets@), transitions: transitions@ };
            proof {
                lemma_states_bounded(first@, leaves, valid_symbols@, start, i as int, 0);
            }
            let mut k: usize = 0;
            while k < valid_symbols.len()
                invariant
                    k <= valid_symbols.len(),
                    i < sets.len(),
                    increasing(valid_symbols@),
                    leaves == leaf_views(values@),
                    consistent(
                        first@,
                        leaves,
                        valid_symbols@,
                        Exploration { sets: set_views(sets@), transitions: transitions@ },
                        i as int,
                        k as int,
                    ),
                    visit_all(
                        leaves,
                        valid_symbols@,
                        Exploration { sets: set_views(sets@), transitions: transitions@ },
                        i as int,
                        k as int,
                    ) == visit_all(leaves, valid_symbols@, start, i as int, 0),
                decreases valid_symbols.len() - k,
            {
                let symbol = valid_symbols[k];
                let ghost before = Exploration { sets: set_views(sets@), transitions: transitions@ };
                let union = follow_union(&sets[i], values, symbol);
                assert(set_views(sets@)[i as int] == sets@[i as int]@);
                if !union.is_empty() {
                    let place = find_state(&sets, &union);
                    if place == sets.len() {
                        let ghost old_sets = sets@;
                        sets.push(union);
                        assert(set_views(sets@) =~= set_views(old_sets).push(union@));
                    }
                    transitions.push(
                        Transition { initial_state: i, final_state: place, symbol },
                    );
                }
                proof {
                    let after = Exploration { sets: set_views(sets@), transitions: transitions@ };
                    assert(after == visit(leaves, before, i as int, symbol));
                    assert(after.sets.len() == sets.len());
                    lemma_visit_consistent(
                        first@,
                        leaves,
                        valid_symbols@,
                        before,
                        i as int,
                        k as int,
                        symbol,
                    );
                }
                k += 1;
            }
            proof {
                let after = Exploration { sets: set_views(sets@), transitions: transitions@ };
                lemma_next_state_consistent(first@, leaves, valid_symbols@, after, i as int);
                assert(after == visit_all(leaves, valid_symbols@, start, i as int, 0));
                lemma_states_bounded(first@, leaves, valid_symbols@, after, i as int + 1, 0);
            }
            i += 1;
        }
        let ghost found = Exploration { sets: set_views(sets@), transitions: transitions@ };
        assert(found == explored(first@, leaves));
        proof {
            lemma_states_bounded(first@, leaves, valid_symbols@, found, i as int, 0);
        }
        let sink = sets.len();
        let states = numbers_to(sink);
        let final_states = accepting_states(&sets, end);
        fill_transitions(&mut transitions, &valid_symbols, sink);
        proof {
            let machine = Machine {
                states: states@,
                symbols: valid_symbols@,
                transitions: transitions@,
                initial: 0,
                finals: final_states@,
            };
            lemma_machine(first@, leaves, end, found, machine);
        }
        Ok(DFSM { states, valid_symbols, transitions, initial_state: 0, final_states })
    }

    /// The machine without symbols whose only state is the sink.
    fn sink_only() -> (machine: DFSM)
        ensures
            machine@.well_formed(),
    {
        let mut states: Vec<usize> = Vec::new();
        states.push(0);
        DFSM {
            states,
            valid_symbols: Vec::new(),
            transitions: Vec::new(),
            initial_state: 0,
            final_states: Vec::new(),
        }
    }

    /// The machine of a regular expression: its states are the sets of
    /// positions found from the first positions of the root, and one of them
    /// accepts where it holds the position of the end marker. Where the
    /// expression holds no symbol but end markers, the machine has no symbol
    /// and no transition.
    pub fn from(r: &RegExp) -> (machine: DFSM)
        ensures
            end_position(r.spec_leaves(), 0) matches Some(end) && {
                &&& machine@ == machine_of(first_pos(r.spec_tree()), r.spec_leaves(), end)
                &&& machine@.well_formed()
                &&& realizes(
                    machine@,
                    first_pos(r.spec_tree()),
                    r.spec_leaves(),
                    end,
                    explored(first_pos(r.spec_tree()), r.spec_leaves()).sets,
                )
            },
    {
        let values = r.extract_values();
        proof {
            let leaves = leaf_views(values@);
            assert(leaves[leaves.len() - 1].1.symbol == SPECIAL_SYMBOL);
            lemma_end_position(leaves, 0, leaves.len() - 1);
        }
        let params_tree = r.params_tree();
        proof {
            lemma_annotated_root(r.spec_tree(), Set::empty(), Set::empty());
        }
        let first = match params_tree {
            BinTree::NonEmpty(node) => node.element.first_pos.clone(),
            BinTree::Empty => PosSet::new(),
        };
        match DFSM::synthesize(&first, &values) {
            Ok(machine) => machine,
            // The leaves of a regular expression hold an end marker.
            Err(_) => DFSM::sink_only(),
        }
    }

    /// The machine of an expression. An expression that cannot be read is
    /// refused with the error of its conversion.
    pub fn from_str(s: &str) -> (machine: Result<DFSM, ParseExpError>)
        ensures
            match machine_of_expression(s@) {
                Ok(m) => machine matches Ok(d) && d@ == m && m.well_formed(),
                Err(error) => machine matches Err(e) && e == error,
            },
    {
        match RegExp::from_str(s) {
            Ok(r) => Ok(DFSM::from(&r)),
            Err(error) => Err(error),
        }
    }

    /// The state that follows `state` on `symbol`.
    pub fn next_state(&self, state: usize, symbol: char) -> (next: usize)
        ensures
            next == self@.next(state, symbol),
    {
        proof {
            use_type_invariant(self);
        }
        let mut k: usize = 0;
        while k < self.transitions.len()
            invariant
                k <= self.transitions.len(),
                arrow_from(self.transitions@, state, symbol, k as int) == arrow_from(
                    self.transitions@,
                    state,
                    symbol,
                    0,
                ),
            decreases self.transitions.len() - k,
        {
            let t = &self.transitions[k];
            if t.initial_state == state && t.symbol == symbol {
                return t.final_state;
            }
            k += 1;
        }
        self.states.len() - 1
    }

    /// Parts a class by the pair `p` of a set of states and a symbol: first
    /// the states of `class` from which the symbol leads into the set, then
    /// the others, each part in the order of `class`.
    pub fn split(&self, class: &Vec<usize>, p: &(Vec<usize>, char)) -> (parts: (
        Vec<usize>,
        Vec<usize>,
    ))
        ensures
            parts.0@ == class@.filter(|s: usize| p.0@.contains(self@.next(s, p.1))),
            parts.1@ == class@.filter(|s: usize| !p.0@.contains(self@.next(s, p.1))),
    {
        let ghost inside = |s: usize| p.0@.contains(self@.next(s, p.1));
        let ghost outside = |s: usize| !p.0@.contains(self@.next(s, p.1));
        let mut c1: Vec<usize> = Vec::new();
        let mut c2: Vec<usize> = Vec::new();
        let mut i: usize = 0;
        proof {
            reveal(Seq::filter);
            assert(class@.take(0) =~= Seq::<usize>::empty());
        }
        while i < class.len()
            invariant
                i <= class.len(),
                inside == |s: usize| p.0@.contains(self@.next(s, p.1)),
                outside == |s: usize| !p.0@.contains(self@.next(s, p.1)),
                c1@ == class@.take(i as int).filter(inside),
                c2@ == class@.take(i as int).filter(outside),
            decreases class.len() - i,
        {
            let state = class[i];
            let next = self.next_state(state, p.1);
            proof {
                assert(class@.take(i + 1) =~= class@.take(i as int).push(state));
                class@.take(i as int).lemma_filter_push(state, inside);
                class@.take(i as int).lemma_filter_push(state, outside);
            }
            if holds(&p.0, next) {
                c1.push(state);
            } else {
                c2.push(state);
            }
            i += 1;
        }
        assert(class@.take(class.len() as int) =~= class@);
        (c1, c2)
    }

    /// The accepting states as one class and the others as another, the
    /// class of the accepting states first; it is left out where no state
    /// accepts.
    fn first_classes(&self) -> (result: (Vec<Vec<usize>>, Ghost<Seq<int>>))
        ensures
            partitions(class_views(result.0@), result.1@, self@.states.len()),
            separates(self@, result.1@),
            1 <= result.0@.len() <= 2,
            self@.well_formed(),
    {
        proof {
            use_type_invariant(self);
        }
        let ghost m = self@;
        let states_slice = self.states.as_slice();
        let finals_slice = self.final_states.as_slice();
        let non_final_states = utils::find_diff(states_slice, finals_slice);
        let ghost not_final = |item: usize| !holds_equal(finals_slice@, item);
        proof {
            assert forall|item: usize| not_final(item) == !m.finals.contains(item) by {
                if m.finals.contains(item) {
                    let k = choose|k: int| 0 <= k < m.finals.len() && m.finals[k] == item;
                    assert(finals_slice@[k].eq_spec(&item));
                }
            }
            lemma_filter(self.states@, not_final);
            assert(ascending(self.states@));
            let sink = m.sink();
            assert(self.states@[sink as int] == sink);
            assert(self.states@.contains(sink));
            if m.finals.contains(sink) {
                let i = choose|i: int| 0 <= i < m.finals.len() && m.finals[i] == sink;
                assert(m.finals[i] < m.sink());
            }
            assert(non_final_states@.contains(sink));
        }
        let mut classes: Vec<Vec<usize>> = Vec::new();
        if self.final_states.len() > 0 {
            classes.push(copy_of(&self.final_states));
        }
        classes.push(non_final_states);
        let ghost last = classes.len() - 1;
        let ghost class_of = Seq::new(
            self.states.len() as nat,
            |s: int|
                if m.finals.contains(s as usize) {
                    0int
                } else {
                    last
                },
        );
        proof {
            let views = class_views(classes@);
            assert(views[last] == non_final_states@);
            if self.final_states.len() > 0 {
                assert(views[0] == m.finals);
            }
            assert forall|s: int| 0 <= s < m.states.len() implies 0 <= #[trigger] class_of[s]
                < views.len() && views[class_of[s]].contains(s as usize) by {
                if m.finals.contains(s as usize) {
                } else {
                    assert(self.states@[s] == s);
                    assert(self.states@.contains(s as usize));
                    assert(not_final(s as usize));
                }
            }
            assert forall|c: int, k: int| 0 <= c < views.len() && 0 <= k < views[c].len() implies (
            #[trigger] views[c][k]) < m.states.len() && class_of[views[c][k] as int] == c by {
                let x = views[c][k];
                if c == last {
                    assert(non_final_states@.contains(x));
                    assert(self.states@.contains(x));
                    let i = choose|i: int| 0 <= i < self.states@.len() && self.states@[i] == x;
                    assert(not_final(x));
                } else {
                    assert(m.finals[k] < m.sink());
                    assert(m.finals.contains(x));
                }
            }
            assert forall|c: int| 0 <= c < views.len() implies (#[trigger] views[c]).len() > 0
                && ascending(views[c]) by {}
            assert forall|s: usize, t: usize| s < class_of.len() && t < class_of.len() implies {
                &&& #[trigger] class_of[s as int] == #[trigger] class_of[t as int]
                    ==> m.finals.contains(s) == m.finals.contains(t)
                &&& class_of[s as int] != class_of[t as int] ==> m.distinguishable(s, t)
            } by {
                if m.finals.contains(s) != m.finals.contains(t) {
                    m.lemma_apart_by_acceptance(s, t);
                }
            }
        }
        (classes, Ghost(class_of))
    }

    /// The work to begin with: every class with every symbol, symbol after
    /// symbol.
    fn first_work(&self, classes: usize) -> (work: Queue<(usize, char)>)
        requires
            1 <= classes <= 2,
        ensures
            names(self@, work@, classes as nat),
            forall|c: usize, a: char|
                c < classes && self@.symbols.contains(a) ==> #[trigger] work@.contains((c, a)),
    {
        let mut work: Queue<(usize, char)> = Queue::new();
        let mut j: usize = 0;
        while j < self.valid_symbols.len()
            invariant
                j <= self.valid_symbols.len(),
                1 <= classes <= 2,
                names(self@, work@, classes as nat),
                forall|c: usize, i: int|
                    c < classes && 0 <= i < j ==> #[trigger] work@.contains(
                        (c, self.valid_symbols@[i]),
                    ),
            decreases self.valid_symbols.len() - j,
        {
            let symbol = self.valid_symbols[j];
            let ghost before = work@;
            assert(self@.symbols.contains(symbol));
            work.push_back((0, symbol));
            proof {
                lemma_push_contains(before, (0usize, symbol));
            }
            let ghost middle = work@;
            if classes == 2 {
                work.push_back((1, symbol));
                proof {
                    lemma_push_contains(middle, (1usize, symbol));
                }
            }
            assert forall|c: usize, i: int| c < classes && 0 <= i < j + 1 implies #[trigger] work@.contains(
                (c, self.valid_symbols@[i]),
            ) by {
                if i < j {
                    assert(before.contains((c, self.valid_symbols@[i])));
                }
            }
            j += 1;
        }
        assert forall|c: usize, a: char| c < classes && self@.symbols.contains(a) implies #[trigger] work@.contains(
            (c, a),
        ) by {
            let i = choose|i: int| 0 <= i < self@.symbols.len() && self@.symbols[i] == a;
            assert(work@.contains((c, self.valid_symbols@[i])));
        }
        work
    }

    /// For a class just parted in two, of which one part kept the place
    /// `class` and the other took the place `fresh`: lets the new class wait
    /// with every symbol with which the old one waits, and the class at
    /// `smaller` with every other symbol.
    fn provide(&self, work: &mut Queue<(usize, char)>, class: usize, fresh: usize, smaller: usize)
        requires
            class < fresh,
            smaller == class || smaller == fresh,
            names(self@, old(work)@, fresh as nat),
        ensures
            names(self@, final(work)@, (fresh + 1) as nat),
            forall|e: (usize, char)| #[trigger] old(work)@.contains(e) ==> final(work)@.contains(e),
            forall|a: char|
                #![trigger old(work)@.contains((class, a))]
                #![trigger final(work)@.contains((fresh, a))]
                self@.symbols.contains(a) ==> {
                    &&& old(work)@.contains((class, a)) ==> final(work)@.contains((fresh, a))
                    &&& final(work)@.contains((class, a)) || final(work)@.contains((fresh, a))
                },
            final(work)@.len() >= old(work)@.len(),
    {
        proof {
            use_type_invariant(self);
        }
        let mut j: usize = 0;
        while j < self.valid_symbols.len()
            invariant
                j <= self.valid_symbols.len(),
                class < fresh,
                smaller == class || smaller == fresh,
                self@.well_formed(),
                names(self@, work@, (fresh + 1) as nat),
                work@.len() >= old(work)@.len(),
                forall|e: (usize, char)| #[trigger] old(work)@.contains(e) ==> work@.contains(e),
                forall|e: (usize, char)|
                    #[trigger] work@.contains(e) && !old(work)@.contains(e) ==> exists|i: int|
                        0 <= i < j && self.valid_symbols@[i] == e.1,
                forall|i: int|
                    0 <= i < j ==> {
                        &&& old(work)@.contains((class, #[trigger] self.valid_symbols@[i]))
                            ==> work@.contains((fresh, self.valid_symbols@[i]))
                        &&& work@.contains((class, self.valid_symbols@[i])) || work@.contains(
                            (fresh, self.valid_symbols@[i]),
                        )
                    },
            decreases self.valid_symbols.len() - j,
        {
            let symbol = self.valid_symbols[j];
            let ghost before = work@;
            let waiting = waits(work, class, symbol);
            assert(self@.symbols.contains(symbol));
            proof {
                if waiting && !old(work)@.contains((class, symbol)) {
                    let i = choose|i: int| 0 <= i < j && self.valid_symbols@[i] == symbol;
                    assert(self.valid_symbols@[i] < self.valid_symbols@[j as int]);
                }
            }
            let entry = if waiting {
                (fresh, symbol)
            } else {
                (smaller, symbol)
            };
            work.push_back(entry);
            proof {
                lemma_push_contains(before, entry);
                assert forall|i: int| 0 <= i < work@.len() implies (#[trigger] work@[i]).0 < fresh + 1
                    && self@.symbols.contains(work@[i].1) by {
                    if i < before.len() {
                        assert(work@[i] == before[i]);
                    }
                }
                assert forall|e: (usize, char)|
                    #[trigger] work@.contains(e) && !old(work)@.contains(e) implies exists|i: int|
                    0 <= i < j + 1 && self.valid_symbols@[i] == e.1 by {
                    if before.contains(e) {
                        let i = choose|i: int| 0 <= i < j && self.valid_symbols@[i] == e.1;
                        assert(0 <= i < j + 1 && self.valid_symbols@[i] == e.1);
                    } else {
                        assert(self.valid_symbols@[j as int] == e.1);
                    }
                }
            }
            j += 1;
        }
        proof {
            assert forall|a: char|
                #![trigger old(work)@.contains((class, a))]
                #![trigger work@.contains((fresh, a))]
                self@.symbols.contains(a) implies {
                &&& old(work)@.contains((class, a)) ==> work@.contains((fresh, a))
                &&& work@.contains((class, a)) || work@.contains((fresh, a))
            } by {
                let i = choose|i: int| 0 <= i < self@.symbols.len() && self@.symbols[i] == a;
                assert(self.valid_symbols@[i] == a);
            }
        }
    }

    /// Refines the classes of accepting and other states until no class can
    /// be parted: takes a class and a symbol from the work, parts every class
    /// of more than one state by them, and provides for each class that was
    /// parted.
    fn refine(&self) -> (result: (Vec<Vec<usize>>, Ghost<Seq<int>>))
        ensures
            self@.well_formed(),
            partitions(class_views(result.0@), result.1@, self@.states.len()),
            forall|s: usize, t: usize|
                s < self@.states.len() && t < self@.states.len() ==> (#[trigger] result.1@[s as int]
                    == #[trigger] result.1@[t as int] <==> self@.equivalent(s, t)),
    {
        let ghost m = self@;
        let count = self.states.len();
        let (mut classes, Ghost(mut class_of)) = self.first_classes();
        let mut work = self.first_work(classes.len());
        proof {
            lemma_classes_bounded(class_views(classes@), class_of, count as nat);
            assert forall|s: usize, t: usize, a: char| #[trigger]
                splits(m, class_of, s, t, a) implies queued(m, class_of, work@, s, t, a) by {
                m.lemma_total(s, a);
                let ns = m.next(s, a);
                assert(work@.contains((class_of[ns as int] as usize, a)));
            }
        }
        while work.len() > 0
            invariant
                m == self@,
                m.well_formed(),
                count == m.states.len(),
                partitions(class_views(classes@), class_of, count as nat),
                separates(m, class_of),
                names(m, work@, classes@.len()),
                watched(m, class_of, work@, Seq::empty(), ' ', 0, 0),
                classes@.len() <= count,
            decreases count - classes@.len(), work@.len(),
        {
            let ghost whole = work@;
            proof {
                assert forall|s: usize, t: usize, a: char| #[trigger]
                    splits(m, class_of, s, t, a) implies queued(m, class_of, whole, s, t, a) || (a
                    == whole[0].1 && 0 <= class_of[s as int] < 0 && Seq::<usize>::empty().contains(
                    m.next(s, a),
                ) != Seq::<usize>::empty().contains(m.next(t, a))) by {}
                lemma_round_opens(m, class_views(classes@), class_of, whole);
            }
            let (class, symbol) = match work.pop_front() {
                Some(entry) => entry,
                None => (0, ' '),
            };
            assert(work@ =~= whole.drop_first());
            assert(class < classes.len());
            let p = (copy_of(&classes[class]), symbol);
            let upto = classes.len();
            let ghost rest = work@.len();
            let mut c: usize = 0;
            while c < upto
                invariant
                    m == self@,
                    m.well_formed(),
                    count == m.states.len(),
                    p.1 == symbol,
                    m.symbols.contains(symbol),
                    c <= upto <= classes@.len() <= count,
                    partitions(class_views(classes@), class_of, count as nat),
                    separates(m, class_of),
                    names(m, work@, classes@.len()),
                    watched(m, class_of, work@, p.0@, symbol, c as int, upto as int),
                    tells(m, p.0@, count as nat),
                    (classes@.len() == upto && work@.len() == rest) || classes@.len() > upto,
                decreases upto - c,
            {
                let ghost views = class_views(classes@);
                assert(views[c as int] == classes@[c as int]@);
                if classes[c].len() == 1 {
                    proof {
                        lemma_class_kept(
                            m,
                            views,
                            class_of,
                            work@,
                            p.0@,
                            symbol,
                            c as int,
                            upto as int,
                        );
                    }
                    c += 1;
                    continue ;
                }
                let (first, second) = self.split(&classes[c], &p);
                let ghost keep = |s: usize| p.0@.contains(self@.next(s, p.1));
                let ghost drop = |s: usize| !p.0@.contains(self@.next(s, p.1));
                proof {
                    lemma_filter(views[c as int], keep);
                    lemma_filter(views[c as int], drop);
                }
                if first.len() > 0 && second.len() > 0 {
                    let fresh = classes.len();
                    let smaller = if first.len() <= second.len() {
                        c
                    } else {
                        fresh
                    };
                    let ghost before = work@;
                    let ghost parted = Seq::new(
                        count as nat,
                        |s: int|
                            if class_of[s] == c && !keep(s as usize) {
                                fresh as int
                            } else {
                                class_of[s]
                            },
                    );
                    classes.set(c, first);
                    classes.push(second);
                    proof {
                        assert(class_views(classes@) =~= views.update(
                            c as int,
                            views[c as int].filter(keep),
                        ).push(views[c as int].filter(drop)));
                        lemma_partition_parted(views, class_of, count as nat, c as int, parted, keep, drop);
                        lemma_classes_bounded(class_views(classes@), parted, count as nat);
                    }
                    self.provide(&mut work, c, fresh, smaller);
                    proof {
                        lemma_class_parted(
                            m,
                            class_of,
                            parted,
                            before,
                            work@,
                            p.0@,
                            symbol,
                            c as int,
                            upto as int,
                            fresh as int,
                        );
                        class_of = parted;
                    }
                } else {
                    proof {
                        if first.len() == 0 {
                            assert forall|k: int| 0 <= k < views[c as int].len() implies !p.0@.contains(
                                m.next(#[trigger] views[c as int][k], symbol),
                            ) by {
                                let x = views[c as int][k];
                                assert(views[c as int].contains(x));
                                if keep(x) {
                                    assert(first@.contains(x));
                                }
                            }
                        } else {
                            assert forall|k: int| 0 <= k < views[c as int].len() implies p.0@.contains(
                                m.next(#[trigger] views[c as int][k], symbol),
                            ) by {
                                let x = views[c as int][k];
                                assert(views[c as int].contains(x));
                                if drop(x) {
                                    assert(second@.contains(x));
                                }
                            }
                        }
                        lemma_class_kept(
                            m,
                            views,
                            class_of,
                            work@,
                            p.0@,
                            symbol,
                            c as int,
                            upto as int,
                        );
                    }
                }
                c += 1;
            }
            proof {
                assert forall|s: usize, t: usize, a: char| #[trigger]
                    splits(m, class_of, s, t, a) implies queued(m, class_of, work@, s, t, a) || (a
                    == ' ' && 0 <= class_of[s as int] < 0 && Seq::<usize>::empty().contains(
                    m.next(s, a),
                ) != Seq::<usize>::empty().contains(m.next(t, a))) by {}
            }
        }
        proof {
            assert forall|s: usize, t: usize, a: char| !#[trigger] splits(m, class_of, s, t, a) by {
                if splits(m, class_of, s, t, a) {
                    assert(queued(m, class_of, work@, s, t, a));
                }
            }
            assert forall|s: usize, t: usize| s < m.states.len() && t < m.states.len() implies (
            #[trigger] class_of[s as int] == #[trigger] class_of[t as int] <==> m.equivalent(
                s,
                t,
            )) by {
                lemma_stable_classes(m, class_of, s, t);
            }
        }
        (classes, Ghost(class_of))
    }

    /// The classes of the states that accept the same words, in the order of
    /// their least members.
    fn ordered_classes(&self) -> (result: (Vec<Vec<usize>>, Ghost<Seq<int>>))
        ensures
            self@.well_formed(),
            partitions(class_views(result.0@), result.1@, self@.states.len()),
            forall|s: usize, t: usize|
                s < self@.states.len() && t < self@.states.len() ==> (#[trigger] same_class(
                    result.1@,
                    s,
                    t,
                ) <==> self@.equivalent(s, t)),
            forall|c: int, d: int|
                0 <= c < d < result.0@.len() ==> (#[trigger] class_views(result.0@)[c])[0] < (
                #[trigger] class_views(result.0@)[d])[0],
    {
        let (found, Ghost(class_of)) = self.refine();
        let ghost views = class_views(found@);
        let count = self.states.len();
        let mut ordered: Vec<Vec<usize>> = Vec::new();
        let ghost mut order: Seq<int> = Seq::empty();
        let ghost mut place: Seq<int> = Seq::new(found@.len(), |c: int| -1int);
        let mut s: usize = 0;
        while s < count
            invariant
                s <= count,
                count == self@.states.len(),
                views == class_views(found@),
                partitions(views, class_of, count as nat),
                order.len() == ordered@.len(),
                place.len() == found@.len(),
                forall|o: int|
                    0 <= o < order.len() ==> 0 <= #[trigger] order[o] < found@.len() && ordered@[o]@
                        == views[order[o]] && place[order[o]] == o && views[order[o]][0] < s,
                forall|c: int|
                    0 <= c < found@.len() && (#[trigger] views[c])[0] < s ==> 0 <= place[c]
                        < order.len() && order[place[c]] == c,
                forall|o: int, q: int|
                    0 <= o < q < ordered@.len() ==> (#[trigger] ordered@[o])@[0] < (
                    #[trigger] ordered@[q])@[0],
            decreases count - s,
        {
            let mut hit: usize = found.len();
            let mut c: usize = 0;
            while c < found.len()
                invariant
                    c <= found@.len(),
                    views == class_views(found@),
                    partitions(views, class_of, count as nat),
                    hit <= found@.len(),
                    hit < found@.len() ==> views[hit as int][0] == s,
                    hit == found@.len() ==> forall|d: int| 0 <= d < c ==> (#[trigger] views[d])[0] != s,
                decreases found@.len() - c,
            {
                assert(views[c as int].len() > 0);
                assert(views[c as int] == found@[c as int]@);
                if found[c][0] == s {
                    hit = c;
                }
                c += 1;
            }
            if hit < found.len() {
                proof {
                    assert(views[hit as int] == found@[hit as int]@);
                    assert forall|d: int| 0 <= d < found@.len() && (#[trigger] views[d])[0]
                        == s implies d == hit by {
                        assert(views[d].len() > 0);
                        assert(views[hit as int].len() > 0);
                        assert(class_of[views[d][0] as int] == d);
                        assert(class_of[views[hit as int][0] as int] == hit);
                    }
                    assert forall|o: int| 0 <= o < order.len() implies #[trigger] order[o] != hit by {
                        assert(views[order[o]][0] < s);
                    }
                }
                let ghost before = ordered@;
                ordered.push(copy_of(&found[hit]));
                proof {
                    assert forall|o: int, q: int| 0 <= o < q < ordered@.len() implies (
                    #[trigger] ordered@[o])@[0] < (#[trigger] ordered@[q])@[0] by {
                        assert(ordered@[o] == before[o]);
                        if q < before.len() {
                            assert(ordered@[q] == before[q]);
                        } else {
                            assert(before[o]@ == views[order[o]]);
                            assert(views[order[o]][0] < s);
                        }
                    }
                    place = place.update(hit as int, order.len() as int);
                    order = order.push(hit as int);
                }
            } else {
                assert forall|d: int| 0 <= d < found@.len() implies (#[trigger] views[d])[0] != s by {}
            }
            s += 1;
        }
        let ghost renamed = Seq::new(count as nat, |x: int| place[class_of[x]]);
        proof {
            let listed = class_views(ordered@);
            assert forall|c: int| 0 <= c < found@.len() implies 0 <= #[trigger] place[c] < order.len()
                && order[place[c]] == c by {
                assert(views[c].len() > 0);
                assert(views[c][0] < count);
            }
            assert forall|o: int| 0 <= o < listed.len() implies #[trigger] listed[o]
                == views[order[o]] by {
                assert(listed[o] == ordered@[o]@);
            }
            assert forall|x: int| 0 <= x < count implies 0 <= #[trigger] renamed[x] < listed.len()
                && listed[renamed[x]].contains(x as usize) by {
                assert(views[class_of[x]].contains(x as usize));
                assert(listed[place[class_of[x]]] == views[order[place[class_of[x]]]]);
            }
            assert forall|o: int, k: int| 0 <= o < listed.len() && 0 <= k < listed[o].len() implies (
            #[trigger] listed[o][k]) < count && renamed[listed[o][k] as int] == o by {
                assert(listed[o] == views[order[o]]);
                assert(class_of[views[order[o]][k] as int] == order[o]);
            }
            assert forall|o: int| 0 <= o < listed.len() implies (#[trigger] listed[o]).len() > 0
                && ascending(listed[o]) by {
                assert(listed[o] == views[order[o]]);
            }
            assert forall|x: usize, y: usize| x < count && y < count implies (#[trigger] same_class(
                renamed,
                x,
                y,
            ) <==> self@.equivalent(x, y)) by {
                assert(class_of[x as int] == class_of[y as int] <==> self@.equivalent(x, y));
                assert(order[place[class_of[x as int]]] == class_of[x as int]);
                assert(order[place[class_of[y as int]]] == class_of[y as int]);
            }
            assert forall|c: int, d: int| 0 <= c < d < ordered@.len() implies (
            #[trigger] listed[c])[0] < (#[trigger] listed[d])[0] by {
                assert(ordered@[c]@[0] < ordered@[d]@[0]);
            }
        }
        (ordered, Ghost(renamed))
    }

    /// The classes of the states that accept the same words: each class in
    /// increasing order, and the classes in the order of their least members.
    pub fn equivalence_classes(&self) -> (classes: Vec<Vec<usize>>)
        ensures
            self@.well_formed(),
            classifies(self@, class_views(classes@)),
    {
        let (classes, Ghost(class_of)) = self.ordered_classes();
        proof {
            let listed = class_views(classes@);
            let m = self@;
            assert forall|s: usize| m.has_state(s) implies exists|c: int|
                0 <= c < listed.len() && (#[trigger] listed[c]).contains(s) by {
                assert(listed[class_of[s as int]].contains(s));
            }
            assert forall|c: int, k: int, d: int, l: int|
                0 <= c < listed.len() && 0 <= k < listed[c].len() && 0 <= d < listed.len() && 0 <= l
                    < listed[d].len() implies (m.equivalent(
                #[trigger] listed[c][k],
                #[trigger] listed[d][l],
            ) <==> c == d) by {
                assert(class_of[listed[c][k] as int] == c);
                assert(class_of[listed[d][l] as int] == d);
                assert(same_class(class_of, listed[c][k], listed[d][l]) <==> m.equivalent(
                    listed[c][k],
                    listed[d][l],
                ));
            }
        }
        classes
    }

    /// The machine of the classes of the states that accept the same words,
    /// and for each state of this machine the state of that machine that
    /// stands for it. This machine stays as it is.
    pub fn minimize_with_map(&self) -> (result: (DFSM, Vec<usize>))
        ensures
            self@.well_formed(),
            result.0@.well_formed(),
            quotient(self@, result.0@, result.1@),
    {
        let (classes, Ghost(class_of)) = self.ordered_classes();
        let ghost m = self@;
        let ghost views = class_views(classes@);
        let count = self.states.len();
        let number = classes.len();
        proof {
            lemma_classes_bounded(views, class_of, count as nat);
            assert(0 <= class_of[0] < views.len());
        }
        let table = class_table(&classes, Ghost(class_of), count);
        let sink_class = table[count - 1];
        assert(sink_class == class_of[m.sink() as int]);
        let mut map: Vec<usize> = Vec::new();
        let mut x: usize = 0;
        while x < count
            invariant
                x <= count,
                map@.len() == x,
                table@.len() == count,
                sink_class < number,
                number == views.len(),
                partitions(views, class_of, count as nat),
                forall|y: int| 0 <= y < count ==> #[trigger] table@[y] == class_of[y],
                forall|y: int|
                    0 <= y < x ==> #[trigger] map@[y] == renumbered(
                        class_of[y],
                        sink_class as int,
                        number as int,
                    ),
            decreases count - x,
        {
            assert(0 <= class_of[x as int] < views.len());
            assert(table@[x as int] == class_of[x as int]);
            map.push(renumber(table[x], sink_class, number));
            x += 1;
        }
        let mut transitions: Vec<Transition> = Vec::new();
        let mut c: usize = 0;
        while c + 1 < number
            invariant
                m == self@,
                m.well_formed(),
                count == m.states.len(),
                views == class_views(classes@),
                number == views.len(),
                sink_class < number,
                partitions(views, class_of, count as nat),
                map@.len() == count,
                forall|y: int| 0 <= y < count ==> (#[trigger] map@[y]) < number,
                c + 1 <= number,
                built_up(m, views, map@, sink_class as int, transitions@, c as int, 0),
            decreases number - c,
        {
            let o = if c < sink_class {
                c
            } else {
                c + 1
            };
            assert(views[o as int] == classes@[o as int]@);
            assert(views[o as int].len() > 0);
            let least = classes[o][0];
            assert(least == views[class_behind(c as int, sink_class as int)][0]);
            assert(views[o as int][0] < count);
            let mut j: usize = 0;
            while j < self.valid_symbols.len()
                invariant
                    m == self@,
                    m.well_formed(),
                    count == m.states.len(),
                    j <= self.valid_symbols@.len(),
                    c + 1 < number,
                    number == views.len(),
                    least == views[class_behind(c as int, sink_class as int)][0],
                    least < count,
                    map@.len() == count,
                    forall|y: int| 0 <= y < count ==> (#[trigger] map@[y]) < number,
                    built_up(m, views, map@, sink_class as int, transitions@, c as int, j as int),
                decreases self.valid_symbols@.len() - j,
            {
                let symbol = self.valid_symbols[j];
                let next = self.next_state(least, symbol);
                proof {
                    assert(m.symbols.contains(symbol));
                    m.lemma_total(least, symbol);
                    assert(map@[next as int] < number);
                    lemma_built_up_push(
                        m,
                        views,
                        map@,
                        sink_class as int,
                        transitions@,
                        c,
                        j as int,
                        symbol,
                    );
                }
                transitions.push(
                    Transition { initial_state: c, final_state: map[next], symbol },
                );
                j += 1;
            }
            proof {
                lemma_built_up_next(m, views, map@, sink_class as int, transitions@, c as int);
            }
            c += 1;
        }
        let mut finals: Vec<usize> = Vec::new();
        let mut c: usize = 0;
        while c + 1 < number
            invariant
                m == self@,
                views == class_views(classes@),
                number == views.len(),
                sink_class < number,
                partitions(views, class_of, count as nat),
                c + 1 <= number,
                forall|i: int, j: int| 0 <= i < j < finals@.len() ==> finals@[i] < finals@[j],
                forall|i: int| 0 <= i < finals@.len() ==> #[trigger] finals@[i] < c,
                forall|d: usize|
                    d < c ==> (#[trigger] finals@.contains(d) <==> m.finals.contains(
                        views[class_behind(d as int, sink_class as int)][0],
                    )),
            decreases number - c,
        {
            let o = if c < sink_class {
                c
            } else {
                c + 1
            };
            assert(views[o as int] == classes@[o as int]@);
            assert(views[o as int].len() > 0);
            let ghost before = finals@;
            let accepts = holds(&self.final_states, classes[o][0]);
            if accepts {
                finals.push(c);
            }
            proof {
                lemma_push_contains(before, c);
                assert forall|d: usize| d < c + 1 implies (#[trigger] finals@.contains(d)
                    <==> m.finals.contains(views[class_behind(d as int, sink_class as int)][0])) by {
                    if d < c {
                        assert(before.contains(d) <==> m.finals.contains(
                            views[class_behind(d as int, sink_class as int)][0],
                        ));
                    }
                    if before.contains(d) {
                        let i = choose|i: int| 0 <= i < before.len() && before[i] == d;
                        assert(before[i] < c);
                    }
                }
            }
            c += 1;
        }
        let states = numbers_to(number - 1);
        let valid_symbols = copy_symbols(&self.valid_symbols);
        let initial_state = map[self.initial_state];
        proof {
            let small = Machine {
                states: states@,
                symbols: valid_symbols@,
                transitions: transitions@,
                initial: initial_state,
                finals: finals@,
            };
            assert(constructed(m, views, class_of, small, map@, sink_class as int));
            lemma_constructed_well_formed(m, views, class_of, small, map@, sink_class as int);
            lemma_constructed_quotient(m, views, class_of, small, map@, sink_class as int);
        }
        (
            DFSM { states, valid_symbols, transitions, initial_state, final_states: finals },
            map,
        )
    }

    /// The machine of the classes of the states that accept the same words.
    /// This machine stays as it is.
    pub fn minimize(&self) -> (small: DFSM)
        ensures
            self@.well_formed(),
            small@.well_formed(),
            exists|map: Seq<usize>| quotient(self@, small@, map),
    {
        let (small, map) = self.minimize_with_map();
        assert(quotient(self@, small@, map@));
        small
    }
}

} // verus!
