//! The machine of an expression, as a mathematical value: its states are the
//! sets of positions that are found from the first positions of the
//! expression, in the order in which they are found.

use super::counting::{lemma_distinct_subsets, two_to};
use super::machine::{arrow_from, leaves_on, lemma_arrow_found, Machine, Transition};
use crate::regexp::vals::{Value, SPECIAL_SYMBOL};
use vstd::prelude::*;

verus! {

/// A leaf of a syntax tree: its position, its symbol and its follow set.
pub type Leaf = (usize, Value, Set<usize>);

/// Whether the symbols stand in strictly increasing order.
pub open spec fn increasing(symbols: Seq<char>) -> bool {
    forall|i: int, j: int| 0 <= i < j < symbols.len() ==> symbols[i] < symbols[j]
}

/// The increasing sequence `symbols` with `c` at its place, unless it is there.
pub open spec fn with_symbol(symbols: Seq<char>, c: char) -> Seq<char>
    decreases symbols.len(),
{
    if symbols.len() == 0 || symbols.last() < c {
        symbols.push(c)
    } else if symbols.last() == c {
        symbols
    } else {
        with_symbol(symbols.drop_last(), c).push(symbols.last())
    }
}

/// The symbols of the first `count` leaves, but for the end marker, in
/// increasing order and each once.
pub open spec fn alphabet_of(leaves: Seq<Leaf>, count: int) -> Seq<char>
    decreases count,
{
    if count <= 0 {
        Seq::empty()
    } else if leaves[count - 1].1.symbol == SPECIAL_SYMBOL {
        alphabet_of(leaves, count - 1)
    } else {
        with_symbol(alphabet_of(leaves, count - 1), leaves[count - 1].1.symbol)
    }
}

/// The alphabet of an expression: the symbols of its leaves, but for the end
/// marker, in increasing order and each once.
pub open spec fn alphabet(leaves: Seq<Leaf>) -> Seq<char> {
    alphabet_of(leaves, leaves.len() as int)
}

/// Putting a symbol into an increasing sequence keeps it increasing and adds
/// that symbol, and nothing else, to what it holds.
pub proof fn lemma_with_symbol(symbols: Seq<char>, c: char)
    requires
        increasing(symbols),
    ensures
        increasing(with_symbol(symbols, c)),
        forall|d: char|
            #![trigger with_symbol(symbols, c).contains(d)]
            #![trigger symbols.contains(d)]
            with_symbol(symbols, c).contains(d) <==> (d == c || symbols.contains(d)),
    decreases symbols.len(),
{
    let result = with_symbol(symbols, c);
    if symbols.len() == 0 || symbols.last() < c {
        assert forall|i: int, j: int| 0 <= i < j < result.len() implies result[i] < result[j] by {
            if j == symbols.len() {
                assert(symbols[i] <= symbols.last());
            }
        }
        assert forall|d: char| result.contains(d) <==> (d == c || symbols.contains(d)) by {
            if result.contains(d) {
                let k = choose|k: int| 0 <= k < result.len() && result[k] == d;
                if k < symbols.len() {
                    assert(symbols[k] == d);
                }
            }
            if symbols.contains(d) {
                let k = choose|k: int| 0 <= k < symbols.len() && symbols[k] == d;
                assert(result[k] == d);
            }
            if d == c {
                assert(result[symbols.len() as int] == d);
            }
        }
    } else if symbols.last() == c {
        assert(symbols[symbols.len() - 1] == c);
    } else {
        let front = symbols.drop_last();
        assert(increasing(front)) by {
            assert forall|i: int, j: int| 0 <= i < j < front.len() implies front[i] < front[j] by {
                assert(symbols[i] < symbols[j]);
            }
        }
        lemma_with_symbol(front, c);
        let inner = with_symbol(front, c);
        assert(result =~= inner.push(symbols.last()));
        assert forall|i: int, j: int| 0 <= i < j < result.len() implies result[i] < result[j] by {
            if j == inner.len() {
                assert(inner.contains(inner[i]));
                if inner[i] != c {
                    assert(front.contains(inner[i]));
                    let k = choose|k: int| 0 <= k < front.len() && front[k] == inner[i];
                    assert(symbols[k] < symbols[symbols.len() - 1]);
                }
            } else {
                assert(inner[i] < inner[j]);
            }
        }
        assert forall|d: char| result.contains(d) <==> (d == c || symbols.contains(d)) by {
            if result.contains(d) {
                let k = choose|k: int| 0 <= k < result.len() && result[k] == d;
                if k < inner.len() {
                    assert(inner.contains(d));
                    if d != c {
                        let l = choose|l: int| 0 <= l < front.len() && front[l] == d;
                        assert(symbols[l] == d);
                    }
                } else {
                    assert(symbols[symbols.len() - 1] == d);
                }
            }
            if symbols.contains(d) {
                let k = choose|k: int| 0 <= k < symbols.len() && symbols[k] == d;
                if k < front.len() {
                    assert(front[k] == d);
                    assert(inner.contains(d));
                    let l = choose|l: int| 0 <= l < inner.len() && inner[l] == d;
                    assert(result[l] == d);
                } else {
                    assert(result[inner.len() as int] == d);
                }
            }
            if d == c {
                assert(inner.contains(c));
                let l = choose|l: int| 0 <= l < inner.len() && inner[l] == c;
                assert(result[l] == c);
            }
        }
    }
}

/// The alphabet is increasing, and it holds the symbols of the leaves but for
/// the end marker.
pub proof fn lemma_alphabet_of(leaves: Seq<Leaf>, count: int)
    requires
        count <= leaves.len(),
    ensures
        increasing(alphabet_of(leaves, count)),
        forall|c: char|
            #![trigger alphabet_of(leaves, count).contains(c)]
            alphabet_of(leaves, count).contains(c) <==> (c != SPECIAL_SYMBOL && exists|k: int|
                0 <= k < count && (#[trigger] leaves[k]).1.symbol == c),
    decreases count,
{
    if count > 0 {
        lemma_alphabet_of(leaves, count - 1);
        let rest = alphabet_of(leaves, count - 1);
        let c0 = leaves[count - 1].1.symbol;
        if c0 != SPECIAL_SYMBOL {
            lemma_with_symbol(rest, c0);
        }
        assert forall|c: char|
            #![trigger alphabet_of(leaves, count).contains(c)]
            alphabet_of(leaves, count).contains(c) <==> (c != SPECIAL_SYMBOL && exists|k: int|
                0 <= k < count && (#[trigger] leaves[k]).1.symbol == c) by {
            let here = exists|k: int| 0 <= k < count && (#[trigger] leaves[k]).1.symbol == c;
            let before = exists|k: int| 0 <= k < count - 1 && (#[trigger] leaves[k]).1.symbol == c;
            assert(rest.contains(c) <==> (c != SPECIAL_SYMBOL && before));
            if before {
                let k = choose|k: int| 0 <= k < count - 1 && (#[trigger] leaves[k]).1.symbol == c;
                assert(0 <= k < count && leaves[k].1.symbol == c);
            }
            if here {
                let k = choose|k: int| 0 <= k < count && (#[trigger] leaves[k]).1.symbol == c;
                if k < count - 1 {
                    assert(before);
                } else {
                    assert(c == c0);
                }
            }
            if c == c0 {
                assert(leaves[count - 1].1.symbol == c);
                assert(here);
            }
            if c0 != SPECIAL_SYMBOL {
                assert(alphabet_of(leaves, count).contains(c) <==> (c == c0 || rest.contains(c)));
            }
        }
    }
}

/// Where every symbol from place `at` on is greater than `c`, and the one
/// before is smaller, `c` is put at place `at`.
pub proof fn lemma_with_symbol_at(symbols: Seq<char>, c: char, at: int)
    requires
        0 <= at <= symbols.len(),
        forall|k: int| at <= k < symbols.len() ==> symbols[k] > c,
        at > 0 ==> symbols[at - 1] < c,
    ensures
        with_symbol(symbols, c) == symbols.insert(at, c),
    decreases symbols.len() - at,
{
    if at == symbols.len() {
        assert(symbols.push(c) =~= symbols.insert(at, c));
    } else {
        lemma_with_symbol_at(symbols.drop_last(), c, at);
        assert(symbols.drop_last().insert(at, c).push(symbols.last()) =~= symbols.insert(at, c));
    }
}

/// Where every symbol from place `at` on is greater than `c`, and the one
/// before is `c`, nothing changes.
pub proof fn lemma_with_symbol_present(symbols: Seq<char>, c: char, at: int)
    requires
        0 < at <= symbols.len(),
        forall|k: int| at <= k < symbols.len() ==> symbols[k] > c,
        symbols[at - 1] == c,
    ensures
        with_symbol(symbols, c) == symbols,
    decreases symbols.len() - at,
{
    if at < symbols.len() {
        lemma_with_symbol_present(symbols.drop_last(), c, at);
        assert(symbols.drop_last().push(symbols.last()) =~= symbols);
    }
}

/// The positions that follow a position of `state` whose leaf holds `symbol`.
pub open spec fn target(leaves: Seq<Leaf>, state: Set<usize>, symbol: char) -> Set<usize> {
    Set::new(
        |q: usize|
            exists|k: int|
                0 <= k < leaves.len() && state.contains((#[trigger] leaves[k]).0) && leaves[k].1.symbol
                    == symbol && leaves[k].2.contains(q),
    )
}

/// The positions that can occur in a state: the first positions and the
/// members of the follow sets.
pub open spec fn universe(first: Set<usize>, leaves: Seq<Leaf>) -> Set<usize> {
    Set::new(
        |q: usize|
            first.contains(q) || exists|k: int|
                0 <= k < leaves.len() && (#[trigger] leaves[k]).2.contains(q),
    )
}

/// The place of the first of `sets`, from place `from` on, that equals `set`;
/// the length of `sets` where none does.
pub open spec fn place_of(sets: Seq<Set<usize>>, set: Set<usize>, from: int) -> int
    decreases sets.len() - from,
{
    if from < 0 || from >= sets.len() {
        sets.len() as int
    } else if sets[from] == set {
        from
    } else {
        place_of(sets, set, from + 1)
    }
}

/// What has been found: the states, as sets of positions, and the transitions
/// between them.
pub struct Exploration {
    pub sets: Seq<Set<usize>>,
    pub transitions: Seq<Transition>,
}

/// What is known after the state at place `state` is left on `symbol`. Where
/// no position follows, nothing changes. Else there is one more transition; it
/// leads to the state of the positions that follow, which is a new state, the
/// last, where no state found before has these positions.
pub open spec fn visit(leaves: Seq<Leaf>, found: Exploration, state: int, symbol: char)
    -> Exploration {
    let set = target(leaves, found.sets[state], symbol);
    let place = place_of(found.sets, set, 0);
    if set == Set::<usize>::empty() {
        found
    } else {
        Exploration {
            sets: if place == found.sets.len() {
                found.sets.push(set)
            } else {
                found.sets
            },
            transitions: found.transitions.push(
                Transition {
                    initial_state: state as usize,
                    final_state: place as usize,
                    symbol,
                },
            ),
        }
    }
}

/// What is known after the state at place `state` is left on each of the
/// symbols from place `from` on, in their order.
pub open spec fn visit_all(
    leaves: Seq<Leaf>,
    symbols: Seq<char>,
    found: Exploration,
    state: int,
    from: int,
) -> Exploration
    decreases symbols.len() - from,
{
    if from < 0 || from >= symbols.len() {
        found
    } else {
        visit_all(leaves, symbols, visit(leaves, found, state, symbols[from]), state, from + 1)
    }
}

/// What is known after the states from place `state` on are left on every
/// symbol, each state in its turn, those found on the way too; at most `fuel`
/// states are taken.
pub open spec fn explore(
    leaves: Seq<Leaf>,
    symbols: Seq<char>,
    found: Exploration,
    state: int,
    fuel: nat,
) -> Exploration
    decreases fuel,
{
    if fuel == 0 || state < 0 || state >= found.sets.len() {
        found
    } else {
        explore(
            leaves,
            symbols,
            visit_all(leaves, symbols, found, state, 0),
            state + 1,
            (fuel - 1) as nat,
        )
    }
}

/// All that is found from the state of the first positions. As many states
/// are taken as the universe has subsets, which is as many as can be found.
pub open spec fn explored(first: Set<usize>, leaves: Seq<Leaf>) -> Exploration {
    explore(
        leaves,
        alphabet(leaves),
        Exploration { sets: seq![first], transitions: Seq::empty() },
        0,
        two_to(universe(first, leaves).len()),
    )
}

/// The position of the first leaf, from place `from` on, that holds the end
/// marker.
pub open spec fn end_position(leaves: Seq<Leaf>, from: int) -> Option<usize>
    decreases leaves.len() - from,
{
    if from < 0 || from >= leaves.len() {
        None
    } else if leaves[from].1.symbol == SPECIAL_SYMBOL {
        Some(leaves[from].0)
    } else {
        end_position(leaves, from + 1)
    }
}

/// Where a leaf holds the end marker, the search finds an end marker.
pub proof fn lemma_end_position(leaves: Seq<Leaf>, from: int, at: int)
    requires
        0 <= from <= at < leaves.len(),
        leaves[at].1.symbol == SPECIAL_SYMBOL,
    ensures
        end_position(leaves, from) is Some,
    decreases at - from,
{
    if from < at && leaves[from].1.symbol != SPECIAL_SYMBOL {
        lemma_end_position(leaves, from + 1, at);
    }
}

/// The places of the first `count` of `sets` that hold `end`, in increasing
/// order.
pub open spec fn accepting(sets: Seq<Set<usize>>, end: usize, count: int) -> Seq<usize>
    decreases count,
{
    if count <= 0 {
        Seq::empty()
    } else if sets[count - 1].contains(end) {
        accepting(sets, end, count - 1).push((count - 1) as usize)
    } else {
        accepting(sets, end, count - 1)
    }
}

/// The transitions with one to the sink added for each state from `from` on
/// that no transition leaves on `symbol`.
pub open spec fn fill_states(transitions: Seq<Transition>, symbol: char, sink: usize, from: int)
    -> Seq<Transition>
    decreases sink - from,
{
    if from < 0 || from >= sink {
        transitions
    } else {
        fill_states(
            if arrow_from(transitions, from as usize, symbol, 0) is Some {
                transitions
            } else {
                transitions.push(
                    Transition { initial_state: from as usize, final_state: sink, symbol },
                )
            },
            symbol,
            sink,
            from + 1,
        )
    }
}

/// The transitions with one to the sink added wherever no transition leaves a
/// state on a symbol: symbol after symbol from place `from` on, and for each
/// symbol state after state.
pub open spec fn fill(transitions: Seq<Transition>, symbols: Seq<char>, sink: usize, from: int)
    -> Seq<Transition>
    decreases symbols.len() - from,
{
    if from < 0 || from >= symbols.len() {
        transitions
    } else {
        fill(fill_states(transitions, symbols[from], sink, 0), symbols, sink, from + 1)
    }
}

/// The numbers from 0 to `count - 1`.
pub open spec fn numbers(count: nat) -> Seq<usize> {
    Seq::new(count, |i: int| i as usize)
}

/// The machine of an expression whose root has the first positions `first` and
/// whose leaves are `leaves`, where `end` is the position of the end marker.
/// Its states are the sets found, numbered as they are found, and the sink
/// behind them. The state of the first positions is the initial one, and a
/// state accepts where its set holds `end`. Its transitions are those found,
/// and behind them those to the sink.
pub open spec fn machine_of(first: Set<usize>, leaves: Seq<Leaf>, end: usize) -> Machine {
    let found = explored(first, leaves);
    let sink = found.sets.len() as usize;
    Machine {
        states: numbers(found.sets.len() + 1),
        symbols: alphabet(leaves),
        transitions: fill(found.transitions, alphabet(leaves), sink, 0),
        initial: 0,
        finals: accepting(found.sets, end, found.sets.len() as int),
    }
}

/// The place that the search gives: no set before it, from `from` on, equals
/// `set`, and the set at it does, unless it is the length.
pub proof fn lemma_place_of(sets: Seq<Set<usize>>, set: Set<usize>, from: int)
    requires
        0 <= from <= sets.len(),
    ensures
        from <= place_of(sets, set, from) <= sets.len(),
        place_of(sets, set, from) < sets.len() ==> sets[place_of(sets, set, from)] == set,
        forall|k: int| from <= k < place_of(sets, set, from) ==> #[trigger] sets[k] != set,
    decreases sets.len() - from,
{
    if from < sets.len() && sets[from] != set {
        lemma_place_of(sets, set, from + 1);
    }
}

/// What the search finds among transitions with one more at the end.
pub proof fn lemma_arrow_push(
    transitions: Seq<Transition>,
    last: Transition,
    state: usize,
    symbol: char,
    from: int,
)
    requires
        0 <= from <= transitions.len(),
    ensures
        arrow_from(transitions.push(last), state, symbol, from) == match arrow_from(
            transitions,
            state,
            symbol,
            from,
        ) {
            Some(end) => Some(end),
            None => if leaves_on(last, state, symbol) {
                Some(last.final_state)
            } else {
                None
            },
        },
    decreases transitions.len() - from,
{
    let longer = transitions.push(last);
    if from < transitions.len() {
        assert(longer[from] == transitions[from]);
        if !leaves_on(transitions[from], state, symbol) {
            lemma_arrow_push(transitions, last, state, symbol, from + 1);
        }
    } else {
        assert(longer[from] == last);
        assert(arrow_from(longer, state, symbol, from + 1) is None);
    }
}

/// Whether no two of the transitions leave one state on one symbol.
pub open spec fn unique(transitions: Seq<Transition>) -> bool {
    forall|k: int, l: int|
        0 <= k < l < transitions.len() ==> !leaves_on(
            #[trigger] transitions[k],
            (#[trigger] transitions[l]).initial_state,
            transitions[l].symbol,
        )
}

/// Whether the state at place `s` has been left on the symbol at place `j`
/// when the exploration stands at the state at place `state` before the
/// symbol at place `from`.
pub open spec fn visited(s: int, j: int, state: int, from: int) -> bool {
    s < state || (s == state && j < from)
}

/// Whether one of the transitions leads to the state at place `state` from a
/// state before it.
pub open spec fn reached(transitions: Seq<Transition>, state: int) -> bool {
    exists|k: int|
        0 <= k < transitions.len() && (#[trigger] transitions[k]).final_state == state
            && transitions[k].initial_state < state
}

/// Whether a transition found is as it must be: it joins states found, on a
/// symbol on which its state has been left, and the set of its end holds the
/// positions that follow, of which there are some.
pub open spec fn follows(
    leaves: Seq<Leaf>,
    symbols: Seq<char>,
    found: Exploration,
    transition: Transition,
    state: int,
    from: int,
) -> bool {
    &&& transition.initial_state < found.sets.len()
    &&& transition.final_state < found.sets.len()
    &&& exists|j: int|
        0 <= j < symbols.len() && #[trigger] symbols[j] == transition.symbol && visited(
            transition.initial_state as int,
            j,
            state,
            from,
        )
    &&& found.sets[transition.final_state as int] == target(
        leaves,
        found.sets[transition.initial_state as int],
        transition.symbol,
    )
    &&& found.sets[transition.final_state as int] != Set::<usize>::empty()
}

/// Whether an exploration that stands at the state at place `state`, before
/// the symbol at place `from`, is as it must be. The first state is that of
/// the first positions. The states differ from one another and hold
/// positions of the universe only. The transitions are as they must be, no
/// two leave one state on one symbol, and one leaves each state on each
/// symbol on which it has been left and some position follows. A transition
/// leads to each state but the first from a state before it.
pub open spec fn consistent(
    first: Set<usize>,
    leaves: Seq<Leaf>,
    symbols: Seq<char>,
    found: Exploration,
    state: int,
    from: int,
) -> bool {
    &&& found.sets.len() >= 1
    &&& found.sets.len() <= usize::MAX
    &&& found.sets[0] == first
    &&& found.sets.no_duplicates()
    &&& forall|i: int|
        0 <= i < found.sets.len() ==> (#[trigger] found.sets[i]).subset_of(universe(first, leaves))
    &&& 0 <= state <= found.sets.len()
    &&& 0 <= from <= symbols.len()
    &&& from > 0 ==> state < found.sets.len()
    &&& forall|k: int|
        0 <= k < found.transitions.len() ==> follows(
            leaves,
            symbols,
            found,
            #[trigger] found.transitions[k],
            state,
            from,
        )
    &&& unique(found.transitions)
    &&& forall|s: int, j: int|
        0 <= s < found.sets.len() && 0 <= j < symbols.len() && visited(s, j, state, from)
            && #[trigger] target(leaves, found.sets[s], symbols[j]) != Set::<usize>::empty()
            ==> arrow_from(found.transitions, s as usize, symbols[j], 0) is Some
    &&& forall|j: int| 0 < j < found.sets.len() ==> #[trigger] reached(found.transitions, j)
}

/// The exploration that begins with the state of the first positions is as it
/// must be.
pub proof fn lemma_start_consistent(first: Set<usize>, leaves: Seq<Leaf>, symbols: Seq<char>)
    ensures
        consistent(
            first,
            leaves,
            symbols,
            Exploration { sets: seq![first], transitions: Seq::empty() },
            0,
            0,
        ),
{
    let found = Exploration { sets: seq![first], transitions: Seq::empty() };
    assert(found.sets[0].subset_of(universe(first, leaves)));
}

/// Leaving a state on the next symbol keeps the exploration as it must be.
pub proof fn lemma_visit_consistent(
    first: Set<usize>,
    leaves: Seq<Leaf>,
    symbols: Seq<char>,
    found: Exploration,
    state: int,
    from: int,
    symbol: char,
)
    requires
        consistent(first, leaves, symbols, found, state, from),
        increasing(symbols),
        state < found.sets.len(),
        from < symbols.len(),
        symbol == symbols[from],
        visit(leaves, found, state, symbol).sets.len() <= usize::MAX,
    ensures
        consistent(first, leaves, symbols, visit(leaves, found, state, symbol), state, from + 1),
{
    let set = target(leaves, found.sets[state], symbol);
    let place = place_of(found.sets, set, 0);
    let after = visit(leaves, found, state, symbol);
    lemma_place_of(found.sets, set, 0);
    assert forall|i: int| 0 <= i < found.sets.len() implies after.sets[i] == found.sets[i] by {}
    assert forall|j: int| 0 < j < after.sets.len() implies #[trigger] reached(
        after.transitions,
        j,
    ) by {
        if j < found.sets.len() {
            assert(reached(found.transitions, j));
            let k = choose|k: int|
                0 <= k < found.transitions.len() && (#[trigger] found.transitions[k]).final_state
                    == j && found.transitions[k].initial_state < j;
            assert(after.transitions[k] == found.transitions[k]);
        } else {
            assert(after.transitions[found.transitions.len() as int].final_state == j);
        }
    }
    if set == Set::<usize>::empty() {
        assert forall|k: int| 0 <= k < after.transitions.len() implies follows(
            leaves,
            symbols,
            after,
            #[trigger] after.transitions[k],
            state,
            from + 1,
        ) by {
            let t = found.transitions[k];
            assert(follows(leaves, symbols, found, t, state, from));
            let j = choose|j: int|
                0 <= j < symbols.len() && #[trigger] symbols[j] == t.symbol && visited(
                    t.initial_state as int,
                    j,
                    state,
                    from,
                );
            assert(visited(t.initial_state as int, j, state, from + 1));
        }
        assert forall|s: int, j: int|
            0 <= s < after.sets.len() && 0 <= j < symbols.len() && visited(s, j, state, from + 1)
                && #[trigger] target(leaves, after.sets[s], symbols[j]) != Set::<usize>::empty()
            implies arrow_from(after.transitions, s as usize, symbols[j], 0) is Some by {
            if !visited(s, j, state, from) {
                assert(s == state && j == from);
            }
        }
    } else {
        let added = Transition {
            initial_state: state as usize,
            final_state: place as usize,
            symbol,
        };
        assert(after.transitions == found.transitions.push(added));
        assert(set.subset_of(universe(first, leaves))) by {
            assert forall|q: usize| set.contains(q) implies universe(first, leaves).contains(
                q,
            ) by {
                let k = choose|k: int|
                    0 <= k < leaves.len() && found.sets[state].contains((#[trigger] leaves[k]).0)
                        && leaves[k].1.symbol == symbol && leaves[k].2.contains(q);
                assert(leaves[k].2.contains(q));
            }
        }
        assert(after.sets[place] == set);
        assert(after.sets.no_duplicates()) by {
            assert forall|i: int, j: int|
                0 <= i < after.sets.len() && 0 <= j < after.sets.len() && i != j implies after.sets[i]
                != after.sets[j] by {
                if i < found.sets.len() && j < found.sets.len() {
                    assert(found.sets[i] != found.sets[j]);
                } else if i < found.sets.len() {
                    assert(found.sets[i] != set);
                } else {
                    assert(found.sets[j] != set);
                }
            }
        }
        assert forall|i: int| 0 <= i < after.sets.len() implies (#[trigger] after.sets[i]).subset_of(
            universe(first, leaves),
        ) by {
            if i < found.sets.len() {
                assert(found.sets[i].subset_of(universe(first, leaves)));
            }
        }
        assert forall|k: int| 0 <= k < after.transitions.len() implies follows(
            leaves,
            symbols,
            after,
            #[trigger] after.transitions[k],
            state,
            from + 1,
        ) by {
            if k < found.transitions.len() {
                let t = found.transitions[k];
                assert(after.transitions[k] == t);
                assert(follows(leaves, symbols, found, t, state, from));
                let j = choose|j: int|
                    0 <= j < symbols.len() && #[trigger] symbols[j] == t.symbol && visited(
                        t.initial_state as int,
                        j,
                        state,
                        from,
                    );
                assert(visited(t.initial_state as int, j, state, from + 1));
            } else {
                assert(after.transitions[k] == added);
                assert(symbols[from] == added.symbol && visited(state, from, state, from + 1));
            }
        }
        assert(unique(after.transitions)) by {
            assert forall|k: int, l: int| 0 <= k < l < after.transitions.len() implies !leaves_on(
                #[trigger] after.transitions[k],
                (#[trigger] after.transitions[l]).initial_state,
                after.transitions[l].symbol,
            ) by {
                assert(after.transitions[k] == found.transitions[k]);
                if l < found.transitions.len() {
                    assert(after.transitions[l] == found.transitions[l]);
                } else {
                    let t = found.transitions[k];
                    assert(follows(leaves, symbols, found, t, state, from));
                    let j = choose|j: int|
                        0 <= j < symbols.len() && #[trigger] symbols[j] == t.symbol && visited(
                            t.initial_state as int,
                            j,
                            state,
                            from,
                        );
                    if t.initial_state == state {
                        assert(symbols[j] < symbols[from]);
                    }
                }
            }
        }
        assert forall|s: int, j: int|
            0 <= s < after.sets.len() && 0 <= j < symbols.len() && visited(s, j, state, from + 1)
                && #[trigger] target(leaves, after.sets[s], symbols[j]) != Set::<usize>::empty()
            implies arrow_from(after.transitions, s as usize, symbols[j], 0) is Some by {
            lemma_arrow_push(found.transitions, added, s as usize, symbols[j], 0);
            if visited(s, j, state, from) {
                assert(target(leaves, found.sets[s], symbols[j]) != Set::<usize>::empty());
            } else {
                assert(s == state && j == from);
            }
        }
    }
}

/// An exploration that has left a state on every symbol stands before the
/// next state.
pub proof fn lemma_next_state_consistent(
    first: Set<usize>,
    leaves: Seq<Leaf>,
    symbols: Seq<char>,
    found: Exploration,
    state: int,
)
    requires
        consistent(first, leaves, symbols, found, state, symbols.len() as int),
        state < found.sets.len(),
    ensures
        consistent(first, leaves, symbols, found, state + 1, 0),
{
    assert forall|k: int| 0 <= k < found.transitions.len() implies follows(
        leaves,
        symbols,
        found,
        #[trigger] found.transitions[k],
        state + 1,
        0,
    ) by {
        let t = found.transitions[k];
        assert(follows(leaves, symbols, found, t, state, symbols.len() as int));
        let j = choose|j: int|
            0 <= j < symbols.len() && #[trigger] symbols[j] == t.symbol && visited(
                t.initial_state as int,
                j,
                state,
                symbols.len() as int,
            );
        assert(visited(t.initial_state as int, j, state + 1, 0));
    }
    assert forall|s: int, j: int|
        0 <= s < found.sets.len() && 0 <= j < symbols.len() && visited(s, j, state + 1, 0)
            && #[trigger] target(leaves, found.sets[s], symbols[j]) != Set::<usize>::empty()
        implies arrow_from(found.transitions, s as usize, symbols[j], 0) is Some by {
        assert(visited(s, j, state, symbols.len() as int));
    }
}

/// The universe is finite where the first positions and the follow sets are.
pub proof fn lemma_universe_finite(first: Set<usize>, leaves: Seq<Leaf>, count: int)
    requires
        first.finite(),
        forall|k: int| 0 <= k < leaves.len() ==> (#[trigger] leaves[k]).2.finite(),
        0 <= count <= leaves.len(),
    ensures
        universe(first, leaves.take(count)).finite(),
    decreases count,
{
    if count == 0 {
        assert(universe(first, leaves.take(0)) =~= first);
    } else {
        lemma_universe_finite(first, leaves, count - 1);
        let before = universe(first, leaves.take(count - 1));
        let now = universe(first, leaves.take(count));
        assert(leaves[count - 1].2.finite());
        assert forall|q: usize| now.contains(q) == before.union(leaves[count - 1].2).contains(
            q,
        ) by {
            if now.contains(q) && !first.contains(q) {
                let k = choose|k: int|
                    0 <= k < leaves.take(count).len() && (#[trigger] leaves.take(count)[k]).2.contains(
                        q,
                    );
                if k < count - 1 {
                    assert(leaves.take(count - 1)[k].2.contains(q));
                }
            }
            if before.contains(q) && !first.contains(q) {
                let k = choose|k: int|
                    0 <= k < leaves.take(count - 1).len() && (#[trigger] leaves.take(count - 1)[k]).2.contains(
                        q,
                    );
                assert(leaves.take(count)[k].2.contains(q));
            }
            if leaves[count - 1].2.contains(q) {
                assert(leaves.take(count)[count - 1].2.contains(q));
            }
        }
        assert(now =~= before.union(leaves[count - 1].2));
    }
}

/// An exploration that is as it must be has at most as many states as the
/// universe has subsets.
pub proof fn lemma_states_bounded(
    first: Set<usize>,
    leaves: Seq<Leaf>,
    symbols: Seq<char>,
    found: Exploration,
    state: int,
    from: int,
)
    requires
        consistent(first, leaves, symbols, found, state, from),
        first.finite(),
        forall|k: int| 0 <= k < leaves.len() ==> (#[trigger] leaves[k]).2.finite(),
    ensures
        found.sets.len() <= two_to(universe(first, leaves).len()),
{
    lemma_universe_finite(first, leaves, leaves.len() as int);
    assert(leaves.take(leaves.len() as int) =~= leaves);
    lemma_distinct_subsets(found.sets, universe(first, leaves));
}

/// Whether transitions that were found, with transitions to the sink added
/// behind them up to the symbol at place `symbol` and the state `state`, are
/// as they must be. Each leaves a state other than the sink on a symbol of the
/// alphabet, and no two leave one state on one symbol. A transition that was
/// found still leads where it led, and where none was found, none leaves or
/// one leads to the sink. One leaves each state on each symbol that has had
/// its turn.
pub open spec fn filled(
    found: Seq<Transition>,
    now: Seq<Transition>,
    symbols: Seq<char>,
    sink: usize,
    symbol: int,
    state: int,
) -> bool {
    &&& forall|k: int|
        0 <= k < now.len() ==> (#[trigger] now[k]).initial_state < sink && now[k].final_state
            <= sink && symbols.contains(now[k].symbol)
    &&& unique(now)
    &&& forall|s: usize, a: char|
        (#[trigger] arrow_from(found, s, a, 0)) is Some ==> arrow_from(now, s, a, 0)
            == arrow_from(found, s, a, 0)
    &&& forall|s: usize, a: char|
        arrow_from(found, s, a, 0) is None ==> (#[trigger] arrow_from(now, s, a, 0)) is None
            || arrow_from(now, s, a, 0) == Some(sink)
    &&& forall|s: usize, j: int|
        s < sink && 0 <= j < symbols.len() && visited(j, s as int, symbol, state)
            ==> (#[trigger] arrow_from(now, s, symbols[j], 0)) is Some
}

/// Filling for one state on one symbol keeps the transitions as they must be.
pub proof fn lemma_fill_step(
    found: Seq<Transition>,
    now: Seq<Transition>,
    symbols: Seq<char>,
    sink: usize,
    j: int,
    state: usize,
    symbol: char,
)
    requires
        filled(found, now, symbols, sink, j, state as int),
        0 <= j < symbols.len(),
        symbol == symbols[j],
        state < sink,
    ensures
        filled(
            found,
            if arrow_from(now, state, symbol, 0) is Some {
                now
            } else {
                now.push(Transition { initial_state: state, final_state: sink, symbol })
            },
            symbols,
            sink,
            j,
            state + 1,
        ),
{
    let added = Transition { initial_state: state, final_state: sink, symbol };
    if arrow_from(now, state, symbol, 0) is Some {
        assert forall|s: usize, i: int|
            s < sink && 0 <= i < symbols.len() && visited(i, s as int, j, state + 1) implies (
        #[trigger] arrow_from(now, s, symbols[i], 0)) is Some by {
            if !visited(i, s as int, j, state as int) {
                assert(i == j && s == state);
            }
        }
    } else {
        let next = now.push(added);
        lemma_arrow_found(now, state, symbol, 0);
        assert forall|k: int| 0 <= k < next.len() implies (#[trigger] next[k]).initial_state < sink
            && next[k].final_state <= sink && symbols.contains(next[k].symbol) by {
            if k < now.len() {
                assert(next[k] == now[k]);
            }
        }
        assert(unique(next)) by {
            assert forall|k: int, l: int| 0 <= k < l < next.len() implies !leaves_on(
                #[trigger] next[k],
                (#[trigger] next[l]).initial_state,
                next[l].symbol,
            ) by {
                assert(next[k] == now[k]);
                if l < now.len() {
                    assert(next[l] == now[l]);
                }
            }
        }
        assert forall|s: usize, a: char| (#[trigger] arrow_from(found, s, a, 0)) is Some implies arrow_from(
            next,
            s,
            a,
            0,
        ) == arrow_from(found, s, a, 0) by {
            lemma_arrow_push(now, added, s, a, 0);
        }
        assert forall|s: usize, a: char| arrow_from(found, s, a, 0) is None implies (
        #[trigger] arrow_from(next, s, a, 0)) is None || arrow_from(next, s, a, 0) == Some(
            sink,
        ) by {
            lemma_arrow_push(now, added, s, a, 0);
            assert(arrow_from(now, s, a, 0) is None || arrow_from(now, s, a, 0) == Some(sink));
        }
        assert forall|s: usize, i: int|
            s < sink && 0 <= i < symbols.len() && visited(i, s as int, j, state + 1) implies (
        #[trigger] arrow_from(next, s, symbols[i], 0)) is Some by {
            lemma_arrow_push(now, added, s, symbols[i], 0);
            if visited(i, s as int, j, state as int) {
                assert(arrow_from(now, s, symbols[i], 0) is Some);
            } else {
                assert(i == j && s == state);
            }
        }
    }
}

/// Filling for the states from `state` on, on one symbol, keeps the
/// transitions as they must be.
pub proof fn lemma_fill_states(
    found: Seq<Transition>,
    now: Seq<Transition>,
    symbols: Seq<char>,
    sink: usize,
    j: int,
    state: int,
    symbol: char,
)
    requires
        filled(found, now, symbols, sink, j, state),
        0 <= j < symbols.len(),
        symbol == symbols[j],
        0 <= state <= sink,
    ensures
        filled(found, fill_states(now, symbol, sink, state), symbols, sink, j + 1, 0),
    decreases sink - state,
{
    if state >= sink {
        assert forall|s: usize, i: int|
            s < sink && 0 <= i < symbols.len() && visited(i, s as int, j + 1, 0) implies (
        #[trigger] arrow_from(now, s, symbols[i], 0)) is Some by {
            assert(visited(i, s as int, j, state));
        }
    } else {
        lemma_fill_step(found, now, symbols, sink, j, state as usize, symbol);
        let next = if arrow_from(now, state as usize, symbol, 0) is Some {
            now
        } else {
            now.push(Transition { initial_state: state as usize, final_state: sink, symbol })
        };
        lemma_fill_states(found, next, symbols, sink, j, state + 1, symbol);
    }
}

/// Filling for the symbols from place `j` on keeps the transitions as they
/// must be, and then one leaves each state other than the sink on each symbol.
pub proof fn lemma_fill(
    found: Seq<Transition>,
    now: Seq<Transition>,
    symbols: Seq<char>,
    sink: usize,
    j: int,
)
    requires
        filled(found, now, symbols, sink, j, 0),
        0 <= j <= symbols.len(),
    ensures
        filled(found, fill(now, symbols, sink, j), symbols, sink, symbols.len() as int, 0),
    decreases symbols.len() - j,
{
    if j < symbols.len() {
        lemma_fill_symbol(found, now, symbols, sink, j, symbols[j]);
    }
}

proof fn lemma_fill_symbol(
    found: Seq<Transition>,
    now: Seq<Transition>,
    symbols: Seq<char>,
    sink: usize,
    j: int,
    symbol: char,
)
    requires
        filled(found, now, symbols, sink, j, 0),
        0 <= j < symbols.len(),
        symbol == symbols[j],
    ensures
        filled(found, fill(now, symbols, sink, j), symbols, sink, symbols.len() as int, 0),
    decreases symbols.len() - j, 0nat,
{
    lemma_fill_states(found, now, symbols, sink, j, 0, symbol);
    let next = fill_states(now, symbol, sink, 0);
    assert(fill(now, symbols, sink, j) == fill(next, symbols, sink, j + 1));
    if j + 1 < symbols.len() {
        lemma_fill_symbol(found, next, symbols, sink, j + 1, symbols[j + 1]);
    } else {
        assert(fill(next, symbols, sink, j + 1) == next);
    }
}

/// The places that `accepting` lists: in increasing order, below `count`, and
/// those whose sets hold `end`.
pub proof fn lemma_accepting(sets: Seq<Set<usize>>, end: usize, count: int)
    requires
        0 <= count <= sets.len(),
        count <= usize::MAX,
    ensures
        forall|i: int, j: int|
            0 <= i < j < accepting(sets, end, count).len() ==> accepting(sets, end, count)[i]
                < accepting(sets, end, count)[j],
        forall|i: int|
            0 <= i < accepting(sets, end, count).len() ==> (#[trigger] accepting(
                sets,
                end,
                count,
            )[i]) < count,
        forall|s: usize|
            #![trigger accepting(sets, end, count).contains(s)]
            accepting(sets, end, count).contains(s) <==> (s < count && sets[s as int].contains(end)),
    decreases count,
{
    if count > 0 {
        lemma_accepting(sets, end, count - 1);
        let rest = accepting(sets, end, count - 1);
        let all = accepting(sets, end, count);
        let last = (count - 1) as usize;
        assert forall|s: usize|
            #![trigger all.contains(s)]
            all.contains(s) <==> (s < count && sets[s as int].contains(end)) by {
            assert(rest.contains(s) <==> (s < count - 1 && sets[s as int].contains(end)));
            if sets[count - 1].contains(end) {
                if all.contains(s) {
                    let k = choose|k: int| 0 <= k < all.len() && all[k] == s;
                    if k < rest.len() {
                        assert(rest[k] == s);
                    }
                }
                if rest.contains(s) {
                    let k = choose|k: int| 0 <= k < rest.len() && rest[k] == s;
                    assert(all[k] == s);
                }
                if s == last {
                    assert(all[rest.len() as int] == s);
                }
            }
        }
    }
}

/// Whether the machine goes to `state` from a state before it, on some symbol.
pub open spec fn entered(machine: Machine, state: usize) -> bool {
    exists|s: usize, a: char|
        s < state && machine.symbols.contains(a) && #[trigger] machine.next(s, a) == state
}

/// Whether a machine moves as the sets of positions of its states say. It has
/// a state for each set, and the sink. The initial state is that of the first
/// positions. The sets differ from one another. From a state, on a symbol,
/// the machine goes to the state of the positions that follow, and to the
/// sink where none follows. A state accepts where its set holds the position
/// of the end marker. Every state but the initial one and the sink is gone to
/// from a state before it.
pub open spec fn realizes(
    machine: Machine,
    first: Set<usize>,
    leaves: Seq<Leaf>,
    end: usize,
    sets: Seq<Set<usize>>,
) -> bool {
    &&& sets.len() >= 1
    &&& machine.states.len() == sets.len() + 1
    &&& machine.initial == 0
    &&& sets[0] == first
    &&& sets.no_duplicates()
    &&& forall|s: usize, j: int|
        s < sets.len() && 0 <= j < machine.symbols.len() ==> {
            let follow = target(leaves, sets[s as int], machine.symbols[j]);
            let next = #[trigger] machine.next(s, machine.symbols[j]);
            if follow == Set::<usize>::empty() {
                next == machine.sink()
            } else {
                next < sets.len() && sets[next as int] == follow
            }
        }
    &&& forall|s: usize|
        s < sets.len() ==> (#[trigger] machine.finals.contains(s) <==> sets[s as int].contains(end))
    &&& forall|s: usize| 0 < s < sets.len() ==> #[trigger] entered(machine, s)
}

/// The machine of an exploration that has left every state on every symbol
/// is well formed, and it moves as the sets of its states say.
pub proof fn lemma_machine(
    first: Set<usize>,
    leaves: Seq<Leaf>,
    end: usize,
    found: Exploration,
    machine: Machine,
)
    requires
        consistent(first, leaves, alphabet(leaves), found, found.sets.len() as int, 0),
        found.sets.len() < usize::MAX,
        machine == (Machine {
            states: numbers(found.sets.len() + 1),
            symbols: alphabet(leaves),
            transitions: fill(found.transitions, alphabet(leaves), found.sets.len() as usize, 0),
            initial: 0,
            finals: accepting(found.sets, end, found.sets.len() as int),
        }),
    ensures
        machine.well_formed(),
        realizes(machine, first, leaves, end, found.sets),
{
    let symbols = alphabet(leaves);
    let count = found.sets.len() as int;
    let sink = found.sets.len() as usize;
    lemma_alphabet_of(leaves, leaves.len() as int);
    lemma_accepting(found.sets, end, count);
    assert(filled(found.transitions, found.transitions, symbols, sink, 0, 0)) by {
        assert forall|k: int| 0 <= k < found.transitions.len() implies (
        #[trigger] found.transitions[k]).initial_state < sink && found.transitions[k].final_state
            <= sink && symbols.contains(found.transitions[k].symbol) by {
            assert(follows(leaves, symbols, found, found.transitions[k], count, 0));
        }
    }
    lemma_fill(found.transitions, found.transitions, symbols, sink, 0);
    assert(machine.sink() == sink);
    assert forall|s: usize, j: int| s < found.sets.len() && 0 <= j < machine.symbols.len() implies {
        let follow = target(leaves, found.sets[s as int], machine.symbols[j]);
        let next = #[trigger] machine.next(s, machine.symbols[j]);
        if follow == Set::<usize>::empty() {
            next == machine.sink()
        } else {
            next < found.sets.len() && found.sets[next as int] == follow
        }
    } by {
        lemma_realized(first, leaves, found, machine, s, j, symbols[j]);
    }
    assert forall|s: usize| 0 < s < found.sets.len() implies #[trigger] entered(machine, s) by {
        assert(reached(found.transitions, s as int));
        let k = choose|k: int|
            0 <= k < found.transitions.len() && (#[trigger] found.transitions[k]).final_state == s
                && found.transitions[k].initial_state < s;
        let t = found.transitions[k];
        assert(follows(leaves, symbols, found, t, count, 0));
        lemma_arrow_found(found.transitions, t.initial_state, t.symbol, 0);
        let l = choose|l: int|
            0 <= l < found.transitions.len() && leaves_on(
                #[trigger] found.transitions[l],
                t.initial_state,
                t.symbol,
            ) && found.transitions[l].final_state == arrow_from(
                found.transitions,
                t.initial_state,
                t.symbol,
                0,
            )->0;
        if l < k {
            assert(!leaves_on(found.transitions[l], found.transitions[k].initial_state, found.transitions[k].symbol));
        } else if k < l {
            assert(!leaves_on(found.transitions[k], found.transitions[l].initial_state, found.transitions[l].symbol));
        }
        assert(arrow_from(machine.transitions, t.initial_state, t.symbol, 0) == Some(s));
        assert(machine.next(t.initial_state, t.symbol) == s);
    }
}

proof fn lemma_realized(
    first: Set<usize>,
    leaves: Seq<Leaf>,
    found: Exploration,
    machine: Machine,
    s: usize,
    j: int,
    symbol: char,
)
    requires
        consistent(first, leaves, machine.symbols, found, found.sets.len() as int, 0),
        found.sets.len() < usize::MAX,
        filled(
            found.transitions,
            machine.transitions,
            machine.symbols,
            found.sets.len() as usize,
            machine.symbols.len() as int,
            0,
        ),
        machine.sink() == found.sets.len(),
        s < found.sets.len(),
        0 <= j < machine.symbols.len(),
        symbol == machine.symbols[j],
    ensures
        ({
            let follow = target(leaves, found.sets[s as int], symbol);
            let next = machine.next(s, symbol);
            if follow == Set::<usize>::empty() {
                next == machine.sink()
            } else {
                next < found.sets.len() && found.sets[next as int] == follow
            }
        }),
{
    let follow = target(leaves, found.sets[s as int], symbol);
    let count = found.sets.len() as int;
    lemma_arrow_found(found.transitions, s, symbol, 0);
    assert(visited(j, s as int, machine.symbols.len() as int, 0));
    assert(arrow_from(machine.transitions, s, machine.symbols[j], 0) is Some);
    match arrow_from(found.transitions, s, symbol, 0) {
        Some(end) => {
            let k = choose|k: int|
                0 <= k < found.transitions.len() && leaves_on(
                    #[trigger] found.transitions[k],
                    s,
                    symbol,
                ) && found.transitions[k].final_state == end;
            assert(follows(leaves, machine.symbols, found, found.transitions[k], count, 0));
        },
        None => {
            if follow != Set::<usize>::empty() {
                assert(visited(s as int, j, count, 0));
                assert(target(leaves, found.sets[s as int], machine.symbols[j]) != Set::<
                    usize,
                >::empty());
            }
        },
    }
}

} // verus!
