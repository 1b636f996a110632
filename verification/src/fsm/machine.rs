//! A deterministic machine as a mathematical value: what its parts must
//! fulfil, how it runs on a word, and when two states accept the same words.

use vstd::prelude::*;

verus! {

/// A move of a machine: from `initial_state`, on reading `symbol`, to
/// `final_state`.
#[derive(PartialEq, Eq, Clone, Copy, Debug, Structural)]
pub struct Transition {
    pub initial_state: usize,
    pub final_state: usize,
    pub symbol: char,
}

/// The parts of a machine. The last state is the sink, to which every move
/// leads that is not listed; it is left by no move and does not accept.
pub struct Machine {
    pub states: Seq<usize>,
    pub symbols: Seq<char>,
    pub transitions: Seq<Transition>,
    pub initial: usize,
    pub finals: Seq<usize>,
}

/// Whether `transition` leaves `state` on `symbol`.
pub open spec fn leaves_on(transition: Transition, state: usize, symbol: char) -> bool {
    transition.initial_state == state && transition.symbol == symbol
}

/// Where the first of the transitions from place `from` on that leaves `state`
/// on `symbol` leads; nothing where none does.
pub open spec fn arrow_from(transitions: Seq<Transition>, state: usize, symbol: char, from: int)
    -> Option<usize>
    decreases transitions.len() - from,
{
    if from < 0 || from >= transitions.len() {
        None
    } else if leaves_on(transitions[from], state, symbol) {
        Some(transitions[from].final_state)
    } else {
        arrow_from(transitions, state, symbol, from + 1)
    }
}

/// What the search finds is the end of a transition that leaves `state` on
/// `symbol`; it finds nothing only where there is none.
pub proof fn lemma_arrow_found(transitions: Seq<Transition>, state: usize, symbol: char, from: int)
    requires
        0 <= from,
    ensures
        match arrow_from(transitions, state, symbol, from) {
            Some(end) => exists|k: int|
                from <= k < transitions.len() && leaves_on(#[trigger] transitions[k], state, symbol)
                    && transitions[k].final_state == end,
            None => forall|k: int|
                from <= k < transitions.len() ==> !leaves_on(
                    #[trigger] transitions[k],
                    state,
                    symbol,
                ),
        },
    decreases transitions.len() - from,
{
    if from < transitions.len() && !leaves_on(transitions[from], state, symbol) {
        lemma_arrow_found(transitions, state, symbol, from + 1);
        match arrow_from(transitions, state, symbol, from + 1) {
            Some(end) => {},
            None => {
                assert forall|k: int| from <= k < transitions.len() implies !leaves_on(
                    #[trigger] transitions[k],
                    state,
                    symbol,
                ) by {
                    if k > from {
                    }
                }
            },
        }
    }
}

impl Machine {
    /// The sink: the last state.
    pub open spec fn sink(self) -> usize {
        (self.states.len() - 1) as usize
    }

    /// Whether `state` is a state of the machine.
    pub open spec fn has_state(self, state: usize) -> bool {
        state < self.states.len()
    }

    /// Whether the parts fit together. The states are numbered from 0, the
    /// sink last. The symbols stand in increasing order. Every transition
    /// leaves a state other than the sink on a symbol of the machine and
    /// leads to a state; from every state other than the sink, on every
    /// symbol, exactly one transition leaves. The initial state is a state,
    /// and the accepting states are states other than the sink, in
    /// increasing order.
    pub open spec fn well_formed(self) -> bool {
        &&& self.states.len() >= 1
        &&& forall|i: int| 0 <= i < self.states.len() ==> #[trigger] self.states[i] == i
        &&& forall|i: int, j: int|
            0 <= i < j < self.symbols.len() ==> self.symbols[i] < self.symbols[j]
        &&& forall|k: int|
            0 <= k < self.transitions.len() ==> {
                &&& (#[trigger] self.transitions[k]).initial_state < self.sink()
                &&& self.transitions[k].final_state <= self.sink()
                &&& self.symbols.contains(self.transitions[k].symbol)
            }
        &&& forall|k: int, l: int|
            0 <= k < l < self.transitions.len() ==> !leaves_on(
                #[trigger] self.transitions[k],
                (#[trigger] self.transitions[l]).initial_state,
                self.transitions[l].symbol,
            )
        &&& forall|state: usize, i: int|
            state < self.sink() && 0 <= i < self.symbols.len() ==> (#[trigger] arrow_from(
                self.transitions,
                state,
                self.symbols[i],
                0,
            )) is Some
        &&& self.initial <= self.sink()
        &&& forall|i: int, j: int| 0 <= i < j < self.finals.len() ==> self.finals[i] < self.finals[j]
        &&& forall|i: int| 0 <= i < self.finals.len() ==> #[trigger] self.finals[i] < self.sink()
    }

    /// The state that follows `state` on `symbol`: where the transition that
    /// leaves `state` on `symbol` leads, and the sink where there is none.
    pub open spec fn next(self, state: usize, symbol: char) -> usize {
        match arrow_from(self.transitions, state, symbol, 0) {
            Some(end) => end,
            None => self.sink(),
        }
    }

    /// The state reached from `state` by reading `word`.
    pub open spec fn run(self, state: usize, word: Seq<char>) -> usize
        decreases word.len(),
    {
        if word.len() == 0 {
            state
        } else {
            self.run(self.next(state, word[0]), word.drop_first())
        }
    }

    /// Whether `word` is written in the symbols of the machine.
    pub open spec fn reads(self, word: Seq<char>) -> bool {
        forall|i: int| 0 <= i < word.len() ==> self.symbols.contains(#[trigger] word[i])
    }

    /// Whether the machine, started in `state`, accepts `word`.
    pub open spec fn accepts_from(self, state: usize, word: Seq<char>) -> bool {
        self.finals.contains(self.run(state, word))
    }

    /// Whether `word` tells the two states apart: it is accepted from one and
    /// not from the other.
    pub open spec fn tells_apart(self, word: Seq<char>, s: usize, t: usize) -> bool {
        self.reads(word) && self.accepts_from(s, word) != self.accepts_from(t, word)
    }

    /// Whether some word tells the two states apart.
    pub open spec fn distinguishable(self, s: usize, t: usize) -> bool {
        exists|word: Seq<char>| self.tells_apart(word, s, t)
    }

    /// Whether the two states accept the same words.
    pub open spec fn equivalent(self, s: usize, t: usize) -> bool {
        !self.distinguishable(s, t)
    }

    /// What the accepting states of a well-formed machine fulfil.
    pub proof fn lemma_finals(self)
        requires
            self.well_formed(),
        ensures
            forall|i: int, j: int| 0 <= i < j < self.finals.len() ==> self.finals[i] < self.finals[j],
            forall|i: int| 0 <= i < self.finals.len() ==> #[trigger] self.finals[i] < self.sink(),
    {
    }

    /// The numbers of the states are numbers of the machine word, and the
    /// sink is the last of them.
    pub proof fn lemma_states_fit(self)
        requires
            self.well_formed(),
        ensures
            self.states.len() <= usize::MAX + 1,
            self.sink() == self.states.len() - 1,
    {
        assert(self.states[self.states.len() - 1] == self.states.len() - 1);
    }

    /// From every state other than the sink, on every symbol of the machine,
    /// exactly one transition leaves; none leaves the sink.
    pub proof fn lemma_total(self, state: usize, symbol: char)
        requires
            self.well_formed(),
            self.has_state(state),
            self.symbols.contains(symbol),
        ensures
            state < self.sink() ==> exists|k: int|
                0 <= k < self.transitions.len() && leaves_on(
                    #[trigger] self.transitions[k],
                    state,
                    symbol,
                ) && self.transitions[k].final_state == self.next(state, symbol) && forall|l: int|
                    0 <= l < self.transitions.len() && leaves_on(
                        #[trigger] self.transitions[l],
                        state,
                        symbol,
                    ) ==> l == k,
            state == self.sink() ==> forall|k: int|
                0 <= k < self.transitions.len() ==> !leaves_on(
                    #[trigger] self.transitions[k],
                    state,
                    symbol,
                ),
            self.has_state(self.next(state, symbol)),
            state == self.sink() ==> self.next(state, symbol) == self.sink(),
    {
        lemma_arrow_found(self.transitions, state, symbol, 0);
        if state < self.sink() {
            let i = choose|i: int| 0 <= i < self.symbols.len() && self.symbols[i] == symbol;
            assert(arrow_from(self.transitions, state, self.symbols[i], 0) is Some);
            let k = choose|k: int|
                0 <= k < self.transitions.len() && leaves_on(
                    #[trigger] self.transitions[k],
                    state,
                    symbol,
                ) && self.transitions[k].final_state == self.next(state, symbol);
            assert forall|l: int|
                0 <= l < self.transitions.len() && leaves_on(
                    #[trigger] self.transitions[l],
                    state,
                    symbol,
                ) implies l == k by {
                if l < k {
                    assert(!leaves_on(
                        self.transitions[l],
                        self.transitions[k].initial_state,
                        self.transitions[k].symbol,
                    ));
                } else if k < l {
                    assert(!leaves_on(
                        self.transitions[k],
                        self.transitions[l].initial_state,
                        self.transitions[l].symbol,
                    ));
                }
            }
        } else {
            assert forall|k: int| 0 <= k < self.transitions.len() implies !leaves_on(
                #[trigger] self.transitions[k],
                state,
                symbol,
            ) by {
                assert(self.transitions[k].initial_state < self.sink());
            }
        }
    }

    /// Where a word tells the states after one symbol apart, the word with
    /// that symbol before it tells the states apart.
    pub proof fn lemma_step_apart(self, s: usize, t: usize, symbol: char, word: Seq<char>)
        requires
            self.symbols.contains(symbol),
            self.tells_apart(word, self.next(s, symbol), self.next(t, symbol)),
        ensures
            self.tells_apart(seq![symbol] + word, s, t),
            self.distinguishable(s, t),
    {
        let longer = seq![symbol] + word;
        assert(longer.drop_first() =~= word);
        assert(longer[0] == symbol);
        assert forall|i: int| 0 <= i < longer.len() implies self.symbols.contains(
            #[trigger] longer[i],
        ) by {
            if i > 0 {
                assert(longer[i] == word[i - 1]);
            }
        }
    }

    /// States of which one accepts and the other does not are told apart by
    /// the empty word.
    pub proof fn lemma_apart_by_acceptance(self, s: usize, t: usize)
        requires
            self.finals.contains(s) != self.finals.contains(t),
        ensures
            self.distinguishable(s, t),
    {
        let word = Seq::<char>::empty();
        assert(self.tells_apart(word, s, t));
    }

    /// Equivalent states both accept or both do not, and the states that
    /// follow them on a symbol are equivalent.
    pub proof fn lemma_equivalent_step(self, s: usize, t: usize, symbol: char)
        requires
            self.equivalent(s, t),
            self.symbols.contains(symbol),
        ensures
            self.finals.contains(s) == self.finals.contains(t),
            self.equivalent(self.next(s, symbol), self.next(t, symbol)),
    {
        if self.finals.contains(s) != self.finals.contains(t) {
            self.lemma_apart_by_acceptance(s, t);
        }
        if self.distinguishable(self.next(s, symbol), self.next(t, symbol)) {
            let word = choose|word: Seq<char>|
                self.tells_apart(word, self.next(s, symbol), self.next(t, symbol));
            self.lemma_step_apart(s, t, symbol, word);
        }
    }

    /// Accepting the same words is reflexive, symmetric and transitive.
    pub proof fn lemma_equivalence(self, s: usize, t: usize, u: usize)
        ensures
            self.equivalent(s, s),
            self.equivalent(s, t) ==> self.equivalent(t, s),
            self.equivalent(s, t) && self.equivalent(t, u) ==> self.equivalent(s, u),
    {
        if self.distinguishable(s, s) {
            let word = choose|word: Seq<char>| self.tells_apart(word, s, s);
        }
        if self.distinguishable(t, s) {
            let word = choose|word: Seq<char>| self.tells_apart(word, t, s);
            assert(self.tells_apart(word, s, t));
        }
        if self.distinguishable(s, u) {
            let word = choose|word: Seq<char>| self.tells_apart(word, s, u);
            if self.accepts_from(s, word) != self.accepts_from(t, word) {
                assert(self.tells_apart(word, s, t));
            } else {
                assert(self.tells_apart(word, t, u));
            }
        }
    }
}

} // verus!
