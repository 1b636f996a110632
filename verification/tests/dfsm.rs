use lab01::fsm::dfsm::{Transition, DFSM};
use lab01::regexp;

#[test]
fn from_regexp() {
    let cases = vec![(
        "(a|b)*abb",
        DFSM::new(
            (0..=4).collect::<Vec<_>>(),
            vec!['a', 'b'],
            vec![
                Transition {
                    initial_state: 0,
                    final_state: 1,
                    symbol: 'a',
                },
                Transition {
                    initial_state: 0,
                    final_state: 0,
                    symbol: 'b',
                },
                Transition {
                    initial_state: 1,
                    final_state: 1,
                    symbol: 'a',
                },
                Transition {
                    initial_state: 1,
                    final_state: 2,
                    symbol: 'b',
                },
                Transition {
                    initial_state: 2,
                    final_state: 1,
                    symbol: 'a',
                },
                Transition {
                    initial_state: 2,
                    final_state: 3,
                    symbol: 'b',
                },
                Transition {
                    initial_state: 3,
                    final_state: 1,
                    symbol: 'a',
                },
                Transition {
                    initial_state: 3,
                    final_state: 0,
                    symbol: 'b',
                },
            ],
            0,
            vec![3],
        )
        .unwrap(),
    )];

    for (r, m) in cases {
        assert_eq!(DFSM::from(&regexp::RegExp::from_str(r).unwrap()), m);
        m.minimize();
    }
}

fn machine_of(expression: &str) -> DFSM {
    DFSM::from(&regexp::RegExp::from_str(expression).unwrap())
}

fn accepts(machine: &DFSM, word: &str) -> bool {
    let mut state = machine.initial_state();
    for symbol in word.chars() {
        state = machine.next_state(state, symbol);
    }
    machine.final_states().contains(&state)
}

fn words(symbols: &[char], length: usize) -> Vec<String> {
    let mut all = vec![String::new()];
    let mut last = vec![String::new()];
    for _ in 0..length {
        let mut next = Vec::new();
        for word in &last {
            for symbol in symbols {
                let mut longer = word.clone();
                longer.push(*symbol);
                next.push(longer);
            }
        }
        all.extend(next.iter().cloned());
        last = next;
    }
    all
}

#[test]
fn single_symbol_accepts_after_one_step() {
    let machine = machine_of("a");
    assert_eq!(machine.valid_symbols(), &vec!['a']);
    assert_eq!(machine.states(), &vec![0, 1, 2]);
    assert_eq!(machine.initial_state(), 0);
    assert_eq!(machine.final_states(), &vec![1]);
    assert_eq!(
        machine.transitions(),
        &vec![
            Transition {
                initial_state: 0,
                final_state: 1,
                symbol: 'a'
            },
            Transition {
                initial_state: 1,
                final_state: 2,
                symbol: 'a'
            },
        ]
    );
    assert!(!accepts(&machine, ""));
    assert!(accepts(&machine, "a"));
    assert!(!accepts(&machine, "aa"));
}

#[test]
fn textbook_machine_is_minimal_with_four_states() {
    let machine = machine_of("(a|b)*abb");
    let small = machine.minimize();
    assert_eq!(small.valid_symbols(), &vec!['a', 'b']);
    assert_eq!(small.states(), &vec![0, 1, 2, 3, 4]);
    assert_eq!(small.final_states(), &vec![3]);
    assert_eq!(small.initial_state(), 0);
    assert_eq!(
        machine.equivalence_classes(),
        vec![vec![0], vec![1], vec![2], vec![3], vec![4]]
    );
    for word in words(&['a', 'b'], 7) {
        assert_eq!(accepts(&small, &word), word.ends_with("abb"), "{}", word);
        assert_eq!(accepts(&machine, &word), word.ends_with("abb"), "{}", word);
    }
}

#[test]
fn every_state_has_one_transition_on_every_symbol() {
    for expression in ["a", "ab", "a|b", "(a|b)*abb", "a*b*", "(ab|a)*c", "abc|abd"] {
        let machine = machine_of(expression);
        let sink = machine.states().len() - 1;
        for state in 0..sink {
            for symbol in machine.valid_symbols() {
                let leaving = machine
                    .transitions()
                    .iter()
                    .filter(|t| t.initial_state == state && t.symbol == *symbol)
                    .count();
                assert_eq!(leaving, 1, "{} {} {}", expression, state, symbol);
            }
        }
        assert!(machine
            .transitions()
            .iter()
            .all(|t| t.initial_state != sink && t.final_state <= sink));
        for symbol in machine.valid_symbols() {
            assert_eq!(machine.next_state(sink, *symbol), sink);
        }
    }
}

#[test]
fn building_twice_gives_the_same_machine() {
    for expression in ["a", "(a|b)*abb", "(ab|a)*c", "b*a(a|b)"] {
        assert_eq!(machine_of(expression), machine_of(expression));
        assert_eq!(
            machine_of(expression).minimize(),
            machine_of(expression).minimize()
        );
    }
}

#[test]
fn minimizing_merges_states_that_accept_the_same_words() {
    let machine = machine_of("ac|bc");
    assert_eq!(machine.states().len(), 5);
    assert_eq!(
        machine.equivalence_classes(),
        vec![vec![0], vec![1, 2], vec![3], vec![4]]
    );
    let (small, map) = machine.minimize_with_map();
    assert_eq!(map, vec![0, 1, 1, 2, 3]);
    assert_eq!(small.states(), &vec![0, 1, 2, 3]);
    assert_eq!(small.valid_symbols(), &vec!['a', 'b', 'c']);
    assert_eq!(small.initial_state(), 0);
    assert_eq!(small.final_states(), &vec![2]);
    let step = |from: usize, to: usize, symbol: char| Transition {
        initial_state: from,
        final_state: to,
        symbol,
    };
    assert_eq!(
        small.transitions(),
        &vec![
            step(0, 1, 'a'),
            step(0, 1, 'b'),
            step(0, 3, 'c'),
            step(1, 3, 'a'),
            step(1, 3, 'b'),
            step(1, 2, 'c'),
            step(2, 3, 'a'),
            step(2, 3, 'b'),
            step(2, 2, 'c'),
        ]
    );
    for word in words(&['a', 'b', 'c'], 5) {
        assert_eq!(accepts(&small, &word), accepts(&machine, &word), "{}", word);
    }
    assert!(accepts(&small, "ac"));
    assert!(accepts(&small, "bc"));
    assert!(!accepts(&small, "c"));
    assert!(!accepts(&small, "ab"));
}

#[test]
fn minimizing_a_minimal_machine_changes_nothing() {
    for expression in ["a", "ac|bc", "(a|b)*abb", "a*b*", "(ab|a)*c", "abc|abd"] {
        let small = machine_of(expression).minimize();
        let again = small.minimize();
        assert_eq!(again.states().len(), small.states().len());
        assert_eq!(again, small);
    }
}

#[test]
fn states_of_different_classes_are_told_apart_by_a_word() {
    for expression in ["ac|bc", "(a|b)*abb", "a*b*", "abc|abd"] {
        let machine = machine_of(expression);
        let symbols = machine.valid_symbols().clone();
        let classes = machine.equivalence_classes();
        let all = words(&symbols, machine.states().len());
        let run = |state: usize, word: &str| {
            let mut state = state;
            for symbol in word.chars() {
                state = machine.next_state(state, symbol);
            }
            machine.final_states().contains(&state)
        };
        for (c, class) in classes.iter().enumerate() {
            for (d, other) in classes.iter().enumerate() {
                for s in class {
                    for t in other {
                        let apart = all.iter().any(|word| run(*s, word) != run(*t, word));
                        assert_eq!(apart, c != d, "{} {} {}", expression, s, t);
                    }
                }
            }
        }
    }
}

#[test]
fn split_parts_a_class_by_a_set_and_a_symbol() {
    let machine = machine_of("(a|b)*abb");
    let (inside, outside) = machine.split(&vec![0, 1, 2, 4], &(vec![1, 3], 'a'));
    assert_eq!(inside, vec![0, 1, 2]);
    assert_eq!(outside, vec![4]);
    let (inside, outside) = machine.split(&vec![0, 1, 2, 4], &(vec![3], 'b'));
    assert_eq!(inside, vec![2]);
    assert_eq!(outside, vec![0, 1, 4]);
}

#[test]
fn accepting_states_hold_the_end_marker() {
    let r = regexp::RegExp::from_str("(a|b)*abb").unwrap();
    let values = r.extract_values();
    let end = values.last().unwrap().0;
    assert_eq!(end, 6);
    assert_eq!(*values.last().unwrap().1, lab01::regexp::vals::Value::from_valid_str("#"));
    let first = match r.params_tree() {
        lab01::trees::BinTree::NonEmpty(node) => node.element.first_pos.clone(),
        lab01::trees::BinTree::Empty => panic!(),
    };
    assert_eq!(first.to_vec(), vec![1, 2, 3]);
    let machine = DFSM::synthesize(&first, &values).unwrap();
    assert_eq!(machine, DFSM::from(&r));
    assert_eq!(machine.final_states(), &vec![3]);
}

#[test]
fn leaves_without_end_marker_are_refused() {
    let first = lab01::utils::make_set_from_vec(vec![1]);
    let follow = lab01::utils::make_empty_set();
    let value = lab01::regexp::vals::Value::from_valid_str("a");
    let values = vec![(1, &value, &follow)];
    assert_eq!(
        DFSM::synthesize(&first, &values),
        Err(lab01::fsm::error::ParserError)
    );
    assert_eq!(
        lab01::fsm::error::ParserError.message(),
        "invalid regular expression"
    );
}

#[test]
fn expression_of_end_markers_has_no_symbols() {
    let machine = DFSM::from_str("#").unwrap();
    assert_eq!(machine.valid_symbols(), &Vec::<char>::new());
    assert_eq!(machine.states(), &vec![0, 1]);
    assert_eq!(machine.transitions(), &Vec::<Transition>::new());
    assert_eq!(machine.initial_state(), 0);
    assert_eq!(machine.final_states(), &vec![0]);
    assert_eq!(machine.equivalence_classes(), vec![vec![0], vec![1]]);
    assert_eq!(machine.minimize(), machine);
}

#[test]
fn states_that_never_accept_join_the_sink() {
    let machine = machine_of("aa*");
    assert_eq!(machine.states(), &vec![0, 1, 2]);
    assert_eq!(machine.final_states(), &Vec::<usize>::new());
    assert_eq!(machine.equivalence_classes(), vec![vec![0, 1, 2]]);
    let (small, map) = machine.minimize_with_map();
    assert_eq!(map, vec![0, 0, 0]);
    assert_eq!(small.states(), &vec![0]);
    assert_eq!(small.valid_symbols(), &vec!['a']);
    assert_eq!(small.transitions(), &Vec::<Transition>::new());
    assert_eq!(small.initial_state(), 0);
    assert_eq!(small.final_states(), &Vec::<usize>::new());
    assert_eq!(small.next_state(0, 'a'), 0);
    assert_eq!(small.minimize(), small);
}

#[test]
fn next_state_follows_the_transitions() {
    let machine = machine_of("(a|b)*abb");
    assert_eq!(machine.next_state(0, 'a'), 1);
    assert_eq!(machine.next_state(1, 'b'), 2);
    assert_eq!(machine.next_state(2, 'b'), 3);
    assert_eq!(machine.next_state(3, 'b'), 0);
    assert_eq!(machine.next_state(4, 'a'), 4);
    assert_eq!(machine.next_state(0, 'c'), 4);
    let other = machine_of("ab");
    assert_eq!(other.next_state(0, 'b'), 3);
    assert_eq!(other.next_state(0, 'a'), 1);
}

fn step(from: usize, to: usize, symbol: char) -> Transition {
    Transition {
        initial_state: from,
        final_state: to,
        symbol,
    }
}

#[test]
fn machine_with_doubled_states_is_halved() {
    let machine = DFSM::new(
        vec![0, 1, 2, 3, 4],
        vec!['a', 'b'],
        vec![
            step(0, 1, 'a'),
            step(0, 2, 'b'),
            step(1, 3, 'a'),
            step(1, 0, 'b'),
            step(2, 3, 'a'),
            step(2, 2, 'b'),
            step(3, 1, 'a'),
            step(3, 2, 'b'),
        ],
        0,
        vec![1, 3],
    )
    .unwrap();
    assert_eq!(
        machine.equivalence_classes(),
        vec![vec![0, 2], vec![1, 3], vec![4]]
    );
    let (small, map) = machine.minimize_with_map();
    assert_eq!(map, vec![0, 1, 0, 1, 2]);
    assert_eq!(
        small,
        DFSM::new(
            vec![0, 1, 2],
            vec!['a', 'b'],
            vec![
                step(0, 1, 'a'),
                step(0, 0, 'b'),
                step(1, 1, 'a'),
                step(1, 0, 'b'),
            ],
            0,
            vec![1],
        )
        .unwrap()
    );
    for word in words(&['a', 'b'], 6) {
        assert_eq!(accepts(&small, &word), word.ends_with('a'));
        assert_eq!(accepts(&machine, &word), word.ends_with('a'));
    }
}

#[test]
fn states_are_parted_step_by_step() {
    // 0 and 1 differ only after two symbols: 0 -a-> 2 -a-> 4 accepts,
    // 1 -a-> 3 -a-> 3 does not.
    let machine = DFSM::new(
        vec![0, 1, 2, 3, 4, 5],
        vec!['a'],
        vec![
            step(0, 2, 'a'),
            step(1, 3, 'a'),
            step(2, 4, 'a'),
            step(3, 3, 'a'),
            step(4, 5, 'a'),
        ],
        1,
        vec![4],
    )
    .unwrap();
    assert_eq!(
        machine.equivalence_classes(),
        vec![vec![0], vec![1, 3, 5], vec![2], vec![4]]
    );
    let (small, map) = machine.minimize_with_map();
    assert_eq!(map, vec![0, 3, 1, 3, 2, 3]);
    assert_eq!(small.initial_state(), 3);
    assert_eq!(small.final_states(), &vec![2]);
    assert_eq!(
        small.transitions(),
        &vec![step(0, 1, 'a'), step(1, 2, 'a'), step(2, 3, 'a')]
    );
}

#[test]
fn parts_that_do_not_fit_are_refused() {
    use_parts(vec![], vec![], vec![], 0, vec![], false);
    use_parts(vec![0], vec![], vec![], 0, vec![], true);
    use_parts(vec![0], vec!['a'], vec![], 0, vec![], true);
    use_parts(vec![1], vec![], vec![], 0, vec![], false);
    use_parts(vec![0, 2], vec![], vec![], 0, vec![], false);
    use_parts(vec![0, 1], vec!['a'], vec![step(0, 1, 'a')], 0, vec![0], true);
    use_parts(vec![0, 1], vec!['a'], vec![], 0, vec![], false);
    use_parts(vec![0, 1], vec!['a'], vec![step(0, 2, 'a')], 0, vec![], false);
    use_parts(vec![0, 1], vec!['a'], vec![step(0, 0, 'b')], 0, vec![], false);
    use_parts(
        vec![0, 1],
        vec!['a'],
        vec![step(0, 1, 'a'), step(1, 1, 'a')],
        0,
        vec![],
        false,
    );
    use_parts(
        vec![0, 1],
        vec!['a'],
        vec![step(0, 1, 'a'), step(0, 0, 'a')],
        0,
        vec![],
        false,
    );
    use_parts(vec![0, 1], vec!['a'], vec![step(0, 1, 'a')], 2, vec![], false);
    use_parts(vec![0, 1], vec!['a'], vec![step(0, 1, 'a')], 1, vec![], true);
    use_parts(vec![0, 1], vec!['a'], vec![step(0, 1, 'a')], 0, vec![1], false);
    use_parts(vec![0, 1], vec!['a'], vec![step(0, 1, 'a')], 0, vec![0, 0], false);
    use_parts(
        vec![0, 1, 2],
        vec!['b', 'a'],
        vec![step(0, 1, 'a'), step(0, 1, 'b'), step(1, 1, 'a'), step(1, 1, 'b')],
        0,
        vec![],
        false,
    );
    use_parts(
        vec![0, 1, 2],
        vec!['a', 'b'],
        vec![step(0, 1, 'a'), step(0, 1, 'b'), step(1, 1, 'a'), step(1, 1, 'b')],
        0,
        vec![1, 0],
        false,
    );
    use_parts(
        vec![0, 1, 2],
        vec!['a', 'b'],
        vec![step(1, 1, 'b'), step(0, 1, 'b'), step(1, 1, 'a'), step(0, 1, 'a')],
        0,
        vec![0, 1],
        true,
    );
}

fn use_parts(
    states: Vec<usize>,
    symbols: Vec<char>,
    transitions: Vec<Transition>,
    initial: usize,
    finals: Vec<usize>,
    fit: bool,
) {
    let machine = DFSM::new(
        states.clone(),
        symbols.clone(),
        transitions.clone(),
        initial,
        finals.clone(),
    );
    assert_eq!(machine.is_ok(), fit);
    if let Ok(machine) = machine {
        assert_eq!(machine.states(), &states);
        assert_eq!(machine.valid_symbols(), &symbols);
        assert_eq!(machine.transitions(), &transitions);
        assert_eq!(machine.initial_state(), initial);
        assert_eq!(machine.final_states(), &finals);
    }
}
