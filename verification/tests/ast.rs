use lab01::regexp::ast::{self, AbstractSyntaxTree, Symbol, TreeNode};
use lab01::fsm::error::ParserError;
use lab01::regexp::errs::ParseExpError;
use lab01::regexp::params::{self, Params};
use lab01::regexp::{ops, vals};
use lab01::trees;
use lab01::types;
use lab01::utils;

#[test]
fn tree_new() {
    AbstractSyntaxTree::new();
}

#[test]
fn tree_from_str() {
    let cases = vec!["((a|b)*abb)#"];

    for case in cases {
        AbstractSyntaxTree::from_str(case).unwrap();
    }
}

#[test]
fn make_rpn() {
    let cases = vec![
        (
            "((a|b)c|d)#",
            vec![
                Symbol::from_value_str("a").unwrap(),
                Symbol::from_value_str("b").unwrap(),
                Symbol::Operator(ops::alteration()),
                Symbol::from_value_str("c").unwrap(),
                Symbol::Operator(ops::concatenation()),
                Symbol::from_value_str("d").unwrap(),
                Symbol::Operator(ops::alteration()),
                Symbol::from_value_str(vals::Value::SPECIAL).unwrap(),
                Symbol::Operator(ops::concatenation()),
            ]
            .into_iter()
            .collect::<types::Queue<_>>(),
        ),
        (
            "(a*b|cd)#",
            vec![
                Symbol::from_value_str("a").unwrap(),
                Symbol::Operator(ops::closure()),
                Symbol::from_value_str("b").unwrap(),
                Symbol::Operator(ops::concatenation()),
                Symbol::from_value_str("c").unwrap(),
                Symbol::from_value_str("d").unwrap(),
                Symbol::Operator(ops::concatenation()),
                Symbol::Operator(ops::alteration()),
                Symbol::from_value_str(vals::Value::SPECIAL).unwrap(),
                Symbol::Operator(ops::concatenation()),
            ]
            .into_iter()
            .collect::<types::Queue<_>>(),
        ),
    ];

    for case in cases {
        assert_eq!(ast::make_rpn(case.0).unwrap(), case.1);
    }
}

#[test]
fn make_tree() {
    let cases = vec![(
        "(a*b|cd)#",
        trees::BinTree::from(
            TreeNode(0, Symbol::Operator(ops::concatenation())),
            trees::BinTree::from(
                TreeNode(0, Symbol::Operator(ops::alteration())),
                trees::BinTree::from(
                    TreeNode(0, Symbol::Operator(ops::concatenation())),
                    trees::BinTree::from_element_with_left(
                        TreeNode(0, Symbol::Operator(ops::closure())),
                        TreeNode(1, Symbol::from_value_str("a").unwrap()),
                    ),
                    trees::BinTree::from_element(TreeNode(
                        2,
                        Symbol::from_value_str("b").unwrap(),
                    )),
                ),
                trees::BinTree::from(
                    TreeNode(0, Symbol::Operator(ops::concatenation())),
                    trees::BinTree::from_element(TreeNode(
                        3,
                        Symbol::from_value_str("c").unwrap(),
                    )),
                    trees::BinTree::from_element(TreeNode(
                        4,
                        Symbol::from_value_str("d").unwrap(),
                    )),
                ),
            ),
            trees::BinTree::from_element(TreeNode(
                5,
                Symbol::from_value_str(vals::Value::SPECIAL).unwrap(),
            )),
        ),
    )];

    for case in cases {
        assert_eq!(
            ast::make_tree(ast::make_rpn(case.0).unwrap()).unwrap(),
            case.1
        );
    }
}

#[test]
fn make_params_tree() {
    let cases = vec![(
        "((a|b)*)#",
        trees::BinTree::from(
            Params {
                is_nullable: false,
                first_pos: utils::make_set_from_vec(vec![1, 2, 3]),
                last_pos: utils::make_set_from_vec(vec![3]),
                follow_pos: utils::make_set_from_vec(vec![1, 2, 3]),
            },
            trees::BinTree::from(
                Params {
                    is_nullable: true,
                    first_pos: utils::make_set_from_vec(vec![1, 2]),
                    last_pos: utils::make_set_from_vec(vec![1, 2]),
                    follow_pos: utils::make_set_from_vec(vec![1, 2, 3]),
                },
                trees::BinTree::from(
                    Params {
                        is_nullable: false,
                        first_pos: utils::make_set_from_vec(vec![1, 2]),
                        last_pos: utils::make_set_from_vec(vec![1, 2]),
                        follow_pos: utils::make_set_from_vec(vec![1, 2, 3]),
                    },
                    trees::BinTree::from_element(Params {
                        is_nullable: false,
                        first_pos: utils::make_set_from_vec(vec![1]),
                        last_pos: utils::make_set_from_vec(vec![1]),
                        follow_pos: utils::make_set_from_vec(vec![1, 2, 3]),
                    }),
                    trees::BinTree::from_element(Params {
                        is_nullable: false,
                        first_pos: utils::make_set_from_vec(vec![2]),
                        last_pos: utils::make_set_from_vec(vec![2]),
                        follow_pos: utils::make_set_from_vec(vec![1, 2, 3]),
                    }),
                ),
                trees::BinTree::Empty,
            ),
            trees::BinTree::from_element(Params {
                is_nullable: false,
                first_pos: utils::make_set_from_vec(vec![3]),
                last_pos: utils::make_set_from_vec(vec![3]),
                follow_pos: utils::make_empty_set(),
            }),
        ),
    )];

    for case in cases {
        let t = AbstractSyntaxTree::from_str(case.0).unwrap();
        let p = t.make_params_tree();
        assert_eq!(p, case.1)
    }
}

#[test]
fn extract_values() {
    let cases = vec![(
        "((a|b)*)#",
        vec![
            (
                1,
                vals::Value::from_valid_str("a"),
                utils::make_set_from_vec(vec![1, 2, 3]),
            ),
            (
                2,
                vals::Value::from_valid_str("b"),
                utils::make_set_from_vec(vec![1, 2, 3]),
            ),
            (3, vals::Value::from_valid_str("#"), utils::make_empty_set()),
        ],
    )];

    for case in &cases {
        let t = AbstractSyntaxTree::from_str(case.0).unwrap();
        let p = t.make_params_tree();

        let actual = params::extract_values(t.root(), &p);
        let expected = case
            .1
            .iter()
            .map(|x| (x.0 as usize, &x.1, &x.2))
            .collect::<Vec<_>>();

        assert_eq!(actual, expected);
    }
}

#[test]
fn second_closure_is_refused_at_its_place() {
    assert_eq!(ast::make_rpn("a**").unwrap_err(), ParseExpError::new(2));
    assert_eq!(
        AbstractSyntaxTree::from_str("a**").unwrap_err(),
        ParseExpError::new(2)
    );
}

#[test]
fn lone_closing_parenthesis_is_refused_at_zero() {
    assert_eq!(ast::make_rpn(")").unwrap_err(), ParseExpError::new(0));
}

#[test]
fn union_has_leaves_one_and_two_before_the_end_marker() {
    let r = lab01::regexp::RegExp::from_str("a|b").unwrap();
    let a = TreeNode(1, Symbol::from_value_str("a").unwrap());
    let b = TreeNode(2, Symbol::from_value_str("b").unwrap());
    let end = TreeNode(3, Symbol::from_value_str("#").unwrap());
    let union = trees::BinTree::from_elements(TreeNode(0, Symbol::Operator(ops::alteration())), a, b);
    assert_eq!(
        r.syntax_tree().root(),
        &trees::BinTree::from(
            TreeNode(0, Symbol::Operator(ops::concatenation())),
            union,
            trees::BinTree::from_element(end),
        )
    );
    match r.params_tree() {
        trees::BinTree::NonEmpty(root) => match &root.left_tree {
            trees::BinTree::NonEmpty(union) => {
                assert_eq!(union.element.first_pos, utils::make_set_from_vec(vec![1, 2]));
                assert_eq!(union.element.last_pos, utils::make_set_from_vec(vec![1, 2]));
                assert_eq!(union.element.is_nullable, false);
            }
            trees::BinTree::Empty => panic!(),
        },
        trees::BinTree::Empty => panic!(),
    }
    let leaves = r.extract_values();
    assert_eq!(
        leaves.iter().map(|leaf| (leaf.0, leaf.1.symbol())).collect::<Vec<_>>(),
        vec![(1, 'a'), (2, 'b'), (3, '#')]
    );
}

#[test]
fn single_symbol_is_concatenated_with_the_end_marker() {
    let r = lab01::regexp::RegExp::from_str("a").unwrap();
    assert_eq!(
        r.syntax_tree().root(),
        &trees::BinTree::from_elements(
            TreeNode(0, Symbol::Operator(ops::concatenation())),
            TreeNode(1, Symbol::from_value_str("a").unwrap()),
            TreeNode(2, Symbol::from_value_str("#").unwrap()),
        )
    );
    assert_eq!(r.str(), "(a)#");
}

#[test]
fn errors_name_the_first_offending_place() {
    let cases = [
        ("", 0),
        ("a**", 2),
        (")", 0),
        ("*a", 0),
        ("|a", 0),
        ("a|", 2),
        ("a||b", 2),
        ("(", 1),
        ("()", 1),
        ("(a", 2),
        ("((a)", 4),
        ("a)", 2),
        ("a)b", 3),
        ("(a|)", 3),
        ("(|a)", 1),
        ("a!b", 1),
        ("ab1", 2),
        ("a b", 1),
        ("a.", 2),
        (".a", 0),
        ("a)!", 3),
        ("!)", 0),
    ];
    for (expression, index) in cases {
        assert_eq!(
            ast::make_rpn(expression).unwrap_err(),
            ParseExpError::new(index),
            "{}",
            expression
        );
        assert_eq!(
            AbstractSyntaxTree::from_str(expression).unwrap_err(),
            ParseExpError::new(index),
            "{}",
            expression
        );
        assert_eq!(
            lab01::regexp::RegExp::from_str(expression).unwrap_err(),
            ParseExpError::new(index),
            "{}",
            expression
        );
        assert_eq!(
            lab01::fsm::dfsm::DFSM::from_str(expression).unwrap_err(),
            ParseExpError::new(index),
            "{}",
            expression
        );
    }
}

#[test]
fn concatenation_may_be_written_or_left_out() {
    let written = ast::make_rpn("a.b").unwrap();
    let left_out = ast::make_rpn("ab").unwrap();
    assert_eq!(written, left_out);
    let before_parenthesis = ast::make_rpn("a(b|c)").unwrap();
    let expected = vec![
        Symbol::from_value_str("a").unwrap(),
        Symbol::from_value_str("b").unwrap(),
        Symbol::from_value_str("c").unwrap(),
        Symbol::Operator(ops::alteration()),
        Symbol::Operator(ops::concatenation()),
    ]
    .into_iter()
    .collect::<types::Queue<_>>();
    assert_eq!(before_parenthesis, expected);
    assert_eq!(ast::make_rpn("(a)(b)").unwrap(), left_out);
    assert_eq!(ast::make_rpn("a*(b)").unwrap(), ast::make_rpn("a*b").unwrap());
}

#[test]
fn operators_group_by_precedence_and_to_the_left() {
    let tokens = |text: &str| {
        ast::make_rpn(text)
            .unwrap()
            .iter()
            .map(|symbol| match symbol {
                Symbol::Value(value) => value.symbol(),
                Symbol::Operator(operator) => operator.symbol().chars().next().unwrap(),
            })
            .collect::<String>()
    };
    assert_eq!(tokens("a|b|c"), "ab|c|");
    assert_eq!(tokens("abc"), "ab.c.");
    assert_eq!(tokens("a|bc"), "abc.|");
    assert_eq!(tokens("ab|c"), "ab.c|");
    assert_eq!(tokens("a|b*"), "ab*|");
    assert_eq!(tokens("ab*"), "ab*.");
    assert_eq!(tokens("(a|b)*"), "ab|*");
    assert_eq!(tokens("(ab)*c"), "ab.*c.");
    assert_eq!(tokens("a"), "a");
    assert_eq!(tokens("(((a)))"), "a");
}

#[test]
fn read_chars_reads_each_character() {
    let lexemes = ast::read_chars("a*(Z#");
    assert_eq!(
        lexemes,
        vec![
            Some(Symbol::from_value_str("a").unwrap()),
            Some(Symbol::Operator(ops::closure())),
            Some(Symbol::Operator(ops::opening_parenthesis())),
            Some(Symbol::from_value_str("Z").unwrap()),
            Some(Symbol::from_value_str("#").unwrap()),
        ]
    );
    assert_eq!(ast::read_char('1'), None);
    assert_eq!(ast::read_chars("a1"), vec![Symbol::from_value_str("a").ok(), None]);
    assert_eq!(ast::convert(&lexemes).unwrap_err(), ParseExpError::new(5));
    assert_eq!(
        ast::convert(&vec![None]).unwrap_err(),
        ParseExpError::new(0)
    );
}

#[test]
fn symbols_are_read_from_strings() {
    assert_eq!(
        Symbol::from_operator_str("*").unwrap(),
        Symbol::Operator(ops::closure())
    );
    assert_eq!(Symbol::from_operator_str("a").unwrap_err(), ParseExpError::new(0));
    assert_eq!(Symbol::from_value_str("*").unwrap_err(), ParseExpError::new(0));
    assert_eq!(Symbol::from_value_str("ab").unwrap_err(), ParseExpError::new(0));
}

#[test]
fn malformed_postfix_builds_no_tree() {
    let a = Symbol::from_value_str("a").unwrap();
    let queue = |symbols: Vec<Symbol>| symbols.into_iter().collect::<types::Queue<_>>();
    assert_eq!(ast::make_tree(queue(vec![])), Err(ParserError));
    assert_eq!(ast::make_tree(queue(vec![a, a])), Err(ParserError));
    assert_eq!(
        ast::make_tree(queue(vec![Symbol::Operator(ops::closure())])),
        Err(ParserError)
    );
    assert_eq!(
        ast::make_tree(queue(vec![a, Symbol::Operator(ops::alteration())])),
        Err(ParserError)
    );
    assert_eq!(
        ast::make_tree(queue(vec![a, Symbol::Operator(ops::opening_parenthesis())])),
        Err(ParserError)
    );
    assert!(AbstractSyntaxTree::from_tokens(queue(vec![a, a])).is_err());
    assert_eq!(
        AbstractSyntaxTree::from_tokens(queue(vec![a])).unwrap().root(),
        &trees::BinTree::from_element(TreeNode(1, a))
    );
}

#[test]
fn empty_tree_has_one_nullable_node() {
    let empty = AbstractSyntaxTree::new();
    assert!(empty.root().is_empty());
    assert_eq!(
        empty.make_params_tree(),
        trees::BinTree::from_element(Params {
            is_nullable: true,
            first_pos: utils::make_empty_set(),
            last_pos: utils::make_empty_set(),
            follow_pos: utils::make_empty_set(),
        })
    );
}

#[test]
fn follow_sets_of_the_textbook_expression() {
    let t = AbstractSyntaxTree::from_str("((a|b)*abb)#").unwrap();
    let p = t.make_params_tree();
    let leaves = params::extract_values(t.root(), &p);
    let follow = leaves
        .iter()
        .map(|leaf| (leaf.0, leaf.1.symbol(), leaf.2.to_vec()))
        .collect::<Vec<_>>();
    assert_eq!(
        follow,
        vec![
            (1, 'a', vec![1, 2, 3]),
            (2, 'b', vec![1, 2, 3]),
            (3, 'a', vec![4]),
            (4, 'b', vec![5]),
            (5, 'b', vec![6]),
            (6, '#', vec![]),
        ]
    );
    let first_pass = params::make_params_tree(t.root());
    match (&first_pass, &p) {
        (trees::BinTree::NonEmpty(before), trees::BinTree::NonEmpty(after)) => {
            assert_eq!(before.element.first_pos, after.element.first_pos);
            assert_eq!(before.element.last_pos, after.element.last_pos);
            assert!(before.element.follow_pos.is_empty());
            assert_eq!(after.element.follow_pos.to_vec(), vec![5, 6]);
            assert_eq!(after.element.clone(), after.element);
        }
        _ => panic!(),
    }
    let mut second_pass = params::make_params_tree(t.root());
    let left = utils::make_set_from_vec(vec![9]);
    let right = utils::make_set_from_vec(vec![8]);
    params::add_follow_pos(&mut second_pass, t.root(), &left, &right);
    let handed_down = params::extract_values(t.root(), &second_pass);
    assert_eq!(handed_down.last().unwrap().2.to_vec(), vec![8]);
}
