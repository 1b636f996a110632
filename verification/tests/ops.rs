use lab01::regexp::ops::{self, Associativity, Operator, Priority};

#[test]
fn operator_from_str() {
    assert_eq!(Operator::from_str("|").is_ok(), true);
    assert_eq!(Operator::from_str(".").is_ok(), true);
    assert_eq!(Operator::from_str("*").is_ok(), true);
    assert_eq!(Operator::from_str("(").is_ok(), true);
    assert_eq!(Operator::from_str(")").is_ok(), true);
    assert_eq!(Operator::from_str("").is_err(), true);
}

#[test]
fn operator_cmp() {
    let un = Operator::from_str("|").unwrap();
    let mu = Operator::from_str(".").unwrap();
    let it = Operator::from_str("*").unwrap();

    assert_eq!(un < mu, true);
    assert_eq!(it > mu, true);
    assert_eq!(Operator::from_str("|").unwrap() == un, true);
}

#[test]
fn parentheses_do_not_compare() {
    let open = ops::opening_parenthesis();
    let close = ops::closing_parenthesis();
    assert_eq!(open.partial_cmp(&close), None);
    assert_eq!(open < close, false);
    assert_eq!(open > close, false);
    assert_eq!(open == close, false);
    assert_eq!(open.partial_cmp(&open), Some(std::cmp::Ordering::Equal));
    assert_eq!(open < ops::alteration(), true);
}

#[test]
fn operator_table() {
    let rows = [
        (ops::alteration(), "|", 1, Associativity::Left, false, true),
        (ops::concatenation(), ".", 2, Associativity::Left, false, true),
        (ops::closure(), "*", 3, Associativity::Right, true, false),
        (ops::opening_parenthesis(), "(", 0, Associativity::Left, false, false),
        (ops::closing_parenthesis(), ")", 0, Associativity::Left, false, false),
    ];
    for (operator, symbol, priority, associativity, unary, binary) in rows {
        assert_eq!(operator.symbol(), symbol);
        assert_eq!(operator.priority(), Priority(priority));
        assert_eq!(operator.associativity(), associativity);
        assert_eq!(operator.is_unary(), unary);
        assert_eq!(operator.is_binary(), binary);
        assert_eq!(Operator::from_str(symbol).unwrap(), operator);
        assert_eq!(ops::operator_of_char(symbol.chars().next().unwrap()), Some(operator));
        assert_eq!(ops::is_operator(symbol), true);
        assert_eq!(ops::is_unary_operator(symbol), unary);
        assert_eq!(ops::is_binary_operator(symbol), binary);
        assert_eq!(ops::is_opening_parenthesis(symbol), symbol == "(");
        assert_eq!(ops::is_closing_parenthesis(symbol), symbol == ")");
        assert_eq!(operator.is_opening_parenthesis(), symbol == "(");
        assert_eq!(operator.is_closing_parenthesis(), symbol == ")");
        assert_eq!(
            ops::is_left_associative(&operator),
            associativity == Associativity::Left
        );
        assert_eq!(
            ops::is_right_associative(&operator),
            associativity == Associativity::Right
        );
    }
}

#[test]
fn other_strings_are_no_operators() {
    for s in ["", "a", "||", "(*", "#", " "] {
        assert_eq!(ops::is_operator(s), false);
        assert_eq!(ops::is_unary_operator(s), false);
        assert_eq!(ops::is_binary_operator(s), false);
        assert_eq!(ops::is_opening_parenthesis(s), false);
        assert_eq!(ops::is_closing_parenthesis(s), false);
        assert_eq!(Operator::from_str(s).unwrap_err().index, 0);
    }
    assert_eq!(ops::operator_of_char('a'), None);
}
