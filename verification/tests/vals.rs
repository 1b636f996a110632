use lab01::regexp::errs::ParseExpError;
use lab01::regexp::ops;
use lab01::regexp::vals::{self, Value};

#[test]
fn test_value_from_str() {
    assert_eq!(Value::from_str("a").is_ok(), true);
    assert_eq!(Value::from_str(ops::closure().symbol()).is_err(), true);
    assert_eq!(Value::from_str("").is_err(), true);
}

#[test]
fn test_value_cmp() {
    let (s1, s2) = ("a", "b");

    assert_eq!(
        Value::from_str(s1).unwrap() == Value::from_str(s1).unwrap(),
        true
    );
    assert_eq!(
        Value::from_str(s1).unwrap() != Value::from_str(s2).unwrap(),
        true
    );
}

#[test]
fn values_are_single_letters_or_markers() {
    assert_eq!(Value::from_str("a").unwrap().symbol(), 'a');
    assert_eq!(Value::from_str("Z").unwrap().symbol(), 'Z');
    assert_eq!(Value::from_str("\u{44f}").unwrap().symbol(), '\u{44f}');
    assert_eq!(Value::from_str(Value::SPECIAL).unwrap().symbol(), '#');
    assert_eq!(Value::from_str(Value::EMPTY).unwrap(), Value::new());
    assert_eq!(Value::new().symbol(), vals::EMPTY_SYMBOL);
    assert_eq!(Value::from_valid_str("q").symbol(), 'q');
    assert_eq!(Value::from_str("ab").unwrap_err(), ParseExpError::new(0));
    assert_eq!(Value::from_str("1").unwrap_err(), ParseExpError::new(0));
    assert_eq!(Value::from_str("|").unwrap_err(), ParseExpError::new(0));
    assert_eq!(Value::from_str(" ").unwrap_err(), ParseExpError::new(0));
}

#[test]
fn is_value_tells_symbols_apart() {
    assert!(vals::is_value("a"));
    assert!(vals::is_value("#"));
    assert!(vals::is_value("\u{3b5}"));
    assert!(!vals::is_value(""));
    assert!(!vals::is_value("ab"));
    assert!(!vals::is_value("*"));
    assert!(!vals::is_value("\0"));
    assert!(vals::is_value_char('x'));
    assert!(!vals::is_value_char('.'));
    assert!(!vals::is_value_char('7'));
}

#[test]
fn legality_follows_the_letter_test() {
    assert!(vals::is_legal_symbol('x', true));
    assert!(!vals::is_legal_symbol('x', false));
    assert!(vals::is_legal_symbol('#', false));
    assert!(vals::is_legal_symbol(vals::EMPTY_SYMBOL, false));
    assert!(!vals::is_legal_symbol('*', true));
    assert!(!vals::is_legal_symbol('(', true));
}

#[test]
fn value_order_is_symbol_order() {
    assert!(Value::from_valid_str("a") < Value::from_valid_str("b"));
    assert!(Value::from_valid_str("#") < Value::from_valid_str("a"));
}
