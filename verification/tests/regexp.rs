use lab01::regexp::errs::ParseExpError;
use lab01::regexp::{self, RegExp};

#[test]
fn augment_regexp() {
    assert_eq!(regexp::augment_regexp("abc"), "(abc)#");
}

#[test]
fn error_message_names_the_place() {
    assert_eq!(ParseExpError::new(0).message(), "invalid character at 0");
    assert_eq!(ParseExpError::new(7).message(), "invalid character at 7");
    assert_eq!(ParseExpError::new(10).message(), "invalid character at 10");
    assert_eq!(ParseExpError::new(4096).message(), "invalid character at 4096");
    assert_eq!(
        ParseExpError::new(usize::MAX).message(),
        format!("invalid character at {}", usize::MAX)
    );
    assert_eq!(ParseExpError::new(3).index, 3);
}

#[test]
fn regexp_keeps_the_augmented_text() {
    let r = RegExp::from_str("a|b").unwrap();
    assert_eq!(r.str(), "(a|b)#");
}

#[test]
fn copies_are_equal() {
    let r = RegExp::from_str("(a|b)*abb").unwrap();
    let copy = r.clone();
    assert_eq!(copy, r);
    assert_eq!(copy.str(), "((a|b)*abb)#");
    assert_eq!(copy.syntax_tree().clone(), *r.syntax_tree());
    assert_eq!(copy.params_tree(), r.params_tree());
    assert_eq!(copy.extract_values(), r.extract_values());
}

#[test]
fn regexp_is_the_syntax_tree_of_its_text() {
    for expression in ["a", "a|b", "(a|b)*abb", "a.b", "ab*(c|d)"] {
        let r = RegExp::from_str(expression).unwrap();
        let tree = lab01::regexp::ast::AbstractSyntaxTree::from_str(r.str()).unwrap();
        assert_eq!(&tree, r.syntax_tree(), "{}", expression);
        assert_eq!(&tree.make_params_tree(), r.params_tree(), "{}", expression);
    }
}
