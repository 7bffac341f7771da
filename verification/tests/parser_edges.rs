use lox::lex::TokenType;
use lox::{expr, infix_binding_power, postfix_binding_power, prefix_binding_power, try_expr, Expr};

fn render(input: &str) -> Option<String> {
    try_expr(input).map(|e| e.to_string())
}

#[test]
fn binding_powers() {
    assert_eq!(((), 9), prefix_binding_power(&TokenType::Plus));
    assert_eq!(((), 9), prefix_binding_power(&TokenType::Minus));
    assert_eq!(Some((11, ())), postfix_binding_power(&TokenType::Bang));
    assert_eq!(Some((11, ())), postfix_binding_power(&TokenType::LeftBrace));
    assert_eq!(None, postfix_binding_power(&TokenType::Plus));
    assert_eq!(Some((2, 1)), infix_binding_power(&TokenType::Equal));
    assert_eq!(Some((4, 3)), infix_binding_power(&TokenType::Ternary));
    assert_eq!(Some((5, 6)), infix_binding_power(&TokenType::Minus));
    assert_eq!(Some((7, 8)), infix_binding_power(&TokenType::Slash));
    assert_eq!(None, infix_binding_power(&TokenType::Bang));
    assert_eq!(None, infix_binding_power(&TokenType::Less));
}

#[test]
fn failing_parses() {
    // nothing to read
    assert_eq!(None, render(""));
    assert_eq!(None, render("   "));
    // a number that is no float literal
    assert_eq!(None, render("1.2.3"));
    // a missing `)`, `}` or `:`
    assert_eq!(None, render("(1 + 2"));
    assert_eq!(None, render("x{0"));
    assert_eq!(None, render("a ? b"));
    // a token that starts no expression
    assert_eq!(None, render(")"));
    assert_eq!(None, render("* 2"));
    // a comment that no newline ends, where the parse looks for a token
    assert_eq!(None, render("1 // one"));
}

#[test]
fn parses_stop_at_a_token_that_continues_nothing() {
    assert_eq!(Some(" 1".to_string()), render("1 // one\n"));
    assert_eq!(Some(" a".to_string()), render("a b c"));
    assert_eq!(Some("(Plus a b)".to_string()), render("a + b ) // never ends"));
}

#[test]
fn associativity_and_precedence() {
    assert_eq!(Some("(Minus(Minus a b) c)".to_string()), render("a - b - c"));
    assert_eq!(Some("(Equal a(Equal b c))".to_string()), render("a = b = c"));
    assert_eq!(Some("(Plus a(Star b c))".to_string()), render("a + b * c"));
    assert_eq!(Some("(Star(Plus a b) c)".to_string()), render("(a + b) * c"));
    assert_eq!(Some("(Minus(Minus(Minus a)))".to_string()), render("- - - a"));
    assert_eq!(Some("(Bang(Bang a))".to_string()), render("a!!"));
}

#[test]
fn numbers_keep_their_text() {
    assert_eq!(Some(" 1.50".to_string()), render("1.50"));
    assert_eq!(Some(" 7.".to_string()), render("7."));
}

#[test]
fn operators_get_their_operands() {
    match expr("-a") {
        Expr::Binary(TokenType::Minus, operands) => {
            assert_eq!(vec![Expr::Ident("a".to_string())], operands);
        }
        other => panic!("unexpected {:?}", other),
    }
    match expr("c ? 1 : 2") {
        Expr::Binary(TokenType::Ternary, operands) => assert_eq!(3, operands.len()),
        other => panic!("unexpected {:?}", other),
    }
}

#[test]
fn parentheses_are_transparent() {
    for text in ["a + b * 2", "x{0}!", "- 1 + 2", "c ? d : e", "((0))"] {
        let inner = render(text);
        assert!(inner.is_some());
        assert_eq!(inner, render(&format!("({})", text)));
    }
}

#[test]
fn a_parse_stops_before_a_looser_or_no_operator() {
    // `)` continues nothing: the parse of `a * b` stops there
    assert_eq!(Some("(Star a b)".to_string()), render("a * b ) + c"));
    // `:` is no operator outside `?`
    assert_eq!(Some("(Plus a b)".to_string()), render("a + b : c"));
}
