use lox::lex::{Lexer, Token, TokenType};

fn tok(kind: TokenType, lexeme: &str) -> Option<Token> {
    Some(Token { kind, lexeme: lexeme.to_string() })
}

#[test]
fn exhausted_lexer_stays_exhausted() {
    let mut lexer = Lexer::new("  a  \n\t ");
    assert_eq!(tok(TokenType::Ident, "a"), lexer.next());
    assert_eq!(None, lexer.next());
    assert_eq!(None, lexer.next());
    let mut empty = Lexer::new("");
    assert_eq!(None, empty.next());
}

#[test]
fn unterminated_string_runs_to_end() {
    let mut lexer = Lexer::new("\"abc def");
    assert_eq!(tok(TokenType::String, "abc def"), lexer.next());
    assert_eq!(None, lexer.next());
}

#[test]
fn string_keeps_what_stands_between_quotes() {
    let mut lexer = Lexer::new("\"a // b\" c");
    assert_eq!(tok(TokenType::String, "a // b"), lexer.next());
    assert_eq!(tok(TokenType::Ident, "c"), lexer.next());
}

#[test]
fn unknown_characters_are_skipped() {
    let mut lexer = Lexer::new("@ # $ x ~ 7");
    assert_eq!(tok(TokenType::Ident, "x"), lexer.next());
    assert_eq!(tok(TokenType::Number, "7"), lexer.next());
    assert_eq!(None, lexer.next());
}

#[test]
fn numbers_take_every_dot() {
    let mut lexer = Lexer::new("1.2.3 4. .5");
    assert_eq!(tok(TokenType::Number, "1.2.3"), lexer.next());
    assert_eq!(tok(TokenType::Number, "4."), lexer.next());
    assert_eq!(tok(TokenType::Dot, "."), lexer.next());
    assert_eq!(tok(TokenType::Number, "5"), lexer.next());
}

#[test]
fn identifiers_continue_through_unicode_letters() {
    let mut lexer = Lexer::new("caf\u{e9}s b2_x+");
    assert_eq!(tok(TokenType::Ident, "caf\u{e9}s"), lexer.next());
    assert_eq!(tok(TokenType::Ident, "b2_x"), lexer.next());
    assert_eq!(tok(TokenType::Plus, "+"), lexer.next());
}

#[test]
fn keywords_only_when_spelled_exactly() {
    let mut lexer = Lexer::new("variable If or_ nil");
    assert_eq!(tok(TokenType::Ident, "variable"), lexer.next());
    assert_eq!(tok(TokenType::Ident, "If"), lexer.next());
    assert_eq!(tok(TokenType::Ident, "or_"), lexer.next());
    assert_eq!(tok(TokenType::Nil, "nil"), lexer.next());
}

#[test]
fn operators_alone_and_with_equals() {
    let mut lexer = Lexer::new("= ! < > ?:");
    assert_eq!(tok(TokenType::Equal, "="), lexer.next());
    assert_eq!(tok(TokenType::Bang, "!"), lexer.next());
    assert_eq!(tok(TokenType::Less, "<"), lexer.next());
    assert_eq!(tok(TokenType::Greater, ">"), lexer.next());
    assert_eq!(tok(TokenType::Ternary, "?"), lexer.next());
    assert_eq!(tok(TokenType::Colon, ":"), lexer.next());
    assert_eq!(None, lexer.next());
}

#[test]
fn comment_without_newline_is_detected() {
    let mut lexer = Lexer::new("a // never ends");
    assert!(!lexer.at_endless_comment());
    assert_eq!(tok(TokenType::Ident, "a"), lexer.next());
    assert!(lexer.at_endless_comment());

    let mut lexer = Lexer::new("a // ends\nb");
    assert_eq!(tok(TokenType::Ident, "a"), lexer.next());
    assert!(!lexer.at_endless_comment());
    assert_eq!(tok(TokenType::Ident, "b"), lexer.next());
    assert!(!lexer.at_endless_comment());
}

#[test]
fn helpers_read_from_the_current_position() {
    let mut lexer = Lexer::new("=x");
    assert_eq!(Token { kind: TokenType::EqualEqual, lexeme: "==".to_string() }, lexer.multi_op('='));
    assert_eq!(Token { kind: TokenType::Bang, lexeme: "!".to_string() }, lexer.multi_op('!'));
    assert_eq!(Token { kind: TokenType::Ident, lexeme: "yx".to_string() }, lexer.identifier('y'));

    let mut lexer = Lexer::new("23.5;");
    assert_eq!(Token { kind: TokenType::Number, lexeme: "123.5".to_string() }, lexer.number('1'));
    assert_eq!(tok(TokenType::Semicolon, ";"), lexer.next());

    let mut lexer = Lexer::new("ab\"c");
    assert_eq!(Token { kind: TokenType::String, lexeme: "ab".to_string() }, lexer.string());
    assert_eq!(tok(TokenType::Ident, "c"), lexer.next());

    let mut lexer = Lexer::new("or");
    assert_eq!(Token { kind: TokenType::For, lexeme: "for".to_string() }, lexer.identifier('f'));
    assert_eq!(tok(TokenType::Comma, ","), lexer.single(TokenType::Comma, ','));
}

#[test]
fn slash_and_comments() {
    let mut lexer = Lexer::new("/ skipped\nz");
    assert_eq!(None, lexer.ignore_if_comments('/'));
    assert_eq!(tok(TokenType::Ident, "z"), lexer.next());

    let mut lexer = Lexer::new("x");
    assert_eq!(tok(TokenType::Slash, "/"), lexer.ignore_if_comments('/'));
    assert_eq!(tok(TokenType::Ident, "x"), lexer.next());
}

#[test]
fn kind_names() {
    assert_eq!("LeftBrace", TokenType::LeftBrace.to_string());
    assert_eq!("Ternary", TokenType::Ternary.to_string());
    assert_eq!("GreaterEqual", TokenType::GreaterEqual.to_string());
}

#[test]
fn fixed_kinds_carry_their_spelling() {
    let mut lexer = Lexer::new("and!= ( ;return<=");
    assert_eq!(tok(TokenType::And, "and"), lexer.next());
    assert_eq!(tok(TokenType::BangEqual, "!="), lexer.next());
    assert_eq!(tok(TokenType::LeftParen, "("), lexer.next());
    assert_eq!(tok(TokenType::Semicolon, ";"), lexer.next());
    assert_eq!(tok(TokenType::Return, "return"), lexer.next());
    assert_eq!(tok(TokenType::LessEqual, "<="), lexer.next());
    assert_eq!(None, lexer.next());
}

#[test]
fn text_splits_into_gaps_and_tokens() {
    // gaps: "  ", " // c\n ", "@", " ", "\n"; tokens: x, "s", 12, +
    let input = "  x // c\n \"s\"@12 +\n";
    let mut lexer = Lexer::new(input);
    let mut pieces = String::new();
    while let Some(t) = lexer.next() {
        if t.kind == TokenType::String {
            pieces.push('"');
            pieces.push_str(&t.lexeme);
            pieces.push('"');
        } else {
            pieces.push_str(&t.lexeme);
        }
    }
    assert_eq!("x\"s\"12+", pieces);
}
