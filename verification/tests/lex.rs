use lox::lex::{Lexer, Token, TokenType};

#[test]
fn scanning_number() {
    let code = "
        123 // only this is allowed
        123.456 // allowed
        0.456 // allowed
        123.0 // allowed";

    let mut lexer = Lexer::new(code);

    assert_eq!(Some(Token { kind: TokenType::Number, lexeme: "123".to_string() }), lexer.next());
    assert_eq!(Some(Token { kind: TokenType::Number, lexeme: "123.456".to_string() }), lexer.next());
    assert_eq!(Some(Token { kind: TokenType::Number, lexeme: "0.456".to_string() }), lexer.next());
    assert_eq!(Some(Token { kind: TokenType::Number, lexeme: "123.0".to_string() }), lexer.next());
}

#[test]
fn scanning_strings() {
    let code = "\"\"
            \"string\"

            var a = \"hello world\"; // a is \"hello world\"
            ";

    let mut lexer = Lexer::new(code);

    assert_eq!(Some(Token { kind: TokenType::String, lexeme: "".to_string() }), lexer.next());
    assert_eq!(Some(Token { kind: TokenType::String, lexeme: "string".to_string() }), lexer.next());

    assert_eq!(Some(Token { kind: TokenType::Var, lexeme: "var".to_string() }), lexer.next());
    assert_eq!(Some(Token { kind: TokenType::Ident, lexeme: "a".to_string() }), lexer.next());
    assert_eq!(Some(Token { kind: TokenType::Equal, lexeme: "=".to_string() }), lexer.next());
    assert_eq!(Some(Token { kind: TokenType::String, lexeme: "hello world".to_string() }), lexer.next());
    assert_eq!(Some(Token { kind: TokenType::Semicolon, lexeme: ";".to_string() }), lexer.next());
}

#[test]
fn scanning_whitespaces() {
    let code = "
space    tabs				newlines // removed and ignored

// hey this will be ignored
// it is also removed

a / b;

        
end
";
    let mut lexer = Lexer::new(code);
    assert_eq!(Some(Token { kind: TokenType::Ident, lexeme: "space".to_string() }), lexer.next());
    assert_eq!(Some(Token { kind: TokenType::Ident, lexeme: "tabs".to_string() }), lexer.next());
    assert_eq!(Some(Token { kind: TokenType::Ident, lexeme: "newlines".to_string() }), lexer.next());
    assert_eq!(Some(Token { kind: TokenType::Ident, lexeme: "a".to_string() }), lexer.next());
    assert_eq!(Some(Token { kind: TokenType::Slash, lexeme: "/".to_string() }), lexer.next());
    assert_eq!(Some(Token { kind: TokenType::Ident, lexeme: "b".to_string() }), lexer.next());
    assert_eq!(Some(Token { kind: TokenType::Semicolon, lexeme: ";".to_string() }), lexer.next());
    assert_eq!(Some(Token { kind: TokenType::Ident, lexeme: "end".to_string() }), lexer.next());
}

#[test]
fn scanning_idents() {
    let code = "andy formless fo _ _123 _abc ab123
abcdefghijklmnopqrstuvwxyzABCDEFGHIJKLMNOPQRSTUVWXYZ1234567890_";

    let mut lexer = Lexer::new(code);

    assert_eq!(Some(Token { kind: TokenType::Ident, lexeme: "andy".to_string() }), lexer.next());
    assert_eq!(Some(Token { kind: TokenType::Ident, lexeme: "formless".to_string() }), lexer.next());
    assert_eq!(Some(Token { kind: TokenType::Ident, lexeme: "fo".to_string() }), lexer.next());
    assert_eq!(Some(Token { kind: TokenType::Ident, lexeme: "_".to_string() }), lexer.next());
    assert_eq!(Some(Token { kind: TokenType::Ident, lexeme: "_123".to_string() }), lexer.next());
    assert_eq!(Some(Token { kind: TokenType::Ident, lexeme: "_abc".to_string() }), lexer.next());
    assert_eq!(Some(Token { kind: TokenType::Ident, lexeme: "ab123".to_string() }), lexer.next());
    assert_eq!(
        Some(Token {
            kind: TokenType::Ident,
            lexeme: "abcdefghijklmnopqrstuvwxyzABCDEFGHIJKLMNOPQRSTUVWXYZ1234567890_".to_string()
        }),
        lexer.next()
    );
}

#[test]
fn scanning_keywords() {
    let code = "and else false for fn if nil or return true var while";
    let mut lexer = Lexer::new(code);

    assert_eq!(Some(Token { kind: TokenType::And, lexeme: "and".to_string() }), lexer.next());
    assert_eq!(Some(Token { kind: TokenType::Else, lexeme: "else".to_string() }), lexer.next());
    assert_eq!(Some(Token { kind: TokenType::False, lexeme: "false".to_string() }), lexer.next());
    assert_eq!(Some(Token { kind: TokenType::For, lexeme: "for".to_string() }), lexer.next());
    assert_eq!(Some(Token { kind: TokenType::Fn, lexeme: "fn".to_string() }), lexer.next());
    assert_eq!(Some(Token { kind: TokenType::If, lexeme: "if".to_string() }), lexer.next());
    assert_eq!(Some(Token { kind: TokenType::Nil, lexeme: "nil".to_string() }), lexer.next());
    assert_eq!(Some(Token { kind: TokenType::Or, lexeme: "or".to_string() }), lexer.next());
    assert_eq!(Some(Token { kind: TokenType::Return, lexeme: "return".to_string() }), lexer.next());
    assert_eq!(Some(Token { kind: TokenType::True, lexeme: "true".to_string() }), lexer.next());
    assert_eq!(Some(Token { kind: TokenType::Var, lexeme: "var".to_string() }), lexer.next());
    assert_eq!(Some(Token { kind: TokenType::While, lexeme: "while".to_string() }), lexer.next());
}

#[test]
fn scanning_multi_operator() {
    let code = "(){};,+-*!===<=>=!=<>/.";
    let mut lexer = Lexer::new(code);

    assert_eq!(Some(Token { kind: TokenType::LeftParen, lexeme: "(".to_string() }), lexer.next());
    assert_eq!(Some(Token { kind: TokenType::RightParen, lexeme: ")".to_string() }), lexer.next());
    assert_eq!(Some(Token { kind: TokenType::LeftBrace, lexeme: "{".to_string() }), lexer.next());
    assert_eq!(Some(Token { kind: TokenType::RightBrace, lexeme: "}".to_string() }), lexer.next());
    assert_eq!(Some(Token { kind: TokenType::Semicolon, lexeme: ";".to_string() }), lexer.next());
    assert_eq!(Some(Token { kind: TokenType::Comma, lexeme: ",".to_string() }), lexer.next());
    assert_eq!(Some(Token { kind: TokenType::Plus, lexeme: "+".to_string() }), lexer.next());
    assert_eq!(Some(Token { kind: TokenType::Minus, lexeme: "-".to_string() }), lexer.next());
    assert_eq!(Some(Token { kind: TokenType::Star, lexeme: "*".to_string() }), lexer.next());
    assert_eq!(Some(Token { kind: TokenType::BangEqual, lexeme: "!=".to_string() }), lexer.next());
    assert_eq!(Some(Token { kind: TokenType::EqualEqual, lexeme: "==".to_string() }), lexer.next());
    assert_eq!(Some(Token { kind: TokenType::LessEqual, lexeme: "<=".to_string() }), lexer.next());
    assert_eq!(Some(Token { kind: TokenType::GreaterEqual, lexeme: ">=".to_string() }), lexer.next());
    assert_eq!(Some(Token { kind: TokenType::BangEqual, lexeme: "!=".to_string() }), lexer.next());
    assert_eq!(Some(Token { kind: TokenType::Less, lexeme: "<".to_string() }), lexer.next());
    assert_eq!(Some(Token { kind: TokenType::Greater, lexeme: ">".to_string() }), lexer.next());
    assert_eq!(Some(Token { kind: TokenType::Slash, lexeme: "/".to_string() }), lexer.next());
    assert_eq!(Some(Token { kind: TokenType::Dot, lexeme: ".".to_string() }), lexer.next());
}

#[test]
fn scanning_expressions() {
    let code = "1.0 + 2.0 * 3.0";
    let mut lexer = Lexer::new(code);

    assert_eq!(Some(Token { kind: TokenType::Number, lexeme: "1.0".to_string() }), lexer.next());
    assert_eq!(Some(Token { kind: TokenType::Plus, lexeme: "+".to_string() }), lexer.next());
    assert_eq!(Some(Token { kind: TokenType::Number, lexeme: "2.0".to_string() }), lexer.next());
    assert_eq!(Some(Token { kind: TokenType::Star, lexeme: "*".to_string() }), lexer.next());
    assert_eq!(Some(Token { kind: TokenType::Number, lexeme: "3.0".to_string() }), lexer.next());
}
