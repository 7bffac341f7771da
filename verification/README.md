# lox

A small front end for the Lox language, verified with Verus.

- `src/lex.rs`: token kinds, tokens and the lexer. `scan` states, as a spec
  function over the characters of the text, what one step of the lexer does;
  `Lexer::next` and its helpers are proved to follow it. Lemmas there show
  that the lexer moves forward, that tokens of fixed kinds carry their fixed
  spelling, and that the text splits into gaps and tokens.
- `src/lib.rs`: expressions and a Pratt parser. `parse_bp` and `parse_loop`
  state the parse over the text; `try_expr` and `expr` are proved to follow
  them, and the lemmas there show that parses move forward and build
  well-formed expressions, where parses stop, and that parentheses are
  transparent. A number keeps the text it was written with.
- `src/text.rs`: the `std` text operations that the library relies on
  without proof (`char::is_alphanumeric`, `String::push`).
- `app/`: the command-line program (`tokenize <file>`), and expressions with
  `f64` numbers and their display.
