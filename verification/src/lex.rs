use vstd::prelude::*;

use crate::text::{char_is_alphanumeric, is_alphanumeric, is_ascii_alphanumeric, push_char};

verus! {

/// The kinds of token the lexer produces.
#[derive(PartialEq, Eq, Debug, Clone, Copy, Structural)]
pub enum TokenType {
    Var,
    If,
    Else,
    While,
    And,
    False,
    True,
    Fn,
    Nil,
    Return,
    Or,
    For,
    Ident,
    String,
    Number,
    Plus,
    Minus,
    Star,
    Slash,
    Ternary,
    Colon,
    Equal,
    Greater,
    Less,
    Bang,
    BangEqual,
    EqualEqual,
    LessEqual,
    GreaterEqual,
    LeftParen,
    RightParen,
    LeftBrace,
    RightBrace,
    Semicolon,
    Comma,
    Dot,
}

/// A token: its kind and the text it was read from. For a string literal the
/// text is what stands between the quotes.
#[derive(Debug, PartialEq, Eq)]
pub struct Token {
    pub kind: TokenType,
    pub lexeme: String,
}

impl View for Token {
    type V = (TokenType, Seq<char>);

    open spec fn view(&self) -> (TokenType, Seq<char>) {
        (self.kind, self.lexeme@)
    }
}

/// What one step of the lexer does from a position of the text: it yields a
/// token and the position after it, finds that nothing is left, or runs
/// forever (in a `//` comment that no newline ends).
pub enum Scan {
    Token(TokenType, Seq<char>, int),
    End,
    Diverges,
}

/// The kind of a token made of one character alone, where `c` is such a
/// character.
pub open spec fn single_char_kind(c: char) -> Option<TokenType> {
    if c == '(' {
        Some(TokenType::LeftParen)
    } else if c == ')' {
        Some(TokenType::RightParen)
    } else if c == '{' {
        Some(TokenType::LeftBrace)
    } else if c == '}' {
        Some(TokenType::RightBrace)
    } else if c == ';' {
        Some(TokenType::Semicolon)
    } else if c == ',' {
        Some(TokenType::Comma)
    } else if c == '+' {
        Some(TokenType::Plus)
    } else if c == '-' {
        Some(TokenType::Minus)
    } else if c == '*' {
        Some(TokenType::Star)
    } else if c == '.' {
        Some(TokenType::Dot)
    } else if c == '?' {
        Some(TokenType::Ternary)
    } else if c == ':' {
        Some(TokenType::Colon)
    } else {
        None
    }
}

/// The characters that start an operator which a following `=` extends.
pub open spec fn is_operator_start(c: char) -> bool {
    c == '=' || c == '!' || c == '<' || c == '>'
}

/// The kinds of the operator that `c` starts: alone, and followed by `=`.
pub open spec fn operator_kinds(c: char) -> (TokenType, TokenType) {
    if c == '=' {
        (TokenType::Equal, TokenType::EqualEqual)
    } else if c == '!' {
        (TokenType::Bang, TokenType::BangEqual)
    } else if c == '>' {
        (TokenType::Greater, TokenType::GreaterEqual)
    } else {
        (TokenType::Less, TokenType::LessEqual)
    }
}

/// The decimal digits.
pub open spec fn is_digit(c: char) -> bool {
    '0' <= c && c <= '9'
}

/// The characters that continue a number.
pub open spec fn is_number_char(c: char) -> bool {
    is_digit(c) || c == '.'
}

/// The characters that start an identifier.
pub open spec fn is_ident_start(c: char) -> bool {
    ('a' <= c && c <= 'z') || ('A' <= c && c <= 'Z') || c == '_'
}

/// The characters that continue an identifier.
pub open spec fn is_ident_char(c: char) -> bool {
    char_is_alphanumeric(c) || c == '_'
}

/// The first position at or after `i` whose character does not satisfy `p`,
/// or the length of `s` where there is none.
pub open spec fn run_end(s: Seq<char>, i: int, p: spec_fn(char) -> bool) -> int
    decreases s.len() - i,
{
    if 0 <= i < s.len() && p(s[i]) {
        run_end(s, i + 1, p)
    } else {
        i
    }
}

/// Where the run of number characters that starts at `i` ends.
pub open spec fn number_end(s: Seq<char>, i: int) -> int {
    run_end(s, i, |d: char| is_number_char(d))
}

/// Where the run of identifier characters that starts at `i` ends.
pub open spec fn ident_end(s: Seq<char>, i: int) -> int {
    run_end(s, i, |d: char| is_ident_char(d))
}

/// Where the body of a string literal that starts at `i` ends: at the next
/// `"`, or at the end of the text.
pub open spec fn string_end(s: Seq<char>, i: int) -> int {
    run_end(s, i, |d: char| d != '"')
}

/// The position of the first newline at or after `i`, or the length of the
/// text where there is none.
pub open spec fn line_end(s: Seq<char>, i: int) -> int {
    run_end(s, i, |d: char| d != '\n')
}

/// The kind of a word read as an identifier: a keyword's own kind, or
/// `Ident`.
pub open spec fn keyword_kind(w: Seq<char>) -> TokenType {
    if w == seq!['v', 'a', 'r'] {
        TokenType::Var
    } else if w == seq!['i', 'f'] {
        TokenType::If
    } else if w == seq!['e', 'l', 's', 'e'] {
        TokenType::Else
    } else if w == seq!['w', 'h', 'i', 'l', 'e'] {
        TokenType::While
    } else if w == seq!['f', 'o', 'r'] {
        TokenType::For
    } else if w == seq!['a', 'n', 'd'] {
        TokenType::And
    } else if w == seq!['f', 'a', 'l', 's', 'e'] {
        TokenType::False
    } else if w == seq!['t', 'r', 'u', 'e'] {
        TokenType::True
    } else if w == seq!['f', 'n'] {
        TokenType::Fn
    } else if w == seq!['n', 'i', 'l'] {
        TokenType::Nil
    } else if w == seq!['r', 'e', 't', 'u', 'r', 'n'] {
        TokenType::Return
    } else if w == seq!['o', 'r'] {
        TokenType::Or
    } else {
        TokenType::Ident
    }
}

/// One step of the lexer from position `i` of `s`: blanks, `//` comments
/// and characters that start no token are skipped; then the next token is
/// read.
pub open spec fn scan(s: Seq<char>, i: int) -> Scan
    decreases s.len() - i,
{
    if i < 0 || i >= s.len() {
        Scan::End
    } else {
        let c = s[i];
        if single_char_kind(c) is Some {
            Scan::Token(single_char_kind(c)->0, seq![c], i + 1)
        } else if c == '/' {
            if i + 1 < s.len() && s[i + 1] == '/' {
                skip_comment(s, i + 2)
            } else {
                Scan::Token(TokenType::Slash, seq!['/'], i + 1)
            }
        } else if is_operator_start(c) {
            if i + 1 < s.len() && s[i + 1] == '=' {
                Scan::Token(operator_kinds(c).1, seq![c, '='], i + 2)
            } else {
                Scan::Token(operator_kinds(c).0, seq![c], i + 1)
            }
        } else if c == '"' {
            let j = string_end(s, i + 1);
            Scan::Token(TokenType::String, s.subrange(i + 1, j), if j < s.len() { j + 1 } else { j })
        } else if is_digit(c) {
            let j = number_end(s, i + 1);
            Scan::Token(TokenType::Number, s.subrange(i, j), j)
        } else if is_ident_start(c) {
            let j = ident_end(s, i + 1);
            Scan::Token(keyword_kind(s.subrange(i, j)), s.subrange(i, j), j)
        } else {
            scan(s, i + 1)
        }
    }
}

/// The rest of a step of the lexer inside a `//` comment, at position `j`:
/// the comment ends after the first newline; without one the lexer never
/// stops.
pub open spec fn skip_comment(s: Seq<char>, j: int) -> Scan
    decreases s.len() - j,
{
    if j < 0 || j >= s.len() {
        Scan::Diverges
    } else if s[j] == '\n' {
        scan(s, j + 1)
    } else {
        skip_comment(s, j + 1)
    }
}

/// A run ends within the text, after its start, and every character before
/// its end satisfies the predicate, the one at its end does not.
pub proof fn lemma_run_end(s: Seq<char>, i: int, p: spec_fn(char) -> bool)
    requires
        0 <= i <= s.len(),
    ensures
        i <= run_end(s, i, p) <= s.len(),
        forall|k: int| i <= k < run_end(s, i, p) ==> p(#[trigger] s[k]),
        run_end(s, i, p) < s.len() ==> !p(s[run_end(s, i, p)]),
    decreases s.len() - i,
{
    if i < s.len() && p(s[i]) {
        lemma_run_end(s, i + 1, p);
    }
}

/// A `//` comment ends after the first newline; without one the lexer
/// never stops.
pub proof fn lemma_skip_comment(s: Seq<char>, j: int)
    requires
        0 <= j <= s.len(),
    ensures
        skip_comment(s, j) == if line_end(s, j) < s.len() {
            scan(s, line_end(s, j) + 1)
        } else {
            Scan::Diverges
        },
    decreases s.len() - j,
{
    if j < s.len() && s[j] != '\n' {
        lemma_skip_comment(s, j + 1);
    }
}

/// A step of the lexer that yields a token moves forward, and stays within
/// the text.
pub proof fn lemma_scan_advances(s: Seq<char>, i: int)
    ensures
        scan(s, i) matches Scan::Token(_, _, j) ==> i < j <= s.len(),
    decreases s.len() - i,
{
    if 0 <= i < s.len() {
        let c = s[i];
        if single_char_kind(c) is Some {
        } else if c == '/' {
            if i + 1 < s.len() && s[i + 1] == '/' {
                lemma_skip_comment(s, i + 2);
                lemma_run_end(s, i + 2, |d: char| d != '\n');
                if line_end(s, i + 2) < s.len() {
                    lemma_scan_advances(s, line_end(s, i + 2) + 1);
                }
            }
        } else if is_operator_start(c) {
        } else if c == '"' {
            lemma_run_end(s, i + 1, |d: char| d != '"');
        } else if is_digit(c) {
            lemma_run_end(s, i + 1, |d: char| is_number_char(d));
        } else if is_ident_start(c) {
            lemma_run_end(s, i + 1, |d: char| is_ident_char(d));
        } else {
            lemma_scan_advances(s, i + 1);
        }
    }
}

/// The characters that start a token; the lexer skips every other one.
pub open spec fn starts_token(c: char) -> bool {
    single_char_kind(c) is Some || c == '/' || is_operator_start(c) || c == '"' || is_digit(c)
        || is_ident_start(c)
}

/// Where the token that a step of the lexer from `i` yields begins: past
/// the blanks, comments and other characters that the lexer skips.
pub open spec fn token_start(s: Seq<char>, i: int) -> int
    decreases s.len() - i,
{
    if i < 0 || i >= s.len() {
        i
    } else {
        let c = s[i];
        if c == '/' && i + 1 < s.len() && s[i + 1] == '/' {
            comment_token_start(s, i + 2)
        } else if starts_token(c) {
            i
        } else {
            token_start(s, i + 1)
        }
    }
}

/// Where the next token begins, from position `j` inside a `//` comment.
pub open spec fn comment_token_start(s: Seq<char>, j: int) -> int
    decreases s.len() - j,
{
    if j < 0 || j >= s.len() {
        j
    } else if s[j] == '\n' {
        token_start(s, j + 1)
    } else {
        comment_token_start(s, j + 1)
    }
}

proof fn lemma_comment_token_start(s: Seq<char>, j: int)
    requires
        0 <= j <= s.len(),
    ensures
        line_end(s, j) < s.len() ==> comment_token_start(s, j) == token_start(
            s,
            line_end(s, j) + 1,
        ),
        line_end(s, j) >= s.len() ==> comment_token_start(s, j) == s.len(),
    decreases s.len() - j,
{
    if j < s.len() && s[j] != '\n' {
        lemma_comment_token_start(s, j + 1);
    }
}

/// What a token reads is a piece of the source text, which begins at
/// `token_start`: a token other than a string literal is the non-empty
/// piece that ends where the lexer stops; a string literal is the piece
/// after a `"`, ended by the next `"`, which the lexer steps over, or by
/// the end of the text.
pub proof fn lemma_token_text(s: Seq<char>, i: int)
    requires
        0 <= i,
    ensures
        scan(s, i) matches Scan::Token(kind, w, j) ==> {
            let a = token_start(s, i);
            &&& i <= a < j <= s.len()
            &&& kind != TokenType::String ==> w == s.subrange(a, j)
            &&& kind == TokenType::String ==> {
                &&& s[a] == '"'
                &&& w == s.subrange(a + 1, a + 1 + w.len())
                &&& forall|k: int| 0 <= k < w.len() ==> w[k] != '"'
                &&& (j == a + 2 + w.len() && s[j - 1] == '"') || (j == a + 1 + w.len() && j
                    == s.len())
            }
        },
    decreases s.len() - i,
{
    lemma_scan_advances(s, i);
    if i < s.len() {
        let c = s[i];
        if single_char_kind(c) is Some {
            assert(single_char_kind(c)->0 != TokenType::String);
            assert(seq![c] =~= s.subrange(i, i + 1));
        } else if c == '/' {
            if i + 1 < s.len() && s[i + 1] == '/' {
                lemma_skip_comment(s, i + 2);
                lemma_comment_token_start(s, i + 2);
                lemma_run_end(s, i + 2, |d: char| d != '\n');
                if line_end(s, i + 2) < s.len() {
                    lemma_token_text(s, line_end(s, i + 2) + 1);
                }
            } else {
                assert(seq!['/'] =~= s.subrange(i, i + 1));
            }
        } else if is_operator_start(c) {
            assert(operator_kinds(c).0 != TokenType::String);
            assert(operator_kinds(c).1 != TokenType::String);
            if i + 1 < s.len() && s[i + 1] == '=' {
                assert(seq![c, '='] =~= s.subrange(i, i + 2));
            } else {
                assert(seq![c] =~= s.subrange(i, i + 1));
            }
        } else if c == '"' {
            lemma_run_end(s, i + 1, |d: char| d != '"');
            let j = string_end(s, i + 1);
            let w = s.subrange(i + 1, j);
            assert forall|k: int| 0 <= k < w.len() implies w[k] != '"' by {
                assert(w[k] == s[i + 1 + k]);
            }
            assert(w =~= s.subrange(i + 1, i + 1 + w.len()));
        } else if is_digit(c) {
            lemma_run_end(s, i + 1, |d: char| is_number_char(d));
        } else if is_ident_start(c) {
            lemma_run_end(s, i + 1, |d: char| is_ident_char(d));
            assert(keyword_kind(s.subrange(i, ident_end(s, i + 1))) != TokenType::String);
        } else {
            lemma_token_text(s, i + 1);
        }
    }
}

/// A gap between tokens: characters that start no token, and `//`
/// comments up to and including the newline that ends them.
pub open spec fn is_gap(g: Seq<char>) -> bool
    decreases g.len(),
{
    if g.len() == 0 {
        true
    } else if !starts_token(g[0]) {
        is_gap(g.subrange(1, g.len() as int))
    } else if g.len() >= 2 && g[0] == '/' && g[1] == '/' {
        proof {
            lemma_run_end(g, 2, |d: char| d != '\n');
        }
        if line_end(g, 2) < g.len() {
            is_gap(g.subrange(line_end(g, 2) + 1, g.len() as int))
        } else {
            false
        }
    } else {
        false
    }
}

/// A run that ends before `hi` ends at the same place in the piece of the
/// text from `lo` to `hi`.
proof fn lemma_run_end_sub(s: Seq<char>, lo: int, hi: int, k: int, p: spec_fn(char) -> bool)
    requires
        0 <= lo <= lo + k <= hi <= s.len(),
        0 <= k,
        run_end(s, lo + k, p) < hi,
    ensures
        run_end(s.subrange(lo, hi), k, p) == run_end(s, lo + k, p) - lo,
    decreases hi - lo - k,
{
    if p(s[lo + k]) {
        lemma_run_end(s, lo + k + 1, p);
        lemma_run_end_sub(s, lo, hi, k + 1, p);
    }
}

/// What the lexer skips before a token is a gap; where it finds that
/// nothing is left, the rest of the text is a gap.
pub proof fn lemma_gap_before_token(s: Seq<char>, i: int)
    requires
        0 <= i <= s.len(),
    ensures
        i <= token_start(s, i) <= s.len(),
        !(scan(s, i) is Diverges) ==> is_gap(s.subrange(i, token_start(s, i))),
        scan(s, i) is End ==> token_start(s, i) == s.len(),
    decreases s.len() - i,
{
    if i < s.len() {
        let c = s[i];
        let a = token_start(s, i);
        if c == '/' && i + 1 < s.len() && s[i + 1] == '/' {
            lemma_skip_comment(s, i + 2);
            lemma_comment_token_start(s, i + 2);
            lemma_run_end(s, i + 2, |d: char| d != '\n');
            let e = line_end(s, i + 2);
            if e < s.len() {
                lemma_gap_before_token(s, e + 1);
                let g = s.subrange(i, a);
                lemma_run_end_sub(s, i, a, 2, |d: char| d != '\n');
                assert(g[0] == '/' && g[1] == '/');
                assert(g.subrange(e - i + 1, g.len() as int) =~= s.subrange(e + 1, a));
            }
        } else if starts_token(c) {
            assert(s.subrange(i, i) =~= Seq::<char>::empty());
        } else {
            lemma_gap_before_token(s, i + 1);
            let g = s.subrange(i, a);
            if !(scan(s, i) is Diverges) {
                assert(g.subrange(1, g.len() as int) =~= s.subrange(i + 1, a));
            }
        }
    } else {
        assert(s.subrange(i, i) =~= Seq::<char>::empty());
    }
}

/// How a token is written in the text: its text, or, for a string
/// literal, its text after a `"` and, unless the text ends first, before
/// another.
pub open spec fn written_as(kind: TokenType, w: Seq<char>, piece: Seq<char>) -> bool {
    if kind == TokenType::String {
        piece == seq!['"'] + w || piece == seq!['"'] + w + seq!['"']
    } else {
        piece == w
    }
}

/// The text from position `i` on splits into what the lexer reads from
/// there: a gap, a token as it is written, and so on, up to a last gap at
/// the end of the text. A string literal without its closing `"` ends the
/// text. Where the lexer would never stop, nothing is said of the rest.
pub open spec fn splits(s: Seq<char>, i: int) -> bool
    decreases s.len() - i,
{
    proof {
        lemma_scan_advances(s, i);
    }
    match scan(s, i) {
        Scan::End => 0 <= i <= s.len() && is_gap(s.subrange(i, s.len() as int)),
        Scan::Diverges => true,
        Scan::Token(kind, w, j) => {
            let a = token_start(s, i);
            &&& is_gap(s.subrange(i, a))
            &&& written_as(kind, w, s.subrange(a, j))
            &&& (kind == TokenType::String && s.subrange(a, j) == seq!['"'] + w ==> j
                == s.len())
            &&& splits(s, j)
        },
    }
}

/// The whole text, from any position, splits into gaps and tokens as the
/// lexer reads them.
pub proof fn lemma_text_splits(s: Seq<char>, i: int)
    requires
        0 <= i <= s.len(),
    ensures
        splits(s, i),
    decreases s.len() - i,
{
    lemma_scan_advances(s, i);
    lemma_gap_before_token(s, i);
    lemma_token_text(s, i);
    if let Scan::Token(kind, w, j) = scan(s, i) {
        let a = token_start(s, i);
        let piece = s.subrange(a, j);
        if kind == TokenType::String {
            if j == a + 2 + w.len() {
                assert(piece =~= seq!['"'] + w + seq!['"']);
                assert(piece.len() != (seq!['"'] + w).len());
            } else {
                assert(piece =~= seq!['"'] + w);
            }
        }
        lemma_text_splits(s, j);
    }
}

/// A text put between parentheses.
pub open spec fn parenthesized(s: Seq<char>) -> Seq<char> {
    seq!['('] + s + seq![')']
}

/// A run in a text put between parentheses is the run in the text, moved
/// by one; a run that reaches the end of the text also takes the closing
/// parenthesis where the predicate allows it.
proof fn lemma_run_end_parenthesized(s: Seq<char>, k: int, p: spec_fn(char) -> bool)
    requires
        0 <= k <= s.len(),
    ensures
        run_end(parenthesized(s), k + 1, p) == if run_end(s, k, p) < s.len() || !p(')') {
            run_end(s, k, p) + 1
        } else {
            s.len() + 2int
        },
    decreases s.len() - k,
{
    let t = parenthesized(s);
    assert(t.len() == s.len() + 2);
    if k < s.len() {
        assert(t[k + 1] == s[k]);
        if p(s[k]) {
            lemma_run_end_parenthesized(s, k + 1, p);
        }
    } else {
        assert(t[k + 1] == ')');
        if p(')') {
            assert(run_end(t, k + 2, p) == k + 2);
        }
    }
}

/// A step of the lexer inside a text put between parentheses reads what it
/// reads in the text, moved by one, except that the end of the text becomes
/// the closing parenthesis, and a string literal that the end of the text
/// cuts off takes it in.
pub proof fn lemma_scan_parenthesized(s: Seq<char>, i: int)
    requires
        0 <= i <= s.len(),
    ensures
        ({
            let t = parenthesized(s);
            match scan(s, i) {
                Scan::End => scan(t, i + 1) == Scan::Token(
                    TokenType::RightParen,
                    seq![')'],
                    s.len() + 2int,
                ),
                Scan::Diverges => scan(t, i + 1) is Diverges,
                Scan::Token(kind, w, j) => if kind == TokenType::String {
                    scan(t, i + 1) matches Scan::Token(TokenType::String, _, _)
                } else {
                    scan(t, i + 1) == Scan::Token(kind, w, j + 1)
                },
            }
        }),
    decreases s.len() - i,
{
    let t = parenthesized(s);
    assert(t.len() == s.len() + 2);
    if i == s.len() {
        assert(t[i + 1] == ')');
        assert(scan(t, i + 2) == Scan::End);
    } else {
        let c = s[i];
        assert(t[i + 1] == c);
        if i + 1 < s.len() {
            assert(t[i + 2] == s[i + 1]);
        } else {
            assert(t[i + 2] == ')');
        }
        if single_char_kind(c) is Some {
        } else if c == '/' {
            if i + 1 < s.len() && s[i + 1] == '/' {
                lemma_skip_comment(s, i + 2);
                lemma_skip_comment(t, i + 3);
                lemma_run_end(s, i + 2, |d: char| d != '\n');
                lemma_run_end_parenthesized(s, i + 2, |d: char| d != '\n');
                if line_end(s, i + 2) < s.len() {
                    lemma_scan_parenthesized(s, line_end(s, i + 2) + 1);
                }
            }
        } else if is_operator_start(c) {
        } else if c == '"' {
            lemma_run_end(s, i + 1, |d: char| d != '"');
            lemma_run_end_parenthesized(s, i + 1, |d: char| d != '"');
        } else if is_digit(c) {
            lemma_run_end(s, i + 1, |d: char| is_number_char(d));
            lemma_run_end_parenthesized(s, i + 1, |d: char| is_number_char(d));
            let j = number_end(s, i + 1);
            assert(t.subrange(i + 1, j + 1) =~= s.subrange(i, j));
        } else if is_ident_start(c) {
            lemma_run_end(s, i + 1, |d: char| is_ident_char(d));
            lemma_run_end_parenthesized(s, i + 1, |d: char| is_ident_char(d));
            let j = ident_end(s, i + 1);
            assert(t.subrange(i + 1, j + 1) =~= s.subrange(i, j));
        } else {
            lemma_scan_parenthesized(s, i + 1);
        }
    }
}

/// A text after a prefix and before a closing `)` or `}`.
pub open spec fn wrapped(pre: Seq<char>, s: Seq<char>, close: char) -> Seq<char> {
    pre + s + seq![close]
}

/// The characters that close a group: `)` and `}`.
pub open spec fn is_closer(c: char) -> bool {
    c == ')' || c == '}'
}

/// A run in a wrapped text is the run in the text, moved by the prefix; a
/// run that reaches the end of the text also takes the closing character
/// where the predicate allows it.
proof fn lemma_run_end_wrapped(
    pre: Seq<char>,
    s: Seq<char>,
    close: char,
    k: int,
    p: spec_fn(char) -> bool,
)
    requires
        0 <= k <= s.len(),
    ensures
        run_end(wrapped(pre, s, close), pre.len() + k, p) == if run_end(s, k, p) < s.len() || !p(
            close,
        ) {
            run_end(s, k, p) + pre.len()
        } else {
            pre.len() + s.len() + 1int
        },
    decreases s.len() - k,
{
    let t = wrapped(pre, s, close);
    let n = pre.len() as int;
    assert(t.len() == n + s.len() + 1);
    if k < s.len() {
        assert(t[n + k] == s[k]);
        if p(s[k]) {
            lemma_run_end_wrapped(pre, s, close, k + 1, p);
        }
    } else {
        assert(t[n + k] == close);
        if p(close) {
            assert(run_end(t, n + k + 1, p) == n + k + 1);
        }
    }
}

/// A step of the lexer inside a wrapped text reads what it reads in the
/// text, moved by the prefix, except that the end of the text becomes the
/// closing character, and a string literal that the end of the text cuts
/// off takes it in.
pub proof fn lemma_scan_wrapped(pre: Seq<char>, s: Seq<char>, close: char, i: int)
    requires
        is_closer(close),
        0 <= i <= s.len(),
    ensures
        ({
            let t = wrapped(pre, s, close);
            let n = pre.len() as int;
            match scan(s, i) {
                Scan::End => scan(t, n + i) == Scan::Token(
                    single_char_kind(close)->0,
                    seq![close],
                    n + s.len() + 1,
                ),
                Scan::Diverges => scan(t, n + i) is Diverges,
                Scan::Token(kind, w, j) => if kind == TokenType::String {
                    scan(t, n + i) matches Scan::Token(TokenType::String, _, _)
                } else {
                    scan(t, n + i) == Scan::Token(kind, w, j + n)
                },
            }
        }),
    decreases s.len() - i,
{
    let t = wrapped(pre, s, close);
    let n = pre.len() as int;
    assert(t.len() == n + s.len() + 1);
    if i == s.len() {
        assert(t[n + i] == close);
        assert(scan(t, n + i + 1) == Scan::End);
    } else {
        let c = s[i];
        assert(t[n + i] == c);
        if i + 1 < s.len() {
            assert(t[n + i + 1] == s[i + 1]);
        } else {
            assert(t[n + i + 1] == close);
        }
        if single_char_kind(c) is Some {
        } else if c == '/' {
            if i + 1 < s.len() && s[i + 1] == '/' {
                lemma_skip_comment(s, i + 2);
                lemma_skip_comment(t, n + i + 2);
                lemma_run_end(s, i + 2, |d: char| d != '\n');
                lemma_run_end_wrapped(pre, s, close, i + 2, |d: char| d != '\n');
                if line_end(s, i + 2) < s.len() {
                    lemma_scan_wrapped(pre, s, close, line_end(s, i + 2) + 1);
                }
            }
        } else if is_operator_start(c) {
        } else if c == '"' {
            lemma_run_end(s, i + 1, |d: char| d != '"');
            lemma_run_end_wrapped(pre, s, close, i + 1, |d: char| d != '"');
        } else if is_digit(c) {
            lemma_run_end(s, i + 1, |d: char| is_number_char(d));
            lemma_run_end_wrapped(pre, s, close, i + 1, |d: char| is_number_char(d));
            let j = number_end(s, i + 1);
            assert(t.subrange(n + i, n + j) =~= s.subrange(i, j));
        } else if is_ident_start(c) {
            lemma_run_end(s, i + 1, |d: char| is_ident_char(d));
            lemma_run_end_wrapped(pre, s, close, i + 1, |d: char| is_ident_char(d));
            let j = ident_end(s, i + 1);
            assert(t.subrange(n + i, n + j) =~= s.subrange(i, j));
        } else {
            lemma_scan_wrapped(pre, s, close, i + 1);
        }
    }
}

/// The characters that continue a name as ASCII text: letters, digits and
/// `_`.
pub open spec fn is_ascii_word_char(c: char) -> bool {
    is_ascii_alphanumeric(c) || c == '_'
}

/// A name: an ASCII letter or `_`, then ASCII letters, digits and `_`, and
/// no keyword.
pub open spec fn is_name(x: Seq<char>) -> bool {
    &&& 0 < x.len()
    &&& is_ident_start(x[0])
    &&& forall|k: int| 0 <= k < x.len() ==> is_ascii_word_char(#[trigger] x[k])
    &&& keyword_kind(x) == TokenType::Ident
}

proof fn lemma_run_end_exact(s: Seq<char>, i: int, k: int, p: spec_fn(char) -> bool)
    requires
        0 <= i <= k <= s.len(),
        forall|m: int| i <= m < k ==> p(#[trigger] s[m]),
        k == s.len() || !p(s[k]),
    ensures
        run_end(s, i, p) == k,
    decreases k - i,
{
    if i < k {
        lemma_run_end_exact(s, i + 1, k, p);
    }
}

/// A name in a text, followed by the end of the text or by a character
/// that is no ASCII letter, digit or `_`, reads as one `Ident` token.
pub proof fn lemma_scan_name(s: Seq<char>, i: int, k: int)
    requires
        0 <= i < k <= s.len(),
        is_name(s.subrange(i, k)),
        k == s.len() || (s[k] <= '\u{7f}' && !is_ascii_word_char(s[k])),
    ensures
        scan(s, i) == Scan::Token(TokenType::Ident, s.subrange(i, k), k),
{
    let x = s.subrange(i, k);
    assert(x[0] == s[i]);
    assert forall|m: int| i + 1 <= m < k implies is_ident_char(#[trigger] s[m]) by {
        assert(s[m] == x[m - i]);
        assert(is_ascii_word_char(x[m - i]));
    }
    lemma_run_end_exact(s, i + 1, k, |d: char| is_ident_char(d));
}

/// A number reads as long as it can: it starts with an ASCII digit, holds
/// only ASCII digits and dots, and the character right after it, if any,
/// is neither.
pub proof fn lemma_number_munch(s: Seq<char>, i: int)
    ensures
        scan(s, i) matches Scan::Token(TokenType::Number, w, j) ==> {
            &&& 0 < w.len()
            &&& '0' <= w[0] && w[0] <= '9'
            &&& forall|k: int| 0 <= k < w.len() ==> ('0' <= #[trigger] w[k] && w[k] <= '9') || w[k]
                == '.'
            &&& j < s.len() ==> !(('0' <= s[j] && s[j] <= '9') || s[j] == '.')
        },
    decreases s.len() - i,
{
    if 0 <= i < s.len() {
        let c = s[i];
        if single_char_kind(c) is Some {
        } else if c == '/' {
            if i + 1 < s.len() && s[i + 1] == '/' {
                lemma_skip_comment(s, i + 2);
                lemma_run_end(s, i + 2, |d: char| d != '\n');
                if line_end(s, i + 2) < s.len() {
                    lemma_number_munch(s, line_end(s, i + 2) + 1);
                }
            }
        } else if is_operator_start(c) {
            assert(operator_kinds(c).0 != TokenType::Number);
            assert(operator_kinds(c).1 != TokenType::Number);
        } else if c == '"' {
        } else if is_digit(c) {
            lemma_run_end(s, i + 1, |d: char| is_number_char(d));
            let j = number_end(s, i + 1);
            let w = s.subrange(i, j);
            assert forall|k: int| 0 <= k < w.len() implies ('0' <= #[trigger] w[k] && w[k] <= '9')
                || w[k] == '.' by {
                assert(w[k] == s[i + k]);
            }
        } else if is_ident_start(c) {
            assert(keyword_kind(s.subrange(i, ident_end(s, i + 1))) != TokenType::Number);
        } else {
            lemma_number_munch(s, i + 1);
        }
    }
}

/// The kinds of the tokens that words make: names and keywords.
pub open spec fn is_word_kind(k: TokenType) -> bool {
    match k {
        TokenType::Ident | TokenType::Var | TokenType::If | TokenType::Else | TokenType::While
        | TokenType::And | TokenType::False | TokenType::True | TokenType::Fn | TokenType::Nil
        | TokenType::Return | TokenType::Or | TokenType::For => true,
        _ => false,
    }
}

/// A name or keyword reads as long as it can: it starts with an ASCII
/// letter or `_`, and the character right after it, if any, is no ASCII
/// letter, digit or `_`.
pub proof fn lemma_word_munch(s: Seq<char>, i: int)
    ensures
        scan(s, i) matches Scan::Token(kind, w, j) ==> is_word_kind(kind) ==> {
            &&& 0 < w.len()
            &&& is_ident_start(w[0])
            &&& j < s.len() && s[j] <= '\u{7f}' ==> !(is_ascii_alphanumeric(s[j]) || s[j] == '_')
        },
    decreases s.len() - i,
{
    if 0 <= i < s.len() {
        let c = s[i];
        if single_char_kind(c) is Some {
        } else if c == '/' {
            if i + 1 < s.len() && s[i + 1] == '/' {
                lemma_skip_comment(s, i + 2);
                lemma_run_end(s, i + 2, |d: char| d != '\n');
                if line_end(s, i + 2) < s.len() {
                    lemma_word_munch(s, line_end(s, i + 2) + 1);
                }
            }
        } else if is_operator_start(c) {
        } else if c == '"' {
        } else if is_digit(c) {
        } else if is_ident_start(c) {
            lemma_run_end(s, i + 1, |d: char| is_ident_char(d));
        } else {
            lemma_word_munch(s, i + 1);
        }
    }
}

/// Once the text is used up, the lexer yields nothing more: a step from the
/// end of the text finds that nothing is left.
pub proof fn lemma_end_stays_end(s: Seq<char>)
    ensures
        scan(s, s.len() as int) == Scan::End,
{
}

/// The fixed text of a token kind: a keyword in lower case, an operator or
/// a punctuation mark as written. Names, string literals and numbers have
/// none.
pub open spec fn spelling(k: TokenType) -> Option<Seq<char>> {
    match k {
        TokenType::Var => Some(seq!['v', 'a', 'r']),
        TokenType::If => Some(seq!['i', 'f']),
        TokenType::Else => Some(seq!['e', 'l', 's', 'e']),
        TokenType::While => Some(seq!['w', 'h', 'i', 'l', 'e']),
        TokenType::And => Some(seq!['a', 'n', 'd']),
        TokenType::False => Some(seq!['f', 'a', 'l', 's', 'e']),
        TokenType::True => Some(seq!['t', 'r', 'u', 'e']),
        TokenType::Fn => Some(seq!['f', 'n']),
        TokenType::Nil => Some(seq!['n', 'i', 'l']),
        TokenType::Return => Some(seq!['r', 'e', 't', 'u', 'r', 'n']),
        TokenType::Or => Some(seq!['o', 'r']),
        TokenType::For => Some(seq!['f', 'o', 'r']),
        TokenType::Plus => Some(seq!['+']),
        TokenType::Minus => Some(seq!['-']),
        TokenType::Star => Some(seq!['*']),
        TokenType::Slash => Some(seq!['/']),
        TokenType::Ternary => Some(seq!['?']),
        TokenType::Colon => Some(seq![':']),
        TokenType::Equal => Some(seq!['=']),
        TokenType::Greater => Some(seq!['>']),
        TokenType::Less => Some(seq!['<']),
        TokenType::Bang => Some(seq!['!']),
        TokenType::BangEqual => Some(seq!['!', '=']),
        TokenType::EqualEqual => Some(seq!['=', '=']),
        TokenType::LessEqual => Some(seq!['<', '=']),
        TokenType::GreaterEqual => Some(seq!['>', '=']),
        TokenType::LeftParen => Some(seq!['(']),
        TokenType::RightParen => Some(seq![')']),
        TokenType::LeftBrace => Some(seq!['{']),
        TokenType::RightBrace => Some(seq!['}']),
        TokenType::Semicolon => Some(seq![';']),
        TokenType::Comma => Some(seq![',']),
        TokenType::Dot => Some(seq!['.']),
        TokenType::Ident | TokenType::String | TokenType::Number => None,
    }
}

/// A token of a kind with a fixed text carries that text.
pub proof fn lemma_fixed_spelling(s: Seq<char>, i: int)
    ensures
        scan(s, i) matches Scan::Token(kind, w, _) ==> (spelling(kind) matches Some(t) ==> w
            == t),
    decreases s.len() - i,
{
    if 0 <= i < s.len() {
        let c = s[i];
        if single_char_kind(c) is Some {
        } else if c == '/' {
            if i + 1 < s.len() && s[i + 1] == '/' {
                lemma_skip_comment(s, i + 2);
                lemma_run_end(s, i + 2, |d: char| d != '\n');
                if line_end(s, i + 2) < s.len() {
                    lemma_fixed_spelling(s, line_end(s, i + 2) + 1);
                }
            }
        } else if is_operator_start(c) {
        } else if c == '"' {
        } else if is_digit(c) {
        } else if is_ident_start(c) {
        } else {
            lemma_fixed_spelling(s, i + 1);
        }
    }
}

/// Every fixed text read alone reads as one token of its kind: each
/// keyword, operator and punctuation mark is recognised.
pub proof fn lemma_fixed_spelling_reads(k: TokenType)
    requires
        spelling(k) is Some,
    ensures
        scan(spelling(k)->0, 0) == Scan::Token(k, spelling(k)->0, spelling(k)->0.len() as int),
{
    let w = spelling(k)->0;
    reveal_with_fuel(run_end, 7);
    if is_ident_start(w[0]) {
        assert(w.subrange(0, w.len() as int) =~= w);
    }
}

/// The kind of a word read as an identifier: a keyword's own kind, or
/// `Ident`.
fn keyword(w: &String) -> (k: TokenType)
    ensures
        k == keyword_kind(w@),
{
    proof {
        reveal_strlit("var");
        reveal_strlit("if");
        reveal_strlit("else");
        reveal_strlit("while");
        reveal_strlit("for");
        reveal_strlit("and");
        reveal_strlit("false");
        reveal_strlit("true");
        reveal_strlit("fn");
        reveal_strlit("nil");
        reveal_strlit("return");
        reveal_strlit("or");
        assert("var"@ =~= seq!['v', 'a', 'r']);
        assert("if"@ =~= seq!['i', 'f']);
        assert("else"@ =~= seq!['e', 'l', 's', 'e']);
        assert("while"@ =~= seq!['w', 'h', 'i', 'l', 'e']);
        assert("for"@ =~= seq!['f', 'o', 'r']);
        assert("and"@ =~= seq!['a', 'n', 'd']);
        assert("false"@ =~= seq!['f', 'a', 'l', 's', 'e']);
        assert("true"@ =~= seq!['t', 'r', 'u', 'e']);
        assert("fn"@ =~= seq!['f', 'n']);
        assert("nil"@ =~= seq!['n', 'i', 'l']);
        assert("return"@ =~= seq!['r', 'e', 't', 'u', 'r', 'n']);
        assert("or"@ =~= seq!['o', 'r']);
    }
    if *w == String::from_str("var") {
        TokenType::Var
    } else if *w == String::from_str("if") {
        TokenType::If
    } else if *w == String::from_str("else") {
        TokenType::Else
    } else if *w == String::from_str("while") {
        TokenType::While
    } else if *w == String::from_str("for") {
        TokenType::For
    } else if *w == String::from_str("and") {
        TokenType::And
    } else if *w == String::from_str("false") {
        TokenType::False
    } else if *w == String::from_str("true") {
        TokenType::True
    } else if *w == String::from_str("fn") {
        TokenType::Fn
    } else if *w == String::from_str("nil") {
        TokenType::Nil
    } else if *w == String::from_str("return") {
        TokenType::Return
    } else if *w == String::from_str("or") {
        TokenType::Or
    } else {
        TokenType::Ident
    }
}

/// A lexer over a piece of source text: the text, as characters, and the
/// position of the next character to read.
#[derive(Debug)]
pub struct Lexer {
    src: Vec<char>,
    pos: usize,
}

impl Lexer {
    /// The source text the lexer reads.
    pub closed spec fn text(&self) -> Seq<char> {
        self.src@
    }

    /// The position of the next character the lexer reads. Every lexer
    /// that the methods below make or leave has it within its text.
    pub closed spec fn pos(&self) -> int {
        self.pos as int
    }

    #[verifier::type_invariant]
    spec fn inv(self) -> bool {
        self.pos <= self.src.len()
    }

    /// The character at the current position, if any.
    fn peek(&self) -> (r: Option<char>)
        ensures
            r == if self.pos() < self.text().len() {
                Some(self.text()[self.pos()])
            } else {
                None::<char>
            },
    {
        if self.pos < self.src.len() {
            Some(self.src[self.pos])
        } else {
            None
        }
    }

    /// Reads an operator that `first` starts and a following `=` may
    /// extend.
    pub fn multi_op(&mut self, first: char) -> (t: Token)
        requires
            is_operator_start(first),
        ensures
            final(self).text() == old(self).text(),
            0 <= final(self).pos() <= final(self).text().len(),
            if old(self).pos() < old(self).text().len() && old(self).text()[old(self).pos()] == '=' {
                &&& t@ == (operator_kinds(first).1, seq![first, '='])
                &&& final(self).pos() == old(self).pos() + 1
            } else {
                &&& t@ == (operator_kinds(first).0, seq![first])
                &&& final(self).pos() == old(self).pos()
            },
    {
        proof {
            use_type_invariant(&*self);
        }
        let (single, double) = if first == '=' {
            (TokenType::Equal, TokenType::EqualEqual)
        } else if first == '!' {
            (TokenType::Bang, TokenType::BangEqual)
        } else if first == '>' {
            (TokenType::Greater, TokenType::GreaterEqual)
        } else {
            (TokenType::Less, TokenType::LessEqual)
        };
        let mut lexeme = String::new();
        push_char(&mut lexeme, first);
        if self.peek() == Some('=') {
            self.pos = self.pos + 1;
            push_char(&mut lexeme, '=');
            Token { kind: double, lexeme }
        } else {
            Token { kind: single, lexeme }
        }
    }

    /// Reads the rest of a number that starts with `first`: the digits and
    /// dots that follow.
    pub fn number(&mut self, first: char) -> (t: Token)
        ensures
            final(self).text() == old(self).text(),
            0 <= final(self).pos() <= final(self).text().len(),
            t@ == (
                TokenType::Number,
                seq![first] + old(self).text().subrange(
                    old(self).pos(),
                    number_end(old(self).text(), old(self).pos()),
                ),
            ),
            final(self).pos() == number_end(old(self).text(), old(self).pos()),
    {
        proof {
            use_type_invariant(&*self);
        }
        let ghost text = self.src@;
        let ghost start = self.pos as int;
        let mut lexeme = String::new();
        push_char(&mut lexeme, first);
        while self.pos < self.src.len() && (('0' <= self.src[self.pos] && self.src[self.pos]
            <= '9') || self.src[self.pos] == '.')
            invariant
                self.src@ == text,
                0 <= start <= self.pos <= self.src.len(),
                lexeme@ == seq![first] + text.subrange(start, self.pos as int),
                number_end(text, start) == number_end(text, self.pos as int),
            decreases self.src.len() - self.pos,
        {
            proof {
                let p = self.pos as int;
                assert(text.subrange(start, p + 1) =~= text.subrange(start, p).push(text[p]));
            }
            push_char(&mut lexeme, self.src[self.pos]);
            self.pos = self.pos + 1;
        }
        Token { kind: TokenType::Number, lexeme }
    }

    /// Reads the body of a string literal, up to the closing `"` or the end
    /// of the text, and steps over the closing `"`.
    pub fn string(&mut self) -> (t: Token)
        ensures
            final(self).text() == old(self).text(),
            0 <= final(self).pos() <= final(self).text().len(),
            t@ == (
                TokenType::String,
                old(self).text().subrange(
                    old(self).pos(),
                    string_end(old(self).text(), old(self).pos()),
                ),
            ),
            final(self).pos() == if string_end(old(self).text(), old(self).pos())
                < old(self).text().len() {
                string_end(old(self).text(), old(self).pos()) + 1
            } else {
                string_end(old(self).text(), old(self).pos())
            },
    {
        proof {
            use_type_invariant(&*self);
        }
        let ghost text = self.src@;
        let ghost start = self.pos as int;
        let mut lexeme = String::new();
        while self.pos < self.src.len() && self.src[self.pos] != '"'
            invariant
                self.src@ == text,
                0 <= start <= self.pos <= self.src.len(),
                lexeme@ == text.subrange(start, self.pos as int),
                string_end(text, start) == string_end(text, self.pos as int),
            decreases self.src.len() - self.pos,
        {
            proof {
                let p = self.pos as int;
                assert(text.subrange(start, p + 1) =~= text.subrange(start, p).push(text[p]));
            }
            push_char(&mut lexeme, self.src[self.pos]);
            self.pos = self.pos + 1;
        }
        if self.pos < self.src.len() {
            self.pos = self.pos + 1;
        }
        Token { kind: TokenType::String, lexeme }
    }

    /// Reads the rest of an identifier that starts with `first`, and tells
    /// a keyword from a name.
    pub fn identifier(&mut self, first: char) -> (t: Token)
        ensures
            final(self).text() == old(self).text(),
            0 <= final(self).pos() <= final(self).text().len(),
            ({
                let w = seq![first] + old(self).text().subrange(
                    old(self).pos(),
                    ident_end(old(self).text(), old(self).pos()),
                );
                t@ == (keyword_kind(w), w)
            }),
            final(self).pos() == ident_end(old(self).text(), old(self).pos()),
    {
        proof {
            use_type_invariant(&*self);
        }
        let ghost text = self.src@;
        let ghost start = self.pos as int;
        let mut lexeme = String::new();
        push_char(&mut lexeme, first);
        while self.pos < self.src.len() && (is_alphanumeric(self.src[self.pos])
            || self.src[self.pos] == '_')
            invariant
                self.src@ == text,
                0 <= start <= self.pos <= self.src.len(),
                lexeme@ == seq![first] + text.subrange(start, self.pos as int),
                ident_end(text, start) == ident_end(text, self.pos as int),
            decreases self.src.len() - self.pos,
        {
            proof {
                let p = self.pos as int;
                assert(text.subrange(start, p + 1) =~= text.subrange(start, p).push(text[p]));
            }
            push_char(&mut lexeme, self.src[self.pos]);
            self.pos = self.pos + 1;
        }
        let kind = keyword(&lexeme);
        Token { kind, lexeme }
    }

    /// A token of kind `kind` made of the character `c`.
    pub fn single(&self, kind: TokenType, c: char) -> (t: Option<Token>)
        ensures
            t matches Some(t) && t@ == (kind, seq![c]),
    {
        let mut lexeme = String::new();
        push_char(&mut lexeme, c);
        Some(Token { kind, lexeme })
    }

    /// After a `/`: where `first` follows, steps over the comment that the
    /// two start, up to and including the newline that ends it, and yields
    /// nothing; otherwise yields a `Slash` token.
    pub fn ignore_if_comments(&mut self, first: char) -> (t: Option<Token>)
        requires
            old(self).pos() < old(self).text().len() && old(self).text()[old(self).pos()] == first
                ==> line_end(old(self).text(), old(self).pos() + 1) < old(self).text().len(),
        ensures
            final(self).text() == old(self).text(),
            0 <= final(self).pos() <= final(self).text().len(),
            if old(self).pos() < old(self).text().len() && old(self).text()[old(self).pos()]
                == first {
                &&& t is None
                &&& final(self).pos() == line_end(old(self).text(), old(self).pos() + 1) + 1
            } else {
                &&& t matches Some(t) && t@ == (TokenType::Slash, seq![first])
                &&& final(self).pos() == old(self).pos()
            },
    {
        proof {
            use_type_invariant(&*self);
        }
        if self.peek() == Some(first) {
            let ghost text = self.src@;
            let ghost start = self.pos + 1;
            self.pos = self.pos + 1;
            while self.src[self.pos] != '\n'
                invariant
                    self.src@ == text,
                    start <= self.pos < self.src.len(),
                    line_end(text, start) == line_end(text, self.pos as int),
                    line_end(text, start) < text.len(),
                decreases self.src.len() - self.pos,
            {
                self.pos = self.pos + 1;
                proof {
                    lemma_run_end(text, self.pos as int, |d: char| d != '\n');
                }
            }
            self.pos = self.pos + 1;
            return None;
        }
        self.single(TokenType::Slash, first)
    }

    /// Whether the next step of the lexer would never end: it stands before
    /// a `//` comment that no newline ends.
    pub fn at_endless_comment(&self) -> (r: bool)
        ensures
            r == (scan(self.text(), self.pos()) is Diverges),
            0 <= self.pos() <= self.text().len(),
    {
        proof {
            use_type_invariant(self);
        }
        let mut i = self.pos;
        while i < self.src.len()
            invariant
                self.pos <= i <= self.src.len(),
                scan(self.text(), self.pos()) == scan(self.text(), i as int),
            decreases self.src.len() - i,
        {
            let c = self.src[i];
            if c == '/' && i + 1 < self.src.len() && self.src[i + 1] == '/' {
                proof {
                    lemma_skip_comment(self.text(), i + 2);
                    lemma_run_end(self.text(), i + 2, |d: char| d != '\n');
                }
                let mut j = i + 2;
                while j < self.src.len() && self.src[j] != '\n'
                    invariant
                        i + 2 <= j <= self.src.len(),
                        line_end(self.text(), i + 2) == line_end(self.text(), j as int),
                    decreases self.src.len() - j,
                {
                    j = j + 1;
                }
                if j == self.src.len() {
                    return true;
                }
                i = j + 1;
            } else if c == ' ' || c == '\n' || c == '\t' || !(c == '(' || c == ')' || c == '{'
                || c == '}' || c == ';' || c == ',' || c == '+' || c == '-' || c == '*' || c
                == '.' || c == '?' || c == ':' || c == '/' || c == '=' || c == '!' || c == '<'
                || c == '>' || c == '"' || ('0' <= c && c <= '9') || ('a' <= c && c <= 'z') || (
            'A' <= c && c <= 'Z') || c == '_') {
                i = i + 1;
            } else {
                return false;
            }
        }
        false
    }

    /// The next token of the text, or `None` once the text is used up.
    /// Blanks, `//` comments and characters that start no token are
    /// skipped.
    pub fn next(&mut self) -> (t: Option<Token>)
        requires
            !(scan(old(self).text(), old(self).pos()) is Diverges),
        ensures
            final(self).text() == old(self).text(),
            0 <= final(self).pos() <= final(self).text().len(),
            match scan(old(self).text(), old(self).pos()) {
                Scan::Token(kind, lexeme, end) => {
                    &&& t matches Some(t) && t@ == (kind, lexeme)
                    &&& final(self).pos() == end
                },
                _ => {
                    &&& t is None
                    &&& final(self).pos() == old(self).text().len()
                },
            },
    {
        proof {
            use_type_invariant(&*self);
        }
        let ghost text = self.src@;
        let ghost goal = scan(text, self.pos as int);
        loop
            invariant
                self.src@ == text,
                text == old(self).text(),
                goal == scan(old(self).text(), old(self).pos()),
                self.pos <= self.src.len(),
                goal == scan(text, self.pos as int),
                !(goal is Diverges),
            decreases self.src.len() - self.pos,
        {
            proof {
                use_type_invariant(&*self);
            }
            if self.pos >= self.src.len() {
                return None;
            }
            let c = self.src[self.pos];
            self.pos = self.pos + 1;
            match c {
                '(' => return self.single(TokenType::LeftParen, c),
                ')' => return self.single(TokenType::RightParen, c),
                '{' => return self.single(TokenType::LeftBrace, c),
                '}' => return self.single(TokenType::RightBrace, c),
                ';' => return self.single(TokenType::Semicolon, c),
                ',' => return self.single(TokenType::Comma, c),
                '+' => return self.single(TokenType::Plus, c),
                '-' => return self.single(TokenType::Minus, c),
                '*' => return self.single(TokenType::Star, c),
                '.' => return self.single(TokenType::Dot, c),
                '?' => return self.single(TokenType::Ternary, c),
                ':' => return self.single(TokenType::Colon, c),
                '/' => {
                    proof {
                        if self.pos < self.src.len() {
                            lemma_skip_comment(text, self.pos + 1);
                            lemma_run_end(text, self.pos + 1, |d: char| d != '\n');
                        }
                    }
                    match self.ignore_if_comments(c) {
                        Some(t) => return Some(t),
                        None => {},
                    }
                },
                '=' | '!' | '<' | '>' => return Some(self.multi_op(c)),
                '"' => return Some(self.string()),
                '0'..='9' => {
                    proof {
                        let i = self.pos as int;
                        lemma_run_end(text, i, |d: char| is_number_char(d));
                        assert(seq![c] + text.subrange(i, number_end(text, i)) =~= text.subrange(
                            i - 1,
                            number_end(text, i),
                        ));
                    }
                    return Some(self.number(c));
                },
                'a'..='z' | 'A'..='Z' | '_' => {
                    proof {
                        let i = self.pos as int;
                        lemma_run_end(text, i, |d: char| is_ident_char(d));
                        assert(seq![c] + text.subrange(i, ident_end(text, i)) =~= text.subrange(
                            i - 1,
                            ident_end(text, i),
                        ));
                    }
                    return Some(self.identifier(c));
                },
                _ => {},
            }
        }
    }

    /// A lexer at the start of `input`.
    pub fn new(input: &str) -> (lexer: Lexer)
        ensures
            lexer.text() == input@,
            lexer.pos() == 0,
            0 <= lexer.pos() <= lexer.text().len(),
    {
        broadcast use vstd::string::group_string_axioms;
        let mut src: Vec<char> = Vec::new();
        for c in it: input.chars()
            invariant
                src@ == it.seq().take(it.index()),
        {
            src.push(c);
        }
        Lexer { src, pos: 0 }
    }
}

/// The name of a token kind, as `Debug` writes it.
pub open spec fn kind_name(k: TokenType) -> Seq<char> {
    match k {
        TokenType::Var => "Var"@,
        TokenType::If => "If"@,
        TokenType::Else => "Else"@,
        TokenType::While => "While"@,
        TokenType::And => "And"@,
        TokenType::False => "False"@,
        TokenType::True => "True"@,
        TokenType::Fn => "Fn"@,
        TokenType::Nil => "Nil"@,
        TokenType::Return => "Return"@,
        TokenType::Or => "Or"@,
        TokenType::For => "For"@,
        TokenType::Ident => "Ident"@,
        TokenType::String => "String"@,
        TokenType::Number => "Number"@,
        TokenType::Plus => "Plus"@,
        TokenType::Minus => "Minus"@,
        TokenType::Star => "Star"@,
        TokenType::Slash => "Slash"@,
        TokenType::Ternary => "Ternary"@,
        TokenType::Colon => "Colon"@,
        TokenType::Equal => "Equal"@,
        TokenType::Greater => "Greater"@,
        TokenType::Less => "Less"@,
        TokenType::Bang => "Bang"@,
        TokenType::BangEqual => "BangEqual"@,
        TokenType::EqualEqual => "EqualEqual"@,
        TokenType::LessEqual => "LessEqual"@,
        TokenType::GreaterEqual => "GreaterEqual"@,
        TokenType::LeftParen => "LeftParen"@,
        TokenType::RightParen => "RightParen"@,
        TokenType::LeftBrace => "LeftBrace"@,
        TokenType::RightBrace => "RightBrace"@,
        TokenType::Semicolon => "Semicolon"@,
        TokenType::Comma => "Comma"@,
        TokenType::Dot => "Dot"@,
    }
}

/// The length, first and last character of a kind's name.
spec fn name_signature(k: TokenType) -> (nat, char, char) {
    match k {
        TokenType::Var => (3, 'V', 'r'),
        TokenType::If => (2, 'I', 'f'),
        TokenType::Else => (4, 'E', 'e'),
        TokenType::While => (5, 'W', 'e'),
        TokenType::And => (3, 'A', 'd'),
        TokenType::False => (5, 'F', 'e'),
        TokenType::True => (4, 'T', 'e'),
        TokenType::Fn => (2, 'F', 'n'),
        TokenType::Nil => (3, 'N', 'l'),
        TokenType::Return => (6, 'R', 'n'),
        TokenType::Or => (2, 'O', 'r'),
        TokenType::For => (3, 'F', 'r'),
        TokenType::Ident => (5, 'I', 't'),
        TokenType::String => (6, 'S', 'g'),
        TokenType::Number => (6, 'N', 'r'),
        TokenType::Plus => (4, 'P', 's'),
        TokenType::Minus => (5, 'M', 's'),
        TokenType::Star => (4, 'S', 'r'),
        TokenType::Slash => (5, 'S', 'h'),
        TokenType::Ternary => (7, 'T', 'y'),
        TokenType::Colon => (5, 'C', 'n'),
        TokenType::Equal => (5, 'E', 'l'),
        TokenType::Greater => (7, 'G', 'r'),
        TokenType::Less => (4, 'L', 's'),
        TokenType::Bang => (4, 'B', 'g'),
        TokenType::BangEqual => (9, 'B', 'l'),
        TokenType::EqualEqual => (10, 'E', 'l'),
        TokenType::LessEqual => (9, 'L', 'l'),
        TokenType::GreaterEqual => (12, 'G', 'l'),
        TokenType::LeftParen => (9, 'L', 'n'),
        TokenType::RightParen => (10, 'R', 'n'),
        TokenType::LeftBrace => (9, 'L', 'e'),
        TokenType::RightBrace => (10, 'R', 'e'),
        TokenType::Semicolon => (9, 'S', 'n'),
        TokenType::Comma => (5, 'C', 'a'),
        TokenType::Dot => (3, 'D', 't'),
    }
}

proof fn lemma_name_signature(k: TokenType)
    ensures
        kind_name(k).len() == name_signature(k).0,
        kind_name(k)[0] == name_signature(k).1,
        kind_name(k)[kind_name(k).len() - 1] == name_signature(k).2,
{
    reveal_strlit("Var");
    reveal_strlit("If");
    reveal_strlit("Else");
    reveal_strlit("While");
    reveal_strlit("And");
    reveal_strlit("False");
    reveal_strlit("True");
    reveal_strlit("Fn");
    reveal_strlit("Nil");
    reveal_strlit("Return");
    reveal_strlit("Or");
    reveal_strlit("For");
    reveal_strlit("Ident");
    reveal_strlit("String");
    reveal_strlit("Number");
    reveal_strlit("Plus");
    reveal_strlit("Minus");
    reveal_strlit("Star");
    reveal_strlit("Slash");
    reveal_strlit("Ternary");
    reveal_strlit("Colon");
    reveal_strlit("Equal");
    reveal_strlit("Greater");
    reveal_strlit("Less");
    reveal_strlit("Bang");
    reveal_strlit("BangEqual");
    reveal_strlit("EqualEqual");
    reveal_strlit("LessEqual");
    reveal_strlit("GreaterEqual");
    reveal_strlit("LeftParen");
    reveal_strlit("RightParen");
    reveal_strlit("LeftBrace");
    reveal_strlit("RightBrace");
    reveal_strlit("Semicolon");
    reveal_strlit("Comma");
    reveal_strlit("Dot");
}

/// Distinct kinds have distinct names, so a name tells its kind.
pub proof fn lemma_kind_names_distinct(k1: TokenType, k2: TokenType)
    requires
        k1 != k2,
    ensures
        kind_name(k1) != kind_name(k2),
{
    lemma_name_signature(k1);
    lemma_name_signature(k2);
    assert(name_signature(k1) != name_signature(k2));
}

/// The name of an operator that a following `=` extends is its name
/// without the `=`, followed by `Equal`.
pub proof fn lemma_kind_names_with_equal()
    ensures
        kind_name(TokenType::BangEqual) == kind_name(TokenType::Bang) + kind_name(TokenType::Equal),
        kind_name(TokenType::EqualEqual) == kind_name(TokenType::Equal) + kind_name(
            TokenType::Equal,
        ),
        kind_name(TokenType::LessEqual) == kind_name(TokenType::Less) + kind_name(TokenType::Equal),
        kind_name(TokenType::GreaterEqual) == kind_name(TokenType::Greater) + kind_name(
            TokenType::Equal,
        ),
{
    reveal_strlit("BangEqual");
    reveal_strlit("Bang");
    reveal_strlit("Equal");
    reveal_strlit("EqualEqual");
    reveal_strlit("LessEqual");
    reveal_strlit("Less");
    reveal_strlit("GreaterEqual");
    reveal_strlit("Greater");
    assert("BangEqual"@ =~= "Bang"@ + "Equal"@);
    assert("EqualEqual"@ =~= "Equal"@ + "Equal"@);
    assert("LessEqual"@ =~= "Less"@ + "Equal"@);
    assert("GreaterEqual"@ =~= "Greater"@ + "Equal"@);
}

impl TokenType {
    /// The name of the kind, as `Debug` writes it.
    pub fn to_string(&self) -> (r: String)
        ensures
            r@ == kind_name(*self),
    {
        let name = match self {
            TokenType::Var => "Var",
            TokenType::If => "If",
            TokenType::Else => "Else",
            TokenType::While => "While",
            TokenType::And => "And",
            TokenType::False => "False",
            TokenType::True => "True",
            TokenType::Fn => "Fn",
            TokenType::Nil => "Nil",
            TokenType::Return => "Return",
            TokenType::Or => "Or",
            TokenType::For => "For",
            TokenType::Ident => "Ident",
            TokenType::String => "String",
            TokenType::Number => "Number",
            TokenType::Plus => "Plus",
            TokenType::Minus => "Minus",
            TokenType::Star => "Star",
            TokenType::Slash => "Slash",
            TokenType::Ternary => "Ternary",
            TokenType::Colon => "Colon",
            TokenType::Equal => "Equal",
            TokenType::Greater => "Greater",
            TokenType::Less => "Less",
            TokenType::Bang => "Bang",
            TokenType::BangEqual => "BangEqual",
            TokenType::EqualEqual => "EqualEqual",
            TokenType::LessEqual => "LessEqual",
            TokenType::GreaterEqual => "GreaterEqual",
            TokenType::LeftParen => "LeftParen",
            TokenType::RightParen => "RightParen",
            TokenType::LeftBrace => "LeftBrace",
            TokenType::RightBrace => "RightBrace",
            TokenType::Semicolon => "Semicolon",
            TokenType::Comma => "Comma",
            TokenType::Dot => "Dot",
        };
        String::from_str(name)
    }
}

} // verus!
