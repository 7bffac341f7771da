//! A small Lox front end: a lexer that turns source text into tokens, and a
//! Pratt parser for expressions.

pub mod lex;
pub mod text;

use vstd::prelude::*;

use crate::lex::{
    is_closer, is_name, kind_name, lemma_scan_advances, lemma_scan_name, lemma_scan_parenthesized,
    lemma_scan_wrapped, parenthesized, scan, wrapped, Lexer, Scan, Token, TokenType,
};

verus! {

/// An expression. A number keeps the text it was written with.
#[derive(Debug, PartialEq)]
pub enum Expr {
    Number(String),
    Ident(String),
    Binary(TokenType, Vec<Expr>),
}

/// An expression as the contracts see it.
pub enum SpecExpr {
    Number(Seq<char>),
    Ident(Seq<char>),
    Binary(TokenType, Seq<SpecExpr>),
}

/// The view of an expression.
pub open spec fn expr_view(e: Expr) -> SpecExpr
    decreases e,
{
    match e {
        Expr::Number(w) => SpecExpr::Number(w@),
        Expr::Ident(w) => SpecExpr::Ident(w@),
        Expr::Binary(op, v) => SpecExpr::Binary(op, exprs_view(v@)),
    }
}

/// The views of a sequence of expressions.
pub open spec fn exprs_view(es: Seq<Expr>) -> Seq<SpecExpr>
    decreases es,
{
    if es.len() == 0 {
        Seq::empty()
    } else {
        seq![expr_view(es[0])] + exprs_view(es.subrange(1, es.len() as int))
    }
}

impl View for Expr {
    type V = SpecExpr;

    open spec fn view(&self) -> SpecExpr {
        expr_view(*self)
    }
}

/// How a parse of a piece of text ends: with an expression and the position
/// after it, with a panic, or never.
pub enum Parsed {
    Done(SpecExpr, int),
    Panics,
    Diverges,
}

/// The binding power of a prefix operator (`+` and `-` are the only ones).
pub open spec fn prefix_bp() -> u8 {
    9
}

/// The left binding power of a postfix operator, where `op` is one.
pub open spec fn postfix_bp(op: TokenType) -> Option<u8> {
    match op {
        TokenType::Bang | TokenType::LeftBrace => Some(11),
        _ => None,
    }
}

/// The left and right binding powers of an infix operator, where `op` is
/// one.
pub open spec fn infix_bp(op: TokenType) -> Option<(u8, u8)> {
    match op {
        TokenType::Equal => Some((2, 1)),
        TokenType::Ternary => Some((4, 3)),
        TokenType::Plus | TokenType::Minus => Some((5, 6)),
        TokenType::Star | TokenType::Slash => Some((7, 8)),
        _ => None,
    }
}

/// The number of `.` in `w`.
pub open spec fn count_dots(w: Seq<char>) -> nat
    decreases w.len(),
{
    if w.len() == 0 {
        0
    } else {
        count_dots(w.drop_last()) + if w.last() == '.' {
            1nat
        } else {
            0nat
        }
    }
}

/// Whether the text of a number token reads as an `f64`: the lexer only
/// puts digits and dots after a first digit, and such a text is a float
/// literal exactly when it holds at most one dot.
pub open spec fn is_float_text(w: Seq<char>) -> bool {
    count_dots(w) <= 1
}

/// The parse of an expression whose operators bind at least as tightly as
/// `min_bp`, from position `p` of `s`. The checks that a position lies
/// after `p` and within the text always hold (`lemma_parse_advances`); they
/// show that the definition terminates.
pub open spec fn parse_bp(s: Seq<char>, p: int, min_bp: int) -> Parsed
    decreases s.len() - p,
{
    proof {
        lemma_scan_advances(s, p);
    }
    match scan(s, p) {
        Scan::Diverges => Parsed::Diverges,
        Scan::End => Parsed::Panics,
        Scan::Token(kind, w, p1) => {
            if kind == TokenType::Number {
                if is_float_text(w) {
                    parse_loop(s, p1, SpecExpr::Number(w), min_bp)
                } else {
                    Parsed::Panics
                }
            } else if kind == TokenType::Ident {
                parse_loop(s, p1, SpecExpr::Ident(w), min_bp)
            } else if kind == TokenType::Plus || kind == TokenType::Minus {
                match parse_bp(s, p1, prefix_bp() as int) {
                    Parsed::Done(rhs, p2) => if p < p2 <= s.len() {
                        parse_loop(s, p2, SpecExpr::Binary(kind, seq![rhs]), min_bp)
                    } else {
                        Parsed::Panics
                    },
                    other => other,
                }
            } else if kind == TokenType::LeftParen {
                match parse_bp(s, p1, 0) {
                    Parsed::Done(inner, p2) => match scan(s, p2) {
                        Scan::Diverges => Parsed::Diverges,
                        Scan::Token(TokenType::RightParen, _, p3) => if p < p3 <= s.len() {
                            parse_loop(s, p3, inner, min_bp)
                        } else {
                            Parsed::Panics
                        },
                        _ => Parsed::Panics,
                    },
                    other => other,
                }
            } else {
                Parsed::Panics
            }
        },
    }
}

/// The rest of a parse from position `p` of `s`, once `lhs` has been read:
/// postfix and infix operators that bind at least as tightly as `min_bp`
/// extend `lhs`.
pub open spec fn parse_loop(s: Seq<char>, p: int, lhs: SpecExpr, min_bp: int) -> Parsed
    decreases s.len() - p,
{
    proof {
        lemma_scan_advances(s, p);
    }
    match scan(s, p) {
        Scan::Diverges => Parsed::Diverges,
        Scan::End => Parsed::Done(lhs, p),
        Scan::Token(op, _, p1) => {
            if postfix_bp(op) is Some {
                if (postfix_bp(op)->0 as int) < min_bp {
                    Parsed::Done(lhs, p)
                } else if op == TokenType::LeftBrace {
                    match parse_bp(s, p1, 0) {
                        Parsed::Done(rhs, p2) => match scan(s, p2) {
                            Scan::Diverges => Parsed::Diverges,
                            Scan::Token(TokenType::RightBrace, _, p3) => if p < p3 <= s.len() {
                                parse_loop(s, p3, SpecExpr::Binary(op, seq![lhs, rhs]), min_bp)
                            } else {
                                Parsed::Panics
                            },
                            _ => Parsed::Panics,
                        },
                        other => other,
                    }
                } else {
                    parse_loop(s, p1, SpecExpr::Binary(op, seq![lhs]), min_bp)
                }
            } else if infix_bp(op) is Some {
                let (l_bp, r_bp) = infix_bp(op)->0;
                if (l_bp as int) < min_bp {
                    Parsed::Done(lhs, p)
                } else if op == TokenType::Ternary {
                    match parse_bp(s, p1, 0) {
                        Parsed::Done(mhs, p2) => match scan(s, p2) {
                            Scan::Diverges => Parsed::Diverges,
                            Scan::Token(TokenType::Colon, _, p3) => if p < p3 <= s.len() {
                                match parse_bp(s, p3, r_bp as int) {
                                    Parsed::Done(rhs, p4) => if p < p4 <= s.len() {
                                        parse_loop(
                                            s,
                                            p4,
                                            SpecExpr::Binary(op, seq![lhs, mhs, rhs]),
                                            min_bp,
                                        )
                                    } else {
                                        Parsed::Panics
                                    },
                                    other => other,
                                }
                            } else {
                                Parsed::Panics
                            },
                            _ => Parsed::Panics,
                        },
                        other => other,
                    }
                } else {
                    match parse_bp(s, p1, r_bp as int) {
                        Parsed::Done(rhs, p2) => if p < p2 <= s.len() {
                            parse_loop(s, p2, SpecExpr::Binary(op, seq![lhs, rhs]), min_bp)
                        } else {
                            Parsed::Panics
                        },
                        other => other,
                    }
                }
            } else {
                Parsed::Done(lhs, p)
            }
        },
    }
}

/// The parse of a whole text as an expression.
pub open spec fn parse_text(s: Seq<char>) -> Parsed {
    parse_bp(s, 0, 0)
}


/// The binding power of the prefix operators `+` and `-`.
pub fn prefix_binding_power(op: &TokenType) -> (r: ((), u8))
    requires
        *op == TokenType::Plus || *op == TokenType::Minus,
    ensures
        r.1 == prefix_bp(),
{
    ((), 9)
}

/// The left binding power of a postfix operator, or `None` where `op` is
/// not one.
pub fn postfix_binding_power(op: &TokenType) -> (r: Option<(u8, ())>)
    ensures
        match postfix_bp(*op) {
            Some(l) => r == Some((l, ())),
            None => r is None,
        },
{
    match op {
        TokenType::Bang | TokenType::LeftBrace => Some((11, ())),
        _ => None,
    }
}

/// The left and right binding powers of an infix operator, or `None` where
/// `op` is not one.
pub fn infix_binding_power(op: &TokenType) -> (r: Option<(u8, u8)>)
    ensures
        r == infix_bp(*op),
{
    match op {
        TokenType::Equal => Some((2, 1)),
        TokenType::Ternary => Some((4, 3)),
        TokenType::Plus | TokenType::Minus => Some((5, 6)),
        TokenType::Star | TokenType::Slash => Some((7, 8)),
        _ => None,
    }
}

/// A prefix of a text holds no more dots than the text.
proof fn lemma_count_dots_prefix(w: Seq<char>, k: int)
    requires
        0 <= k <= w.len(),
    ensures
        count_dots(w.take(k)) <= count_dots(w),
    decreases w.len(),
{
    if k < w.len() {
        assert(w.drop_last().take(k) =~= w.take(k));
        lemma_count_dots_prefix(w.drop_last(), k);
    } else {
        assert(w.take(k) =~= w);
    }
}

/// Whether the text of a number token reads as an `f64`.
fn float_text(w: &String) -> (r: bool)
    ensures
        r == is_float_text(w@),
{
    broadcast use vstd::string::group_string_axioms;
    let mut dots: usize = 0;
    let ghost text = w@;
    for c in it: w.as_str().chars()
        invariant
            text == w@,
            it.seq() == text,
            0 <= it.index() <= text.len(),
            dots as nat == count_dots(text.take(it.index())),
            dots <= 1,
    {
        proof {
            assert(text.take(it.index() + 1).drop_last() =~= text.take(it.index()));
        }
        if c == '.' {
            if dots == 1 {
                proof {
                    lemma_count_dots_prefix(text, it.index() + 1);
                }
                return false;
            }
            dots = dots + 1;
        }
    }
    proof {
        assert(text.take(text.len() as int) =~= text);
    }
    true
}


/// The tokens of a text, read one at a time, with one token of lookahead.
struct TokenStream {
    lexer: Lexer,
    peeked: Option<Option<Token>>,
    at: Ghost<int>,
}

impl TokenStream {
    spec fn text(&self) -> Seq<char> {
        self.lexer.text()
    }

    /// The position of the next token the stream yields.
    spec fn at(&self) -> int {
        self.at@
    }

    spec fn wf(&self) -> bool {
        &&& 0 <= self.at@ <= self.lexer.text().len()
        &&& match self.peeked {
            None => self.lexer.pos() == self.at@,
            Some(None) => scan(self.lexer.text(), self.at@) is End,
            Some(Some(t)) => scan(self.lexer.text(), self.at@) == Scan::Token(
                t.kind,
                t.lexeme@,
                self.lexer.pos(),
            ),
        }
    }

    fn new(input: &str) -> (ts: TokenStream)
        ensures
            ts.wf(),
            ts.text() == input@,
            ts.at() == 0,
    {
        TokenStream { lexer: Lexer::new(input), peeked: None, at: Ghost(0) }
    }

    /// Whether reading the next token would never end.
    fn diverges(&self) -> (r: bool)
        requires
            self.wf(),
        ensures
            r == (scan(self.text(), self.at()) is Diverges),
    {
        match &self.peeked {
            Some(_) => false,
            None => self.lexer.at_endless_comment(),
        }
    }

    /// The kind of the next token, without reading it.
    fn peek_kind(&mut self) -> (r: Option<TokenType>)
        requires
            old(self).wf(),
            !(scan(old(self).text(), old(self).at()) is Diverges),
        ensures
            final(self).wf(),
            final(self).text() == old(self).text(),
            final(self).at() == old(self).at(),
            r == match scan(old(self).text(), old(self).at()) {
                Scan::Token(kind, _, _) => Some(kind),
                _ => None::<TokenType>,
            },
    {
        if self.peeked.is_none() {
            let t = self.lexer.next();
            self.peeked = Some(t);
        }
        match &self.peeked {
            Some(Some(t)) => Some(t.kind),
            _ => None,
        }
    }

    /// Reads the next token.
    fn next_token(&mut self) -> (r: Option<Token>)
        requires
            old(self).wf(),
            !(scan(old(self).text(), old(self).at()) is Diverges),
        ensures
            final(self).wf(),
            final(self).text() == old(self).text(),
            match scan(old(self).text(), old(self).at()) {
                Scan::Token(kind, lexeme, end) => {
                    &&& r matches Some(t) && t@ == (kind, lexeme)
                    &&& final(self).at() == end
                },
                _ => {
                    &&& r is None
                    &&& final(self).at() == old(self).at()
                },
            },
    {
        proof {
            lemma_scan_advances(self.text(), self.at());
        }
        let peeked = self.peeked.take();
        match peeked {
            Some(Some(t)) => {
                self.at = Ghost(self.lexer.pos());
                Some(t)
            },
            Some(None) => {
                self.peeked = Some(None);
                None
            },
            None => {
                let t = self.lexer.next();
                match t {
                    Some(t) => {
                        self.at = Ghost(self.lexer.pos());
                        Some(t)
                    },
                    None => {
                        self.peeked = Some(None);
                        None
                    },
                }
            },
        }
    }
}


/// Reads an expression whose operators bind at least as tightly as
/// `min_bp`, or finds that the parse panics or never ends (`None`).
fn try_expr_bp(tokens: &mut TokenStream, min_bp: u8) -> (r: Option<Expr>)
    requires
        old(tokens).wf(),
    ensures
        final(tokens).wf(),
        final(tokens).text() == old(tokens).text(),
        match parse_bp(old(tokens).text(), old(tokens).at(), min_bp as int) {
            Parsed::Done(e, q) => {
                &&& r matches Some(x) && x@ == e
                &&& final(tokens).at() == q
                &&& old(tokens).at() < q <= old(tokens).text().len()
            },
            _ => r is None,
        },
    decreases old(tokens).text().len() - old(tokens).at(),
{
    let ghost text = tokens.text();
    let ghost start = tokens.at();
    let ghost goal = parse_bp(text, start, min_bp as int);
    proof {
        lemma_scan_advances(text, start);
    }
    if tokens.diverges() {
        return None;
    }
    let t = match tokens.next_token() {
        Some(t) => t,
        None => return None,
    };
    let ghost p1 = tokens.at();
    let mut lhs = match t.kind {
        TokenType::Number => {
            if !float_text(&t.lexeme) {
                return None;
            }
            Expr::Number(t.lexeme)
        },
        TokenType::Ident => Expr::Ident(t.lexeme),
        TokenType::Plus | TokenType::Minus => {
            let op = t.kind;
            let ((), r_bp) = prefix_binding_power(&op);
            let rhs = match try_expr_bp(tokens, r_bp) {
                Some(rhs) => rhs,
                None => return None,
            };
            let e = Expr::Binary(op, vec![rhs]);
            proof {
                lemma_view_one(e, op, rhs);
            }
            e
        },
        TokenType::LeftParen => {
            let inner = match try_expr_bp(tokens, 0) {
                Some(inner) => inner,
                None => return None,
            };
            proof {
                lemma_scan_advances(text, tokens.at());
            }
            if tokens.diverges() {
                return None;
            }
            match tokens.next_token() {
                Some(close) => {
                    if close.kind != TokenType::RightParen {
                        return None;
                    }
                },
                None => return None,
            }
            inner
        },
        _ => return None,
    };
    proof {
        assert(goal == parse_loop(text, tokens.at(), lhs@, min_bp as int));
    }
    loop
        invariant
            tokens.wf(),
            tokens.text() == text,
            text == old(tokens).text(),
            start == old(tokens).at(),
            goal == parse_bp(text, start, min_bp as int),
            start < tokens.at() <= text.len(),
            goal == parse_loop(text, tokens.at(), lhs@, min_bp as int),
        ensures
            tokens.wf(),
            tokens.text() == text,
            start < tokens.at() <= text.len(),
            goal == Parsed::Done(lhs@, tokens.at()),
        decreases text.len() - tokens.at(),
    {
        let ghost p = tokens.at();
        proof {
            lemma_scan_advances(text, p);
        }
        if tokens.diverges() {
            return None;
        }
        let op = match tokens.peek_kind() {
            Some(op) => op,
            None => break,
        };
        if let Some((l_bp, ())) = postfix_binding_power(&op) {
            if l_bp < min_bp {
                break;
            }
            tokens.next_token();
            lhs = if op == TokenType::LeftBrace {
                let rhs = match try_expr_bp(tokens, 0) {
                    Some(rhs) => rhs,
                    None => return None,
                };
                proof {
                    lemma_scan_advances(text, tokens.at());
                }
                if tokens.diverges() {
                    return None;
                }
                match tokens.next_token() {
                    Some(close) => {
                        if close.kind != TokenType::RightBrace {
                            return None;
                        }
                    },
                    None => return None,
                }
                let e = Expr::Binary(op, vec![lhs, rhs]);
                proof {
                    lemma_view_two(e, op, lhs, rhs);
                }
                e
            } else {
                let e = Expr::Binary(op, vec![lhs]);
                proof {
                    lemma_view_one(e, op, lhs);
                }
                e
            };
            continue ;
        }
        if let Some((l_bp, r_bp)) = infix_binding_power(&op) {
            if l_bp < min_bp {
                break;
            }
            tokens.next_token();
            lhs = if op == TokenType::Ternary {
                let mhs = match try_expr_bp(tokens, 0) {
                    Some(mhs) => mhs,
                    None => return None,
                };
                proof {
                    lemma_scan_advances(text, tokens.at());
                }
                if tokens.diverges() {
                    return None;
                }
                match tokens.next_token() {
                    Some(colon) => {
                        if colon.kind != TokenType::Colon {
                            return None;
                        }
                    },
                    None => return None,
                }
                let rhs = match try_expr_bp(tokens, r_bp) {
                    Some(rhs) => rhs,
                    None => return None,
                };
                let e = Expr::Binary(op, vec![lhs, mhs, rhs]);
                proof {
                    lemma_view_three(e, op, lhs, mhs, rhs);
                }
                e
            } else {
                let rhs = match try_expr_bp(tokens, r_bp) {
                    Some(rhs) => rhs,
                    None => return None,
                };
                let e = Expr::Binary(op, vec![lhs, rhs]);
                proof {
                    lemma_view_two(e, op, lhs, rhs);
                }
                e
            };
            continue ;
        }
        break;
    }
    Some(lhs)
}

/// Reads an expression whose operators bind at least as tightly as
/// `min_bp`, where the parse ends with one.
fn expr_bp(tokens: &mut TokenStream, min_bp: u8) -> (r: Expr)
    requires
        old(tokens).wf(),
        parse_bp(old(tokens).text(), old(tokens).at(), min_bp as int) is Done,
    ensures
        final(tokens).wf(),
        final(tokens).text() == old(tokens).text(),
        parse_bp(old(tokens).text(), old(tokens).at(), min_bp as int) == Parsed::Done(
            r@,
            final(tokens).at(),
        ),
{
    try_expr_bp(tokens, min_bp).unwrap()
}

proof fn lemma_view_one(e: Expr, op: TokenType, a: Expr)
    requires
        e matches Expr::Binary(o, v) && o == op && v@ =~= seq![a],
    ensures
        e@ == SpecExpr::Binary(op, seq![a@]),
{
    reveal_with_fuel(exprs_view, 2);
    let v = e->Binary_1;
    assert(v@.subrange(1, 1) =~= Seq::<Expr>::empty());
    assert(exprs_view(v@) =~= seq![a@]);
}

proof fn lemma_view_two(e: Expr, op: TokenType, a: Expr, b: Expr)
    requires
        e matches Expr::Binary(o, v) && o == op && v@ =~= seq![a, b],
    ensures
        e@ == SpecExpr::Binary(op, seq![a@, b@]),
{
    reveal_with_fuel(exprs_view, 3);
    let v = e->Binary_1;
    assert(v@.subrange(1, 2) =~= seq![b]);
    assert(seq![b].subrange(1, 1) =~= Seq::<Expr>::empty());
    assert(exprs_view(v@) =~= seq![a@, b@]);
}

proof fn lemma_view_three(e: Expr, op: TokenType, a: Expr, b: Expr, c: Expr)
    requires
        e matches Expr::Binary(o, v) && o == op && v@ =~= seq![a, b, c],
    ensures
        e@ == SpecExpr::Binary(op, seq![a@, b@, c@]),
{
    reveal_with_fuel(exprs_view, 4);
    let v = e->Binary_1;
    assert(v@.subrange(1, 3) =~= seq![b, c]);
    assert(seq![b, c].subrange(1, 2) =~= seq![c]);
    assert(seq![c].subrange(1, 1) =~= Seq::<Expr>::empty());
    assert(exprs_view(v@) =~= seq![a@, b@, c@]);
}


/// The text of an expression: a number or a name after a space; an
/// operator application as `(`, the operator's name, its operands, `)`.
pub open spec fn render(e: SpecExpr) -> Seq<char>
    decreases e,
{
    match e {
        SpecExpr::Number(w) => seq![' '] + w,
        SpecExpr::Ident(w) => seq![' '] + w,
        SpecExpr::Binary(op, es) => seq!['('] + kind_name(op) + render_all(es) + seq![')'],
    }
}

/// The texts of a sequence of expressions, one after another.
pub open spec fn render_all(es: Seq<SpecExpr>) -> Seq<char>
    decreases es,
{
    if es.len() == 0 {
        Seq::empty()
    } else {
        render_all(es.drop_last()) + render(es.last())
    }
}

/// A name or a number is written as a space and its whole text.
pub proof fn lemma_render_leaf(w: Seq<char>)
    ensures
        render(SpecExpr::Ident(w)) == seq![' '] + w,
        render(SpecExpr::Number(w)) == seq![' '] + w,
{
}

/// The texts of two sequences of expressions one after the other are the
/// text of the two sequences joined.
proof fn lemma_render_all_append(a: Seq<SpecExpr>, b: Seq<SpecExpr>)
    ensures
        render_all(a + b) == render_all(a) + render_all(b),
    decreases b.len(),
{
    if b.len() == 0 {
        assert(a + b =~= a);
    } else {
        lemma_render_all_append(a, b.drop_last());
        assert((a + b).drop_last() =~= a + b.drop_last());
        assert((a + b).last() == b.last());
    }
}

/// An operator application is written as `(`, the operator's name, the
/// texts of its operands one after another in their order, and `)`: the
/// text of operand `i` stands whole in it, right after the texts of the
/// operands before it.
pub proof fn lemma_render_binary(op: TokenType, es: Seq<SpecExpr>, i: int)
    requires
        0 <= i < es.len(),
    ensures
        ({
            let t = render(SpecExpr::Binary(op, es));
            let at: int = 1 + kind_name(op).len() + render_all(es.take(i)).len() as int;
            &&& t[0] == '('
            &&& t.subrange(1, 1 + kind_name(op).len() as int) == kind_name(op)
            &&& t.subrange(at, at + render(es[i]).len() as int) == render(es[i])
            &&& t[t.len() - 1] == ')'
        }),
{
    let rest = es.subrange(i + 1, es.len() as int);
    lemma_render_all_append(es.take(i), seq![es[i]]);
    lemma_render_all_append(es.take(i) + seq![es[i]], rest);
    assert(es.take(i) + seq![es[i]] + rest =~= es);
    assert(seq![es[i]].drop_last() =~= Seq::<SpecExpr>::empty());
    assert(render_all(Seq::<SpecExpr>::empty()) == Seq::<char>::empty());
    assert(seq![es[i]].last() == es[i]);
    assert(render_all(seq![es[i]]) =~= Seq::<char>::empty() + render(es[i]));
    assert(render_all(seq![es[i]]) =~= render(es[i]));
    let t = render(SpecExpr::Binary(op, es));
    let at: int = 1 + kind_name(op).len() + render_all(es.take(i)).len() as int;
    assert(t =~= seq!['('] + kind_name(op) + render_all(es.take(i)) + render(es[i])
        + render_all(rest) + seq![')']);
    assert(t.subrange(1, 1 + kind_name(op).len() as int) =~= kind_name(op));
    assert(t.subrange(at, at + render(es[i]).len() as int) =~= render(es[i]));
}

/// The views of a sequence of expressions are the views of its elements.
proof fn lemma_exprs_view(es: Seq<Expr>)
    ensures
        exprs_view(es).len() == es.len(),
        forall|i: int| 0 <= i < es.len() ==> exprs_view(es)[i] == #[trigger] es[i]@,
    decreases es.len(),
{
    if es.len() > 0 {
        let rest = es.subrange(1, es.len() as int);
        lemma_exprs_view(rest);
        assert forall|i: int| 0 <= i < es.len() implies exprs_view(es)[i] == #[trigger] es[i]@ by {
            if i > 0 {
                assert(rest[i - 1] == es[i]);
            }
        }
    }
}

impl Expr {
    /// The text of the expression (see `render`).
    pub fn to_string(&self) -> (r: String)
        ensures
            r@ == render(self@),
        decreases self,
    {
        match self {
            Expr::Number(w) => {
                let mut s = String::from_str(" ");
                proof {
                    reveal_strlit(" ");
                }
                s.append(w.as_str());
                s
            },
            Expr::Ident(w) => {
                let mut s = String::from_str(" ");
                proof {
                    reveal_strlit(" ");
                }
                s.append(w.as_str());
                s
            },
            Expr::Binary(op, operands) => {
                let ghost views = exprs_view(operands@);
                proof {
                    lemma_exprs_view(operands@);
                    reveal_strlit("(");
                    reveal_strlit(")");
                }
                let mut s = String::from_str("(");
                let name = op.to_string();
                s.append(name.as_str());
                let mut i: usize = 0;
                while i < operands.len()
                    invariant
                        0 <= i <= operands.len(),
                        *self == Expr::Binary(*op, *operands),
                        views == exprs_view(operands@),
                        views.len() == operands.len(),
                        forall|k: int| 0 <= k < operands.len() ==> views[k] == #[trigger] operands@[k]@,
                        s@ == seq!['('] + kind_name(*op) + render_all(views.take(i as int)),
                    decreases operands.len() - i,
                {
                    proof {
                        assert(decreases_to!(*self => self->Binary_1));
                    }
                    let part = operands[i].to_string();
                    proof {
                        assert(views.take(i + 1).drop_last() =~= views.take(i as int));
                    }
                    s.append(part.as_str());
                    i = i + 1;
                }
                proof {
                    assert(views.take(i as int) =~= views);
                }
                s.append(")");
                s
            },
        }
    }
}

/// Parses `input` as an expression. `None` where the parse panics or never
/// ends.
pub fn try_expr(input: &str) -> (r: Option<Expr>)
    ensures
        match parse_text(input@) {
            Parsed::Done(e, _) => r matches Some(x) && x@ == e,
            _ => r is None,
        },
{
    let mut tokens = TokenStream::new(input);
    try_expr_bp(&mut tokens, 0)
}

/// Parses `input` as an expression, where the parse ends with one.
pub fn expr(input: &str) -> (r: Expr)
    requires
        parse_text(input@) is Done,
    ensures
        r@ == parse_text(input@)->Done_0,
{
    let mut tokens = TokenStream::new(input);
    expr_bp(&mut tokens, 0)
}


/// Once an operand has been read, the rest of the parse never moves back,
/// and stays within the text.
pub proof fn lemma_parse_loop_advances(s: Seq<char>, p: int, lhs: SpecExpr, min_bp: int)
    requires
        0 <= p <= s.len(),
    ensures
        parse_loop(s, p, lhs, min_bp) matches Parsed::Done(_, q) ==> p <= q <= s.len(),
    decreases s.len() - p,
{
    lemma_scan_advances(s, p);
    if let Scan::Token(op, _, p1) = scan(s, p) {
        if postfix_bp(op) is Some {
            if (postfix_bp(op)->0 as int) >= min_bp {
                if op == TokenType::LeftBrace {
                    if let Parsed::Done(rhs, p2) = parse_bp(s, p1, 0) {
                        if let Scan::Token(TokenType::RightBrace, _, p3) = scan(s, p2) {
                            if p < p3 <= s.len() {
                                lemma_parse_loop_advances(
                                    s,
                                    p3,
                                    SpecExpr::Binary(op, seq![lhs, rhs]),
                                    min_bp,
                                );
                            }
                        }
                    }
                } else {
                    lemma_parse_loop_advances(s, p1, SpecExpr::Binary(op, seq![lhs]), min_bp);
                }
            }
        } else if infix_bp(op) is Some {
            let (l_bp, r_bp) = infix_bp(op)->0;
            if (l_bp as int) >= min_bp {
                if op == TokenType::Ternary {
                    if let Parsed::Done(mhs, p2) = parse_bp(s, p1, 0) {
                        if let Scan::Token(TokenType::Colon, _, p3) = scan(s, p2) {
                            if p < p3 <= s.len() {
                                if let Parsed::Done(rhs, p4) = parse_bp(s, p3, r_bp as int) {
                                    if p < p4 <= s.len() {
                                        lemma_parse_loop_advances(
                                            s,
                                            p4,
                                            SpecExpr::Binary(op, seq![lhs, mhs, rhs]),
                                            min_bp,
                                        );
                                    }
                                }
                            }
                        }
                    }
                } else {
                    if let Parsed::Done(rhs, p2) = parse_bp(s, p1, r_bp as int) {
                        if p < p2 <= s.len() {
                            lemma_parse_loop_advances(
                                s,
                                p2,
                                SpecExpr::Binary(op, seq![lhs, rhs]),
                                min_bp,
                            );
                        }
                    }
                }
            }
        }
    }
}

/// A parse that ends with an expression has read at least one token, and
/// stays within the text: the position checks in `parse_bp` and
/// `parse_loop` never fail.
pub proof fn lemma_parse_advances(s: Seq<char>, p: int, min_bp: int)
    requires
        0 <= p <= s.len(),
    ensures
        parse_bp(s, p, min_bp) matches Parsed::Done(_, q) ==> p < q <= s.len(),
{
    lemma_scan_advances(s, p);
    if let Scan::Token(kind, w, p1) = scan(s, p) {
        if kind == TokenType::Number {
            lemma_parse_loop_advances(s, p1, SpecExpr::Number(w), min_bp);
        } else if kind == TokenType::Ident {
            lemma_parse_loop_advances(s, p1, SpecExpr::Ident(w), min_bp);
        } else if kind == TokenType::Plus || kind == TokenType::Minus {
            if let Parsed::Done(rhs, p2) = parse_bp(s, p1, prefix_bp() as int) {
                if p < p2 <= s.len() {
                    lemma_parse_loop_advances(s, p2, SpecExpr::Binary(kind, seq![rhs]), min_bp);
                }
            }
        } else if kind == TokenType::LeftParen {
            if let Parsed::Done(inner, p2) = parse_bp(s, p1, 0) {
                if let Scan::Token(TokenType::RightParen, _, p3) = scan(s, p2) {
                    if p < p3 <= s.len() {
                        lemma_parse_loop_advances(s, p3, inner, min_bp);
                    }
                }
            }
        }
    }
}


/// Whether `op` takes `n` operands in the expressions the parser builds:
/// one for the prefix `+`, `-` and the postfix `!`; two for the infix
/// operators and for `{`; three for `?`.
pub open spec fn arity_ok(op: TokenType, n: int) -> bool {
    ||| n == 1 && (op == TokenType::Plus || op == TokenType::Minus || op == TokenType::Bang)
    ||| n == 2 && (op == TokenType::LeftBrace || op == TokenType::Equal || op == TokenType::Plus
        || op == TokenType::Minus || op == TokenType::Star || op == TokenType::Slash)
    ||| n == 3 && op == TokenType::Ternary
}

/// An expression the parser can build: every operator has its number of
/// operands, and every number reads as an `f64`.
pub open spec fn well_formed(e: SpecExpr) -> bool
    decreases e,
{
    match e {
        SpecExpr::Number(w) => is_float_text(w),
        SpecExpr::Ident(_) => true,
        SpecExpr::Binary(op, es) => {
            &&& arity_ok(op, es.len() as int)
            &&& forall|i: int| 0 <= i < es.len() ==> #[trigger] well_formed(es[i])
        },
    }
}


/// Every expression that a parse ends with is well formed.
pub proof fn lemma_parse_well_formed(s: Seq<char>, p: int, min_bp: int)
    ensures
        parse_bp(s, p, min_bp) matches Parsed::Done(e, _) ==> well_formed(e),
    decreases s.len() - p,
{
    lemma_scan_advances(s, p);
    if let Scan::Token(kind, w, p1) = scan(s, p) {
        if kind == TokenType::Number {
            if is_float_text(w) {
                lemma_parse_loop_well_formed(s, p1, SpecExpr::Number(w), min_bp);
            }
        } else if kind == TokenType::Ident {
            lemma_parse_loop_well_formed(s, p1, SpecExpr::Ident(w), min_bp);
        } else if kind == TokenType::Plus || kind == TokenType::Minus {
            lemma_parse_well_formed(s, p1, prefix_bp() as int);
            if let Parsed::Done(rhs, p2) = parse_bp(s, p1, prefix_bp() as int) {
                if p < p2 <= s.len() {
                    let e = SpecExpr::Binary(kind, seq![rhs]);
                    assert(well_formed(e));
                    lemma_parse_loop_well_formed(s, p2, e, min_bp);
                }
            }
        } else if kind == TokenType::LeftParen {
            lemma_parse_well_formed(s, p1, 0);
            if let Parsed::Done(inner, p2) = parse_bp(s, p1, 0) {
                if let Scan::Token(TokenType::RightParen, _, p3) = scan(s, p2) {
                    if p < p3 <= s.len() {
                        lemma_parse_loop_well_formed(s, p3, inner, min_bp);
                    }
                }
            }
        }
    }
}

/// The rest of a parse keeps a well formed operand well formed.
pub proof fn lemma_parse_loop_well_formed(s: Seq<char>, p: int, lhs: SpecExpr, min_bp: int)
    requires
        well_formed(lhs),
    ensures
        parse_loop(s, p, lhs, min_bp) matches Parsed::Done(e, _) ==> well_formed(e),
    decreases s.len() - p,
{
    lemma_scan_advances(s, p);
    if let Scan::Token(op, _, p1) = scan(s, p) {
        if postfix_bp(op) is Some {
            if (postfix_bp(op)->0 as int) >= min_bp {
                if op == TokenType::LeftBrace {
                    lemma_parse_well_formed(s, p1, 0);
                    if let Parsed::Done(rhs, p2) = parse_bp(s, p1, 0) {
                        if let Scan::Token(TokenType::RightBrace, _, p3) = scan(s, p2) {
                            if p < p3 <= s.len() {
                                let e = SpecExpr::Binary(op, seq![lhs, rhs]);
                                assert(well_formed(e));
                                lemma_parse_loop_well_formed(s, p3, e, min_bp);
                            }
                        }
                    }
                } else {
                    let e = SpecExpr::Binary(op, seq![lhs]);
                    assert(well_formed(e));
                    lemma_parse_loop_well_formed(s, p1, e, min_bp);
                }
            }
        } else if infix_bp(op) is Some {
            let (l_bp, r_bp) = infix_bp(op)->0;
            if (l_bp as int) >= min_bp {
                if op == TokenType::Ternary {
                    lemma_parse_well_formed(s, p1, 0);
                    if let Parsed::Done(mhs, p2) = parse_bp(s, p1, 0) {
                        if let Scan::Token(TokenType::Colon, _, p3) = scan(s, p2) {
                            if p < p3 <= s.len() {
                                lemma_parse_well_formed(s, p3, r_bp as int);
                                if let Parsed::Done(rhs, p4) = parse_bp(s, p3, r_bp as int) {
                                    if p < p4 <= s.len() {
                                        let e = SpecExpr::Binary(op, seq![lhs, mhs, rhs]);
                                        assert(well_formed(e));
                                        lemma_parse_loop_well_formed(s, p4, e, min_bp);
                                    }
                                }
                            }
                        }
                    }
                } else {
                    lemma_parse_well_formed(s, p1, r_bp as int);
                    if let Parsed::Done(rhs, p2) = parse_bp(s, p1, r_bp as int) {
                        if p < p2 <= s.len() {
                            let e = SpecExpr::Binary(op, seq![lhs, rhs]);
                            assert(well_formed(e));
                            lemma_parse_loop_well_formed(s, p2, e, min_bp);
                        }
                    }
                }
            }
        }
    }
}


/// Where a parse may stop, at position `q` of `s`: at the end of the
/// tokens, at a token that is no operator, or at an operator that binds
/// less tightly than `min_bp`.
pub open spec fn stops_at(s: Seq<char>, q: int, min_bp: int) -> bool {
    match scan(s, q) {
        Scan::End => true,
        Scan::Diverges => false,
        Scan::Token(op, _, _) => if postfix_bp(op) is Some {
            (postfix_bp(op)->0 as int) < min_bp
        } else if infix_bp(op) is Some {
            let (l_bp, _) = infix_bp(op)->0;
            (l_bp as int) < min_bp
        } else {
            true
        },
    }
}

/// The rest of a parse stops only where `stops_at` allows.
pub proof fn lemma_parse_loop_stops(s: Seq<char>, p: int, lhs: SpecExpr, min_bp: int)
    ensures
        parse_loop(s, p, lhs, min_bp) matches Parsed::Done(_, q) ==> stops_at(s, q, min_bp),
    decreases s.len() - p,
{
    lemma_scan_advances(s, p);
    if let Scan::Token(op, _, p1) = scan(s, p) {
        if postfix_bp(op) is Some {
            if (postfix_bp(op)->0 as int) >= min_bp {
                if op == TokenType::LeftBrace {
                    if let Parsed::Done(rhs, p2) = parse_bp(s, p1, 0) {
                        if let Scan::Token(TokenType::RightBrace, _, p3) = scan(s, p2) {
                            if p < p3 <= s.len() {
                                lemma_parse_loop_stops(
                                    s,
                                    p3,
                                    SpecExpr::Binary(op, seq![lhs, rhs]),
                                    min_bp,
                                );
                            }
                        }
                    }
                } else {
                    lemma_parse_loop_stops(s, p1, SpecExpr::Binary(op, seq![lhs]), min_bp);
                }
            }
        } else if infix_bp(op) is Some {
            let (l_bp, r_bp) = infix_bp(op)->0;
            if (l_bp as int) >= min_bp {
                if op == TokenType::Ternary {
                    if let Parsed::Done(mhs, p2) = parse_bp(s, p1, 0) {
                        if let Scan::Token(TokenType::Colon, _, p3) = scan(s, p2) {
                            if p < p3 <= s.len() {
                                if let Parsed::Done(rhs, p4) = parse_bp(s, p3, r_bp as int) {
                                    if p < p4 <= s.len() {
                                        lemma_parse_loop_stops(
                                            s,
                                            p4,
                                            SpecExpr::Binary(op, seq![lhs, mhs, rhs]),
                                            min_bp,
                                        );
                                    }
                                }
                            }
                        }
                    }
                } else {
                    if let Parsed::Done(rhs, p2) = parse_bp(s, p1, r_bp as int) {
                        if p < p2 <= s.len() {
                            lemma_parse_loop_stops(
                                s,
                                p2,
                                SpecExpr::Binary(op, seq![lhs, rhs]),
                                min_bp,
                            );
                        }
                    }
                }
            }
        }
    }
}

/// A parse that ends with an expression stops only at the end of the
/// tokens, at a token that is no operator, or at an operator that binds less
/// tightly than `min_bp`.
pub proof fn lemma_parse_stops(s: Seq<char>, p: int, min_bp: int)
    ensures
        parse_bp(s, p, min_bp) matches Parsed::Done(_, q) ==> stops_at(s, q, min_bp),
{
    lemma_scan_advances(s, p);
    if let Scan::Token(kind, w, p1) = scan(s, p) {
        if kind == TokenType::Number {
            lemma_parse_loop_stops(s, p1, SpecExpr::Number(w), min_bp);
        } else if kind == TokenType::Ident {
            lemma_parse_loop_stops(s, p1, SpecExpr::Ident(w), min_bp);
        } else if kind == TokenType::Plus || kind == TokenType::Minus {
            if let Parsed::Done(rhs, p2) = parse_bp(s, p1, prefix_bp() as int) {
                if p < p2 <= s.len() {
                    lemma_parse_loop_stops(s, p2, SpecExpr::Binary(kind, seq![rhs]), min_bp);
                }
            }
        } else if kind == TokenType::LeftParen {
            if let Parsed::Done(inner, p2) = parse_bp(s, p1, 0) {
                if let Scan::Token(TokenType::RightParen, _, p3) = scan(s, p2) {
                    if p < p3 <= s.len() {
                        lemma_parse_loop_stops(s, p3, inner, min_bp);
                    }
                }
            }
        }
    }
}

/// Inside a text put between parentheses, a parse that ends with an
/// expression in the text ends with the same expression, one position on.
pub proof fn lemma_parse_parenthesized(s: Seq<char>, p: int, min_bp: int)
    requires
        0 <= p <= s.len(),
    ensures
        parse_bp(s, p, min_bp) matches Parsed::Done(e, q) ==> parse_bp(
            parenthesized(s),
            p + 1,
            min_bp,
        ) == Parsed::Done(e, q + 1),
    decreases s.len() - p,
{
    let t = parenthesized(s);
    lemma_scan_advances(s, p);
    lemma_scan_parenthesized(s, p);
    if let Scan::Token(kind, w, p1) = scan(s, p) {
        if kind == TokenType::Number {
            lemma_parse_loop_parenthesized(s, p1, SpecExpr::Number(w), min_bp);
        } else if kind == TokenType::Ident {
            lemma_parse_loop_parenthesized(s, p1, SpecExpr::Ident(w), min_bp);
        } else if kind == TokenType::Plus || kind == TokenType::Minus {
            lemma_parse_parenthesized(s, p1, prefix_bp() as int);
            if let Parsed::Done(rhs, p2) = parse_bp(s, p1, prefix_bp() as int) {
                if p < p2 <= s.len() {
                    lemma_parse_loop_parenthesized(
                        s,
                        p2,
                        SpecExpr::Binary(kind, seq![rhs]),
                        min_bp,
                    );
                }
            }
        } else if kind == TokenType::LeftParen {
            lemma_parse_parenthesized(s, p1, 0);
            lemma_parse_advances(s, p1, 0);
            if let Parsed::Done(inner, p2) = parse_bp(s, p1, 0) {
                lemma_scan_parenthesized(s, p2);
                if let Scan::Token(TokenType::RightParen, _, p3) = scan(s, p2) {
                    if p < p3 <= s.len() {
                        lemma_parse_loop_parenthesized(s, p3, inner, min_bp);
                    }
                }
            }
        }
    }
}

/// Inside a text put between parentheses, the rest of a parse that ends
/// with an expression in the text ends with the same expression, one
/// position on.
pub proof fn lemma_parse_loop_parenthesized(s: Seq<char>, p: int, lhs: SpecExpr, min_bp: int)
    requires
        0 <= p <= s.len(),
    ensures
        parse_loop(s, p, lhs, min_bp) matches Parsed::Done(e, q) ==> parse_loop(
            parenthesized(s),
            p + 1,
            lhs,
            min_bp,
        ) == Parsed::Done(e, q + 1),
    decreases s.len() - p,
{
    let t = parenthesized(s);
    lemma_scan_advances(s, p);
    lemma_scan_parenthesized(s, p);
    if let Scan::Token(op, _, p1) = scan(s, p) {
        if postfix_bp(op) is Some {
            if (postfix_bp(op)->0 as int) >= min_bp {
                if op == TokenType::LeftBrace {
                    lemma_parse_parenthesized(s, p1, 0);
                    lemma_parse_advances(s, p1, 0);
                    if let Parsed::Done(rhs, p2) = parse_bp(s, p1, 0) {
                        lemma_scan_parenthesized(s, p2);
                        if let Scan::Token(TokenType::RightBrace, _, p3) = scan(s, p2) {
                            if p < p3 <= s.len() {
                                lemma_parse_loop_parenthesized(
                                    s,
                                    p3,
                                    SpecExpr::Binary(op, seq![lhs, rhs]),
                                    min_bp,
                                );
                            }
                        }
                    }
                } else {
                    lemma_parse_loop_parenthesized(
                        s,
                        p1,
                        SpecExpr::Binary(op, seq![lhs]),
                        min_bp,
                    );
                }
            }
        } else if infix_bp(op) is Some {
            let (l_bp, r_bp) = infix_bp(op)->0;
            if (l_bp as int) >= min_bp {
                if op == TokenType::Ternary {
                    lemma_parse_parenthesized(s, p1, 0);
                    lemma_parse_advances(s, p1, 0);
                    if let Parsed::Done(mhs, p2) = parse_bp(s, p1, 0) {
                        lemma_scan_parenthesized(s, p2);
                        if let Scan::Token(TokenType::Colon, _, p3) = scan(s, p2) {
                            if p < p3 <= s.len() {
                                lemma_parse_parenthesized(s, p3, r_bp as int);
                                if let Parsed::Done(rhs, p4) = parse_bp(s, p3, r_bp as int) {
                                    if p < p4 <= s.len() {
                                        lemma_parse_loop_parenthesized(
                                            s,
                                            p4,
                                            SpecExpr::Binary(op, seq![lhs, mhs, rhs]),
                                            min_bp,
                                        );
                                    }
                                }
                            }
                        }
                    }
                } else {
                    lemma_parse_parenthesized(s, p1, r_bp as int);
                    if let Parsed::Done(rhs, p2) = parse_bp(s, p1, r_bp as int) {
                        if p < p2 <= s.len() {
                            lemma_parse_loop_parenthesized(
                                s,
                                p2,
                                SpecExpr::Binary(op, seq![lhs, rhs]),
                                min_bp,
                            );
                        }
                    }
                }
            }
        }
    }
}

/// Inside a wrapped text, a parse that ends with an expression in the text
/// ends with the same expression, moved by the prefix.
pub proof fn lemma_parse_wrapped(pre: Seq<char>, s: Seq<char>, close: char, p: int, min_bp: int)
    requires
        is_closer(close),
        0 <= p <= s.len(),
    ensures
        parse_bp(s, p, min_bp) matches Parsed::Done(e, q) ==> parse_bp(
            wrapped(pre, s, close),
            pre.len() + p,
            min_bp,
        ) == Parsed::Done(e, pre.len() + q),
    decreases s.len() - p,
{
    lemma_scan_advances(s, p);
    lemma_scan_wrapped(pre, s, close, p);
    if let Scan::Token(kind, w, p1) = scan(s, p) {
        if kind == TokenType::Number {
            lemma_parse_loop_wrapped(pre, s, close, p1, SpecExpr::Number(w), min_bp);
        } else if kind == TokenType::Ident {
            lemma_parse_loop_wrapped(pre, s, close, p1, SpecExpr::Ident(w), min_bp);
        } else if kind == TokenType::Plus || kind == TokenType::Minus {
            lemma_parse_wrapped(pre, s, close, p1, prefix_bp() as int);
            if let Parsed::Done(rhs, p2) = parse_bp(s, p1, prefix_bp() as int) {
                if p < p2 <= s.len() {
                    lemma_parse_loop_wrapped(
                        pre,
                        s,
                        close,
                        p2,
                        SpecExpr::Binary(kind, seq![rhs]),
                        min_bp,
                    );
                }
            }
        } else if kind == TokenType::LeftParen {
            lemma_parse_wrapped(pre, s, close, p1, 0);
            lemma_parse_advances(s, p1, 0);
            if let Parsed::Done(inner, p2) = parse_bp(s, p1, 0) {
                lemma_scan_wrapped(pre, s, close, p2);
                if let Scan::Token(TokenType::RightParen, _, p3) = scan(s, p2) {
                    if p < p3 <= s.len() {
                        lemma_parse_loop_wrapped(pre, s, close, p3, inner, min_bp);
                    }
                }
            }
        }
    }
}

/// Inside a wrapped text, the rest of a parse that ends with an expression
/// in the text ends with the same expression, moved by the prefix.
pub proof fn lemma_parse_loop_wrapped(
    pre: Seq<char>,
    s: Seq<char>,
    close: char,
    p: int,
    lhs: SpecExpr,
    min_bp: int,
)
    requires
        is_closer(close),
        0 <= p <= s.len(),
    ensures
        parse_loop(s, p, lhs, min_bp) matches Parsed::Done(e, q) ==> parse_loop(
            wrapped(pre, s, close),
            pre.len() + p,
            lhs,
            min_bp,
        ) == Parsed::Done(e, pre.len() + q),
    decreases s.len() - p,
{
    lemma_scan_advances(s, p);
    lemma_scan_wrapped(pre, s, close, p);
    if let Scan::Token(op, _, p1) = scan(s, p) {
        if postfix_bp(op) is Some {
            if (postfix_bp(op)->0 as int) >= min_bp {
                if op == TokenType::LeftBrace {
                    lemma_parse_wrapped(pre, s, close, p1, 0);
                    lemma_parse_advances(s, p1, 0);
                    if let Parsed::Done(rhs, p2) = parse_bp(s, p1, 0) {
                        lemma_scan_wrapped(pre, s, close, p2);
                        if let Scan::Token(TokenType::RightBrace, _, p3) = scan(s, p2) {
                            if p < p3 <= s.len() {
                                lemma_parse_loop_wrapped(
                                    pre,
                                    s,
                                    close,
                                    p3,
                                    SpecExpr::Binary(op, seq![lhs, rhs]),
                                    min_bp,
                                );
                            }
                        }
                    }
                } else {
                    lemma_parse_loop_wrapped(
                        pre,
                        s,
                        close,
                        p1,
                        SpecExpr::Binary(op, seq![lhs]),
                        min_bp,
                    );
                }
            }
        } else if infix_bp(op) is Some {
            let (l_bp, r_bp) = infix_bp(op)->0;
            if (l_bp as int) >= min_bp {
                if op == TokenType::Ternary {
                    lemma_parse_wrapped(pre, s, close, p1, 0);
                    lemma_parse_advances(s, p1, 0);
                    if let Parsed::Done(mhs, p2) = parse_bp(s, p1, 0) {
                        lemma_scan_wrapped(pre, s, close, p2);
                        if let Scan::Token(TokenType::Colon, _, p3) = scan(s, p2) {
                            if p < p3 <= s.len() {
                                lemma_parse_wrapped(pre, s, close, p3, r_bp as int);
                                if let Parsed::Done(rhs, p4) = parse_bp(s, p3, r_bp as int) {
                                    if p < p4 <= s.len() {
                                        lemma_parse_loop_wrapped(
                                            pre,
                                            s,
                                            close,
                                            p4,
                                            SpecExpr::Binary(op, seq![lhs, mhs, rhs]),
                                            min_bp,
                                        );
                                    }
                                }
                            }
                        }
                    }
                } else {
                    lemma_parse_wrapped(pre, s, close, p1, r_bp as int);
                    if let Parsed::Done(rhs, p2) = parse_bp(s, p1, r_bp as int) {
                        if p < p2 <= s.len() {
                            lemma_parse_loop_wrapped(
                                pre,
                                s,
                                close,
                                p2,
                                SpecExpr::Binary(op, seq![lhs, rhs]),
                                min_bp,
                            );
                        }
                    }
                }
            }
        }
    }
}

/// Parentheses are transparent: where a text parses to an expression and
/// leaves no token unread, the text put between parentheses parses to the
/// same expression, and leaves none either.
pub proof fn lemma_parentheses_transparent(s: Seq<char>)
    requires
        parse_text(s) matches Parsed::Done(_, q) && scan(s, q) is End,
    ensures
        parse_text(parenthesized(s)) == Parsed::Done(
            parse_text(s)->Done_0,
            parenthesized(s).len() as int,
        ),
{
    let t = parenthesized(s);
    let q = parse_text(s)->Done_1;
    assert(t.len() == s.len() + 2);
    assert(t[0] == '(');
    assert(scan(t, 0) == Scan::Token(TokenType::LeftParen, seq!['('], 1));
    lemma_parse_advances(s, 0, 0);
    lemma_parse_parenthesized(s, 0, 0);
    lemma_scan_parenthesized(s, q);
    let e = parse_text(s)->Done_0;
    assert(parse_bp(t, 1, 0) == Parsed::Done(e, q + 1));
    assert(scan(t, q + 1) == Scan::Token(TokenType::RightParen, seq![')'], s.len() + 2int));
    assert(scan(t, s.len() + 2int) == Scan::End);
    assert(parse_loop(t, s.len() + 2int, e, 0) == Parsed::Done(e, s.len() + 2int));
}

/// Braces are transparent: where a text parses to an expression and leaves
/// no token unread, a name followed by the text between braces parses to
/// the name indexed by that whole expression, and leaves no token unread.
pub proof fn lemma_braces_transparent(x: Seq<char>, s: Seq<char>)
    requires
        is_name(x),
        parse_text(s) matches Parsed::Done(_, q) && scan(s, q) is End,
    ensures
        parse_text(wrapped(x + seq!['{'], s, '}')) == Parsed::Done(
            SpecExpr::Binary(
                TokenType::LeftBrace,
                seq![SpecExpr::Ident(x), parse_text(s)->Done_0],
            ),
            wrapped(x + seq!['{'], s, '}').len() as int,
        ),
{
    let pre = x + seq!['{'];
    let u = wrapped(pre, s, '}');
    let nx = x.len() as int;
    let e = parse_text(s)->Done_0;
    let q = parse_text(s)->Done_1;
    assert(u.len() == nx + 1 + s.len() + 1);
    assert(u.subrange(0, nx) =~= x);
    assert(u[nx] == '{');
    lemma_scan_name(u, 0, nx);
    assert(scan(u, nx) == Scan::Token(TokenType::LeftBrace, seq!['{'], nx + 1));
    lemma_parse_advances(s, 0, 0);
    lemma_parse_wrapped(pre, s, '}', 0, 0);
    assert(parse_bp(u, nx + 1, 0) == Parsed::Done(e, nx + 1 + q));
    lemma_scan_wrapped(pre, s, '}', q);
    let end = u.len() as int;
    assert(scan(u, nx + 1 + q) == Scan::Token(TokenType::RightBrace, seq!['}'], end));
    assert(scan(u, end) == Scan::End);
    let b = SpecExpr::Binary(TokenType::LeftBrace, seq![SpecExpr::Ident(x), e]);
    assert(parse_loop(u, end, b, 0) == Parsed::Done(b, end));
    assert(parse_loop(u, nx, SpecExpr::Ident(x), 0) == Parsed::Done(b, end));
}

/// The infix operators that take an operand on each side.
pub open spec fn is_binary_op(o: TokenType) -> bool {
    o == TokenType::Equal || o == TokenType::Plus || o == TokenType::Minus || o == TokenType::Star
        || o == TokenType::Slash
}

/// The character that writes a binary operator.
pub open spec fn op_char(o: TokenType) -> char {
    match o {
        TokenType::Equal => '=',
        TokenType::Plus => '+',
        TokenType::Minus => '-',
        TokenType::Star => '*',
        _ => '/',
    }
}

/// How tightly a binary operator binds: `=` least, then `+` and `-`, then
/// `*` and `/`.
pub open spec fn precedence(o: TokenType) -> int {
    match o {
        TokenType::Equal => 1,
        TokenType::Plus | TokenType::Minus => 2,
        _ => 3,
    }
}

/// Whether `a o1 b o2 c` groups as `(a o1 b) o2 c`: where `o1` binds more
/// tightly than `o2`, or as tightly and associates to the left, as all but
/// `=` do; otherwise it groups as `a o1 (b o2 c)`.
pub open spec fn groups_left(o1: TokenType, o2: TokenType) -> bool {
    precedence(o1) > precedence(o2) || (precedence(o1) == precedence(o2) && o1
        != TokenType::Equal)
}

/// The text `x o1 y o2 z`, with a space on each side of each operator.
pub open spec fn chain(
    x: Seq<char>,
    o1: TokenType,
    y: Seq<char>,
    o2: TokenType,
    z: Seq<char>,
) -> Seq<char> {
    x + seq![' ', op_char(o1), ' '] + y + seq![' ', op_char(o2), ' '] + z
}

/// A binary operator between two spaces reads as its token, from the first
/// space.
proof fn lemma_scan_op(t: Seq<char>, i: int, o: TokenType)
    requires
        is_binary_op(o),
        0 <= i,
        i + 2 < t.len(),
        t[i] == ' ',
        t[i + 1] == op_char(o),
        t[i + 2] == ' ',
    ensures
        scan(t, i) == Scan::Token(o, seq![op_char(o)], i + 2),
{
    assert(scan(t, i) == scan(t, i + 1));
}

/// A space and then a name read as the name's token.
proof fn lemma_scan_space_name(t: Seq<char>, i: int, k: int)
    requires
        0 <= i,
        i + 1 < k <= t.len(),
        t[i] == ' ',
        is_name(t.subrange(i + 1, k)),
        k == t.len() || (t[k] <= '\u{7f}' && !crate::lex::is_ascii_word_char(t[k])),
    ensures
        scan(t, i) == Scan::Token(TokenType::Ident, t.subrange(i + 1, k), k),
{
    assert(scan(t, i) == scan(t, i + 1));
    lemma_scan_name(t, i + 1, k);
}

/// Precedence and associativity: `x o1 y o2 z`, with names for operands and
/// binary operators, groups as `(x o1 y) o2 z` where `o1` binds more
/// tightly than `o2` or as tightly and to the left, and as `x o1 (y o2 z)`
/// otherwise; the parse reads the whole text.
#[verifier::spinoff_prover]
#[verifier::rlimit(50)]
pub proof fn lemma_two_operators(
    x: Seq<char>,
    o1: TokenType,
    y: Seq<char>,
    o2: TokenType,
    z: Seq<char>,
)
    requires
        is_name(x),
        is_name(y),
        is_name(z),
        is_binary_op(o1),
        is_binary_op(o2),
    ensures
        parse_text(chain(x, o1, y, o2, z)) == Parsed::Done(
            if groups_left(o1, o2) {
                SpecExpr::Binary(
                    o2,
                    seq![
                        SpecExpr::Binary(o1, seq![SpecExpr::Ident(x), SpecExpr::Ident(y)]),
                        SpecExpr::Ident(z),
                    ],
                )
            } else {
                SpecExpr::Binary(
                    o1,
                    seq![
                        SpecExpr::Ident(x),
                        SpecExpr::Binary(o2, seq![SpecExpr::Ident(y), SpecExpr::Ident(z)]),
                    ],
                )
            },
            chain(x, o1, y, o2, z).len() as int,
        ),
{
    let t = chain(x, o1, y, o2, z);
    let nx = x.len() as int;
    let py: int = nx + 3 + y.len();
    let end = t.len() as int;
    assert(end == py + 3 + z.len());
    assert(t.subrange(0, nx) =~= x);
    assert(t.subrange(nx + 3, py) =~= y);
    assert(t.subrange(py + 3, end) =~= z);
    assert(t[nx] == ' ' && t[nx + 1] == op_char(o1) && t[nx + 2] == ' ');
    assert(t[py] == ' ' && t[py + 1] == op_char(o2) && t[py + 2] == ' ');
    lemma_scan_name(t, 0, nx);
    lemma_scan_op(t, nx, o1);
    lemma_scan_space_name(t, nx + 2, py);
    lemma_scan_op(t, py, o2);
    lemma_scan_space_name(t, py + 2, end);
    assert(scan(t, end) == Scan::End);
    let (l1, r1) = infix_bp(o1)->0;
    let (l2, r2) = infix_bp(o2)->0;
    let ex = SpecExpr::Ident(x);
    let ey = SpecExpr::Ident(y);
    let ez = SpecExpr::Ident(z);
    assert(parse_loop(t, end, ez, r2 as int) == Parsed::Done(ez, end));
    assert(parse_bp(t, py + 2, r2 as int) == Parsed::Done(ez, end));
    if groups_left(o1, o2) {
        assert((l2 as int) < (r1 as int));
        assert(parse_loop(t, py, ey, r1 as int) == Parsed::Done(ey, py));
        assert(parse_bp(t, nx + 2, r1 as int) == Parsed::Done(ey, py));
        let b1 = SpecExpr::Binary(o1, seq![ex, ey]);
        let b2 = SpecExpr::Binary(o2, seq![b1, ez]);
        assert(parse_loop(t, end, b2, 0) == Parsed::Done(b2, end));
        assert(parse_loop(t, py, b1, 0) == Parsed::Done(b2, end));
        assert(parse_loop(t, nx, ex, 0) == Parsed::Done(b2, end));
    } else {
        assert((l2 as int) >= (r1 as int));
        let b2 = SpecExpr::Binary(o2, seq![ey, ez]);
        let b1 = SpecExpr::Binary(o1, seq![ex, b2]);
        assert(parse_loop(t, end, b2, r1 as int) == Parsed::Done(b2, end));
        assert(parse_loop(t, py, ey, r1 as int) == Parsed::Done(b2, end));
        assert(parse_bp(t, nx + 2, r1 as int) == Parsed::Done(b2, end));
        assert(parse_loop(t, end, b1, 0) == Parsed::Done(b1, end));
        assert(parse_loop(t, nx, ex, 0) == Parsed::Done(b1, end));
    }
}

/// A prefix `+` or `-` binds more tightly than every binary operator:
/// `s x o y` (with `s` the sign, names for operands) groups as `(s x) o y`,
/// and the parse reads the whole text.
pub proof fn lemma_prefix_binds_tightly(sign: TokenType, x: Seq<char>, o: TokenType, y: Seq<char>)
    requires
        sign == TokenType::Plus || sign == TokenType::Minus,
        is_name(x),
        is_name(y),
        is_binary_op(o),
    ensures
        ({
            let t = seq![op_char(sign), ' '] + x + seq![' ', op_char(o), ' '] + y;
            parse_text(t) == Parsed::Done(
                SpecExpr::Binary(
                    o,
                    seq![SpecExpr::Binary(sign, seq![SpecExpr::Ident(x)]), SpecExpr::Ident(y)],
                ),
                t.len() as int,
            )
        }),
{
    let t = seq![op_char(sign), ' '] + x + seq![' ', op_char(o), ' '] + y;
    let px: int = 2 + x.len() as int;
    let end = t.len() as int;
    assert(end == px + 3 + y.len());
    assert(t.subrange(2, px) =~= x);
    assert(t.subrange(px + 3, end) =~= y);
    assert(t[0] == op_char(sign) && t[1] == ' ');
    assert(t[px] == ' ' && t[px + 1] == op_char(o) && t[px + 2] == ' ');
    assert(scan(t, 0) == Scan::Token(sign, seq![op_char(sign)], 1));
    lemma_scan_space_name(t, 1, px);
    lemma_scan_op(t, px, o);
    lemma_scan_space_name(t, px + 2, end);
    assert(scan(t, end) == Scan::End);
    let (l, r) = infix_bp(o)->0;
    let ex = SpecExpr::Ident(x);
    let ey = SpecExpr::Ident(y);
    let neg = SpecExpr::Binary(sign, seq![ex]);
    let b = SpecExpr::Binary(o, seq![neg, ey]);
    assert(parse_loop(t, px, ex, prefix_bp() as int) == Parsed::Done(ex, px));
    assert(parse_bp(t, 1, prefix_bp() as int) == Parsed::Done(ex, px));
    assert(parse_loop(t, end, ey, r as int) == Parsed::Done(ey, end));
    assert(parse_bp(t, px + 2, r as int) == Parsed::Done(ey, end));
    assert(parse_loop(t, end, b, 0) == Parsed::Done(b, end));
    assert(parse_loop(t, px, neg, 0) == Parsed::Done(b, end));
}

/// A postfix `!` binds more tightly than every binary operator: `x o y!`
/// (names for operands) groups as `x o (y!)`, and the parse reads the whole
/// text.
pub proof fn lemma_postfix_binds_tightly(x: Seq<char>, o: TokenType, y: Seq<char>)
    requires
        is_name(x),
        is_name(y),
        is_binary_op(o),
    ensures
        ({
            let t = x + seq![' ', op_char(o), ' '] + y + seq!['!'];
            parse_text(t) == Parsed::Done(
                SpecExpr::Binary(
                    o,
                    seq![
                        SpecExpr::Ident(x),
                        SpecExpr::Binary(TokenType::Bang, seq![SpecExpr::Ident(y)]),
                    ],
                ),
                t.len() as int,
            )
        }),
{
    let t = x + seq![' ', op_char(o), ' '] + y + seq!['!'];
    let nx = x.len() as int;
    let py: int = nx + 3 + y.len();
    let end = t.len() as int;
    assert(end == py + 1);
    assert(t.subrange(0, nx) =~= x);
    assert(t.subrange(nx + 3, py) =~= y);
    assert(t[nx] == ' ' && t[nx + 1] == op_char(o) && t[nx + 2] == ' ');
    assert(t[py] == '!');
    lemma_scan_name(t, 0, nx);
    lemma_scan_op(t, nx, o);
    lemma_scan_space_name(t, nx + 2, py);
    assert(scan(t, py) == Scan::Token(TokenType::Bang, seq!['!'], end));
    assert(scan(t, end) == Scan::End);
    let (l, r) = infix_bp(o)->0;
    let ex = SpecExpr::Ident(x);
    let ey = SpecExpr::Ident(y);
    let bang = SpecExpr::Binary(TokenType::Bang, seq![ey]);
    let b = SpecExpr::Binary(o, seq![ex, bang]);
    assert(parse_loop(t, end, bang, r as int) == Parsed::Done(bang, end));
    assert(parse_loop(t, py, ey, r as int) == Parsed::Done(bang, end));
    assert(parse_bp(t, nx + 2, r as int) == Parsed::Done(bang, end));
    assert(parse_loop(t, end, b, 0) == Parsed::Done(b, end));
    assert(parse_loop(t, nx, ex, 0) == Parsed::Done(b, end));
}

/// A conditional `x ? y : z` (names for operands) reads as one operator
/// with three operands: the condition and the two choices, in order.
pub proof fn lemma_conditional(x: Seq<char>, y: Seq<char>, z: Seq<char>)
    requires
        is_name(x),
        is_name(y),
        is_name(z),
    ensures
        ({
            let t = x + seq![' ', '?', ' '] + y + seq![' ', ':', ' '] + z;
            parse_text(t) == Parsed::Done(
                SpecExpr::Binary(
                    TokenType::Ternary,
                    seq![SpecExpr::Ident(x), SpecExpr::Ident(y), SpecExpr::Ident(z)],
                ),
                t.len() as int,
            )
        }),
{
    let t = x + seq![' ', '?', ' '] + y + seq![' ', ':', ' '] + z;
    let nx = x.len() as int;
    let py: int = nx + 3 + y.len();
    let end = t.len() as int;
    assert(end == py + 3 + z.len());
    assert(t.subrange(0, nx) =~= x);
    assert(t.subrange(nx + 3, py) =~= y);
    assert(t.subrange(py + 3, end) =~= z);
    assert(t[nx] == ' ' && t[nx + 1] == '?' && t[nx + 2] == ' ');
    assert(t[py] == ' ' && t[py + 1] == ':' && t[py + 2] == ' ');
    lemma_scan_name(t, 0, nx);
    assert(scan(t, nx) == scan(t, nx + 1));
    assert(scan(t, nx) == Scan::Token(TokenType::Ternary, seq!['?'], nx + 2));
    lemma_scan_space_name(t, nx + 2, py);
    assert(scan(t, py) == scan(t, py + 1));
    assert(scan(t, py) == Scan::Token(TokenType::Colon, seq![':'], py + 2));
    lemma_scan_space_name(t, py + 2, end);
    assert(scan(t, end) == Scan::End);
    let ex = SpecExpr::Ident(x);
    let ey = SpecExpr::Ident(y);
    let ez = SpecExpr::Ident(z);
    let b = SpecExpr::Binary(TokenType::Ternary, seq![ex, ey, ez]);
    assert(parse_loop(t, py, ey, 0) == Parsed::Done(ey, py));
    assert(parse_bp(t, nx + 2, 0) == Parsed::Done(ey, py));
    assert(parse_loop(t, end, ez, 3) == Parsed::Done(ez, end));
    assert(parse_bp(t, py + 2, 3) == Parsed::Done(ez, end));
    assert(parse_loop(t, end, b, 0) == Parsed::Done(b, end));
    assert(parse_loop(t, nx, ex, 0) == Parsed::Done(b, end));
}
} // verus!
