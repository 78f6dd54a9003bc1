//! Recursive descent over tokens, two precedence tiers, left-associative:
//!
//! ```text
//! expr    := term (('+' | '-') term)*
//! term    := factor (('*' | '/') factor)*
//! factor  := ('+' | '-') primary | primary
//! primary := NUMBER | IDENT | '(' expr ')'
//! ```
//!
//! Each rule is a spec function from a token position to the tree it reads
//! and the position after it. A successful rule always consumes a token and
//! stops within the tokens; where a rule goes on from the position another
//! returned, it tests that fact, which makes its recursion visibly finite.

use vstd::prelude::*;
use vstd::string::*;

use crate::ast::{BinaryOp, Expr, ExprView, UnaryOp};
use crate::lexer::{lex, spans_within, tokenize, Token};

verus! {

/// Why a text is not an expression.
#[derive(Clone, Copy, Debug, PartialEq, Eq, Structural)]
pub enum ParseError {
    /// The text holds no token.
    EmptyInput,
    /// A token, or the end of the text, where the grammar allows neither.
    UnexpectedToken,
    /// A `(` whose expression is not followed by `)`.
    UnclosedParen,
    /// Tokens left over after a complete expression.
    TrailingInput,
}

pub type Step = Result<(ExprView, int), ParseError>;

pub open spec fn additive(t: Token) -> Option<BinaryOp> {
    match t {
        Token::Plus => Some(BinaryOp::Add),
        Token::Minus => Some(BinaryOp::Sub),
        _ => None,
    }
}

pub open spec fn multiplicative(t: Token) -> Option<BinaryOp> {
    match t {
        Token::Star => Some(BinaryOp::Mul),
        Token::Slash => Some(BinaryOp::Div),
        _ => None,
    }
}

pub open spec fn prefix(t: Token) -> Option<UnaryOp> {
    match t {
        Token::Plus => Some(UnaryOp::Pos),
        Token::Minus => Some(UnaryOp::Neg),
        _ => None,
    }
}

pub open spec fn primary(s: Seq<char>, t: Seq<Token>, p: int) -> Step
    decreases t.len() - p, 0int,
{
    if p < 0 || p >= t.len() {
        Err(ParseError::UnexpectedToken)
    } else {
        match t[p] {
            Token::Num(a, b) => Ok((ExprView::Val(s.subrange(a as int, b as int)), p + 1)),
            Token::Ident(a, b) => Ok((ExprView::Var(s.subrange(a as int, b as int)), p + 1)),
            Token::LParen => match expr(s, t, p + 1) {
                Ok((e, q)) => if q < t.len() && t[q] == Token::RParen {
                    Ok((e, q + 1))
                } else {
                    Err(ParseError::UnclosedParen)
                },
                Err(k) => Err(k),
            },
            _ => Err(ParseError::UnexpectedToken),
        }
    }
}

pub open spec fn factor(s: Seq<char>, t: Seq<Token>, p: int) -> Step
    decreases t.len() - p, 1int,
{
    if 0 <= p < t.len() && prefix(t[p]) is Some {
        match primary(s, t, p + 1) {
            Ok((e, q)) => Ok((ExprView::Unary(prefix(t[p])->0, Box::new(e)), q)),
            Err(k) => Err(k),
        }
    } else {
        primary(s, t, p)
    }
}

/// Folds `(('*' | '/') factor)*` from position `p` onto `acc`.
pub open spec fn term_rest(s: Seq<char>, t: Seq<Token>, p: int, acc: ExprView) -> Step
    decreases t.len() - p, 2int,
{
    if 0 <= p < t.len() && multiplicative(t[p]) is Some {
        match factor(s, t, p + 1) {
            Ok((f, q)) => if p < q <= t.len() {
                term_rest(
                    s,
                    t,
                    q,
                    ExprView::Binary(multiplicative(t[p])->0, Box::new(acc), Box::new(f)),
                )
            } else {
                Err(ParseError::UnexpectedToken)
            },
            Err(k) => Err(k),
        }
    } else {
        Ok((acc, p))
    }
}

pub open spec fn term(s: Seq<char>, t: Seq<Token>, p: int) -> Step
    decreases t.len() - p, 3int,
{
    match factor(s, t, p) {
        Ok((f, q)) => if p < q <= t.len() {
            term_rest(s, t, q, f)
        } else {
            Err(ParseError::UnexpectedToken)
        },
        Err(k) => Err(k),
    }
}

/// Folds `(('+' | '-') term)*` from position `p` onto `acc`.
pub open spec fn expr_rest(s: Seq<char>, t: Seq<Token>, p: int, acc: ExprView) -> Step
    decreases t.len() - p, 4int,
{
    if 0 <= p < t.len() && additive(t[p]) is Some {
        match term(s, t, p + 1) {
            Ok((f, q)) => if p < q <= t.len() {
                expr_rest(s, t, q, ExprView::Binary(additive(t[p])->0, Box::new(acc), Box::new(f)))
            } else {
                Err(ParseError::UnexpectedToken)
            },
            Err(k) => Err(k),
        }
    } else {
        Ok((acc, p))
    }
}

pub open spec fn expr(s: Seq<char>, t: Seq<Token>, p: int) -> Step
    decreases t.len() - p, 5int,
{
    match term(s, t, p) {
        Ok((f, q)) => if p < q <= t.len() {
            expr_rest(s, t, q, f)
        } else {
            Err(ParseError::UnexpectedToken)
        },
        Err(k) => Err(k),
    }
}

/// The expression that the whole token sequence `t` of text `s` reads as.
pub open spec fn parse_tokens(s: Seq<char>, t: Seq<Token>) -> Result<ExprView, ParseError> {
    if t.len() == 0 {
        Err(ParseError::EmptyInput)
    } else {
        match expr(s, t, 0) {
            Ok((e, q)) => if q == t.len() {
                Ok(e)
            } else {
                Err(ParseError::TrailingInput)
            },
            Err(k) => Err(k),
        }
    }
}

/// The expression that text `s` reads as, or why it reads as none.
pub open spec fn parse_spec(s: Seq<char>) -> Result<ExprView, ParseError> {
    match lex(s) {
        Ok(t) => parse_tokens(s, t),
        Err(k) => Err(k),
    }
}

pub open spec fn step_view(r: Result<(Expr, usize), ParseError>) -> Step {
    match r {
        Ok((e, q)) => Ok((e@, q as int)),
        Err(k) => Err(k),
    }
}

pub open spec fn advances(r: Result<(Expr, usize), ParseError>, p: int, n: int) -> bool {
    match r {
        Ok((_, q)) => p < q <= n,
        Err(_) => true,
    }
}

fn exec_primary(text: &str, t: &Vec<Token>, p: usize) -> (r: Result<(Expr, usize), ParseError>)
    requires
        spans_within(t@, text@.len() as int),
        p <= t@.len(),
    ensures
        step_view(r) == primary(text@, t@, p as int),
        advances(r, p as int, t@.len() as int),
    decreases t@.len() - p, 0int,
{
    if p >= t.len() {
        return Err(ParseError::UnexpectedToken);
    }
    match t[p] {
        Token::Num(a, b) => {
            let lit = text.substring_char(a, b).to_owned();
            Ok((Expr::Val(lit), p + 1))
        },
        Token::Ident(a, b) => {
            let name = text.substring_char(a, b).to_owned();
            Ok((Expr::Var(name), p + 1))
        },
        Token::LParen => {
            match exec_expr(text, t, p + 1) {
                Ok((e, q)) => {
                    if q < t.len() && t[q] == Token::RParen {
                        Ok((e, q + 1))
                    } else {
                        Err(ParseError::UnclosedParen)
                    }
                },
                Err(k) => Err(k),
            }
        },
        _ => Err(ParseError::UnexpectedToken),
    }
}

fn prefix_of(t: Token) -> (r: Option<UnaryOp>)
    ensures
        r == prefix(t),
{
    match t {
        Token::Plus => Some(UnaryOp::Pos),
        Token::Minus => Some(UnaryOp::Neg),
        _ => None,
    }
}

fn additive_of(t: Token) -> (r: Option<BinaryOp>)
    ensures
        r == additive(t),
{
    match t {
        Token::Plus => Some(BinaryOp::Add),
        Token::Minus => Some(BinaryOp::Sub),
        _ => None,
    }
}

fn multiplicative_of(t: Token) -> (r: Option<BinaryOp>)
    ensures
        r == multiplicative(t),
{
    match t {
        Token::Star => Some(BinaryOp::Mul),
        Token::Slash => Some(BinaryOp::Div),
        _ => None,
    }
}

fn exec_factor(text: &str, t: &Vec<Token>, p: usize) -> (r: Result<(Expr, usize), ParseError>)
    requires
        spans_within(t@, text@.len() as int),
        p <= t@.len(),
    ensures
        step_view(r) == factor(text@, t@, p as int),
        advances(r, p as int, t@.len() as int),
    decreases t@.len() - p, 1int,
{
    if p < t.len() {
        if let Some(op) = prefix_of(t[p]) {
            return match exec_primary(text, t, p + 1) {
                Ok((e, q)) => Ok((Expr::Unary(op, Box::new(e)), q)),
                Err(k) => Err(k),
            };
        }
    }
    exec_primary(text, t, p)
}

fn exec_term(text: &str, t: &Vec<Token>, p: usize) -> (r: Result<(Expr, usize), ParseError>)
    requires
        spans_within(t@, text@.len() as int),
        p <= t@.len(),
    ensures
        step_view(r) == term(text@, t@, p as int),
        advances(r, p as int, t@.len() as int),
    decreases t@.len() - p, 3int,
{
    let (mut acc, mut pos) = match exec_factor(text, t, p) {
        Ok(x) => x,
        Err(k) => return Err(k),
    };
    while pos < t.len() && multiplicative_of(t[pos]).is_some()
        invariant
            spans_within(t@, text@.len() as int),
            p < pos <= t@.len(),
            term(text@, t@, p as int) == term_rest(text@, t@, pos as int, acc@),
        decreases t@.len() - pos,
    {
        let op = multiplicative_of(t[pos]).unwrap();
        match exec_factor(text, t, pos + 1) {
            Ok((f, q)) => {
                acc = Expr::Binary(op, Box::new(acc), Box::new(f));
                pos = q;
            },
            Err(k) => return Err(k),
        }
    }
    Ok((acc, pos))
}

fn exec_expr(text: &str, t: &Vec<Token>, p: usize) -> (r: Result<(Expr, usize), ParseError>)
    requires
        spans_within(t@, text@.len() as int),
        p <= t@.len(),
    ensures
        step_view(r) == expr(text@, t@, p as int),
        advances(r, p as int, t@.len() as int),
    decreases t@.len() - p, 5int,
{
    let (mut acc, mut pos) = match exec_term(text, t, p) {
        Ok(x) => x,
        Err(k) => return Err(k),
    };
    while pos < t.len() && additive_of(t[pos]).is_some()
        invariant
            spans_within(t@, text@.len() as int),
            p < pos <= t@.len(),
            expr(text@, t@, p as int) == expr_rest(text@, t@, pos as int, acc@),
        decreases t@.len() - pos,
    {
        let op = additive_of(t[pos]).unwrap();
        match exec_term(text, t, pos + 1) {
            Ok((f, q)) => {
                acc = Expr::Binary(op, Box::new(acc), Box::new(f));
                pos = q;
            },
            Err(k) => return Err(k),
        }
    }
    Ok((acc, pos))
}

/// Parses the whole of `text` as one expression.
pub fn parse(text: &str) -> (r: Result<Expr, ParseError>)
    ensures
        match r {
            Ok(e) => parse_spec(text@) == Ok::<ExprView, ParseError>(e@),
            Err(k) => parse_spec(text@) == Err::<ExprView, ParseError>(k),
        },
{
    let t = match tokenize(text) {
        Ok(t) => t,
        Err(k) => return Err(k),
    };
    if t.len() == 0 {
        return Err(ParseError::EmptyInput);
    }
    match exec_expr(text, &t, 0) {
        Ok((e, q)) => {
            if q == t.len() {
                Ok(e)
            } else {
                Err(ParseError::TrailingInput)
            }
        },
        Err(k) => Err(k),
    }
}

} // verus!
