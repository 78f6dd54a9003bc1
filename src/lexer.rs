use vstd::prelude::*;
use vstd::string::*;

use crate::parser::ParseError;

verus! {

/// A token of expression text. Numbers and identifiers carry the span
/// `[start, end)` of their characters in the text.
#[derive(Clone, Copy, Debug, PartialEq, Eq, Structural)]
pub enum Token {
    Num(usize, usize),
    Ident(usize, usize),
    Plus,
    Minus,
    Star,
    Slash,
    LParen,
    RParen,
}

pub open spec fn is_space(c: char) -> bool {
    c == ' ' || c == '\t' || c == '\n' || c == '\r'
}

pub open spec fn is_digit(c: char) -> bool {
    '0' <= c <= '9'
}

pub open spec fn is_ident_start(c: char) -> bool {
    ('a' <= c <= 'z') || ('A' <= c <= 'Z') || c == '_'
}

pub open spec fn is_ident_char(c: char) -> bool {
    is_ident_start(c) || is_digit(c)
}

/// The single-character token that `c` stands for, if any.
pub open spec fn symbol(c: char) -> Option<Token> {
    if c == '+' {
        Some(Token::Plus)
    } else if c == '-' {
        Some(Token::Minus)
    } else if c == '*' {
        Some(Token::Star)
    } else if c == '/' {
        Some(Token::Slash)
    } else if c == '(' {
        Some(Token::LParen)
    } else if c == ')' {
        Some(Token::RParen)
    } else {
        None
    }
}

/// How many digits stand in a row in `s` from index `i` on.
pub open spec fn digit_run(s: Seq<char>, i: int) -> nat
    decreases s.len() - i,
{
    if 0 <= i < s.len() && is_digit(s[i]) {
        1 + digit_run(s, i + 1)
    } else {
        0
    }
}

/// How many identifier characters stand in a row in `s` from index `i` on.
pub open spec fn ident_run(s: Seq<char>, i: int) -> nat
    decreases s.len() - i,
{
    if 0 <= i < s.len() && is_ident_char(s[i]) {
        1 + ident_run(s, i + 1)
    } else {
        0
    }
}

/// A run never reaches past the end of the text.
pub proof fn lemma_runs_bounded(s: Seq<char>, i: int)
    requires
        0 <= i <= s.len(),
    ensures
        digit_run(s, i) <= s.len() - i,
        ident_run(s, i) <= s.len() - i,
    decreases s.len() - i,
{
    if i < s.len() {
        lemma_runs_bounded(s, i + 1);
    }
}

/// The end of the number literal that starts with the digit at `i`:
/// digits, then optionally a point followed by at least one digit.
pub open spec fn number_end(s: Seq<char>, i: int) -> int {
    let e = i + 1 + digit_run(s, i + 1);
    if e + 1 < s.len() && s[e] == '.' && is_digit(s[e + 1]) {
        e + 2 + digit_run(s, e + 2)
    } else {
        e
    }
}

/// The tokens of `s` from index `i` on. Whitespace separates tokens; any
/// other character that starts no token is an `UnexpectedToken`.
pub open spec fn lex_from(s: Seq<char>, i: int) -> Result<Seq<Token>, ParseError>
    decreases s.len() - i,
{
    if i < 0 || i >= s.len() {
        Ok(Seq::empty())
    } else if is_space(s[i]) {
        lex_from(s, i + 1)
    } else if is_digit(s[i]) {
        let e = number_end(s, i);
        proof {
            lemma_runs_bounded(s, i + 1);
            let e1 = i + 1 + digit_run(s, i + 1);
            if e1 + 1 < s.len() {
                lemma_runs_bounded(s, e1 + 2);
            }
        }
        match lex_from(s, e) {
            Ok(rest) => Ok(seq![Token::Num(i as usize, e as usize)] + rest),
            Err(k) => Err(k),
        }
    } else if is_ident_start(s[i]) {
        let e = i + 1 + ident_run(s, i + 1);
        proof {
            lemma_runs_bounded(s, i + 1);
        }
        match lex_from(s, e) {
            Ok(rest) => Ok(seq![Token::Ident(i as usize, e as usize)] + rest),
            Err(k) => Err(k),
        }
    } else {
        match symbol(s[i]) {
            Some(tok) => match lex_from(s, i + 1) {
                Ok(rest) => Ok(seq![tok] + rest),
                Err(k) => Err(k),
            },
            None => Err(ParseError::UnexpectedToken),
        }
    }
}

pub open spec fn lex(s: Seq<char>) -> Result<Seq<Token>, ParseError> {
    lex_from(s, 0)
}

/// Every span of `t` lies inside a text of `n` characters, start before end.
pub open spec fn spans_within(t: Seq<Token>, n: int) -> bool {
    forall|k: int|
        0 <= k < t.len() ==> match #[trigger] t[k] {
            Token::Num(a, b) => a < b <= n,
            Token::Ident(a, b) => a < b <= n,
            _ => true,
        }
}

proof fn lemma_extend(prev: Seq<Token>, tok: Token, rest: Result<Seq<Token>, ParseError>)
    ensures
        match rest {
            Ok(r) => prev.push(tok) + r == prev + (seq![tok] + r),
            Err(_) => true,
        },
{
    if let Ok(r) = rest {
        assert(prev.push(tok) + r =~= prev + (seq![tok] + r));
    }
}

fn symbol_of(c: char) -> (r: Option<Token>)
    ensures
        r == symbol(c),
{
    if c == '+' {
        Some(Token::Plus)
    } else if c == '-' {
        Some(Token::Minus)
    } else if c == '*' {
        Some(Token::Star)
    } else if c == '/' {
        Some(Token::Slash)
    } else if c == '(' {
        Some(Token::LParen)
    } else if c == ')' {
        Some(Token::RParen)
    } else {
        None
    }
}

/// The characters of `text`, in order.
pub fn chars_of(text: &str) -> (r: Vec<char>)
    ensures
        r@ == text@,
{
    let n = text.unicode_len();
    let mut r: Vec<char> = Vec::new();
    let mut i: usize = 0;
    while i < n
        invariant
            n == text@.len(),
            i <= n,
            r@ == text@.subrange(0, i as int),
        decreases n - i,
    {
        r.push(text.get_char(i));
        i = i + 1;
    }
    r
}

fn skip_digits(s: &Vec<char>, i: usize) -> (e: usize)
    requires
        i <= s@.len(),
    ensures
        e == i + digit_run(s@, i as int),
        e <= s@.len(),
{
    let mut e = i;
    while e < s.len() && '0' <= s[e] && s[e] <= '9'
        invariant
            i <= e <= s@.len(),
            digit_run(s@, i as int) == (e - i) + digit_run(s@, e as int),
        decreases s@.len() - e,
    {
        e = e + 1;
    }
    e
}

fn skip_ident_chars(s: &Vec<char>, i: usize) -> (e: usize)
    requires
        i <= s@.len(),
    ensures
        e == i + ident_run(s@, i as int),
        e <= s@.len(),
{
    let mut e = i;
    while e < s.len() && (('a' <= s[e] && s[e] <= 'z') || ('A' <= s[e] && s[e] <= 'Z') || s[e]
        == '_' || ('0' <= s[e] && s[e] <= '9'))
        invariant
            i <= e <= s@.len(),
            ident_run(s@, i as int) == (e - i) + ident_run(s@, e as int),
        decreases s@.len() - e,
    {
        e = e + 1;
    }
    e
}

/// Splits `text` into tokens, or reports the first character that starts no
/// token.
pub fn tokenize(text: &str) -> (r: Result<Vec<Token>, ParseError>)
    ensures
        match r {
            Ok(t) => lex(text@) == Ok::<Seq<Token>, ParseError>(t@) && spans_within(
                t@,
                text@.len() as int,
            ),
            Err(k) => lex(text@) == Err::<Seq<Token>, ParseError>(k),
        },
{
    let s = chars_of(text);
    let n = s.len();
    let mut out: Vec<Token> = Vec::new();
    let mut i: usize = 0;
    while i < n
        invariant
            n == s@.len(),
            s@ == text@,
            i <= n,
            spans_within(out@, n as int),
            lex(s@) == match lex_from(s@, i as int) {
                Ok(rest) => Ok(out@ + rest),
                Err(k) => Err::<Seq<Token>, ParseError>(k),
            },
        decreases n - i,
    {
        let c = s[i];
        if c == ' ' || c == '\t' || c == '\n' || c == '\r' {
            i = i + 1;
        } else if '0' <= c && c <= '9' {
            let mut e = skip_digits(&s, i + 1);
            if e < n - 1 && s[e] == '.' && '0' <= s[e + 1] && s[e + 1] <= '9' {
                e = skip_digits(&s, e + 2);
            }
            assert(e == number_end(s@, i as int));
            let ghost prev = out@;
            out.push(Token::Num(i, e));
            proof {
                lemma_extend(prev, Token::Num(i, e), lex_from(s@, e as int));
            }
            i = e;
        } else if ('a' <= c && c <= 'z') || ('A' <= c && c <= 'Z') || c == '_' {
            let e = skip_ident_chars(&s, i + 1);
            let ghost prev = out@;
            out.push(Token::Ident(i, e));
            proof {
                lemma_extend(prev, Token::Ident(i, e), lex_from(s@, e as int));
            }
            i = e;
        } else {
            match symbol_of(c) {
                Some(tok) => {
                    let ghost prev = out@;
                    out.push(tok);
                    proof {
                        lemma_extend(prev, tok, lex_from(s@, i + 1));
                    }
                    i = i + 1;
                },
                None => {
                    return Err(ParseError::UnexpectedToken);
                },
            }
        }
    }
    assert(out@ + Seq::<Token>::empty() == out@);
    Ok(out)
}

} // verus!
