//! Splitting script text into tokens.
use vstd::prelude::*;
use crate::ast::Operator;

verus! {

/// Whitespace between tokens; a byte order mark counts as whitespace.
pub open spec fn is_space(c: char) -> bool {
    c == ' ' || c == '\t' || c == '\n' || c == '\r' || c == '\u{feff}'
}

/// Characters that end a bare word.
pub open spec fn is_delimiter(c: char) -> bool {
    is_space(c) || c == '{' || c == '}' || c == '=' || c == '<' || c == '>' || c == '#' || c == '"'
}

/// The first position at or after `i` that is not whitespace.
pub open spec fn skip_space(s: Seq<char>, i: int) -> int
    decreases s.len() - i,
{
    if 0 <= i < s.len() && is_space(s[i]) {
        skip_space(s, i + 1)
    } else {
        i
    }
}

/// The end of the bare word that starts at `i`.
pub open spec fn word_end(s: Seq<char>, i: int) -> int
    decreases s.len() - i,
{
    if 0 <= i < s.len() && !is_delimiter(s[i]) {
        word_end(s, i + 1)
    } else {
        i
    }
}

/// The end of the line that holds position `i`, before its line break.
pub open spec fn line_stop(s: Seq<char>, i: int) -> int
    decreases s.len() - i,
{
    if 0 <= i < s.len() && s[i] != '\n' && s[i] != '\r' {
        line_stop(s, i + 1)
    } else {
        i
    }
}

/// The position of the quote that closes a string whose text starts at `i`, or the length of
/// `s` if none does. A backslash protects the character after it.
pub open spec fn quote_end(s: Seq<char>, i: int) -> int
    decreases s.len() - i,
{
    if i < 0 || i >= s.len() {
        s.len() as int
    } else if s[i] == '"' {
        i
    } else if s[i] == '\\' {
        if i + 1 < s.len() {
            quote_end(s, i + 2)
        } else {
            s.len() as int
        }
    } else {
        quote_end(s, i + 1)
    }
}

/// The kinds of token.
#[derive(Debug, Clone, Copy, PartialEq, Eq)]
pub enum TokenKind {
    Open,
    Close,
    Op(Operator),
    /// A string in double quotes, quotes included.
    Quoted,
    /// A bare word: an identifier, a number, a date or a boolean.
    Word,
    /// `#` up to the end of the line.
    Comment,
    /// No token is left.
    End,
    /// A string whose closing quote is missing.
    Unterminated,
}

/// A token: its kind and the positions of its first character and of the one after it.
#[derive(Debug, Clone, Copy, PartialEq, Eq)]
pub struct Token {
    pub kind: TokenKind,
    pub start: usize,
    pub end: usize,
}

/// The token that follows position `i`, after any whitespace: its kind, start and end.
pub open spec fn token_at(s: Seq<char>, i: int) -> (TokenKind, int, int) {
    let p = skip_space(s, i);
    if p >= s.len() {
        (TokenKind::End, p, p)
    } else if s[p] == '{' {
        (TokenKind::Open, p, p + 1)
    } else if s[p] == '}' {
        (TokenKind::Close, p, p + 1)
    } else if s[p] == '=' {
        (TokenKind::Op(Operator::Eq), p, p + 1)
    } else if s[p] == '<' {
        if p + 1 < s.len() && s[p + 1] == '=' {
            (TokenKind::Op(Operator::Le), p, p + 2)
        } else {
            (TokenKind::Op(Operator::Lt), p, p + 1)
        }
    } else if s[p] == '>' {
        if p + 1 < s.len() && s[p + 1] == '=' {
            (TokenKind::Op(Operator::Ge), p, p + 2)
        } else {
            (TokenKind::Op(Operator::Gt), p, p + 1)
        }
    } else if s[p] == '#' {
        (TokenKind::Comment, p, line_stop(s, p))
    } else if s[p] == '"' {
        let q = quote_end(s, p + 1);
        if q >= s.len() {
            (TokenKind::Unterminated, p, s.len() as int)
        } else {
            (TokenKind::Quoted, p, q + 1)
        }
    } else {
        (TokenKind::Word, p, word_end(s, p))
    }
}

/// Skipping whitespace stays within the text and stops on a character that is not whitespace.
pub proof fn lemma_skip_space_bounds(s: Seq<char>, i: int)
    requires
        0 <= i <= s.len(),
    ensures
        i <= skip_space(s, i) <= s.len(),
        skip_space(s, i) < s.len() ==> !is_space(s[skip_space(s, i)]),
    decreases s.len() - i,
{
    if i < s.len() && is_space(s[i]) {
        lemma_skip_space_bounds(s, i + 1);
    }
}

proof fn lemma_word_end_bounds(s: Seq<char>, i: int)
    requires
        0 <= i <= s.len(),
    ensures
        i <= word_end(s, i) <= s.len(),
    decreases s.len() - i,
{
    if i < s.len() && !is_delimiter(s[i]) {
        lemma_word_end_bounds(s, i + 1);
    }
}

/// The end of a line lies between its start and the end of the text.
pub proof fn lemma_line_stop_bounds(s: Seq<char>, i: int)
    requires
        0 <= i <= s.len(),
    ensures
        i <= line_stop(s, i) <= s.len(),
    decreases s.len() - i,
{
    if i < s.len() && s[i] != '\n' && s[i] != '\r' {
        lemma_line_stop_bounds(s, i + 1);
    }
}

proof fn lemma_quote_end_bounds(s: Seq<char>, i: int)
    requires
        0 <= i,
    ensures
        i <= quote_end(s, i) <= s.len() || (i > s.len() && quote_end(s, i) == s.len()),
        quote_end(s, i) < s.len() ==> s[quote_end(s, i)] == '"',
    decreases s.len() - i,
{
    if i < s.len() && s[i] != '"' {
        if s[i] == '\\' {
            if i + 1 < s.len() {
                lemma_quote_end_bounds(s, i + 2);
            }
        } else {
            lemma_quote_end_bounds(s, i + 1);
        }
    }
}

/// Where the token after `i` lies: it starts at or after `i`, and every token but the end of
/// input takes at least one character.
pub proof fn lemma_token_bounds(s: Seq<char>, i: int)
    requires
        0 <= i <= s.len(),
    ensures
        i <= token_at(s, i).1 <= token_at(s, i).2 <= s.len(),
        token_at(s, i).0 != TokenKind::End ==> token_at(s, i).1 < token_at(s, i).2,
        token_at(s, i).0 == TokenKind::Quoted ==> token_at(s, i).1 + 2 <= token_at(s, i).2,
{
    lemma_skip_space_bounds(s, i);
    let p = skip_space(s, i);
    if p < s.len() {
        lemma_word_end_bounds(s, p);
        lemma_line_stop_bounds(s, p);
        lemma_quote_end_bounds(s, p + 1);
        if !is_delimiter(s[p]) {
            assert(word_end(s, p) == word_end(s, p + 1));
            lemma_word_end_bounds(s, p + 1);
        }
        if s[p] == '#' {
            lemma_line_stop_bounds(s, p + 1);
        }
    }
}

fn is_space_char(c: char) -> (r: bool)
    ensures
        r == is_space(c),
{
    c == ' ' || c == '\t' || c == '\n' || c == '\r' || c == '\u{feff}'
}

fn is_delimiter_char(c: char) -> (r: bool)
    ensures
        r == is_delimiter(c),
{
    is_space_char(c) || c == '{' || c == '}' || c == '=' || c == '<' || c == '>' || c == '#' || c
        == '"'
}

/// The token after position `i` of `cs`.
pub fn next_token(cs: &Vec<char>, i: usize) -> (t: Token)
    requires
        i <= cs@.len(),
    ensures
        (t.kind, t.start as int, t.end as int) == token_at(cs@, i as int),
{
    proof {
        lemma_token_bounds(cs@, i as int);
    }
    let n = cs.len();
    let mut p = i;
    while p < n && is_space_char(cs[p])
        invariant
            i <= p <= n,
            n == cs@.len(),
            skip_space(cs@, p as int) == skip_space(cs@, i as int),
        decreases n - p,
    {
        p += 1;
    }
    if p >= n {
        return Token { kind: TokenKind::End, start: p, end: p };
    }
    let c = cs[p];
    if c == '{' {
        Token { kind: TokenKind::Open, start: p, end: p + 1 }
    } else if c == '}' {
        Token { kind: TokenKind::Close, start: p, end: p + 1 }
    } else if c == '=' {
        Token { kind: TokenKind::Op(Operator::Eq), start: p, end: p + 1 }
    } else if c == '<' {
        if p + 1 < n && cs[p + 1] == '=' {
            Token { kind: TokenKind::Op(Operator::Le), start: p, end: p + 2 }
        } else {
            Token { kind: TokenKind::Op(Operator::Lt), start: p, end: p + 1 }
        }
    } else if c == '>' {
        if p + 1 < n && cs[p + 1] == '=' {
            Token { kind: TokenKind::Op(Operator::Ge), start: p, end: p + 2 }
        } else {
            Token { kind: TokenKind::Op(Operator::Gt), start: p, end: p + 1 }
        }
    } else if c == '#' {
        let mut e = p;
        while e < n && cs[e] != '\n' && cs[e] != '\r'
            invariant
                p <= e <= n,
                n == cs@.len(),
                line_stop(cs@, e as int) == line_stop(cs@, p as int),
            decreases n - e,
        {
            e += 1;
        }
        Token { kind: TokenKind::Comment, start: p, end: e }
    } else if c == '"' {
        let mut q = p + 1;
        let mut closed = false;
        while q < n && !closed
            invariant
                p + 1 <= q <= n,
                n == cs@.len(),
                closed ==> q < n && cs@[q as int] == '"' && quote_end(cs@, q as int) == q,
                quote_end(cs@, q as int) == quote_end(cs@, p + 1),
            decreases n - q + (if closed {
                0int
            } else {
                1int
            }),
        {
            if cs[q] == '"' {
                closed = true;
            } else if cs[q] == '\\' {
                if q + 1 < n {
                    q += 2;
                } else {
                    q = n;
                }
            } else {
                q += 1;
            }
        }
        if closed {
            Token { kind: TokenKind::Quoted, start: p, end: q + 1 }
        } else {
            Token { kind: TokenKind::Unterminated, start: p, end: n }
        }
    } else {
        let mut e = p;
        while e < n && !is_delimiter_char(cs[e])
            invariant
                p <= e <= n,
                n == cs@.len(),
                word_end(cs@, e as int) == word_end(cs@, p as int),
            decreases n - e,
        {
            e += 1;
        }
        Token { kind: TokenKind::Word, start: p, end: e }
    }
}

} // verus!
