//! The tokens of a canonical formula.
//!
//! A canonical formula is read from the left. `&&`, `||`, `true` and `false`
//! are recognized before single characters, so their letters never count as
//! variables. Every other character is a token by itself; one that has no
//! meaning in a formula becomes [`Token::Unknown`].

use vstd::prelude::*;
use crate::normalize::{matches_at, occurs_at};
use crate::text::chars_of;

verus! {

/// One token of a canonical formula.
#[derive(Clone, Copy, Debug, PartialEq, Eq, Structural)]
pub enum Token {
    /// The operator `&&`.
    And,
    /// The operator `||`.
    Or,
    /// The operator `!`.
    Not,
    /// An opening parenthesis.
    Open,
    /// A closing parenthesis.
    Close,
    /// `1` or `true`, `0` or `false`.
    Literal(bool),
    /// A variable: one letter from `a` to `z`.
    Variable(char),
    /// A character that belongs to no token.
    Unknown(char),
}

/// Whether `c` can name a variable.
pub open spec fn is_variable_name(c: char) -> bool {
    'a' <= c <= 'z'
}

/// The token that the single character `c` stands for.
pub open spec fn single_token(c: char) -> Token {
    if c == '!' {
        Token::Not
    } else if c == '(' {
        Token::Open
    } else if c == ')' {
        Token::Close
    } else if c == '0' {
        Token::Literal(false)
    } else if c == '1' {
        Token::Literal(true)
    } else if is_variable_name(c) {
        Token::Variable(c)
    } else {
        Token::Unknown(c)
    }
}

/// The token that starts at index `at` of `s`, and the index just after it.
pub open spec fn first_token(s: Seq<char>, at: int) -> (Token, int)
    recommends
        0 <= at < s.len(),
{
    if occurs_at(s, at, seq!['&', '&']) {
        (Token::And, at + 2)
    } else if occurs_at(s, at, seq!['|', '|']) {
        (Token::Or, at + 2)
    } else if occurs_at(s, at, seq!['t', 'r', 'u', 'e']) {
        (Token::Literal(true), at + 4)
    } else if occurs_at(s, at, seq!['f', 'a', 'l', 's', 'e']) {
        (Token::Literal(false), at + 5)
    } else {
        (single_token(s[at]), at + 1)
    }
}

/// The tokens of `s` from index `at` on.
pub open spec fn tokens_from(s: Seq<char>, at: int) -> Seq<Token>
    decreases s.len() - at,
{
    if at < 0 || at >= s.len() {
        Seq::empty()
    } else {
        let (token, next) = first_token(s, at);
        seq![token] + tokens_from(s, next)
    }
}

/// The tokens of `s`.
pub open spec fn tokens_of(s: Seq<char>) -> Seq<Token> {
    tokens_from(s, 0)
}

/// Tells whether `c` can name a variable.
pub fn is_variable_char(c: char) -> (b: bool)
    ensures
        b == is_variable_name(c),
{
    let u: u32 = c as u32;
    97 <= u && u <= 122
}

/// Reads the token that the single character `c` stands for.
pub fn token_of_char(c: char) -> (token: Token)
    ensures
        token == single_token(c),
{
    if c == '!' {
        Token::Not
    } else if c == '(' {
        Token::Open
    } else if c == ')' {
        Token::Close
    } else if c == '0' {
        Token::Literal(false)
    } else if c == '1' {
        Token::Literal(true)
    } else if is_variable_char(c) {
        Token::Variable(c)
    } else {
        Token::Unknown(c)
    }
}

/// Reads the token that starts at index `at` of `chars`, and gives the index
/// just after it.
pub fn next_token(chars: &Vec<char>, at: usize) -> (found: (Token, usize))
    requires
        at < chars.len(),
    ensures
        (found.0, found.1 as int) == first_token(chars@, at as int),
        at < found.1 <= chars.len(),
{
    let word_and: Vec<char> = vec!['&', '&'];
    let word_or: Vec<char> = vec!['|', '|'];
    let word_true: Vec<char> = vec!['t', 'r', 'u', 'e'];
    let word_false: Vec<char> = vec!['f', 'a', 'l', 's', 'e'];
    proof {
        assert(word_and@ == seq!['&', '&']);
        assert(word_or@ == seq!['|', '|']);
        assert(word_true@ == seq!['t', 'r', 'u', 'e']);
        assert(word_false@ == seq!['f', 'a', 'l', 's', 'e']);
    }
    if matches_at(chars, at, &word_and) {
        (Token::And, at + 2)
    } else if matches_at(chars, at, &word_or) {
        (Token::Or, at + 2)
    } else if matches_at(chars, at, &word_true) {
        (Token::Literal(true), at + 4)
    } else if matches_at(chars, at, &word_false) {
        (Token::Literal(false), at + 5)
    } else {
        (token_of_char(chars[at]), at + 1)
    }
}

/// Splits the characters of a canonical formula into tokens.
pub fn tokenize_chars(chars: &Vec<char>) -> (tokens: Vec<Token>)
    ensures
        tokens@ == tokens_of(chars@),
        tokens@.len() <= chars@.len(),
{
    let mut tokens: Vec<Token> = Vec::new();
    let mut at: usize = 0;
    proof {
        assert(tokens@ + tokens_from(chars@, 0) == tokens_of(chars@));
    }
    while at < chars.len()
        invariant
            at <= chars.len(),
            tokens@.len() <= at,
            tokens_of(chars@) == tokens@ + tokens_from(chars@, at as int),
        decreases chars.len() - at,
    {
        let ghost before = tokens@;
        let (token, next) = next_token(chars, at);
        tokens.push(token);
        proof {
            assert(before + (seq![token] + tokens_from(chars@, next as int)) == before.push(token)
                + tokens_from(chars@, next as int));
        }
        at = next;
    }
    proof {
        assert(tokens@ + tokens_from(chars@, at as int) == tokens@);
    }
    tokens
}

/// Splits a canonical formula into tokens.
pub fn tokenize(normalized: &str) -> (tokens: Vec<Token>)
    ensures
        tokens@ == tokens_of(normalized@),
{
    let chars = chars_of(normalized);
    tokenize_chars(&chars)
}

} // verus!
