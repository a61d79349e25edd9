//! The grammar of formulas, and the parser that reads it.
//!
//! ```text
//! Expr    := OrExpr
//! OrExpr  := AndExpr ( OR AndExpr )*
//! AndExpr := NotExpr ( AND NotExpr )*
//! NotExpr := NOT NotExpr | Primary
//! Primary := BoolLiteral | Variable | '(' Expr ')'
//! ```
//!
//! `AND` and `OR` group to the left. Each rule is a spec function that takes
//! the tokens still to be read and gives the tree of the longest prefix that
//! the rule derives, with the tokens left after it.

use vstd::prelude::*;
use crate::expr::Expr;
use crate::text::chars_of;
use crate::token::{tokenize_chars, tokens_of, Token};
use crate::variables::{distinct_variables, lemma_variables_membership};

verus! {

/// The most tokens that a formula may have. It bounds how deep the parser
/// recurses and how deep the trees are that it returns.
pub const MAX_TOKENS: usize = 1024;

/// Why a sequence of tokens has no tree.
#[derive(Clone, Copy, Debug, PartialEq, Eq, Structural)]
pub enum ParseError {
    /// The tokens are not a formula of the grammar.
    UnexpectedToken,
    /// A parenthesis has no partner.
    UnbalancedParentheses,
    /// There is no token at all.
    EmptyExpression,
    /// There are more than `MAX_TOKENS` tokens.
    TooLong,
}

/// What a rule gives: a tree, and the tokens left after it.
pub type Parsed = Option<(Expr, Seq<Token>)>;

/// `Primary := BoolLiteral | Variable | '(' Expr ')'`
pub open spec fn primary(rest: Seq<Token>) -> Parsed
    decreases rest.len(), 0int,
{
    if rest.len() == 0 {
        None
    } else {
        match rest[0] {
            Token::Literal(b) => Some((Expr::Literal(b), rest.skip(1))),
            Token::Variable(c) => Some((Expr::Variable(c), rest.skip(1))),
            Token::Open => match disjunction(rest.skip(1)) {
                Some((inner, after)) => if after.len() > 0 && after[0] == Token::Close {
                    Some((inner, after.skip(1)))
                } else {
                    None
                },
                None => None,
            },
            _ => None,
        }
    }
}

/// `NotExpr := NOT NotExpr | Primary`
pub open spec fn negation(rest: Seq<Token>) -> Parsed
    decreases rest.len(), 1int,
{
    if rest.len() > 0 && rest[0] == Token::Not {
        match negation(rest.skip(1)) {
            Some((inner, after)) => Some((Expr::Not(Box::new(inner)), after)),
            None => None,
        }
    } else {
        primary(rest)
    }
}

/// `( AND NotExpr )*` after the operand `left`. A rule always reads at least
/// one token, so the test on the lengths never fails.
pub open spec fn conjunction_tail(left: Expr, rest: Seq<Token>) -> Parsed
    decreases rest.len(), 2int,
{
    if rest.len() > 0 && rest[0] == Token::And {
        match negation(rest.skip(1)) {
            Some((right, after)) => if after.len() < rest.len() {
                conjunction_tail(Expr::And(Box::new(left), Box::new(right)), after)
            } else {
                None
            },
            None => None,
        }
    } else {
        Some((left, rest))
    }
}

/// `AndExpr := NotExpr ( AND NotExpr )*`
pub open spec fn conjunction(rest: Seq<Token>) -> Parsed
    decreases rest.len(), 3int,
{
    match negation(rest) {
        Some((first, after)) => if after.len() < rest.len() {
            conjunction_tail(first, after)
        } else {
            None
        },
        None => None,
    }
}

/// `( OR AndExpr )*` after the operand `left`.
pub open spec fn disjunction_tail(left: Expr, rest: Seq<Token>) -> Parsed
    decreases rest.len(), 4int,
{
    if rest.len() > 0 && rest[0] == Token::Or {
        match conjunction(rest.skip(1)) {
            Some((right, after)) => if after.len() < rest.len() {
                disjunction_tail(Expr::Or(Box::new(left), Box::new(right)), after)
            } else {
                None
            },
            None => None,
        }
    } else {
        Some((left, rest))
    }
}

/// `OrExpr := AndExpr ( OR AndExpr )*`
pub open spec fn disjunction(rest: Seq<Token>) -> Parsed
    decreases rest.len(), 5int,
{
    match conjunction(rest) {
        Some((first, after)) => if after.len() < rest.len() {
            disjunction_tail(first, after)
        } else {
            None
        },
        None => None,
    }
}

/// What `token` adds to the number of parentheses that are open.
pub open spec fn nesting_step(token: Token) -> int {
    match token {
        Token::Open => 1,
        Token::Close => -1,
        _ => 0,
    }
}

/// The number of parentheses that are open after `tokens`.
pub open spec fn nesting(tokens: Seq<Token>) -> int
    decreases tokens.len(),
{
    if tokens.len() == 0 {
        0
    } else {
        nesting(tokens.drop_last()) + nesting_step(tokens.last())
    }
}

/// Whether every parenthesis of `tokens` has its partner: none is left open
/// at the end, and none closes what was not open.
#[verifier::opaque]
pub open spec fn balanced(tokens: Seq<Token>) -> bool {
    &&& nesting(tokens) == 0
    &&& forall|n: int| 0 <= n <= tokens.len() ==> nesting(#[trigger] tokens.take(n)) >= 0
}

/// The tree of `tokens`, or the reason why they have none.
pub open spec fn parse_result(tokens: Seq<Token>) -> Result<Expr, ParseError> {
    if tokens.len() > MAX_TOKENS {
        Err(ParseError::TooLong)
    } else if !balanced(tokens) {
        Err(ParseError::UnbalancedParentheses)
    } else if tokens.len() == 0 {
        Err(ParseError::EmptyExpression)
    } else {
        match disjunction(tokens) {
            Some((tree, after)) => if after.len() == 0 {
                Ok(tree)
            } else {
                Err(ParseError::UnexpectedToken)
            },
            None => Err(ParseError::UnexpectedToken),
        }
    }
}

/// Whether `found`, a tree and the index after it, is what a rule gives as
/// `parsed` on the tokens from index `at` on.
pub open spec fn agrees(
    found: Option<(Expr, usize)>,
    parsed: Parsed,
    tokens: Seq<Token>,
    at: usize,
) -> bool {
    match found {
        Some((tree, end)) => at < end <= tokens.len() && parsed == Some(
            (tree, tokens.skip(end as int)),
        ),
        None => parsed is None,
    }
}

/// Reads a `Primary` from index `at` on.
fn parse_primary(tokens: &Vec<Token>, at: usize) -> (found: Option<(Expr, usize)>)
    requires
        at <= tokens.len(),
    ensures
        agrees(found, primary(tokens@.skip(at as int)), tokens@, at),
    decreases tokens.len() - at, 0int,
{
    if at >= tokens.len() {
        return None;
    }
    proof {
        assert(tokens@.skip(at as int).skip(1) == tokens@.skip(at + 1));
    }
    match tokens[at] {
        Token::Literal(b) => Some((Expr::Literal(b), at + 1)),
        Token::Variable(c) => Some((Expr::Variable(c), at + 1)),
        Token::Open => match parse_or(tokens, at + 1) {
            Some((inner, end)) => {
                if end < tokens.len() {
                    proof {
                        assert(tokens@.skip(end as int).skip(1) == tokens@.skip(end + 1));
                    }
                    match tokens[end] {
                        Token::Close => Some((inner, end + 1)),
                        _ => None,
                    }
                } else {
                    None
                }
            },
            None => None,
        },
        _ => None,
    }
}

/// Reads a `NotExpr` from index `at` on.
fn parse_not(tokens: &Vec<Token>, at: usize) -> (found: Option<(Expr, usize)>)
    requires
        at <= tokens.len(),
    ensures
        agrees(found, negation(tokens@.skip(at as int)), tokens@, at),
    decreases tokens.len() - at, 1int,
{
    if at < tokens.len() {
        proof {
            assert(tokens@.skip(at as int).skip(1) == tokens@.skip(at + 1));
        }
        match tokens[at] {
            Token::Not => {
                return match parse_not(tokens, at + 1) {
                    Some((inner, end)) => Some((Expr::Not(Box::new(inner)), end)),
                    None => None,
                };
            },
            _ => {},
        }
    }
    parse_primary(tokens, at)
}

/// Reads an `AndExpr` from index `at` on.
fn parse_and(tokens: &Vec<Token>, at: usize) -> (found: Option<(Expr, usize)>)
    requires
        at <= tokens.len(),
    ensures
        agrees(found, conjunction(tokens@.skip(at as int)), tokens@, at),
    decreases tokens.len() - at, 3int,
{
    let (first, first_end) = match parse_not(tokens, at) {
        Some(pair) => pair,
        None => { return None; },
    };
    let mut left = first;
    let mut end = first_end;
    while end < tokens.len()
        invariant
            at < end <= tokens.len(),
            conjunction(tokens@.skip(at as int)) == conjunction_tail(left, tokens@.skip(end as int)),
        ensures
            end == tokens.len() || tokens@[end as int] != Token::And,
        decreases tokens.len() - end,
    {
        match tokens[end] {
            Token::And => {},
            _ => { break; },
        }
        proof {
            assert(tokens@.skip(end as int).skip(1) == tokens@.skip(end + 1));
        }
        match parse_not(tokens, end + 1) {
            Some((right, next)) => {
                left = Expr::And(Box::new(left), Box::new(right));
                end = next;
            },
            None => { return None; },
        }
    }
    Some((left, end))
}

/// Reads an `OrExpr` from index `at` on.
fn parse_or(tokens: &Vec<Token>, at: usize) -> (found: Option<(Expr, usize)>)
    requires
        at <= tokens.len(),
    ensures
        agrees(found, disjunction(tokens@.skip(at as int)), tokens@, at),
    decreases tokens.len() - at, 5int,
{
    let (first, first_end) = match parse_and(tokens, at) {
        Some(pair) => pair,
        None => { return None; },
    };
    let mut left = first;
    let mut end = first_end;
    while end < tokens.len()
        invariant
            at < end <= tokens.len(),
            disjunction(tokens@.skip(at as int)) == disjunction_tail(left, tokens@.skip(end as int)),
        ensures
            end == tokens.len() || tokens@[end as int] != Token::Or,
        decreases tokens.len() - end,
    {
        match tokens[end] {
            Token::Or => {},
            _ => { break; },
        }
        proof {
            assert(tokens@.skip(end as int).skip(1) == tokens@.skip(end + 1));
        }
        match parse_and(tokens, end + 1) {
            Some((right, next)) => {
                left = Expr::Or(Box::new(left), Box::new(right));
                end = next;
            },
            None => { return None; },
        }
    }
    Some((left, end))
}

/// Tells whether every parenthesis of `tokens` has its partner.
pub fn is_balanced(tokens: &Vec<Token>) -> (b: bool)
    ensures
        b == balanced(tokens@),
{
    let mut open: usize = 0;
    let mut i: usize = 0;
    proof {
        assert(tokens@.take(0).len() == 0);
    }
    while i < tokens.len()
        invariant
            i <= tokens.len(),
            open == nesting(tokens@.take(i as int)),
            open <= i,
            forall|n: int| 0 <= n <= i ==> nesting(#[trigger] tokens@.take(n)) >= 0,
        decreases tokens.len() - i,
    {
        proof {
            reveal(balanced);
            assert(tokens@.take(i + 1).drop_last() == tokens@.take(i as int));
        }
        match tokens[i] {
            Token::Open => {
                open += 1;
            },
            Token::Close => {
                if open == 0 {
                    assert(nesting(tokens@.take(i + 1)) < 0);
                    return false;
                }
                open -= 1;
            },
            _ => {},
        }
        i += 1;
    }
    proof {
        reveal(balanced);
        assert(tokens@.take(i as int) == tokens@);
    }
    open == 0
}

/// Parses the tokens of a formula into its tree.
pub fn parse_tokens(tokens: &Vec<Token>) -> (tree: Result<Expr, ParseError>)
    ensures
        tree == parse_result(tokens@),
        tree matches Ok(t) ==> t.depth() <= MAX_TOKENS && t.closed_under(
            distinct_variables(tokens@),
        ),
{
    proof {
        if parse_result(tokens@) is Ok {
            lemma_parsed_tree(tokens@);
        }
    }
    if tokens.len() > MAX_TOKENS {
        return Err(ParseError::TooLong);
    }
    if !is_balanced(tokens) {
        return Err(ParseError::UnbalancedParentheses);
    }
    if tokens.len() == 0 {
        return Err(ParseError::EmptyExpression);
    }
    proof {
        assert(tokens@.skip(0) == tokens@);
    }
    match parse_or(tokens, 0) {
        Some((tree, end)) => {
            if end == tokens.len() {
                Ok(tree)
            } else {
                Err(ParseError::UnexpectedToken)
            }
        },
        None => Err(ParseError::UnexpectedToken),
    }
}

/// Parses a canonical formula into its tree.
pub fn parse_formula(normalized: &str) -> (tree: Result<Expr, ParseError>)
    ensures
        tree == parse_result(tokens_of(normalized@)),
        tree matches Ok(t) ==> t.depth() <= MAX_TOKENS && t.closed_under(
            distinct_variables(tokens_of(normalized@)),
        ),
{
    let chars = chars_of(normalized);
    let tokens = tokenize_chars(&chars);
    parse_tokens(&tokens)
}

/// What holds of the tree and the rest that a rule gives on `rest`: the rule
/// has read at least one token, what is left is the end of `rest`, the tree is
/// no deeper than the number of tokens read, and its variables are among the
/// tokens.
pub open spec fn reads_from(parsed: Parsed, rest: Seq<Token>) -> bool {
    parsed matches Some((tree, after)) ==> {
        &&& after.len() < rest.len()
        &&& after == rest.skip(rest.len() - after.len())
        &&& tree.depth() <= rest.len() - after.len()
        &&& forall|c: char| tree.mentions(c) ==> rest.contains(Token::Variable(c))
    }
}

/// What holds of the tree and the rest that a repetition gives on `rest`
/// after the operand `left`.
pub open spec fn continues_from(parsed: Parsed, left: Expr, rest: Seq<Token>) -> bool {
    parsed matches Some((tree, after)) ==> {
        &&& after.len() <= rest.len()
        &&& after == rest.skip(rest.len() - after.len())
        &&& tree.depth() <= left.depth() + rest.len() - after.len()
        &&& forall|c: char|
            tree.mentions(c) ==> left.mentions(c) || rest.contains(Token::Variable(c))
    }
}

/// A token of the end of `rest` is a token of `rest`.
proof fn lemma_suffix_contains(rest: Seq<Token>, n: int, token: Token)
    requires
        0 <= n <= rest.len(),
        rest.skip(n).contains(token),
    ensures
        rest.contains(token),
{
    let i = choose|i: int| 0 <= i < rest.skip(n).len() && rest.skip(n)[i] == token;
    assert(rest[i + n] == token);
}

/// The end of the end of `rest` is an end of `rest`.
proof fn lemma_skip_twice(rest: Seq<Token>, n: int, after: Seq<Token>)
    requires
        0 <= n <= rest.len(),
        after.len() <= rest.len() - n,
        after == rest.skip(n).skip(rest.len() - n - after.len()),
    ensures
        after == rest.skip(rest.len() - after.len()),
{
}

/// What `Primary` gives reads from its input.
pub proof fn lemma_primary_reads(rest: Seq<Token>)
    ensures
        reads_from(primary(rest), rest),
    decreases rest.len(), 0int,
{
    if rest.len() > 0 {
        match rest[0] {
            Token::Literal(b) => {},
            Token::Variable(c) => {
                assert(rest[0] == Token::Variable(c));
            },
            Token::Open => {
                let inner_rest = rest.skip(1);
                lemma_disjunction_reads(inner_rest);
                if let Some((inner, after)) = disjunction(inner_rest) {
                    if after.len() > 0 && after[0] == Token::Close {
                        let left_over = after.skip(1);
                        assert(left_over == rest.skip(rest.len() - left_over.len()));
                        assert forall|c: char| inner.mentions(c) implies rest.contains(
                            Token::Variable(c),
                        ) by {
                            lemma_suffix_contains(rest, 1, Token::Variable(c));
                        }
                    }
                }
            },
            _ => {},
        }
    }
}

/// What `NotExpr` gives reads from its input.
pub proof fn lemma_negation_reads(rest: Seq<Token>)
    ensures
        reads_from(negation(rest), rest),
    decreases rest.len(), 1int,
{
    if rest.len() > 0 && rest[0] == Token::Not {
        let inner_rest = rest.skip(1);
        lemma_negation_reads(inner_rest);
        if let Some((inner, after)) = negation(inner_rest) {
            lemma_skip_twice(rest, 1, after);
            let tree = Expr::Not(Box::new(inner));
            assert forall|c: char| tree.mentions(c) implies rest.contains(Token::Variable(c)) by {
                assert(inner.mentions(c));
                lemma_suffix_contains(rest, 1, Token::Variable(c));
            }
        }
    } else {
        lemma_primary_reads(rest);
    }
}

/// What `( AND NotExpr )*` gives continues from its operand and its input.
pub proof fn lemma_conjunction_tail_reads(left: Expr, rest: Seq<Token>)
    ensures
        continues_from(conjunction_tail(left, rest), left, rest),
    decreases rest.len(), 2int,
{
    if rest.len() > 0 && rest[0] == Token::And {
        let operand_rest = rest.skip(1);
        lemma_negation_reads(operand_rest);
        if let Some((right, after)) = negation(operand_rest) {
            let joined = Expr::And(Box::new(left), Box::new(right));
            lemma_conjunction_tail_reads(joined, after);
            lemma_skip_twice(rest, 1, after);
            if let Some((tree, left_over)) = conjunction_tail(joined, after) {
                lemma_skip_twice(rest, rest.len() - after.len(), left_over);
                assert forall|c: char| tree.mentions(c) implies left.mentions(c) || rest.contains(
                    Token::Variable(c),
                ) by {
                    if right.mentions(c) {
                        lemma_suffix_contains(rest, 1, Token::Variable(c));
                    } else if !left.mentions(c) {
                        lemma_suffix_contains(rest, rest.len() - after.len(), Token::Variable(c));
                    }
                }
            }
        }
    } else {
        assert(rest == rest.skip(0));
    }
}

/// What `AndExpr` gives reads from its input.
pub proof fn lemma_conjunction_reads(rest: Seq<Token>)
    ensures
        reads_from(conjunction(rest), rest),
    decreases rest.len(), 3int,
{
    lemma_negation_reads(rest);
    if let Some((first, after)) = negation(rest) {
        lemma_conjunction_tail_reads(first, after);
        if let Some((tree, left_over)) = conjunction_tail(first, after) {
            lemma_skip_twice(rest, rest.len() - after.len(), left_over);
            assert forall|c: char| tree.mentions(c) implies rest.contains(Token::Variable(c)) by {
                if !first.mentions(c) {
                    lemma_suffix_contains(rest, rest.len() - after.len(), Token::Variable(c));
                }
            }
        }
    }
}

/// What `( OR AndExpr )*` gives continues from its operand and its input.
pub proof fn lemma_disjunction_tail_reads(left: Expr, rest: Seq<Token>)
    ensures
        continues_from(disjunction_tail(left, rest), left, rest),
    decreases rest.len(), 4int,
{
    if rest.len() > 0 && rest[0] == Token::Or {
        let operand_rest = rest.skip(1);
        lemma_conjunction_reads(operand_rest);
        if let Some((right, after)) = conjunction(operand_rest) {
            let joined = Expr::Or(Box::new(left), Box::new(right));
            lemma_disjunction_tail_reads(joined, after);
            lemma_skip_twice(rest, 1, after);
            if let Some((tree, left_over)) = disjunction_tail(joined, after) {
                lemma_skip_twice(rest, rest.len() - after.len(), left_over);
                assert forall|c: char| tree.mentions(c) implies left.mentions(c) || rest.contains(
                    Token::Variable(c),
                ) by {
                    if right.mentions(c) {
                        lemma_suffix_contains(rest, 1, Token::Variable(c));
                    } else if !left.mentions(c) {
                        lemma_suffix_contains(rest, rest.len() - after.len(), Token::Variable(c));
                    }
                }
            }
        }
    } else {
        assert(rest == rest.skip(0));
    }
}

/// What `OrExpr` gives reads from its input.
pub proof fn lemma_disjunction_reads(rest: Seq<Token>)
    ensures
        reads_from(disjunction(rest), rest),
    decreases rest.len(), 5int,
{
    lemma_conjunction_reads(rest);
    if let Some((first, after)) = conjunction(rest) {
        lemma_disjunction_tail_reads(first, after);
        if let Some((tree, left_over)) = disjunction_tail(first, after) {
            lemma_skip_twice(rest, rest.len() - after.len(), left_over);
            assert forall|c: char| tree.mentions(c) implies rest.contains(Token::Variable(c)) by {
                if !first.mentions(c) {
                    lemma_suffix_contains(rest, rest.len() - after.len(), Token::Variable(c));
                }
            }
        }
    }
}

/// The tree of a formula is no deeper than the formula has tokens, and each
/// of its variables is one of the formula's variables.
pub proof fn lemma_parsed_tree(tokens: Seq<Token>)
    requires
        parse_result(tokens) is Ok,
    ensures
        parse_result(tokens)->Ok_0.depth() <= tokens.len() <= MAX_TOKENS,
        parse_result(tokens)->Ok_0.closed_under(distinct_variables(tokens)),
{
    lemma_disjunction_reads(tokens);
    let tree = parse_result(tokens)->Ok_0;
    assert forall|c: char| tree.mentions(c) implies distinct_variables(tokens).contains(c) by {
        lemma_variables_membership(tokens, c);
    }
}

} // verus!
