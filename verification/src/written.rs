//! Writing a tree as tokens, with no more parentheses than the grammar
//! needs, and the law that the parser reads such tokens back as the tree.

use vstd::prelude::*;
use crate::expr::Expr;
use crate::parser::{
    balanced,
    conjunction,
    conjunction_tail,
    disjunction,
    disjunction_tail,
    negation,
    nesting,
    nesting_step,
    parse_result,
    primary,
    ParseError,
    MAX_TOKENS,
};
use crate::token::Token;

verus! {

/// `expr` as a `Primary`: a literal or a variable by itself, anything else
/// in parentheses.
pub open spec fn written_primary(expr: Expr) -> Seq<Token>
    decreases expr, 0int,
{
    match expr {
        Expr::Literal(b) => seq![Token::Literal(b)],
        Expr::Variable(c) => seq![Token::Variable(c)],
        Expr::Not(inner) => seq![Token::Open, Token::Not] + written_negation(*inner)
            + seq![Token::Close],
        Expr::And(left, right) => seq![Token::Open] + written_conjunction(*left)
            + seq![Token::And] + written_negation(*right) + seq![Token::Close],
        Expr::Or(left, right) => seq![Token::Open] + written_disjunction(*left)
            + seq![Token::Or] + written_conjunction(*right) + seq![Token::Close],
    }
}

/// `expr` as a `NotExpr`.
pub open spec fn written_negation(expr: Expr) -> Seq<Token>
    decreases expr, 1int,
{
    match expr {
        Expr::Not(inner) => seq![Token::Not] + written_negation(*inner),
        _ => written_primary(expr),
    }
}

/// `expr` as an `AndExpr`.
pub open spec fn written_conjunction(expr: Expr) -> Seq<Token>
    decreases expr, 2int,
{
    match expr {
        Expr::And(left, right) => written_conjunction(*left) + seq![Token::And]
            + written_negation(*right),
        _ => written_negation(expr),
    }
}

/// `expr` as an `OrExpr`.
pub open spec fn written_disjunction(expr: Expr) -> Seq<Token>
    decreases expr, 3int,
{
    match expr {
        Expr::Or(left, right) => written_disjunction(*left) + seq![Token::Or]
            + written_conjunction(*right),
        _ => written_conjunction(expr),
    }
}

/// The tokens that write `expr`.
pub open spec fn written(expr: Expr) -> Seq<Token> {
    written_disjunction(expr)
}

/// Whether `rest` can follow an `AndExpr`: it does not go on with `AND`.
pub open spec fn ends_conjunction(rest: Seq<Token>) -> bool {
    rest.len() == 0 || rest[0] != Token::And
}

/// Whether `rest` can follow an `OrExpr`: it goes on with neither `AND` nor
/// `OR`.
pub open spec fn ends_disjunction(rest: Seq<Token>) -> bool {
    rest.len() == 0 || (rest[0] != Token::And && rest[0] != Token::Or)
}

/// A written tree has a first token, which is not an operator of two
/// operands and not a closing parenthesis.
pub proof fn lemma_written_starts(expr: Expr)
    ensures
        written_primary(expr).len() > 0,
        written_negation(expr).len() > 0,
        written_conjunction(expr).len() > 0,
        written_disjunction(expr).len() > 0,
        written_primary(expr)[0] != Token::Not || expr is Not,
        expr !is Not ==> written_negation(expr)[0] != Token::Not,
    decreases expr,
{
    match expr {
        Expr::Literal(_) => {},
        Expr::Variable(_) => {},
        Expr::Not(inner) => {
            lemma_written_starts(*inner);
        },
        Expr::And(left, right) => {
            lemma_written_starts(*left);
            lemma_written_starts(*right);
        },
        Expr::Or(left, right) => {
            lemma_written_starts(*left);
            lemma_written_starts(*right);
        },
    }
}

/// `Primary` reads a written primary back, whatever follows.
pub proof fn lemma_primary_reads_written(expr: Expr, rest: Seq<Token>)
    ensures
        primary(written_primary(expr) + rest) == Some((expr, rest)),
    decreases expr, 0int,
{
    let all = written_primary(expr) + rest;
    let closed = seq![Token::Close] + rest;
    assert(closed[0] == Token::Close);
    assert(closed.skip(1) == rest);
    match expr {
        Expr::Literal(b) => {
            assert(all[0] == Token::Literal(b));
            assert(all.skip(1) == rest);
        },
        Expr::Variable(c) => {
            assert(all[0] == Token::Variable(c));
            assert(all.skip(1) == rest);
        },
        Expr::Not(inner) => {
            let within = seq![Token::Not] + written_negation(*inner) + closed;
            assert(all.skip(1) == within);
            assert(within.skip(1) == written_negation(*inner) + closed);
            lemma_negation_reads_written(*inner, closed);
            lemma_written_starts(*inner);
        },
        Expr::And(left, right) => {
            let tail = seq![Token::And] + written_negation(*right) + closed;
            let within = written_conjunction(*left) + tail;
            assert(all.skip(1) == within);
            assert(tail.skip(1) == written_negation(*right) + closed);
            lemma_conjunction_reads_written(*left, tail);
            lemma_negation_reads_written(*right, closed);
            lemma_written_starts(*left);
            lemma_written_starts(*right);
            assert(tail[0] == Token::And);
            assert(conjunction_tail(expr, closed) == Some((expr, closed)));
            assert(conjunction_tail(*left, tail) == Some((expr, closed)));
            assert(disjunction_tail(expr, closed) == Some((expr, closed)));
            assert(disjunction(within) == Some((expr, closed)));
            assert(all[0] == Token::Open);
        },
        Expr::Or(left, right) => {
            let tail = seq![Token::Or] + written_conjunction(*right) + closed;
            let within = written_disjunction(*left) + tail;
            assert(all.skip(1) == within);
            assert(tail.skip(1) == written_conjunction(*right) + closed);
            lemma_disjunction_reads_written(*left, tail);
            lemma_conjunction_reads_written(*right, closed);
            lemma_written_starts(*left);
            lemma_written_starts(*right);
            assert(tail[0] == Token::Or);
            assert(conjunction_tail(*right, closed) == Some((*right, closed)));
            assert(disjunction_tail(expr, closed) == Some((expr, closed)));
            assert(disjunction_tail(*left, tail) == Some((expr, closed)));
            assert(disjunction(within) == Some((expr, closed)));
            assert(all[0] == Token::Open);
        },
    }
}

/// `NotExpr` reads a written negation back, whatever follows.
pub proof fn lemma_negation_reads_written(expr: Expr, rest: Seq<Token>)
    ensures
        negation(written_negation(expr) + rest) == Some((expr, rest)),
    decreases expr, 1int,
{
    let all = written_negation(expr) + rest;
    match expr {
        Expr::Not(inner) => {
            assert(all.skip(1) == written_negation(*inner) + rest);
            lemma_negation_reads_written(*inner, rest);
        },
        _ => {
            lemma_written_starts(expr);
            lemma_primary_reads_written(expr, rest);
        },
    }
}

/// `AndExpr` reads a written conjunction and goes on with what follows.
pub proof fn lemma_conjunction_reads_written(expr: Expr, rest: Seq<Token>)
    ensures
        conjunction(written_conjunction(expr) + rest) == conjunction_tail(expr, rest),
    decreases expr, 2int,
{
    match expr {
        Expr::And(left, right) => {
            let tail = seq![Token::And] + written_negation(*right) + rest;
            assert(written_conjunction(expr) + rest == written_conjunction(*left) + tail);
            assert(tail.skip(1) == written_negation(*right) + rest);
            lemma_conjunction_reads_written(*left, tail);
            lemma_negation_reads_written(*right, rest);
            lemma_written_starts(*right);
        },
        _ => {
            lemma_written_starts(expr);
            lemma_negation_reads_written(expr, rest);
        },
    }
}

/// `OrExpr` reads a written disjunction and goes on with what follows, if
/// that is no `AND`.
pub proof fn lemma_disjunction_reads_written(expr: Expr, rest: Seq<Token>)
    requires
        ends_conjunction(rest),
    ensures
        disjunction(written_disjunction(expr) + rest) == disjunction_tail(expr, rest),
    decreases expr, 3int,
{
    match expr {
        Expr::Or(left, right) => {
            let tail = seq![Token::Or] + written_conjunction(*right) + rest;
            assert(written_disjunction(expr) + rest == written_disjunction(*left) + tail);
            assert(tail.skip(1) == written_conjunction(*right) + rest);
            lemma_disjunction_reads_written(*left, tail);
            lemma_conjunction_reads_written(*right, rest);
            lemma_written_starts(*right);
        },
        _ => {
            lemma_written_starts(expr);
            lemma_conjunction_reads_written(expr, rest);
        },
    }
}

/// The grammar reads the tokens that write a tree back as that tree, and
/// leaves what follows, if that is neither `AND` nor `OR`.
pub proof fn lemma_grammar_reads_written(expr: Expr, rest: Seq<Token>)
    requires
        ends_disjunction(rest),
    ensures
        disjunction(written(expr) + rest) == Some((expr, rest)),
{
    lemma_disjunction_reads_written(expr, rest);
}

/// The parentheses open after `a + b` are those of `a` and those of `b`.
pub proof fn lemma_nesting_adds(a: Seq<Token>, b: Seq<Token>)
    ensures
        nesting(a + b) == nesting(a) + nesting(b),
    decreases b.len(),
{
    if b.len() == 0 {
        assert(a + b == a);
    } else {
        assert((a + b).drop_last() == a + b.drop_last());
        lemma_nesting_adds(a, b.drop_last());
    }
}

/// One token opens or closes what `nesting_step` says.
proof fn lemma_nesting_of_one(token: Token)
    ensures
        nesting(seq![token]) == nesting_step(token),
{
    assert(seq![token].drop_last().len() == 0);
    assert(nesting(seq![token].drop_last()) == 0);
}

/// Balanced tokens after balanced tokens are balanced.
pub proof fn lemma_balanced_adds(a: Seq<Token>, b: Seq<Token>)
    requires
        balanced(a),
        balanced(b),
    ensures
        balanced(a + b),
{
    reveal(balanced);
    lemma_nesting_adds(a, b);
    assert forall|n: int| 0 <= n <= (a + b).len() implies nesting(#[trigger] (a + b).take(n))
        >= 0 by {
        if n <= a.len() {
            assert((a + b).take(n) == a.take(n));
        } else {
            assert((a + b).take(n) == a + b.take(n - a.len()));
            lemma_nesting_adds(a, b.take(n - a.len()));
        }
    }
}

/// A token that is no parenthesis is balanced.
pub proof fn lemma_balanced_token(token: Token)
    requires
        token != Token::Open,
        token != Token::Close,
    ensures
        balanced(seq![token]),
{
    reveal(balanced);
    lemma_nesting_of_one(token);
    assert forall|n: int| 0 <= n <= 1 implies nesting(#[trigger] seq![token].take(n)) >= 0 by {
        if n == 0 {
            assert(seq![token].take(0).len() == 0);
        } else {
            assert(seq![token].take(1) == seq![token]);
        }
    }
}

/// Balanced tokens in parentheses are balanced.
pub proof fn lemma_balanced_in_parentheses(inner: Seq<Token>)
    requires
        balanced(inner),
    ensures
        balanced(seq![Token::Open] + inner + seq![Token::Close]),
{
    reveal(balanced);
    let open = seq![Token::Open];
    let close = seq![Token::Close];
    let all = open + inner + close;
    lemma_nesting_of_one(Token::Open);
    lemma_nesting_of_one(Token::Close);
    lemma_nesting_adds(open, inner);
    lemma_nesting_adds(open + inner, close);
    assert forall|n: int| 0 <= n <= all.len() implies nesting(#[trigger] all.take(n)) >= 0 by {
        if n == 0 {
            assert(all.take(0).len() == 0);
        } else if n <= inner.len() + 1 {
            assert(all.take(n) == open + inner.take(n - 1));
            lemma_nesting_adds(open, inner.take(n - 1));
        } else {
            assert(all.take(n) == all);
        }
    }
}

/// In the tokens that write a tree every parenthesis has its partner.
pub proof fn lemma_written_balanced(expr: Expr)
    ensures
        balanced(written_primary(expr)),
        balanced(written_negation(expr)),
        balanced(written_conjunction(expr)),
        balanced(written_disjunction(expr)),
    decreases expr,
{
    lemma_balanced_token(Token::Not);
    lemma_balanced_token(Token::And);
    lemma_balanced_token(Token::Or);
    match expr {
        Expr::Literal(b) => {
            lemma_balanced_token(Token::Literal(b));
        },
        Expr::Variable(c) => {
            lemma_balanced_token(Token::Variable(c));
        },
        Expr::Not(inner) => {
            lemma_written_balanced(*inner);
            let negated = seq![Token::Not] + written_negation(*inner);
            lemma_balanced_adds(seq![Token::Not], written_negation(*inner));
            lemma_balanced_in_parentheses(negated);
            assert(written_primary(expr) == seq![Token::Open] + negated + seq![Token::Close]);
        },
        Expr::And(left, right) => {
            lemma_written_balanced(*left);
            lemma_written_balanced(*right);
            let joined = written_conjunction(*left) + seq![Token::And] + written_negation(*right);
            lemma_balanced_adds(written_conjunction(*left), seq![Token::And]);
            lemma_balanced_adds(
                written_conjunction(*left) + seq![Token::And],
                written_negation(*right),
            );
            lemma_balanced_in_parentheses(joined);
            assert(written_primary(expr) == seq![Token::Open] + joined + seq![Token::Close]);
        },
        Expr::Or(left, right) => {
            lemma_written_balanced(*left);
            lemma_written_balanced(*right);
            let joined = written_disjunction(*left) + seq![Token::Or] + written_conjunction(
                *right,
            );
            lemma_balanced_adds(written_disjunction(*left), seq![Token::Or]);
            lemma_balanced_adds(
                written_disjunction(*left) + seq![Token::Or],
                written_conjunction(*right),
            );
            lemma_balanced_in_parentheses(joined);
            assert(written_primary(expr) == seq![Token::Open] + joined + seq![Token::Close]);
        },
    }
}

/// Parsing the tokens that write a tree gives the tree back, unless they are
/// too many.
pub proof fn lemma_parse_of_written(expr: Expr)
    ensures
        parse_result(written(expr)) == if written(expr).len() > MAX_TOKENS {
            Err::<Expr, ParseError>(ParseError::TooLong)
        } else {
            Ok::<Expr, ParseError>(expr)
        },
{
    lemma_written_balanced(expr);
    lemma_written_starts(expr);
    lemma_grammar_reads_written(expr, Seq::empty());
    assert(written(expr) + Seq::<Token>::empty() == written(expr));
}

} // verus!
