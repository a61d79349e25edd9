use truth_table::expr::Expr;
use truth_table::parser::{is_balanced, parse_formula, parse_tokens, ParseError, MAX_TOKENS};
use truth_table::token::{tokenize, Token};

fn var(c: char) -> Box<Expr> {
    Box::new(Expr::Variable(c))
}

#[test]
fn parse_a_single_variable() {
    assert_eq!(parse_formula("x"), Ok(Expr::Variable('x')));
}

#[test]
fn parse_literals() {
    assert_eq!(parse_formula("1"), Ok(Expr::Literal(true)));
    assert_eq!(parse_formula("0"), Ok(Expr::Literal(false)));
    assert_eq!(parse_formula("true"), Ok(Expr::Literal(true)));
    assert_eq!(parse_formula("false"), Ok(Expr::Literal(false)));
}

#[test]
fn and_binds_tighter_than_or() {
    assert_eq!(
        parse_formula("x||y&&z"),
        Ok(Expr::Or(var('x'), Box::new(Expr::And(var('y'), var('z')))))
    );
    assert_eq!(
        parse_formula("x&&y||z"),
        Ok(Expr::Or(Box::new(Expr::And(var('x'), var('y'))), var('z')))
    );
}

#[test]
fn not_binds_tighter_than_and() {
    assert_eq!(
        parse_formula("!x&&y"),
        Ok(Expr::And(Box::new(Expr::Not(var('x'))), var('y')))
    );
}

#[test]
fn not_takes_the_group_that_follows() {
    assert_eq!(
        parse_formula("!(x&&y)"),
        Ok(Expr::Not(Box::new(Expr::And(var('x'), var('y')))))
    );
}

#[test]
fn not_can_be_repeated() {
    assert_eq!(
        parse_formula("!!x"),
        Ok(Expr::Not(Box::new(Expr::Not(var('x')))))
    );
}

#[test]
fn parentheses_override_precedence() {
    assert_eq!(
        parse_formula("(x||y)&&z"),
        Ok(Expr::And(Box::new(Expr::Or(var('x'), var('y'))), var('z')))
    );
}

#[test]
fn operators_group_to_the_left() {
    assert_eq!(
        parse_formula("x&&y&&z"),
        Ok(Expr::And(Box::new(Expr::And(var('x'), var('y'))), var('z')))
    );
    assert_eq!(
        parse_formula("x||y||z"),
        Ok(Expr::Or(Box::new(Expr::Or(var('x'), var('y'))), var('z')))
    );
}

#[test]
fn the_placeholder_formula_parses() {
    assert_eq!(
        parse_formula("x&&y||(z&&x)"),
        Ok(Expr::Or(
            Box::new(Expr::And(var('x'), var('y'))),
            Box::new(Expr::And(var('z'), var('x')))
        ))
    );
}

#[test]
fn nothing_is_an_empty_expression() {
    assert_eq!(parse_formula(""), Err(ParseError::EmptyExpression));
    assert_eq!(parse_tokens(&Vec::new()), Err(ParseError::EmptyExpression));
}

#[test]
fn a_parenthesis_without_partner_is_unbalanced() {
    assert_eq!(parse_formula("x&&(y"), Err(ParseError::UnbalancedParentheses));
    assert_eq!(parse_formula("x)"), Err(ParseError::UnbalancedParentheses));
    assert_eq!(parse_formula(")x("), Err(ParseError::UnbalancedParentheses));
    assert_eq!(parse_formula("("), Err(ParseError::UnbalancedParentheses));
    assert_eq!(parse_formula("(x))&&((y)"), Err(ParseError::UnbalancedParentheses));
}

#[test]
fn what_the_grammar_lacks_is_an_unexpected_token() {
    assert_eq!(parse_formula("x&&"), Err(ParseError::UnexpectedToken));
    assert_eq!(parse_formula("&&x"), Err(ParseError::UnexpectedToken));
    assert_eq!(parse_formula("xy"), Err(ParseError::UnexpectedToken));
    assert_eq!(parse_formula("x&&||y"), Err(ParseError::UnexpectedToken));
    assert_eq!(parse_formula("()"), Err(ParseError::UnexpectedToken));
    assert_eq!(parse_formula("(x y)"), Err(ParseError::UnexpectedToken));
    assert_eq!(parse_formula("!"), Err(ParseError::UnexpectedToken));
    assert_eq!(parse_formula("x!"), Err(ParseError::UnexpectedToken));
    assert_eq!(parse_formula("x&y"), Err(ParseError::UnexpectedToken));
    assert_eq!(parse_formula("x+y"), Err(ParseError::UnexpectedToken));
    assert_eq!(parse_formula("X"), Err(ParseError::UnexpectedToken));
    assert_eq!(parse_formula("2"), Err(ParseError::UnexpectedToken));
}

#[test]
fn more_tokens_than_the_bound_are_too_long() {
    let mut tokens = vec![Token::Variable('x')];
    while tokens.len() + 2 <= MAX_TOKENS {
        tokens.push(Token::And);
        tokens.push(Token::Variable('x'));
    }
    assert_eq!(tokens.len(), MAX_TOKENS - 1);
    assert!(parse_tokens(&tokens).is_ok());
    tokens.push(Token::And);
    tokens.push(Token::Variable('x'));
    assert_eq!(tokens.len(), MAX_TOKENS + 1);
    assert_eq!(parse_tokens(&tokens), Err(ParseError::TooLong));
}

#[test]
fn too_long_comes_before_unbalanced() {
    let tokens = vec![Token::Open; MAX_TOKENS + 1];
    assert_eq!(parse_tokens(&tokens), Err(ParseError::TooLong));
}

#[test]
fn deep_nesting_within_the_bound_parses() {
    let depth = (MAX_TOKENS - 1) / 2;
    let mut text = String::new();
    for _ in 0..depth {
        text.push('(');
    }
    text.push('x');
    for _ in 0..depth {
        text.push(')');
    }
    assert_eq!(parse_formula(&text), Ok(Expr::Variable('x')));
}

#[test]
fn a_long_row_of_nots_parses() {
    let mut text = String::new();
    for _ in 0..MAX_TOKENS - 1 {
        text.push('!');
    }
    text.push('x');
    assert!(parse_formula(&text).is_ok());
}

#[test]
fn is_balanced_counts_parentheses() {
    assert!(is_balanced(&tokenize("")));
    assert!(is_balanced(&tokenize("x")));
    assert!(is_balanced(&tokenize("(()())")));
    assert!(!is_balanced(&tokenize("(()")));
    assert!(!is_balanced(&tokenize("())(")));
    assert!(!is_balanced(&tokenize(")(")));
}
