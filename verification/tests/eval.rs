use truth_table::eval::{eval, position, EvaluationError};
use truth_table::expr::Expr;

fn lit(b: bool) -> Box<Expr> {
    Box::new(Expr::Literal(b))
}

fn var(c: char) -> Box<Expr> {
    Box::new(Expr::Variable(c))
}

#[test]
fn eval_and_or_not_of_literals() {
    let none: Vec<char> = Vec::new();
    let values: Vec<bool> = Vec::new();
    assert_eq!(eval(&Expr::And(lit(true), lit(false)), &none, &values), Ok(false));
    assert_eq!(eval(&Expr::Or(lit(true), lit(false)), &none, &values), Ok(true));
    assert_eq!(eval(&Expr::Not(lit(true)), &none, &values), Ok(false));
}

#[test]
fn eval_of_a_nested_expression() {
    let none: Vec<char> = Vec::new();
    let values: Vec<bool> = Vec::new();
    let expr = Expr::Or(
        Box::new(Expr::And(lit(true), lit(false))),
        Box::new(Expr::Not(lit(false))),
    );
    assert_eq!(eval(&expr, &none, &values), Ok(true));
}

#[test]
fn eval_every_pair_of_operands() {
    let none: Vec<char> = Vec::new();
    let values: Vec<bool> = Vec::new();
    for a in [false, true] {
        assert_eq!(eval(&Expr::Literal(a), &none, &values), Ok(a));
        assert_eq!(eval(&Expr::Not(lit(a)), &none, &values), Ok(!a));
        for b in [false, true] {
            assert_eq!(eval(&Expr::And(lit(a), lit(b)), &none, &values), Ok(a && b));
            assert_eq!(eval(&Expr::Or(lit(a), lit(b)), &none, &values), Ok(a || b));
        }
    }
}

#[test]
fn eval_looks_variables_up_by_position() {
    let names = vec!['x', 'y'];
    assert_eq!(eval(&Expr::Variable('x'), &names, &vec![true, false]), Ok(true));
    assert_eq!(eval(&Expr::Variable('y'), &names, &vec![true, false]), Ok(false));
    let expr = Expr::And(var('x'), Box::new(Expr::Not(var('y'))));
    assert_eq!(eval(&expr, &names, &vec![true, false]), Ok(true));
    assert_eq!(eval(&expr, &names, &vec![true, true]), Ok(false));
    assert_eq!(eval(&expr, &names, &vec![false, false]), Ok(false));
}

#[test]
fn eval_fails_on_a_variable_that_is_not_listed() {
    let names = vec!['x'];
    assert_eq!(
        eval(&Expr::Variable('q'), &names, &vec![true]),
        Err(EvaluationError::UnknownVariable('q'))
    );
}

#[test]
fn eval_does_not_cut_an_operand_short() {
    let names = vec!['x'];
    // The left operand decides the value, the right one still fails.
    assert_eq!(
        eval(&Expr::And(lit(false), var('q')), &names, &vec![true]),
        Err(EvaluationError::UnknownVariable('q'))
    );
    assert_eq!(
        eval(&Expr::Or(lit(true), var('q')), &names, &vec![true]),
        Err(EvaluationError::UnknownVariable('q'))
    );
}

#[test]
fn eval_reports_the_first_unknown_variable_from_the_left() {
    let names = vec!['x'];
    assert_eq!(
        eval(&Expr::And(var('p'), var('q')), &names, &vec![true]),
        Err(EvaluationError::UnknownVariable('p'))
    );
    assert_eq!(
        eval(&Expr::Or(Box::new(Expr::Not(var('q'))), var('p')), &names, &vec![true]),
        Err(EvaluationError::UnknownVariable('q'))
    );
}

#[test]
fn eval_is_the_same_each_time() {
    let names = vec!['x', 'y'];
    let expr = Expr::Or(var('x'), var('y'));
    let first = eval(&expr, &names, &vec![false, true]);
    let second = eval(&expr, &names, &vec![false, true]);
    assert_eq!(first, second);
    assert_eq!(first, Ok(true));
}

#[test]
fn position_is_the_first_index() {
    assert_eq!(position(&vec!['a', 'b', 'a'], 'a'), Some(0));
    assert_eq!(position(&vec!['a', 'b', 'a'], 'b'), Some(1));
    assert_eq!(position(&vec!['a', 'b', 'a'], 'c'), None);
    assert_eq!(position(&Vec::new(), 'c'), None);
}
