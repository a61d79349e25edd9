//! The value of an expression under an assignment of its variables.

use vstd::prelude::*;
use crate::expr::Expr;

verus! {

/// Why an expression has no value.
#[derive(Clone, Copy, Debug, PartialEq, Eq, Structural)]
pub enum EvaluationError {
    /// The expression holds a variable that the variable list lacks.
    UnknownVariable(char),
}

/// The index at which `c` first stands in `names`, if it does.
pub open spec fn position_of(names: Seq<char>, c: char) -> Option<int> {
    if names.contains(c) {
        Some(choose|i: int| is_first_at(names, c, i))
    } else {
        None
    }
}

/// Whether `i` is the least index at which `c` stands in `names`.
pub open spec fn is_first_at(names: Seq<char>, c: char, i: int) -> bool {
    &&& 0 <= i < names.len()
    &&& names[i] == c
    &&& forall|j: int| 0 <= j < i ==> names[j] != c
}

/// What two operands give together: the left one's error first, else the
/// right one's, else `combine` of the two values.
pub open spec fn both(
    left: Result<bool, EvaluationError>,
    right: Result<bool, EvaluationError>,
    combine: spec_fn(bool, bool) -> bool,
) -> Result<bool, EvaluationError> {
    match left {
        Err(e) => Err(e),
        Ok(a) => match right {
            Err(e) => Err(e),
            Ok(b) => Ok(combine(a, b)),
        },
    }
}

/// The value of `expr` where the variable `variables[i]` has the value
/// `assignment[i]`, or the first variable from the left that `variables`
/// lacks.
pub open spec fn truth(expr: Expr, variables: Seq<char>, assignment: Seq<bool>) -> Result<
    bool,
    EvaluationError,
>
    decreases expr,
{
    match expr {
        Expr::Literal(b) => Ok(b),
        Expr::Variable(c) => match position_of(variables, c) {
            Some(i) => Ok(assignment[i]),
            None => Err(EvaluationError::UnknownVariable(c)),
        },
        Expr::Not(inner) => match truth(*inner, variables, assignment) {
            Ok(b) => Ok(!b),
            Err(e) => Err(e),
        },
        Expr::And(left, right) => both(
            truth(*left, variables, assignment),
            truth(*right, variables, assignment),
            |a: bool, b: bool| a && b,
        ),
        Expr::Or(left, right) => both(
            truth(*left, variables, assignment),
            truth(*right, variables, assignment),
            |a: bool, b: bool| a || b,
        ),
    }
}

/// Finds the index at which `c` first stands in `names`.
pub fn position(names: &Vec<char>, c: char) -> (found: Option<usize>)
    ensures
        match found {
            Some(i) => position_of(names@, c) == Some(i as int),
            None => position_of(names@, c) is None,
        },
        found is Some <==> names@.contains(c),
        found matches Some(i) ==> is_first_at(names@, c, i as int),
{
    let mut i: usize = 0;
    while i < names.len()
        invariant
            i <= names.len(),
            forall|j: int| 0 <= j < i ==> names@[j] != c,
        decreases names.len() - i,
    {
        if names[i] == c {
            proof {
                lemma_first_is_unique(names@, c, i as int);
            }
            return Some(i);
        }
        i += 1;
    }
    None
}

/// There is one least index at which `c` stands in `names`.
pub proof fn lemma_first_is_unique(names: Seq<char>, c: char, i: int)
    requires
        is_first_at(names, c, i),
    ensures
        position_of(names, c) == Some(i),
{
    let j = choose|j: int| is_first_at(names, c, j);
    assert(is_first_at(names, c, j));
    if j < i {
        assert(names[j] != c);
    }
    if i < j {
        assert(names[i] != c);
    }
}

/// Evaluates `expr` where the variable `variables[i]` has the value
/// `assignment[i]`. Both operands of `And` and `Or` are always evaluated.
pub fn eval(expr: &Expr, variables: &Vec<char>, assignment: &Vec<bool>) -> (value: Result<
    bool,
    EvaluationError,
>)
    requires
        assignment@.len() == variables@.len(),
    ensures
        value == truth(*expr, variables@, assignment@),
    decreases *expr,
{
    match expr {
        Expr::Literal(b) => Ok(*b),
        Expr::Variable(c) => match position(variables, *c) {
            Some(i) => Ok(assignment[i]),
            None => Err(EvaluationError::UnknownVariable(*c)),
        },
        Expr::Not(inner) => match eval(inner, variables, assignment) {
            Ok(b) => Ok(!b),
            Err(e) => Err(e),
        },
        Expr::And(left, right) => {
            let a = eval(left, variables, assignment);
            let b = eval(right, variables, assignment);
            match a {
                Err(e) => Err(e),
                Ok(x) => match b {
                    Err(e) => Err(e),
                    Ok(y) => Ok(x && y),
                },
            }
        },
        Expr::Or(left, right) => {
            let a = eval(left, variables, assignment);
            let b = eval(right, variables, assignment);
            match a {
                Err(e) => Err(e),
                Ok(x) => match b {
                    Err(e) => Err(e),
                    Ok(y) => Ok(x || y),
                },
            }
        },
    }
}

/// An expression whose variables are all listed has a value.
pub proof fn lemma_closed_has_value(expr: Expr, variables: Seq<char>, assignment: Seq<bool>)
    requires
        expr.closed_under(variables),
    ensures
        truth(expr, variables, assignment) is Ok,
    decreases expr,
{
    match expr {
        Expr::Literal(_) => {},
        Expr::Variable(c) => {
            assert(expr.mentions(c));
        },
        Expr::Not(inner) => {
            assert forall|c: char| inner.mentions(c) implies variables.contains(c) by {
                assert(expr.mentions(c));
            }
            lemma_closed_has_value(*inner, variables, assignment);
        },
        Expr::And(left, right) => {
            assert forall|c: char| left.mentions(c) implies variables.contains(c) by {
                assert(expr.mentions(c));
            }
            assert forall|c: char| right.mentions(c) implies variables.contains(c) by {
                assert(expr.mentions(c));
            }
            lemma_closed_has_value(*left, variables, assignment);
            lemma_closed_has_value(*right, variables, assignment);
        },
        Expr::Or(left, right) => {
            assert forall|c: char| left.mentions(c) implies variables.contains(c) by {
                assert(expr.mentions(c));
            }
            assert forall|c: char| right.mentions(c) implies variables.contains(c) by {
                assert(expr.mentions(c));
            }
            lemma_closed_has_value(*left, variables, assignment);
            lemma_closed_has_value(*right, variables, assignment);
        },
    }
}

} // verus!
