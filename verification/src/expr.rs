//! The expression tree of a formula.

use vstd::prelude::*;

verus! {

/// A boolean expression over single-letter variables.
#[derive(Debug, PartialEq, Eq)]
pub enum Expr {
    /// A constant.
    Literal(bool),
    /// A variable, by its letter.
    Variable(char),
    /// The negation of an expression.
    Not(Box<Expr>),
    /// The conjunction of two expressions.
    And(Box<Expr>, Box<Expr>),
    /// The disjunction of two expressions.
    Or(Box<Expr>, Box<Expr>),
}

impl Expr {
    /// The number of nodes on the longest path from the root to a leaf.
    pub open spec fn depth(self) -> nat
        decreases self,
    {
        match self {
            Expr::Literal(_) => 1,
            Expr::Variable(_) => 1,
            Expr::Not(inner) => 1 + inner.depth(),
            Expr::And(left, right) => 1 + if left.depth() >= right.depth() {
                left.depth()
            } else {
                right.depth()
            },
            Expr::Or(left, right) => 1 + if left.depth() >= right.depth() {
                left.depth()
            } else {
                right.depth()
            },
        }
    }

    /// Whether the variable `c` occurs in the expression.
    pub open spec fn mentions(self, c: char) -> bool
        decreases self,
    {
        match self {
            Expr::Literal(_) => false,
            Expr::Variable(d) => d == c,
            Expr::Not(inner) => inner.mentions(c),
            Expr::And(left, right) => left.mentions(c) || right.mentions(c),
            Expr::Or(left, right) => left.mentions(c) || right.mentions(c),
        }
    }

    /// Whether every variable of the expression is one of `variables`.
    pub open spec fn closed_under(self, variables: Seq<char>) -> bool {
        forall|c: char| self.mentions(c) ==> variables.contains(c)
    }
}

} // verus!
