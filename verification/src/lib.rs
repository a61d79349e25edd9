//! Truth tables for boolean formulas over single-letter variables.
//!
//! A formula such as `x AND y OR (z AND x)` is normalized, split into tokens,
//! parsed once into an expression tree, and evaluated under every assignment
//! of its variables. The outcome is a [`table::TruthTable`].

pub mod enumerate;
pub mod eval;
pub mod expr;
pub mod layout;
pub mod normalize;
pub mod parser;
pub mod table;
pub mod text;
pub mod token;
pub mod variables;
pub mod written;
