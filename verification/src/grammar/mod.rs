//! Operator tables of the expression grammar.
pub mod expression;
pub mod statement;
