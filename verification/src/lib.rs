//! Postfix boolean formulas: a parser into binary expression trees, a
//! bit-stack evaluator, a pattern-based rewrite engine, and negation
//! normal form as its client, with the round trip, semantic preservation,
//! normal-form shape and idempotence of normalization proved in `laws`
//! and beside the functions themselves.

pub mod ast;
pub mod binop;
pub(crate) mod bitstack;
pub mod laws;
pub mod rpn_formula;
pub mod rpn_rewrite;
pub mod unop;
