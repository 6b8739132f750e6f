//! Ground term rewriting over a hash-consed term bank.
//!
//! Terms without variables are interned into a [`bank::TermBank`], which
//! hands out one identifier per distinct term. On top of the bank sit a
//! total ordering of ground terms, the orientation of equations into rewrite
//! rules, substitution of one rule into a term, and the deduction step that
//! lists the critical pairs of two rules.
//!
//! Every contract is stated over [`tree::Tree`], the mathematical ground term
//! that an identifier stands for:
//!
//! - [`tree`] holds that model and the functions on it;
//! - [`bank`] holds the store, its invariant and interning;
//! - [`query`] holds notation, size and containment;
//! - [`symbol`] and [`order`] hold the ordering and orientation;
//! - [`rewrite`] holds substitution and deduction;
//! - [`rule`] holds equations, rules and the error of orientation;
//! - [`laws`] holds what is proved of these operations together.

pub mod bank;
pub mod laws;
pub mod order;
pub mod query;
pub mod rewrite;
pub mod rule;
pub mod symbol;
pub mod tree;
