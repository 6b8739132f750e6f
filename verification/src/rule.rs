//! Equations and rewrite rules: pairs of identifiers of one bank.

use vstd::prelude::*;
use crate::bank::Id;

verus! {

/// An equation between two terms of one bank. It has no direction.
#[derive(Debug, Clone, Copy, PartialEq, Eq, Structural)]
pub struct Eq {
    pub lhs: Id,
    pub rhs: Id,
}

/// A rewrite rule: `lhs` is rewritten to `rhs`. A rule that comes from
/// orienting an equation has the greater side as `lhs`.
#[derive(Debug, Clone, Copy, PartialEq, Eq, Structural)]
pub struct Rule {
    pub lhs: Id,
    pub rhs: Id,
}

/// Why an operation on equations and rules failed.
#[derive(Debug, Clone, Copy, PartialEq, Eq, Structural)]
pub enum KbError {
    /// The two sides of the equation are the same term, so that neither can
    /// be rewritten to the other.
    InvalidOrientation,
}

} // verus!
