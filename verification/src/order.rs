//! The ordering of ground terms, and the orientation of equations by it.
//!
//! Terms are ordered by size first, then by head symbol, then by their
//! arguments from left to right. Two terms compare equal only where they are
//! the same term.

use vstd::prelude::*;
use core::cmp::Ordering;
use crate::bank::{lemma_tree_of, lemma_tree_of_injective, trees_of, Id, TermBank};
use crate::rule::{KbError, Rule};
use crate::symbol::{
    compare_symbols, lemma_symbol_order_equal, lemma_symbol_order_reversed,
    lemma_symbol_order_transitive, reversed, symbol_order,
};
use crate::tree::{
    forest_size, lemma_forest_size_member, lemma_forest_size_proper_prefix, tree_size, Tree,
};

verus! {

/// The order of two ground terms: the smaller term comes first; of two terms
/// of one size the one with the lesser head symbol; of two with one size and
/// one head symbol the one whose arguments come first.
pub open spec fn tree_order(x: Tree, y: Tree) -> Ordering
    decreases x, 0nat,
{
    if tree_size(x) < tree_size(y) {
        Ordering::Less
    } else if tree_size(x) > tree_size(y) {
        Ordering::Greater
    } else {
        match symbol_order(x.symbol, y.symbol) {
            Ordering::Equal => forest_order(x.children, y.children, 0),
            decided => decided,
        }
    }
}

/// The order of two argument lists from position `k` on: the first position
/// at which the arguments do not compare equal decides. Positions that only
/// one of the lists has are not looked at.
pub open spec fn forest_order(xs: Seq<Tree>, ys: Seq<Tree>, k: int) -> Ordering
    decreases xs, xs.len() - k,
{
    if k < 0 || k >= xs.len() || k >= ys.len() {
        Ordering::Equal
    } else {
        match tree_order(xs[k], ys[k]) {
            Ordering::Equal => forest_order(xs, ys, k + 1),
            decided => decided,
        }
    }
}

/// Comparing `y` to `x` gives the opposite of comparing `x` to `y`.
pub proof fn lemma_tree_order_reversed(x: Tree, y: Tree)
    ensures
        tree_order(y, x) == reversed(tree_order(x, y)),
    decreases x, 0nat,
{
    lemma_symbol_order_reversed(x.symbol, y.symbol);
    lemma_forest_order_reversed(x.children, y.children, 0);
}

/// Comparing `ys` to `xs` gives the opposite of comparing `xs` to `ys`.
pub proof fn lemma_forest_order_reversed(xs: Seq<Tree>, ys: Seq<Tree>, k: int)
    ensures
        forest_order(ys, xs, k) == reversed(forest_order(xs, ys, k)),
    decreases xs, xs.len() - k,
{
    if 0 <= k < xs.len() && k < ys.len() {
        lemma_tree_order_reversed(xs[k], ys[k]);
        lemma_forest_order_reversed(xs, ys, k + 1);
    }
}

/// Two terms compare equal exactly where they are the same term.
pub proof fn lemma_tree_order_equal(x: Tree, y: Tree)
    ensures
        tree_order(x, y) == Ordering::Equal <==> x == y,
    decreases x, 0nat,
{
    let xs = x.children;
    let ys = y.children;
    lemma_symbol_order_equal(x.symbol, y.symbol);
    lemma_forest_order_equal(xs, ys, 0);
    if tree_order(x, y) == Ordering::Equal {
        if xs.len() < ys.len() {
            lemma_forest_size_proper_prefix(xs, ys);
        }
        if ys.len() < xs.len() {
            lemma_forest_size_proper_prefix(ys, xs);
        }
        assert(xs =~= ys);
    }
}

/// Two argument lists compare equal from `k` on exactly where they agree at
/// every position from `k` on that both have.
pub proof fn lemma_forest_order_equal(xs: Seq<Tree>, ys: Seq<Tree>, k: int)
    requires
        0 <= k,
    ensures
        forest_order(xs, ys, k) == Ordering::Equal <==> forall|j: int|
            k <= j < xs.len() && j < ys.len() ==> xs[j] == ys[j],
    decreases xs, xs.len() - k,
{
    if k < xs.len() && k < ys.len() {
        lemma_tree_order_equal(xs[k], ys[k]);
        lemma_forest_order_equal(xs, ys, k + 1);
    }
}

/// The order of ground terms is transitive.
pub proof fn lemma_tree_order_transitive(x: Tree, y: Tree, z: Tree)
    requires
        tree_order(x, y) == Ordering::Less,
        tree_order(y, z) == Ordering::Less,
    ensures
        tree_order(x, z) == Ordering::Less,
    decreases x, 0nat,
{
    if tree_size(x) == tree_size(y) && tree_size(y) == tree_size(z) {
        lemma_symbol_order_equal(x.symbol, y.symbol);
        lemma_symbol_order_equal(y.symbol, z.symbol);
        lemma_symbol_order_equal(x.symbol, z.symbol);
        if x.symbol == y.symbol && y.symbol == z.symbol {
            lemma_forest_order_transitive(x.children, y.children, z.children, 0);
        } else if x.symbol != y.symbol && y.symbol != z.symbol {
            lemma_symbol_order_transitive(x.symbol, y.symbol, z.symbol);
        }
    }
}

/// The order of argument lists is transitive.
pub proof fn lemma_forest_order_transitive(xs: Seq<Tree>, ys: Seq<Tree>, zs: Seq<Tree>, k: int)
    requires
        0 <= k,
        forest_order(xs, ys, k) == Ordering::Less,
        forest_order(ys, zs, k) == Ordering::Less,
    ensures
        forest_order(xs, zs, k) == Ordering::Less,
    decreases xs, xs.len() - k,
{
    let first = tree_order(xs[k], ys[k]);
    let second = tree_order(ys[k], zs[k]);
    lemma_tree_order_equal(xs[k], ys[k]);
    lemma_tree_order_equal(ys[k], zs[k]);
    lemma_tree_order_equal(xs[k], zs[k]);
    if first == Ordering::Less && second == Ordering::Less {
        lemma_tree_order_transitive(xs[k], ys[k], zs[k]);
    } else if first == Ordering::Equal && second == Ordering::Equal {
        lemma_forest_order_transitive(xs, ys, zs, k + 1);
    }
}

impl TermBank {
    /// Compares two terms of the bank.
    pub fn kbo(&self, e1: Id, e2: Id) -> (r: Ordering)
        requires
            self.wf(),
            self.has(e1),
            self.has(e2),
            tree_size(self.tree(e1)) <= usize::MAX,
            tree_size(self.tree(e2)) <= usize::MAX,
        ensures
            r == tree_order(self.tree(e1), self.tree(e2)),
            r == Ordering::Equal <==> e1 == e2,
        decreases e1,
    {
        proof {
            lemma_tree_of(self@, e1);
            lemma_tree_of(self@, e2);
            lemma_tree_order_equal(self.tree(e1), self.tree(e2));
            if self.tree(e1) == self.tree(e2) {
                lemma_tree_of_injective(self@, e1, e2);
            }
        }
        let n1 = self.size(e1);
        let n2 = self.size(e2);
        if n1 < n2 {
            return Ordering::Less;
        }
        if n1 > n2 {
            return Ordering::Greater;
        }
        let by_symbol = compare_symbols(self.symbol(e1), self.symbol(e2));
        match by_symbol {
            Ordering::Equal => {},
            _ => {
                return by_symbol;
            },
        }
        let a1 = self.args(e1);
        let a2 = self.args(e2);
        let ghost k1 = self.tree(e1).children;
        let ghost k2 = self.tree(e2).children;
        let mut i: usize = 0;
        let ghost mut k: int = 0;
        while i < a1.len() && i < a2.len()
            invariant
                self.wf(),
                self.has(e1),
                self.has(e2),
                a1@ == self.term(e1).args,
                a2@ == self.term(e2).args,
                k1 == trees_of(self@, a1@),
                k2 == trees_of(self@, a2@),
                forest_size(k1) < usize::MAX,
                forest_size(k2) < usize::MAX,
                k == i,
                k <= a1@.len(),
                k <= a2@.len(),
                tree_order(self.tree(e1), self.tree(e2)) == forest_order(k1, k2, 0),
                tree_order(self.tree(e1), self.tree(e2)) == Ordering::Equal <==> e1 == e2,
                forest_order(k1, k2, 0) == forest_order(k1, k2, k),
            decreases a1.len() - i,
        {
            proof {
                lemma_forest_size_member(k1, k);
                lemma_forest_size_member(k2, k);
            }
            let by_arg = self.kbo(a1[i], a2[i]);
            match by_arg {
                Ordering::Equal => {},
                _ => {
                    return by_arg;
                },
            }
            i += 1;
            proof {
                k = k + 1;
            }
        }
        Ordering::Equal
    }

    /// Orients an equation into a rule whose left side is the greater term.
    /// An equation between a term and itself has no orientation.
    pub fn orient(&self, eq: crate::rule::Eq) -> (r: Result<Rule, KbError>)
        requires
            self.wf(),
            self.has(eq.lhs),
            self.has(eq.rhs),
            tree_size(self.tree(eq.lhs)) <= usize::MAX,
            tree_size(self.tree(eq.rhs)) <= usize::MAX,
        ensures
            r == match tree_order(self.tree(eq.lhs), self.tree(eq.rhs)) {
                Ordering::Greater => Ok::<Rule, KbError>(Rule { lhs: eq.lhs, rhs: eq.rhs }),
                Ordering::Less => Ok(Rule { lhs: eq.rhs, rhs: eq.lhs }),
                Ordering::Equal => Err(KbError::InvalidOrientation),
            },
            r is Err <==> eq.lhs == eq.rhs,
            r matches Ok(rule) ==> tree_order(self.tree(rule.lhs), self.tree(rule.rhs))
                == Ordering::Greater,
    {
        proof {
            lemma_tree_order_reversed(self.tree(eq.lhs), self.tree(eq.rhs));
        }
        match self.kbo(eq.lhs, eq.rhs) {
            Ordering::Greater => Ok(Rule { lhs: eq.lhs, rhs: eq.rhs }),
            Ordering::Less => Ok(Rule { lhs: eq.rhs, rhs: eq.lhs }),
            Ordering::Equal => Err(KbError::InvalidOrientation),
        }
    }
}

} // verus!
