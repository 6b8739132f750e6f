//! Laws that hold of the operations of a bank, stated over the stores before
//! and after each operation.

use vstd::prelude::*;
use core::cmp::Ordering;
use crate::bank::{
    all_within, extends, interned, lemma_interned, lemma_tree_of_injective, lemma_tree_of_stable,
    lemma_trees_of_stable, store_ok, tree_of, trees_of, Id, Term,
};
use crate::order::{
    lemma_tree_order_equal, lemma_tree_order_reversed, lemma_tree_order_transitive, tree_order,
};
use crate::rewrite::{critical_pairs, left_sides};
use crate::rule::Rule;
use crate::symbol::reversed;
use crate::tree::{
    forest_size, lemma_forest_size_step, lemma_occurs_transitive, lemma_replace_all_occurs,
    occurs, rebuilds, rendered, rendered_list, replace_all, tree_size,
};

verus! {

/// Interning is canonical: of two terms interned one after the other, the
/// second gets the identifier of the first exactly where it has the same
/// symbol and the same arguments, and then the store does not grow.
pub proof fn law_interning_is_canonical(
    s0: Seq<Term>,
    s1: Seq<Term>,
    s2: Seq<Term>,
    t1: Term,
    id1: Id,
    t2: Term,
    id2: Id,
)
    requires
        store_ok(s0),
        all_within(t1.args, s0),
        all_within(t2.args, s1),
        interned(s0, s1, t1, id1),
        interned(s1, s2, t2, id2),
    ensures
        id1 == id2 <==> t1.symbol == t2.symbol && t1.args == t2.args,
        id1 == id2 ==> s2 == s1,
{
    lemma_interned(s0, s1, t1, id1);
}

/// Two identifiers of one store stand for the same ground term exactly
/// where they are the same identifier.
pub proof fn law_one_identifier_per_term(s: Seq<Term>, a: Id, b: Id)
    requires
        store_ok(s),
        a < s.len(),
        b < s.len(),
    ensures
        tree_of(s, a) == tree_of(s, b) <==> a == b,
{
    if tree_of(s, a) == tree_of(s, b) {
        lemma_tree_of_injective(s, a, b);
    }
}

/// The notation of an interned term is its bare symbol where it has no
/// arguments; otherwise it is the symbol, an opening bracket, the notations
/// of the arguments joined by a comma and a space, and a closing bracket.
pub proof fn law_notation_of_interned(before: Seq<Term>, after: Seq<Term>, t: Term, id: Id)
    requires
        store_ok(before),
        all_within(t.args, before),
        interned(before, after, t, id),
    ensures
        rendered(tree_of(after, id)) == if t.args.len() == 0 {
            t.symbol
        } else {
            t.symbol + seq!['('] + rendered_list(trees_of(after, t.args)) + seq![')']
        },
        t.args.len() == 1 ==> rendered_list(trees_of(after, t.args)) == rendered(
            tree_of(after, t.args[0]),
        ),
        t.args.len() > 1 ==> rendered_list(trees_of(after, t.args)) == rendered_list(
            trees_of(after, t.args.drop_last()),
        ) + seq![',', ' '] + rendered(tree_of(after, t.args.last())),
{
    lemma_interned(before, after, t, id);
    lemma_trees_of_stable(before, after, t.args);
    if t.args.len() > 1 {
        assert(trees_of(after, t.args).drop_last() =~= trees_of(after, t.args.drop_last()));
    }
}

/// The size of an interned term is one more than the sizes of its arguments
/// together: one for a term without arguments, and one more than the two
/// sizes for a term with two arguments.
pub proof fn law_size_of_interned(before: Seq<Term>, after: Seq<Term>, t: Term, id: Id)
    requires
        store_ok(before),
        all_within(t.args, before),
        interned(before, after, t, id),
    ensures
        tree_size(tree_of(after, id)) == 1 + forest_size(trees_of(after, t.args)),
        t.args.len() == 0 ==> tree_size(tree_of(after, id)) == 1,
        t.args.len() == 2 ==> tree_size(tree_of(after, id)) == 1 + tree_size(
            tree_of(after, t.args[0]),
        ) + tree_size(tree_of(after, t.args[1])),
{
    lemma_interned(before, after, t, id);
    lemma_trees_of_stable(before, after, t.args);
    let kids = trees_of(after, t.args);
    if t.args.len() == 2 {
        lemma_forest_size_step(kids, 0);
    }
}

/// Comparing `b` to `a` gives the opposite of comparing `a` to `b`, a term
/// compares equal to itself, and to no other term of the store.
pub proof fn law_order_is_antisymmetric(s: Seq<Term>, a: Id, b: Id)
    requires
        store_ok(s),
        a < s.len(),
        b < s.len(),
    ensures
        tree_order(tree_of(s, b), tree_of(s, a)) == reversed(
            tree_order(tree_of(s, a), tree_of(s, b)),
        ),
        tree_order(tree_of(s, a), tree_of(s, a)) == Ordering::Equal,
        tree_order(tree_of(s, a), tree_of(s, b)) == Ordering::Equal <==> a == b,
{
    lemma_tree_order_reversed(tree_of(s, a), tree_of(s, b));
    lemma_tree_order_equal(tree_of(s, a), tree_of(s, a));
    lemma_tree_order_equal(tree_of(s, a), tree_of(s, b));
    if tree_of(s, a) == tree_of(s, b) {
        lemma_tree_of_injective(s, a, b);
    }
}

/// The order is transitive: a term that comes before a second term, which
/// comes before a third, comes before the third.
pub proof fn law_order_is_transitive(s: Seq<Term>, a: Id, b: Id, c: Id)
    requires
        tree_order(tree_of(s, a), tree_of(s, b)) == Ordering::Less,
        tree_order(tree_of(s, b), tree_of(s, c)) == Ordering::Less,
    ensures
        tree_order(tree_of(s, a), tree_of(s, c)) == Ordering::Less,
{
    lemma_tree_order_transitive(tree_of(s, a), tree_of(s, b), tree_of(s, c));
}

/// Containment is reflexive and transitive: a term occurs in itself, and
/// what occurs in a term that occurs in another occurs in that other.
pub proof fn law_containment_is_a_preorder(s: Seq<Term>, a: Id, b: Id, c: Id)
    ensures
        occurs(tree_of(s, a), tree_of(s, a)),
        occurs(tree_of(s, a), tree_of(s, b)) && occurs(tree_of(s, b), tree_of(s, c)) ==> occurs(
            tree_of(s, a),
            tree_of(s, c),
        ),
{
    if occurs(tree_of(s, a), tree_of(s, b)) && occurs(tree_of(s, b), tree_of(s, c)) {
        lemma_occurs_transitive(tree_of(s, a), tree_of(s, b), tree_of(s, c));
    }
}

/// After the substitution of `rule` into `t` has given `id`, the left side
/// of the rule occurs in the result exactly where the pass has built it
/// anew, provided that it does not occur in the right side. So where the
/// pass builds no such term the left side is gone from the result.
pub proof fn law_substitution_is_complete(
    before: Seq<Term>,
    after: Seq<Term>,
    t: Id,
    rule: Rule,
    id: Id,
)
    requires
        store_ok(before),
        extends(after, before),
        t < before.len(),
        rule.lhs < before.len(),
        rule.rhs < before.len(),
        tree_of(after, id) == replace_all(
            tree_of(before, t),
            tree_of(before, rule.lhs),
            tree_of(before, rule.rhs),
        ),
        !occurs(tree_of(before, rule.rhs), tree_of(before, rule.lhs)),
    ensures
        occurs(tree_of(after, id), tree_of(after, rule.lhs)) <==> rebuilds(
            tree_of(before, t),
            tree_of(before, rule.lhs),
            tree_of(before, rule.rhs),
        ),
{
    lemma_tree_of_stable(before, after, rule.lhs);
    lemma_replace_all_occurs(
        tree_of(before, t),
        tree_of(before, rule.lhs),
        tree_of(before, rule.rhs),
    );
}

/// Deduction does not depend on the order of its two rules where one left
/// side is smaller than the other: called with the rules exchanged, on the
/// bank that the first call has left, it returns the same equations.
pub proof fn law_deduction_ignores_rule_order(
    s0: Seq<Term>,
    s1: Seq<Term>,
    s2: Seq<Term>,
    r1: Rule,
    r2: Rule,
    out1: Seq<crate::rule::Eq>,
    out2: Seq<crate::rule::Eq>,
)
    requires
        store_ok(s0),
        store_ok(s1),
        store_ok(s2),
        extends(s1, s0),
        extends(s2, s1),
        r1.lhs < s0.len(),
        r1.rhs < s0.len(),
        r2.lhs < s0.len(),
        r2.rhs < s0.len(),
        tree_size(tree_of(s0, r1.lhs)) != tree_size(tree_of(s0, r2.lhs)),
        critical_pairs(s0, s1, r1, r2, out1),
        critical_pairs(s1, s2, r2, r1, out2),
    ensures
        out1 == out2,
{
    lemma_tree_of_stable(s0, s1, r1.lhs);
    lemma_tree_of_stable(s0, s1, r1.rhs);
    lemma_tree_of_stable(s0, s1, r2.lhs);
    lemma_tree_of_stable(s0, s1, r2.rhs);
    let l1 = left_sides(out1);
    let l2 = left_sides(out2);
    lemma_trees_of_stable(s1, s2, l1);
    assert(l2.len() == trees_of(s2, l2).len());
    assert forall|k: int| 0 <= k < out1.len() implies out1[k] == out2[k] by {
        assert(trees_of(s2, l1)[k] == trees_of(s2, l2)[k]);
        lemma_tree_of_injective(s2, l1[k], l2[k]);
    }
}

} // verus!
