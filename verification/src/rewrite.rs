//! Rewriting with one rule: substitution of every occurrence, the list of
//! the single-occurrence rewrites, and the deduction of critical pairs.

use vstd::prelude::*;
use crate::bank::{
    all_within, extends, grown_for, lemma_tree_of_injective, lemma_tree_of_stable,
    lemma_trees_of_stable, reached, store_ok, tree_of, trees_of, Id, Term, TermBank,
};
use crate::rule::Rule;
use crate::tree::{child_rewrites, occurs, replace_all, rewrites, tree_size, with_child, Tree};

verus! {

/// The left sides of a list of equations.
pub open spec fn left_sides(eqs: Seq<crate::rule::Eq>) -> Seq<Id> {
    Seq::new(eqs.len(), |k: int| eqs[k].lhs)
}

/// Of two rules the one that deduction rewrites, followed by the one it
/// rewrites with: the first has the larger left side, and where the two left
/// sides are of one size the rules stay in the order given.
pub open spec fn overlap_order(x1: Tree, x2: Tree, r1: Rule, r2: Rule) -> (Rule, Rule) {
    if tree_size(x1) < tree_size(x2) {
        (r2, r1)
    } else {
        (r1, r2)
    }
}

/// What is reached in a store is reached in a store that extends it.
pub proof fn lemma_reached_stable(s1: Seq<Term>, s2: Seq<Term>, ids: Seq<Id>, i: Id)
    requires
        store_ok(s1),
        extends(s2, s1),
        all_within(ids, s1),
        i < s1.len(),
        reached(s1, ids, i),
    ensures
        reached(s2, ids, i),
{
    let j = choose|j: int|
        0 <= j < ids.len() && occurs(tree_of(s1, #[trigger] ids[j]), tree_of(s1, i));
    lemma_tree_of_stable(s1, s2, ids[j]);
    lemma_tree_of_stable(s1, s2, i);
}

/// What is reached from some identifiers is reached from them and others.
pub proof fn lemma_reached_more(s: Seq<Term>, ids: Seq<Id>, others: Seq<Id>, i: Id)
    requires
        reached(s, ids, i),
    ensures
        reached(s, ids + others, i),
{
    let j = choose|j: int|
        0 <= j < ids.len() && occurs(tree_of(s, #[trigger] ids[j]), tree_of(s, i));
    assert((ids + others)[j] == ids[j]);
}

/// What is reached from one identifier is reached from a list that holds it.
pub proof fn lemma_reached_by_member(s: Seq<Term>, ids: Seq<Id>, k: int, i: Id)
    requires
        0 <= k < ids.len(),
        reached(s, seq![ids[k]], i),
    ensures
        reached(s, ids, i),
{
    let one = seq![ids[k]];
    let j = choose|j: int|
        0 <= j < one.len() && occurs(tree_of(s, #[trigger] one[j]), tree_of(s, i));
    assert(one[j] == ids[k]);
}

/// What is reached from the arguments of a term is reached from the term.
pub proof fn lemma_reached_through_parent(s: Seq<Term>, parent: Id, args: Seq<Id>, i: Id)
    requires
        parent < s.len(),
        tree_of(s, parent).children == trees_of(s, args),
        reached(s, args, i),
    ensures
        reached(s, seq![parent], i),
{
    let j = choose|j: int|
        0 <= j < args.len() && occurs(tree_of(s, #[trigger] args[j]), tree_of(s, i));
    assert(tree_of(s, parent).children[j] == tree_of(s, args[j]));
    assert(seq![parent][0] == parent);
}

/// `out` lists, as identifiers of store `after`, the critical pairs of the
/// rules `r1` and `r2` of store `before`: one equation for every rewrite of
/// the left side that `overlap_order` puts first with the rule that it puts
/// second, each between that rewrite and the right side of the first.
pub open spec fn critical_pairs(
    before: Seq<Term>,
    after: Seq<Term>,
    r1: Rule,
    r2: Rule,
    out: Seq<crate::rule::Eq>,
) -> bool {
    let (into, with) = overlap_order(tree_of(before, r1.lhs), tree_of(before, r2.lhs), r1, r2);
    &&& all_within(left_sides(out), after)
    &&& trees_of(after, left_sides(out)) == rewrites(
        tree_of(before, into.lhs),
        tree_of(before, with.lhs),
        tree_of(before, with.rhs),
    )
    &&& forall|k: int| 0 <= k < out.len() ==> (#[trigger] out[k]).rhs == into.rhs
}

/// While the rewrites of one argument are put back into their parent: every
/// term that `s` holds beyond `start` occurs in a term of `results`, or it
/// was there at `mid` and occurs in a term of `pending`.
spec fn lifting(
    start: Seq<Term>,
    mid: Seq<Term>,
    s: Seq<Term>,
    results: Seq<Id>,
    pending: Seq<Id>,
) -> bool {
    forall|n: Id|
        start.len() <= n < s.len() ==> #[trigger] reached(s, results, n) || (n < mid.len()
            && reached(s, pending, n))
}

/// `lifting` holds when the rewrites of an argument have just been listed.
proof fn lemma_lifting_begins(
    start: Seq<Term>,
    before: Seq<Term>,
    mid: Seq<Term>,
    results: Seq<Id>,
    sub: Seq<Id>,
)
    requires
        store_ok(before),
        extends(mid, before),
        all_within(results, before),
        grown_for(start, before, results),
        grown_for(before, mid, sub),
    ensures
        lifting(start, mid, mid, results, sub),
{
    assert forall|n: Id| start.len() <= n < mid.len() implies #[trigger] reached(mid, results, n)
        || (n < mid.len() && reached(mid, sub, n)) by {
        if n < before.len() {
            lemma_reached_stable(before, mid, results, n);
        }
    }
}

/// `lifting` is kept when the first pending rewrite is put into the parent
/// and the parent is interned as `parent`.
proof fn lemma_lifting_step(
    start: Seq<Term>,
    mid: Seq<Term>,
    inner: Seq<Term>,
    s: Seq<Term>,
    listed: Seq<Id>,
    pending: Seq<Id>,
    parent: Id,
    m: int,
)
    requires
        store_ok(inner),
        extends(s, inner),
        mid.len() <= inner.len(),
        parent < s.len(),
        s.len() == inner.len() || (s.len() == inner.len() + 1 && parent == inner.len()),
        all_within(listed, inner),
        all_within(pending, inner),
        pending.len() > 0,
        0 <= m < tree_of(s, parent).children.len(),
        tree_of(s, parent).children[m] == tree_of(inner, pending[0]),
        lifting(start, mid, inner, listed, pending),
    ensures
        lifting(start, mid, s, listed.push(parent), pending.drop_first()),
{
    let results = listed.push(parent);
    let rest = pending.drop_first();
    assert forall|n: Id| start.len() <= n < s.len() implies #[trigger] reached(s, results, n) || (n
        < mid.len() && reached(s, rest, n)) by {
        if n >= inner.len() {
            assert(occurs(tree_of(s, results[listed.len() as int]), tree_of(s, n)));
        } else if reached(inner, listed, n) {
            lemma_reached_stable(inner, s, listed, n);
            lemma_reached_more(s, listed, seq![parent], n);
            assert(listed + seq![parent] =~= results);
        } else {
            let j = choose|j: int|
                0 <= j < pending.len() && occurs(
                    tree_of(inner, #[trigger] pending[j]),
                    tree_of(inner, n),
                );
            lemma_tree_of_stable(inner, s, pending[j]);
            lemma_tree_of_stable(inner, s, n);
            if j == 0 {
                assert(occurs(tree_of(s, results[listed.len() as int]), tree_of(s, n)));
            } else {
                assert(occurs(tree_of(s, rest[j - 1]), tree_of(s, n)));
            }
        }
    }
}

impl TermBank {
    /// Rewrites `t` with `rule` in one top-down pass: the result stands for
    /// `t` with the right side of the rule in place of every occurrence of
    /// the left side that the pass meets.
    pub fn substitute(&mut self, t: Id, rule: Rule) -> (id: Id)
        requires
            old(self).wf(),
            old(self).has(t),
            old(self).has(rule.lhs),
            old(self).has(rule.rhs),
        ensures
            final(self).wf(),
            extends(final(self)@, old(self)@),
            final(self).has(id),
            final(self).tree(id) == replace_all(
                old(self).tree(t),
                old(self).tree(rule.lhs),
                old(self).tree(rule.rhs),
            ),
            grown_for(old(self)@, final(self)@, seq![id]),
            t == rule.lhs ==> id == rule.rhs && final(self)@ == old(self)@,
        decreases t,
    {
        if t == rule.lhs {
            return rule.rhs;
        }
        let f = self.symbol(t).clone();
        let args = self.args(t).clone();
        let ghost x = self.tree(t);
        let ghost from = self.tree(rule.lhs);
        let ghost to = self.tree(rule.rhs);
        proof {
            if x == from {
                lemma_tree_of_injective(self@, t, rule.lhs);
            }
        }
        let mut new_args: Vec<Id> = Vec::new();
        let mut i: usize = 0;
        while i < args.len()
            invariant
                self.wf(),
                old(self).wf(),
                extends(self@, old(self)@),
                old(self).has(t),
                old(self).has(rule.lhs),
                old(self).has(rule.rhs),
                args@ == old(self).term(t).args,
                x.children == trees_of(old(self)@, args@),
                from == old(self).tree(rule.lhs),
                to == old(self).tree(rule.rhs),
                i <= args.len(),
                new_args@.len() == i,
                all_within(new_args@, self@),
                forall|j: int|
                    0 <= j < i ==> #[trigger] tree_of(self@, new_args@[j]) == replace_all(
                        x.children[j],
                        from,
                        to,
                    ),
                grown_for(old(self)@, self@, new_args@),
            decreases args.len() - i,
        {
            let ghost before = self@;
            let ghost done = new_args@;
            proof {
                lemma_tree_of_stable(old(self)@, before, args@[i as int]);
                lemma_tree_of_stable(old(self)@, before, rule.lhs);
                lemma_tree_of_stable(old(self)@, before, rule.rhs);
            }
            let r = self.substitute(args[i], rule);
            new_args.push(r);
            proof {
                assert forall|j: int| 0 <= j < i + 1 implies #[trigger] tree_of(
                    self@,
                    new_args@[j],
                ) == replace_all(x.children[j], from, to) by {
                    if j < i {
                        lemma_tree_of_stable(before, self@, done[j]);
                    }
                }
                assert forall|n: Id| old(self)@.len() <= n < self@.len() implies #[trigger] reached(
                    self@,
                    new_args@,
                    n,
                ) by {
                    if n < before.len() {
                        lemma_reached_stable(before, self@, done, n);
                        lemma_reached_more(self@, done, seq![r], n);
                        assert(done + seq![r] =~= new_args@);
                    } else {
                        lemma_reached_by_member(self@, new_args@, i as int, n);
                    }
                }
            }
            i += 1;
        }
        let ghost before = self@;
        let ghost kids = new_args@;
        let id = self.app(f, new_args);
        proof {
            assert(self.tree(id).children =~= replace_all(x, from, to).children);
            assert forall|n: Id| old(self)@.len() <= n < self@.len() implies #[trigger] reached(
                self@,
                seq![id],
                n,
            ) by {
                if n < before.len() {
                    lemma_reached_stable(before, self@, kids, n);
                    lemma_trees_of_stable(before, self@, kids);
                    lemma_reached_through_parent(self@, id, kids, n);
                } else {
                    assert(seq![id][0] == id);
                }
            }
        }
        id
    }

    /// Lists every term that comes from `t` by rewriting exactly one
    /// occurrence of the left side of `r` to its right side, the occurrences
    /// taken from left to right. An occurrence inside another occurrence is
    /// not listed.
    pub fn all_subst(&mut self, t: Id, r: &Rule) -> (out: Vec<Id>)
        requires
            old(self).wf(),
            old(self).has(t),
            old(self).has(r.lhs),
            old(self).has(r.rhs),
        ensures
            final(self).wf(),
            extends(final(self)@, old(self)@),
            all_within(out@, final(self)@),
            trees_of(final(self)@, out@) == rewrites(
                old(self).tree(t),
                old(self).tree(r.lhs),
                old(self).tree(r.rhs),
            ),
            grown_for(old(self)@, final(self)@, out@),
            t == r.lhs ==> out@ == seq![r.rhs] && final(self)@ == old(self)@,
        decreases t,
    {
        let ghost x = self.tree(t);
        let ghost from = self.tree(r.lhs);
        let ghost to = self.tree(r.rhs);
        if t == r.lhs {
            let mut out: Vec<Id> = Vec::new();
            out.push(r.rhs);
            return out;
        }
        let f = self.symbol(t).clone();
        let args = self.args(t).clone();
        proof {
            if x == from {
                lemma_tree_of_injective(self@, t, r.lhs);
            }
        }
        let mut results: Vec<Id> = Vec::new();
        let mut m: usize = 0;
        while m < args.len()
            invariant
                self.wf(),
                old(self).wf(),
                extends(self@, old(self)@),
                old(self).has(t),
                old(self).has(r.lhs),
                old(self).has(r.rhs),
                args@ == old(self).term(t).args,
                f@ == x.symbol,
                x == old(self).tree(t),
                x != from,
                x.children == trees_of(old(self)@, args@),
                from == old(self).tree(r.lhs),
                to == old(self).tree(r.rhs),
                m <= args.len(),
                all_within(results@, self@),
                trees_of(self@, results@) == child_rewrites(x, from, to, m as int),
                grown_for(old(self)@, self@, results@),
            decreases args.len() - m,
        {
            let ghost before = self@;
            let ghost done = trees_of(self@, results@);
            proof {
                lemma_tree_of_stable(old(self)@, before, args@[m as int]);
                lemma_tree_of_stable(old(self)@, before, r.lhs);
                lemma_tree_of_stable(old(self)@, before, r.rhs);
            }
            let sub_results = self.all_subst(args[m], r);
            let ghost parts = rewrites(x.children[m as int], from, to);
            let ghost lifted = parts.map_values(|c: Tree| with_child(x, m as int, c));
            proof {
                lemma_trees_of_stable(before, self@, results@);
                lemma_lifting_begins(old(self)@, before, self@, results@, sub_results@);
                assert(sub_results@.skip(0) =~= sub_results@);
            }
            let ghost mid = self@;
            let mut q: usize = 0;
            while q < sub_results.len()
                invariant
                    self.wf(),
                    old(self).wf(),
                    extends(self@, old(self)@),
                    old(self).has(t),
                    args@ == old(self).term(t).args,
                    f@ == x.symbol,
                    x.children == trees_of(old(self)@, args@),
                    m < args.len(),
                    q <= sub_results.len(),
                    all_within(sub_results@, self@),
                    trees_of(self@, sub_results@) == parts,
                    lifted == parts.map_values(|c: Tree| with_child(x, m as int, c)),
                    all_within(results@, self@),
                    trees_of(self@, results@) == done + lifted.take(q as int),
                    mid.len() <= self@.len(),
                    lifting(old(self)@, mid, self@, results@, sub_results@.skip(q as int)),
                decreases sub_results.len() - q,
            {
                let ghost inner = self@;
                let ghost listed = results@;
                let mut new_args = args.clone();
                new_args.set(m, sub_results[q]);
                proof {
                    assert forall|j: int| 0 <= j < new_args@.len() implies #[trigger] new_args@[j]
                        < inner.len() by {
                        if j != m {
                            assert(old(self).term(t).args[j] < t);
                        }
                    }
                    lemma_trees_of_stable(old(self)@, inner, args@);
                    assert(trees_of(inner, new_args@) =~= x.children.update(
                        m as int,
                        parts[q as int],
                    ));
                }
                let new_id = self.app(f.clone(), new_args);
                results.push(new_id);
                proof {
                    lemma_trees_of_stable(inner, self@, sub_results@);
                    lemma_trees_of_stable(inner, self@, listed);
                    assert(trees_of(self@, results@) =~= trees_of(self@, listed).push(
                        self.tree(new_id),
                    ));
                    assert(sub_results@.skip(q as int).drop_first() =~= sub_results@.skip(q + 1));
                    lemma_lifting_step(
                        old(self)@,
                        mid,
                        inner,
                        self@,
                        listed,
                        sub_results@.skip(q as int),
                        new_id,
                        m as int,
                    );
                }
                q += 1;
            }
            m += 1;
        }
        results
    }

    /// The critical pairs of two rules. The rule with the larger left side
    /// is rewritten with the other, the first with the second where the two
    /// left sides are of one size: for every way of rewriting one occurrence
    /// of the other rule's left side inside that left side there is one
    /// equation, between the rewritten left side and the right side.
    pub fn deduce(&mut self, r1: &Rule, r2: &Rule) -> (out: Vec<crate::rule::Eq>)
        requires
            old(self).wf(),
            old(self).has(r1.lhs),
            old(self).has(r1.rhs),
            old(self).has(r2.lhs),
            old(self).has(r2.rhs),
            tree_size(old(self).tree(r1.lhs)) <= usize::MAX,
            tree_size(old(self).tree(r2.lhs)) <= usize::MAX,
        ensures
            final(self).wf(),
            extends(final(self)@, old(self)@),
            critical_pairs(old(self)@, final(self)@, *r1, *r2, out@),
            grown_for(old(self)@, final(self)@, left_sides(out@)),
    {
        let (into, with) = if self.size(r1.lhs) < self.size(r2.lhs) {
            (r2, r1)
        } else {
            (r1, r2)
        };
        let variants = self.all_subst(into.lhs, with);
        let mut out: Vec<crate::rule::Eq> = Vec::new();
        let mut k: usize = 0;
        while k < variants.len()
            invariant
                k <= variants.len(),
                out@.len() == k,
                forall|j: int|
                    0 <= j < k ==> (#[trigger] out@[j]).lhs == variants@[j] && out@[j].rhs
                        == into.rhs,
            decreases variants.len() - k,
        {
            out.push(crate::rule::Eq { lhs: variants[k], rhs: into.rhs });
            k += 1;
        }
        proof {
            assert(left_sides(out@) =~= variants@);
        }
        out
    }
}

} // verus!
