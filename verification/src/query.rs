//! Queries on the terms of a bank: notation, size and containment.

use vstd::prelude::*;
use vstd::string::StringExecFns;
use crate::bank::{lemma_tree_of, lemma_tree_of_injective, trees_of, Id, TermBank};
use crate::rule::Rule;
use crate::tree::{
    forest_size, lemma_forest_size_prefix, lemma_forest_size_step, lemma_rendered_list_step,
    occurs, rendered, rendered_list, tree_size,
};

verus! {

impl TermBank {
    /// The canonical notation of term `e`.
    pub fn stringify(&self, e: Id) -> (s: String)
        requires
            self.wf(),
            self.has(e),
        ensures
            s@ == rendered(self.tree(e)),
        decreases e,
    {
        let args = self.args(e);
        let mut s = self.symbol(e).clone();
        proof {
            lemma_tree_of(self@, e);
        }
        if args.len() == 0 {
            return s;
        }
        let ghost kids = self.tree(e).children;
        let ghost head = self.tree(e).symbol + seq!['('];
        proof {
            reveal_strlit("(");
            reveal_strlit(", ");
            reveal_strlit(")");
        }
        s.append("(");
        let mut i: usize = 0;
        while i < args.len()
            invariant
                self.wf(),
                self.has(e),
                args@ == self@[e as int].args,
                kids == trees_of(self@, args@),
                i <= args.len(),
                ", "@ == seq![',', ' '],
                s@ == head + rendered_list(kids.take(i as int)),
            decreases args.len() - i,
        {
            if i != 0 {
                s.append(", ");
            }
            let part = self.stringify(args[i]);
            s.append(part.as_str());
            proof {
                lemma_rendered_list_step(kids, i as int);
            }
            i += 1;
        }
        s.append(")");
        proof {
            assert(kids.take(args.len() as int) =~= kids);
        }
        s
    }

    /// The notation of an equation: its two sides around ` = `.
    pub fn stringify_eq(&self, eq: crate::rule::Eq) -> (s: String)
        requires
            self.wf(),
            self.has(eq.lhs),
            self.has(eq.rhs),
        ensures
            s@ == rendered(self.tree(eq.lhs)) + seq![' ', '=', ' '] + rendered(self.tree(eq.rhs)),
    {
        let mut s = self.stringify(eq.lhs);
        let right = self.stringify(eq.rhs);
        proof {
            reveal_strlit(" = ");
        }
        s.append(" = ");
        s.append(right.as_str());
        s
    }

    /// The notation of a rule: its two sides around ` -> `.
    pub fn stringify_rule(&self, r: Rule) -> (s: String)
        requires
            self.wf(),
            self.has(r.lhs),
            self.has(r.rhs),
        ensures
            s@ == rendered(self.tree(r.lhs)) + seq![' ', '-', '>', ' '] + rendered(
                self.tree(r.rhs),
            ),
    {
        let mut s = self.stringify(r.lhs);
        let right = self.stringify(r.rhs);
        proof {
            reveal_strlit(" -> ");
        }
        s.append(" -> ");
        s.append(right.as_str());
        s
    }

    /// Whether term `small` occurs in term `big`.
    pub fn is_subterm(&self, big: Id, small: Id) -> (r: bool)
        requires
            self.wf(),
            self.has(big),
            self.has(small),
        ensures
            r == occurs(self.tree(big), self.tree(small)),
        decreases big,
    {
        if big == small {
            return true;
        }
        let args = self.args(big);
        let ghost kids = self.tree(big).children;
        proof {
            lemma_tree_of(self@, big);
            if self.tree(big) == self.tree(small) {
                lemma_tree_of_injective(self@, big, small);
            }
        }
        let mut i: usize = 0;
        while i < args.len()
            invariant
                self.wf(),
                self.has(big),
                self.has(small),
                args@ == self@[big as int].args,
                kids == self.tree(big).children,
                kids == trees_of(self@, args@),
                i <= args.len(),
                forall|j: int| 0 <= j < i ==> !occurs(#[trigger] kids[j], self.tree(small)),
            decreases args.len() - i,
        {
            if self.is_subterm(args[i], small) {
                proof {
                    assert(occurs(kids[i as int], self.tree(small)));
                }
                return true;
            }
            i += 1;
        }
        false
    }

    /// The size of term `t`: one for the term itself plus the sizes of its
    /// arguments, an argument that occurs twice counted twice.
    pub fn size(&self, t: Id) -> (n: usize)
        requires
            self.wf(),
            self.has(t),
            tree_size(self.tree(t)) <= usize::MAX,
        ensures
            n == tree_size(self.tree(t)),
        decreases t,
    {
        let args = self.args(t);
        let ghost kids = self.tree(t).children;
        proof {
            lemma_tree_of(self@, t);
        }
        let mut total: usize = 1;
        let mut i: usize = 0;
        while i < args.len()
            invariant
                self.wf(),
                self.has(t),
                args@ == self@[t as int].args,
                kids == trees_of(self@, args@),
                i <= args.len(),
                1 + forest_size(kids) <= usize::MAX,
                total == 1 + forest_size(kids.take(i as int)),
            decreases args.len() - i,
        {
            proof {
                lemma_forest_size_step(kids, i as int);
                lemma_forest_size_prefix(kids, i + 1);
            }
            total = total + self.size(args[i]);
            i += 1;
        }
        proof {
            assert(kids.take(args.len() as int) =~= kids);
        }
        total
    }

    /// The size of term `t` where a `usize` can hold it, and `None` where it
    /// cannot.
    pub fn checked_size(&self, t: Id) -> (n: Option<usize>)
        requires
            self.wf(),
            self.has(t),
        ensures
            match n {
                Some(v) => v == tree_size(self.tree(t)),
                None => tree_size(self.tree(t)) > usize::MAX,
            },
        decreases t,
    {
        let args = self.args(t);
        let ghost kids = self.tree(t).children;
        proof {
            lemma_tree_of(self@, t);
        }
        let mut total: usize = 1;
        let mut i: usize = 0;
        while i < args.len()
            invariant
                self.wf(),
                self.has(t),
                args@ == self@[t as int].args,
                kids == self.tree(t).children,
                kids == trees_of(self@, args@),
                i <= args.len(),
                total == 1 + forest_size(kids.take(i as int)),
            decreases args.len() - i,
        {
            proof {
                lemma_forest_size_step(kids, i as int);
                lemma_forest_size_prefix(kids, i + 1);
            }
            let grown = match self.checked_size(args[i]) {
                Some(part) => total.checked_add(part),
                None => None,
            };
            match grown {
                Some(sum) => {
                    total = sum;
                },
                None => {
                    return None;
                },
            }
            i += 1;
        }
        proof {
            assert(kids.take(args.len() as int) =~= kids);
        }
        Some(total)
    }
}

} // verus!
