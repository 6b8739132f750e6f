//! The term bank: an append-only store of terms in which every distinct term
//! has exactly one identifier.

use vstd::prelude::*;
use vstd::bytes::{spec_u64_to_le_bytes, u64_to_le_bytes};
use vstd::std_specs::hash::DefaultHasherAdditionalSpecFns;
use vstd::utf8::encode_utf8;
use core::hash::Hasher;
use std::collections::hash_map::DefaultHasher;
use std::collections::HashMap;
use crate::tree::{occurs, Tree};

verus! {

/// Handle of a term in one bank. It means nothing in another bank.
pub type Id = usize;

/// What a bank holds under one identifier: a symbol and the identifiers of
/// the arguments.
pub struct Term {
    pub symbol: Seq<char>,
    pub args: Seq<Id>,
}

/// A stored application of a symbol to arguments.
#[derive(Debug, Clone, PartialEq, Eq, Hash)]
pub struct App {
    pub f: String,
    pub args: Vec<Id>,
}

impl View for App {
    type V = Term;

    open spec fn view(&self) -> Term {
        Term { symbol: self.f@, args: self.args@ }
    }
}

/// The invariant of a store: the arguments of a term were stored before the
/// term, and no term is stored twice.
pub open spec fn store_ok(s: Seq<Term>) -> bool {
    &&& forall|i: int, j: int|
        0 <= i < s.len() && 0 <= j < s[i].args.len() ==> #[trigger] s[i].args[j] < i
    &&& forall|i: int, j: int|
        #![trigger s[i], s[j]]
        0 <= i < s.len() && 0 <= j < s.len() && s[i] == s[j] ==> i == j
}

/// `s2` holds everything that `s1` holds, under the same identifiers.
pub open spec fn extends(s2: Seq<Term>, s1: Seq<Term>) -> bool {
    &&& s1.len() <= s2.len()
    &&& forall|i: int| 0 <= i < s1.len() ==> #[trigger] s2[i] == s1[i]
}

/// Every identifier in `ids` is one of the store `s`.
pub open spec fn all_within(ids: Seq<Id>, s: Seq<Term>) -> bool {
    forall|j: int| 0 <= j < ids.len() ==> #[trigger] ids[j] < s.len()
}

/// The ground term that identifier `t` stands for in store `s`.
pub open spec fn tree_of(s: Seq<Term>, t: Id) -> Tree
    decreases t,
{
    Tree {
        symbol: s[t as int].symbol,
        children: Seq::new(
            s[t as int].args.len(),
            |j: int|
                if s[t as int].args[j] < t {
                    tree_of(s, s[t as int].args[j])
                } else {
                    Tree { symbol: Seq::empty(), children: Seq::empty() }
                },
        ),
    }
}

/// The ground terms that the identifiers `ids` stand for in store `s`.
pub open spec fn trees_of(s: Seq<Term>, ids: Seq<Id>) -> Seq<Tree> {
    Seq::new(ids.len(), |j: int| tree_of(s, ids[j]))
}

/// In a valid store the tree of a term is its symbol over the trees of its
/// arguments.
pub proof fn lemma_tree_of(s: Seq<Term>, t: Id)
    requires
        store_ok(s),
        t < s.len(),
    ensures
        tree_of(s, t).symbol == s[t as int].symbol,
        tree_of(s, t).children == trees_of(s, s[t as int].args),
{
}

/// A term keeps its tree when the store grows.
pub proof fn lemma_tree_of_stable(s1: Seq<Term>, s2: Seq<Term>, t: Id)
    requires
        store_ok(s1),
        extends(s2, s1),
        t < s1.len(),
    ensures
        tree_of(s2, t) == tree_of(s1, t),
    decreases t,
{
    let args = s1[t as int].args;
    assert forall|j: int| 0 <= j < args.len() implies tree_of(s2, args[j]) == tree_of(
        s1,
        args[j],
    ) by {
        lemma_tree_of_stable(s1, s2, args[j]);
    }
    assert(tree_of(s2, t).children =~= tree_of(s1, t).children);
}

/// Identifiers keep their trees when the store grows.
pub proof fn lemma_trees_of_stable(s1: Seq<Term>, s2: Seq<Term>, ids: Seq<Id>)
    requires
        store_ok(s1),
        extends(s2, s1),
        all_within(ids, s1),
    ensures
        trees_of(s2, ids) == trees_of(s1, ids),
{
    assert forall|j: int| 0 <= j < ids.len() implies tree_of(s2, ids[j]) == tree_of(
        s1,
        ids[j],
    ) by {
        lemma_tree_of_stable(s1, s2, ids[j]);
    }
}

/// In a valid store two identifiers that stand for the same tree are the
/// same identifier.
pub proof fn lemma_tree_of_injective(s: Seq<Term>, a: Id, b: Id)
    requires
        store_ok(s),
        a < s.len(),
        b < s.len(),
        tree_of(s, a) == tree_of(s, b),
    ensures
        a == b,
    decreases a,
{
    lemma_tree_of(s, a);
    lemma_tree_of(s, b);
    let xs = s[a as int].args;
    let ys = s[b as int].args;
    assert(trees_of(s, xs).len() == trees_of(s, ys).len());
    assert forall|j: int| 0 <= j < xs.len() implies xs[j] == ys[j] by {
        assert(trees_of(s, xs)[j] == trees_of(s, ys)[j]);
        lemma_tree_of_injective(s, xs[j], ys[j]);
    }
    assert(xs =~= ys);
}

/// Term `i` of store `s` occurs in the term of one of the identifiers `ids`.
pub open spec fn reached(s: Seq<Term>, ids: Seq<Id>, i: Id) -> bool {
    exists|j: int| 0 <= j < ids.len() && occurs(tree_of(s, #[trigger] ids[j]), tree_of(s, i))
}

/// Store `after` holds nothing beyond store `before` but terms that occur in
/// the terms of `ids`.
pub open spec fn grown_for(before: Seq<Term>, after: Seq<Term>, ids: Seq<Id>) -> bool {
    forall|i: Id| before.len() <= i < after.len() ==> #[trigger] reached(after, ids, i)
}

/// What interning `t` makes of a store: where `t` is stored already nothing
/// changes and `id` is its identifier; otherwise `t` is appended and `id` is
/// the new, last identifier.
pub open spec fn interned(before: Seq<Term>, after: Seq<Term>, t: Term, id: Id) -> bool {
    if exists|i: int| 0 <= i < before.len() && before[i] == t {
        after == before && id < before.len() && before[id as int] == t
    } else {
        after == before.push(t) && id == before.len()
    }
}

/// Interning into a valid store a term whose arguments are in the store
/// leaves a valid store that extends the first, in which the identifier
/// stands for the symbol applied to the trees of the arguments.
pub proof fn lemma_interned(before: Seq<Term>, after: Seq<Term>, t: Term, id: Id)
    requires
        store_ok(before),
        all_within(t.args, before),
        interned(before, after, t, id),
    ensures
        store_ok(after),
        extends(after, before),
        id < after.len(),
        after[id as int] == t,
        tree_of(after, id) == (Tree { symbol: t.symbol, children: trees_of(before, t.args) }),
{
    if !exists|i: int| 0 <= i < before.len() && before[i] == t {
        assert forall|i: int, j: int|
            0 <= i < after.len() && 0 <= j < after[i].args.len() implies #[trigger] after[i].args[j]
            < i by {
            if i < before.len() {
                assert(after[i] == before[i]);
            }
        }
    }
    lemma_tree_of(after, id);
    lemma_trees_of_stable(before, after, t.args);
}

/// The bytes that stand for a list of identifiers in a content key.
spec fn ids_bytes(ids: Seq<Id>) -> Seq<u8>
    decreases ids.len(),
{
    if ids.len() == 0 {
        Seq::empty()
    } else {
        ids_bytes(ids.drop_last()) + spec_u64_to_le_bytes(ids.last() as u64)
    }
}

/// The key under which the lookup table files a term: the digest of its
/// symbol and its arguments.
spec fn content_key(t: Term) -> u64 {
    DefaultHasher::spec_finish(seq![encode_utf8(t.symbol), ids_bytes(t.args)])
}

/// Computes the content key of the term with symbol `f` and arguments `args`.
fn key_of(f: &String, args: &Vec<Id>) -> (k: u64)
    ensures
        k == content_key(Term { symbol: f@, args: args@ }),
{
    let mut buf: Vec<u8> = Vec::new();
    let mut i: usize = 0;
    while i < args.len()
        invariant
            i <= args.len(),
            buf@ == ids_bytes(args@.take(i as int)),
        decreases args.len() - i,
    {
        let mut b = u64_to_le_bytes(args[i] as u64);
        buf.append(&mut b);
        proof {
            assert(args@.take(i + 1).drop_last() =~= args@.take(i as int));
        }
        i += 1;
    }
    proof {
        assert(args@.take(args.len() as int) =~= args@);
    }
    let mut h = DefaultHasher::new();
    h.write(f.as_str().as_bytes());
    h.write(buf.as_slice());
    proof {
        assert(h@ =~= seq![encode_utf8(f@), ids_bytes(args@)]);
    }
    h.finish()
}

/// Whether two lists of identifiers are the same list.
fn same_ids(a: &Vec<Id>, b: &Vec<Id>) -> (r: bool)
    ensures
        r == (a@ == b@),
{
    if a.len() != b.len() {
        return false;
    }
    let mut i: usize = 0;
    while i < a.len()
        invariant
            a.len() == b.len(),
            i <= a.len(),
            forall|j: int| 0 <= j < i ==> a@[j] == b@[j],
        decreases a.len() - i,
    {
        if a[i] != b[i] {
            return false;
        }
        i += 1;
    }
    proof {
        assert(a@ =~= b@);
    }
    true
}

/// An append-only store of terms with a lookup table from content to
/// identifier. Two terms with the same symbol and the same arguments always
/// get the same identifier.
pub struct TermBank {
    terms: Vec<App>,
    memo: HashMap<u64, Vec<Id>>,
}

impl View for TermBank {
    type V = Seq<Term>;

    closed spec fn view(&self) -> Seq<Term> {
        self.terms@.map_values(|a: App| a@)
    }
}

impl TermBank {
    /// The identifiers that the lookup table files under key `k`.
    spec fn bucket(&self, k: u64) -> Seq<Id> {
        if self.memo@.contains_key(k) {
            self.memo@[k]@
        } else {
            Seq::empty()
        }
    }

    /// The lookup table agrees with the store: it files every stored term
    /// under its content key, and nothing else.
    pub closed spec fn indexed(&self) -> bool {
        &&& forall|k: u64, p: int|
            0 <= p < self.bucket(k).len() ==> (#[trigger] self.bucket(k)[p]) < self@.len()
                && content_key(self@[self.bucket(k)[p] as int]) == k
        &&& forall|i: Id|
            i < self@.len() ==> self.bucket(content_key(#[trigger] self@[i as int])).contains(i)
    }

    /// The invariant of a bank.
    pub open spec fn wf(&self) -> bool {
        store_ok(self@) && self.indexed()
    }

    /// `t` is an identifier of this bank.
    pub open spec fn has(&self, t: Id) -> bool {
        t < self@.len()
    }

    /// What the bank holds under `t`.
    pub open spec fn term(&self, t: Id) -> Term {
        self@[t as int]
    }

    /// The ground term that `t` stands for in this bank.
    pub open spec fn tree(&self, t: Id) -> Tree {
        tree_of(self@, t)
    }

    /// An empty bank.
    pub fn new() -> (bank: Self)
        ensures
            bank.wf(),
            bank@ == Seq::<Term>::empty(),
    {
        TermBank { terms: Vec::new(), memo: HashMap::new() }
    }

    /// Number of terms in the bank: the identifiers are the numbers below it.
    pub fn len(&self) -> (n: usize)
        ensures
            n == self@.len(),
    {
        self.terms.len()
    }

    /// The symbol of term `t`.
    pub fn symbol(&self, t: Id) -> (f: &String)
        requires
            self.has(t),
        ensures
            f@ == self@[t as int].symbol,
    {
        &self.terms[t].f
    }

    /// The arguments of term `t`.
    pub fn args(&self, t: Id) -> (args: &Vec<Id>)
        requires
            self.has(t),
        ensures
            args@ == self@[t as int].args,
    {
        &self.terms[t].args
    }

    /// Looks the term with symbol `f` and arguments `args` up in the table.
    fn find(&self, k: u64, f: &String, args: &Vec<Id>) -> (r: Option<Id>)
        requires
            self.wf(),
            k == content_key(Term { symbol: f@, args: args@ }),
        ensures
            match r {
                Some(id) => self.has(id) && self@[id as int] == (Term { symbol: f@, args: args@ }),
                None => forall|i: int|
                    0 <= i < self@.len() ==> self@[i] != (Term { symbol: f@, args: args@ }),
            },
    {
        let ghost t = Term { symbol: f@, args: args@ };
        match self.memo.get(&k) {
            None => {
                proof {
                    assert forall|i: int| 0 <= i < self@.len() implies self@[i] != t by {
                        if self@[i] == t {
                            assert(self@.len() == self.terms.len());
                            assert(self.bucket(k).contains(i as Id));
                        }
                    }
                }
                None
            },
            Some(ids) => {
                let mut p: usize = 0;
                while p < ids.len()
                    invariant
                        self.wf(),
                        ids@ == self.bucket(k),
                        t == (Term { symbol: f@, args: args@ }),
                        p <= ids.len(),
                        forall|q: int| 0 <= q < p ==> self@[ids@[q] as int] != t,
                    decreases ids.len() - p,
                {
                    let id = ids[p];
                    let stored = &self.terms[id];
                    if stored.f == *f && same_ids(&stored.args, args) {
                        return Some(id);
                    }
                    p += 1;
                }
                proof {
                    assert forall|i: int| 0 <= i < self@.len() implies self@[i] != t by {
                        if self@[i] == t {
                            assert(self@.len() == self.terms.len());
                            assert(ids@.contains(i as Id));
                        }
                    }
                }
                None
            },
        }
    }

    /// Interns the term with symbol `f` and arguments `args`: returns the
    /// identifier of that term, storing the term first where the bank does
    /// not hold it yet.
    pub fn app(&mut self, f: String, args: Vec<Id>) -> (id: Id)
        requires
            old(self).wf(),
            all_within(args@, old(self)@),
        ensures
            final(self).wf(),
            interned(old(self)@, final(self)@, Term { symbol: f@, args: args@ }, id),
            extends(final(self)@, old(self)@),
            final(self).has(id),
            final(self).tree(id) == (Tree { symbol: f@, children: trees_of(old(self)@, args@) }),
    {
        let ghost t = Term { symbol: f@, args: args@ };
        let k = key_of(&f, &args);
        let found = self.find(k, &f, &args);
        let id = match found {
            Some(id) => id,
            None => {
                let id = self.terms.len();
                let mut ids = match self.memo.remove(&k) {
                    Some(ids) => ids,
                    None => Vec::new(),
                };
                ids.push(id);
                self.memo.insert(k, ids);
                self.terms.push(App { f, args });
                proof {
                    assert(self@ =~= old(self)@.push(t));
                    assert forall|k2: u64, p: int| 0 <= p < self.bucket(k2).len() implies (
                    #[trigger] self.bucket(k2)[p]) < self@.len() && content_key(
                        self@[self.bucket(k2)[p] as int],
                    ) == k2 by {
                        if k2 != k {
                            assert(self.bucket(k2)[p] == old(self).bucket(k2)[p]);
                        }
                    }
                    assert forall|i: Id| i < self@.len() implies self.bucket(
                        content_key(#[trigger] self@[i as int]),
                    ).contains(i) by {
                        let k2 = content_key(self@[i as int]);
                        if i < old(self)@.len() {
                            let p = choose|p: int|
                                0 <= p < old(self).bucket(k2).len() && old(self).bucket(k2)[p] == i;
                            assert(self.bucket(k2)[p] == i);
                        } else {
                            assert(self.bucket(k)[old(self).bucket(k).len() as int] == id);
                        }
                    }
                }
                id
            },
        };
        proof {
            lemma_interned(old(self)@, self@, t, id);
        }
        id
    }
}

} // verus!
