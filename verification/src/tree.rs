//! Ground terms as finite trees: the mathematical model that every contract
//! of this crate speaks of.

use vstd::prelude::*;

verus! {

/// A ground term: a symbol applied to an ordered list of ground terms.
pub struct Tree {
    pub symbol: Seq<char>,
    pub children: Seq<Tree>,
}

/// Number of nodes of `x`, every occurrence of a shared subterm counted.
pub open spec fn tree_size(x: Tree) -> nat
    decreases x, 1nat,
{
    1 + forest_size(x.children)
}

/// Sum of the sizes of the trees in `xs`.
pub open spec fn forest_size(xs: Seq<Tree>) -> nat
    decreases xs, 0nat,
{
    if xs.len() == 0 {
        0
    } else {
        forest_size(xs.drop_last()) + tree_size(xs.last())
    }
}

/// `y` occurs in `x`: it is `x` itself or occurs in one of `x`'s children.
pub open spec fn occurs(x: Tree, y: Tree) -> bool
    decreases x,
{
    x == y || exists|j: int| 0 <= j < x.children.len() && occurs(#[trigger] x.children[j], y)
}

/// Canonical notation of `x`: the bare symbol for a constant, otherwise the
/// symbol followed by the bracketed, comma-separated notation of the children.
pub open spec fn rendered(x: Tree) -> Seq<char>
    decreases x, 1nat,
{
    if x.children.len() == 0 {
        x.symbol
    } else {
        x.symbol + seq!['('] + rendered_list(x.children) + seq![')']
    }
}

/// The notations of `xs`, joined by a comma and a space.
pub open spec fn rendered_list(xs: Seq<Tree>) -> Seq<char>
    decreases xs, 0nat,
{
    if xs.len() == 0 {
        Seq::empty()
    } else if xs.len() == 1 {
        rendered(xs[0])
    } else {
        rendered_list(xs.drop_last()) + seq![',', ' '] + rendered(xs.last())
    }
}

/// One top-down pass over `x` that puts `to` in place of every subterm equal
/// to `from` that the pass meets. The pass does not descend into `to`.
pub open spec fn replace_all(x: Tree, from: Tree, to: Tree) -> Tree
    decreases x,
{
    if x == from {
        to
    } else {
        Tree {
            symbol: x.symbol,
            children: Seq::new(
                x.children.len(),
                |j: int|
                    if 0 <= j < x.children.len() {
                        replace_all(x.children[j], from, to)
                    } else {
                        x
                    },
            ),
        }
    }
}

/// The pass of `replace_all` over `x` builds `from` anew: at `x` or below it
/// there is a node that differs from `from` and whose children, once
/// rewritten, make it equal to `from`.
pub open spec fn rebuilds(x: Tree, from: Tree, to: Tree) -> bool
    decreases x,
{
    x != from && (replace_all(x, from, to) == from || exists|j: int|
        0 <= j < x.children.len() && rebuilds(#[trigger] x.children[j], from, to))
}

/// `x` with its `m`-th child exchanged for `c`.
pub open spec fn with_child(x: Tree, m: int, c: Tree) -> Tree {
    Tree { symbol: x.symbol, children: x.children.update(m, c) }
}

/// Every tree obtained from `x` by putting `to` in place of exactly one
/// subterm equal to `from`, in left-to-right order of the positions. Where
/// `x` itself equals `from` the only result is `to`: positions inside a
/// matching node are not listed apart.
pub open spec fn rewrites(x: Tree, from: Tree, to: Tree) -> Seq<Tree>
    decreases x, x.children.len() + 1,
{
    if x == from {
        seq![to]
    } else {
        child_rewrites(x, from, to, x.children.len() as int)
    }
}

/// The part of `rewrites(x, from, to)` that comes from the first `n` children
/// of a tree `x` that differs from `from`.
pub open spec fn child_rewrites(x: Tree, from: Tree, to: Tree, n: int) -> Seq<Tree>
    decreases x, n,
{
    if n <= 0 || n > x.children.len() {
        Seq::empty()
    } else {
        child_rewrites(x, from, to, n - 1) + rewrites(x.children[n - 1], from, to).map_values(
            |c: Tree| with_child(x, n - 1, c),
        )
    }
}

/// The size of the first `i + 1` trees of `xs` is that of the first `i` plus
/// the size of the tree at `i`.
pub proof fn lemma_forest_size_step(xs: Seq<Tree>, i: int)
    requires
        0 <= i < xs.len(),
    ensures
        forest_size(xs.take(i + 1)) == forest_size(xs.take(i)) + tree_size(xs[i]),
{
    assert(xs.take(i + 1).drop_last() =~= xs.take(i));
}

/// A prefix of `xs` is no larger than `xs`.
pub proof fn lemma_forest_size_prefix(xs: Seq<Tree>, i: int)
    requires
        0 <= i <= xs.len(),
    ensures
        forest_size(xs.take(i)) <= forest_size(xs),
    decreases xs.len() - i,
{
    if i == xs.len() {
        assert(xs.take(i) =~= xs);
    } else {
        lemma_forest_size_step(xs, i);
        lemma_forest_size_prefix(xs, i + 1);
    }
}

/// A list that is the beginning of a longer list is smaller than that list.
pub proof fn lemma_forest_size_proper_prefix(xs: Seq<Tree>, ys: Seq<Tree>)
    requires
        xs.len() < ys.len(),
        forall|j: int| 0 <= j < xs.len() ==> xs[j] == ys[j],
    ensures
        forest_size(xs) < forest_size(ys),
{
    let i = xs.len() as int;
    assert(ys.take(i) =~= xs);
    lemma_forest_size_step(ys, i);
    lemma_forest_size_prefix(ys, i + 1);
}

/// A tree of `xs` is no larger than `xs`.
pub proof fn lemma_forest_size_member(xs: Seq<Tree>, i: int)
    requires
        0 <= i < xs.len(),
    ensures
        tree_size(xs[i]) <= forest_size(xs),
{
    lemma_forest_size_prefix(xs, i + 1);
}

/// What occurs in a tree that occurs in `x` occurs in `x`.
pub proof fn lemma_occurs_transitive(x: Tree, y: Tree, z: Tree)
    requires
        occurs(x, y),
        occurs(y, z),
    ensures
        occurs(x, z),
    decreases x,
{
    if x != y {
        let j = choose|j: int| 0 <= j < x.children.len() && occurs(#[trigger] x.children[j], y);
        lemma_occurs_transitive(x.children[j], y, z);
    }
}

/// Where `from` does not occur in `to`, it occurs in `replace_all(x, from,
/// to)` exactly where the pass builds it anew.
pub proof fn lemma_replace_all_occurs(x: Tree, from: Tree, to: Tree)
    requires
        !occurs(to, from),
    ensures
        occurs(replace_all(x, from, to), from) <==> rebuilds(x, from, to),
    decreases x,
{
    if x != from {
        let r = replace_all(x, from, to);
        assert forall|j: int| 0 <= j < x.children.len() implies (occurs(
            #[trigger] r.children[j],
            from,
        ) <==> rebuilds(x.children[j], from, to)) by {
            lemma_replace_all_occurs(x.children[j], from, to);
        }
        if occurs(r, from) && r != from {
            let j = choose|j: int|
                0 <= j < r.children.len() && occurs(#[trigger] r.children[j], from);
            assert(rebuilds(x.children[j], from, to));
        }
        if rebuilds(x, from, to) && r != from {
            let j = choose|j: int|
                0 <= j < x.children.len() && rebuilds(#[trigger] x.children[j], from, to);
            assert(occurs(r.children[j], from));
        }
    }
}

/// The notation of the first `i + 1` trees of `xs`, from that of the first
/// `i`.
pub proof fn lemma_rendered_list_step(xs: Seq<Tree>, i: int)
    requires
        0 <= i < xs.len(),
    ensures
        rendered_list(xs.take(i + 1)) == if i == 0 {
            rendered(xs[i])
        } else {
            rendered_list(xs.take(i)) + seq![',', ' '] + rendered(xs[i])
        },
{
    assert(xs.take(i + 1).drop_last() =~= xs.take(i));
}

} // verus!
