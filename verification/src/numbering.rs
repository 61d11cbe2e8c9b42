//! How the nodes of a tree are numbered.

use vstd::prelude::*;
use crate::ast::Ast;

verus! {

/// The nodes of the tree have different numbers, all from `lo` on and below `hi`.
pub open spec fn numbered(tree: Ast, lo: nat, hi: nat) -> bool {
    &&& tree.distinct_ids()
    &&& forall|x: u64| #[trigger] tree.ids().contains(x) ==> lo <= x < hi
}

/// The trees are numbered one after the other, all from `lo` on and below `hi`.
pub open spec fn in_order(trees: Seq<Ast>, lo: nat, hi: nat) -> bool
    decreases trees.len(),
{
    if trees.len() == 0 {
        lo <= hi
    } else {
        exists|mid: nat|
            in_order(trees.drop_last(), lo, mid) && #[trigger] numbered(trees.last(), mid, hi)
    }
}

/// A range can be widened.
pub proof fn lemma_wider(tree: Ast, lo: nat, hi: nat, lo2: nat, hi2: nat)
    requires
        numbered(tree, lo, hi),
        lo2 <= lo,
        hi <= hi2,
    ensures
        numbered(tree, lo2, hi2),
{
}

/// One more tree, numbered after the others.
pub proof fn lemma_in_order_push(trees: Seq<Ast>, tree: Ast, lo: nat, mid: nat, hi: nat)
    requires
        in_order(trees, lo, mid),
        numbered(tree, mid, hi),
    ensures
        in_order(trees.push(tree), lo, hi),
{
    assert(trees.push(tree).drop_last() =~= trees);
    assert(numbered(trees.push(tree).last(), mid, hi));
}

/// Every tree has numbers.
pub proof fn lemma_numbers_exist(tree: Ast, lo: nat, hi: nat)
    requires
        numbered(tree, lo, hi),
    ensures
        lo <= tree.id < hi,
{
    assert(tree.ids().contains(tree.id));
}

/// Trees that are numbered one after the other share no number.
pub proof fn lemma_in_order(trees: Seq<Ast>, lo: nat, hi: nat)
    requires
        in_order(trees, lo, hi),
    ensures
        lo <= hi,
        forall|i: int| 0 <= i < trees.len() ==> numbered(#[trigger] trees[i], lo, hi),
        forall|i: int, j: int|
            #![trigger trees[i], trees[j]]
            0 <= i < j < trees.len() ==> trees[i].ids().disjoint(trees[j].ids()),
    decreases trees.len(),
{
    if trees.len() > 0 {
        let init = trees.drop_last();
        let mid = choose|mid: nat|
            in_order(init, lo, mid) && #[trigger] numbered(trees.last(), mid, hi);
        lemma_in_order(init, lo, mid);
        lemma_numbers_exist(trees.last(), mid, hi);
        assert forall|i: int| 0 <= i < trees.len() implies numbered(#[trigger] trees[i], lo, hi) by {
            if i < trees.len() - 1 {
                assert(numbered(init[i], lo, mid));
            }
        }
        assert forall|i: int, j: int|
            #![trigger trees[i], trees[j]]
            0 <= i < j < trees.len() implies trees[i].ids().disjoint(trees[j].ids()) by {
            assert(numbered(init[i], lo, mid));
            if j < trees.len() - 1 {
                assert(trees[j] == init[j]);
            } else {
                assert(trees[j] == trees.last());
            }
        }
    }
}

/// A node over trees that share no number, with a greater number than theirs.
pub proof fn lemma_root(tree: Ast, lo: nat)
    requires
        forall|i: int|
            0 <= i < tree.kids().len() ==> numbered(#[trigger] tree.kids()[i], lo, tree.id as nat),
        forall|i: int, j: int|
            #![trigger tree.kids()[i], tree.kids()[j]]
            0 <= i < j < tree.kids().len() ==> tree.kids()[i].ids().disjoint(tree.kids()[j].ids()),
        lo <= tree.id,
    ensures
        numbered(tree, lo, tree.id as nat + 1),
{
    assert forall|x: u64| #[trigger] tree.ids_below().contains(x) implies lo <= x < tree.id by {
        let i = choose|i: int|
            0 <= i < tree.kids().len() && (#[trigger] tree.kids()[i]).ids().contains(x);
        assert(numbered(tree.kids()[i], lo, tree.id as nat));
    }
    assert forall|x: u64| #[trigger] tree.ids().contains(x) implies lo <= x < tree.id + 1 by {
        if x != tree.id {
            assert(tree.ids_below().contains(x));
        }
    }
}

/// A node over trees that are numbered one after the other.
pub proof fn lemma_ordered_root(tree: Ast, lo: nat)
    requires
        in_order(tree.kids(), lo, tree.id as nat),
    ensures
        numbered(tree, lo, tree.id as nat + 1),
{
    lemma_in_order(tree.kids(), lo, tree.id as nat);
    lemma_root(tree, lo);
}

/// A node whose trees have ranges `los[i] .. his[i]` that do not overlap.
pub proof fn lemma_spread_root(tree: Ast, lo: nat, los: Seq<nat>, his: Seq<nat>)
    requires
        los.len() == tree.kids().len(),
        his.len() == tree.kids().len(),
        forall|i: int|
            #![trigger tree.kids()[i]]
            0 <= i < tree.kids().len() ==> numbered(tree.kids()[i], los[i], his[i]) && lo <= los[i]
                && his[i] <= tree.id,
        forall|i: int, j: int|
            #![trigger los[i], los[j]]
            0 <= i < j < tree.kids().len() ==> his[i] <= los[j] || his[j] <= los[i],
        lo <= tree.id,
    ensures
        numbered(tree, lo, tree.id as nat + 1),
{
    assert forall|i: int, j: int|
        #![trigger tree.kids()[i], tree.kids()[j]]
        0 <= i < j < tree.kids().len() implies tree.kids()[i].ids().disjoint(
        tree.kids()[j].ids(),
    ) by {
        assert(his[i] <= los[j] || his[j] <= los[i]);
        assert(numbered(tree.kids()[i], los[i], his[i]));
        assert(numbered(tree.kids()[j], los[j], his[j]));
    }
    lemma_root(tree, lo);
}

/// A node over one expression.
pub proof fn lemma_over_one(tree: Ast, a: Ast, lo: nat)
    requires
        tree.kids() == seq![a],
        numbered(a, lo, tree.id as nat),
        lo <= tree.id,
    ensures
        numbered(tree, lo, tree.id as nat + 1),
{
    lemma_spread_root(tree, lo, seq![lo], seq![tree.id as nat]);
}

/// A node over two expressions.
pub proof fn lemma_over_two(tree: Ast, a: Ast, b: Ast, lo: nat, mid: nat)
    requires
        tree.kids() == seq![a, b],
        numbered(a, lo, mid),
        numbered(b, mid, tree.id as nat),
        lo <= mid <= tree.id,
    ensures
        numbered(tree, lo, tree.id as nat + 1),
{
    lemma_spread_root(tree, lo, seq![lo, mid], seq![mid, tree.id as nat]);
}

/// A node over three expressions.
pub proof fn lemma_over_three(tree: Ast, a: Ast, b: Ast, c: Ast, lo: nat, mid: nat, mid2: nat)
    requires
        tree.kids() == seq![a, b, c],
        numbered(a, lo, mid),
        numbered(b, mid, mid2),
        numbered(c, mid2, tree.id as nat),
        lo <= mid <= mid2 <= tree.id,
    ensures
        numbered(tree, lo, tree.id as nat + 1),
{
    lemma_spread_root(tree, lo, seq![lo, mid, mid2], seq![mid, mid2, tree.id as nat]);
}

} // verus!
