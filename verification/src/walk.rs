//! A tree's tokens in an order, each once, and how its token lists and the
//! lists it is built from relate to them.

use vstd::prelude::*;
use crate::builder::{parse, run, Builder, Stacks, TreeError};
use crate::lexer::Traversal;
use crate::token::{Priority, Token};
use crate::tree::{emit_if, parenthesized, subtree_tokens, TreeNode};

verus! {

/// The walk of the tree below `child`, nothing where there is no child.
pub open spec fn walk_of(child: Option<Box<TreeNode>>, order: Traversal) -> Seq<Token>
    decreases child,
{
    match child {
        Some(c) => walk(*c, order),
        None => Seq::empty(),
    }
}

/// The tokens of the nodes of `tree`, each once: a node before its children
/// (`Pre`), between them (`In`) or after them (`Post`).
pub open spec fn walk(tree: TreeNode, order: Traversal) -> Seq<Token>
    decreases tree,
{
    if tree.is_leaf() {
        seq![tree.value]
    } else {
        emit_if(order is Pre, tree.value) + walk_of(tree.left, order) + emit_if(
            order is In,
            tree.value,
        ) + walk_of(tree.right, order) + emit_if(order is Post, tree.value)
    }
}

/// Whether `token` is a parenthesis.
pub open spec fn is_paren(token: Token) -> bool {
    token is LParen || token is RParen
}

/// `tokens` without its parentheses.
pub open spec fn without_parens(tokens: Seq<Token>) -> Seq<Token>
    decreases tokens.len(),
{
    if tokens.len() == 0 {
        Seq::empty()
    } else if is_paren(tokens.last()) {
        without_parens(tokens.drop_last())
    } else {
        without_parens(tokens.drop_last()).push(tokens.last())
    }
}

/// How many children in `tree` stand in parentheses in its in-order list.
pub open spec fn pairs(tree: TreeNode) -> nat
    decreases tree,
{
    pairs_of(tree.value, tree.left) + pairs_of(tree.value, tree.right)
}

/// The pairs of parentheses that `child` brings to the in-order list of a
/// node that holds `parent`: its own, and one more where it stands in
/// parentheses itself.
pub open spec fn pairs_of(parent: Token, child: Option<Box<TreeNode>>) -> nat
    decreases child,
{
    match child {
        Some(c) => pairs(*c) + if crate::tree::needs_parens(parent, *c) {
            1nat
        } else {
            0nat
        },
        None => 0,
    }
}

/// Taking the parentheses out of two lists, one after the other, is taking
/// them out of each.
pub proof fn lemma_without_parens_add(a: Seq<Token>, b: Seq<Token>)
    ensures
        without_parens(a + b) == without_parens(a) + without_parens(b),
    decreases b.len(),
{
    if b.len() == 0 {
        assert(a + b == a);
    } else {
        assert((a + b).drop_last() == a + b.drop_last());
        lemma_without_parens_add(a, b.drop_last());
    }
}

/// A list of one token without its parentheses is empty or itself.
pub proof fn lemma_without_parens_one(token: Token)
    ensures
        without_parens(seq![token]) == if is_paren(token) {
            Seq::<Token>::empty()
        } else {
            seq![token]
        },
{
    reveal_with_fuel(without_parens, 2);
    assert(seq![token].drop_last() == Seq::<Token>::empty());
}

/// A walk holds as many tokens as the tree has nodes.
pub proof fn lemma_walk_len(tree: TreeNode, order: Traversal)
    ensures
        walk(tree, order).len() == tree.size(),
    decreases tree,
{
    if let Some(l) = tree.left {
        lemma_walk_len(*l, order);
    }
    if let Some(r) = tree.right {
        lemma_walk_len(*r, order);
    }
}

/// The token list of an expression in an order is its walk in that order
/// with parentheses put in: without them it is the walk. The pre-order and
/// the post-order list hold none, and the in-order list holds two for each
/// child that stands in parentheses.
#[verifier::rlimit(50)]
pub proof fn lemma_linearize_walk(tree: TreeNode, order: Traversal)
    requires
        tree.is_expression(),
    ensures
        without_parens(tree.linearize(order)) == walk(tree, order),
        !(order is In) ==> tree.linearize(order) == walk(tree, order),
        order is In ==> tree.linearize(order).len() == tree.size() + 2 * pairs(tree),
    decreases tree,
{
    lemma_walk_len(tree, order);
    lemma_without_parens_one(tree.value);
    if !tree.is_leaf() {
        let head = emit_if(order is Pre, tree.value);
        let left = subtree_tokens(tree.value, tree.left, order);
        let middle = emit_if(order is In, tree.value);
        let right = subtree_tokens(tree.value, tree.right, order);
        let tail = emit_if(order is Post, tree.value);
        lemma_subtree_walk(tree.value, tree.left, order);
        lemma_subtree_walk(tree.value, tree.right, order);
        lemma_without_parens_add(head + left + middle + right, tail);
        lemma_without_parens_add(head + left + middle, right);
        lemma_without_parens_add(head + left, middle);
        lemma_without_parens_add(head, left);
        assert(without_parens(Seq::<Token>::empty()) == Seq::<Token>::empty());
        lemma_walk_of_len(tree.left, order);
        lemma_walk_of_len(tree.right, order);
    }
}

/// The walk of a child holds as many tokens as the tree below it has nodes.
proof fn lemma_walk_of_len(child: Option<Box<TreeNode>>, order: Traversal)
    ensures
        walk_of(child, order).len() == crate::tree::size_of(child),
{
    if let Some(c) = child {
        lemma_walk_len(*c, order);
    }
}

/// As `lemma_linearize_walk`, for a child as it stands in the list of its
/// parent.
#[verifier::rlimit(50)]
pub proof fn lemma_subtree_walk(parent: Token, child: Option<Box<TreeNode>>, order: Traversal)
    requires
        child matches Some(c) ==> c.is_expression(),
    ensures
        without_parens(subtree_tokens(parent, child, order)) == walk_of(child, order),
        !(order is In) ==> subtree_tokens(parent, child, order) == walk_of(child, order),
        order is In ==> subtree_tokens(parent, child, order).len() == crate::tree::size_of(child)
            + 2 * pairs_of(parent, child),
    decreases child,
{
    match child {
        Some(c) => {
            let inner = c.linearize(order);
            lemma_linearize_walk(*c, order);
            lemma_without_parens_one(Token::LParen);
            lemma_without_parens_one(Token::RParen);
            lemma_without_parens_add(seq![Token::LParen] + inner, seq![Token::RParen]);
            lemma_without_parens_add(seq![Token::LParen], inner);
            assert(parenthesized(inner) == (seq![Token::LParen] + inner) + seq![Token::RParen]);
            assert(Seq::<Token>::empty() + without_parens(inner) + Seq::<Token>::empty()
                == without_parens(inner));
        },
        None => {
            assert(without_parens(Seq::<Token>::empty()) == Seq::<Token>::empty());
        },
    }
}

/// The tokens that the stacks hold, but for parentheses, in the order in
/// which they came: each binary operator behind the subtree on its left,
/// each prefix operator before what follows it, and last, where there is a
/// subtree to spare, the latest subtree.
pub open spec fn held(stacks: Stacks, spare: bool) -> Seq<Token>
    decreases stacks.ops.len(), if spare {
        1int
    } else {
        0int
    },
{
    if spare {
        if stacks.values.len() == 0 {
            Seq::empty()
        } else {
            held(Stacks { ops: stacks.ops, values: stacks.values.drop_last() }, false) + walk(
                stacks.values.last(),
                Traversal::In,
            )
        }
    } else {
        if stacks.ops.len() == 0 {
            Seq::empty()
        } else {
            let rest = Stacks { ops: stacks.ops.drop_last(), values: stacks.values };
            match stacks.ops.last() {
                Token::Op(_) => held(rest, true).push(stacks.ops.last()),
                Token::UnOp(_) => held(rest, false).push(stacks.ops.last()),
                _ => held(rest, false),
            }
        }
    }
}

/// Combining changes nothing in what the stacks hold.
#[verifier::rlimit(50)]
pub proof fn lemma_combine_held(stacks: Stacks)
    requires
        stacks.combine() is Some,
    ensures
        held(stacks.combine().unwrap(), true) == held(stacks, true),
{
    let order = Traversal::In;
    let next = stacks.combine().unwrap();
    let n = stacks.values.len() as int;
    let op = stacks.ops.last();
    let below = Stacks { ops: next.ops, values: next.values.drop_last() };
    let top = next.values.last();
    assert(held(next, true) == held(below, false) + walk(top, order));
    let last = stacks.values.last();
    let under = Stacks { ops: stacks.ops, values: stacks.values.drop_last() };
    assert(held(stacks, true) == held(under, false) + walk(last, order));
    let rest = Stacks { ops: stacks.ops.drop_last(), values: under.values };
    if op is UnOp {
        assert(below.values == stacks.values.take(n - 1));
        assert(stacks.values.drop_last() == stacks.values.take(n - 1));
        assert(rest == below);
        assert(held(under, false) == held(rest, false).push(op));
        assert(walk(top, order) == seq![op] + walk(last, order));
        assert(held(rest, false).push(op) + walk(last, order) == held(rest, false) + (seq![op]
            + walk(last, order)));
    } else {
        let left = stacks.values[n - 2];
        assert(below.values == stacks.values.take(n - 2));
        assert(held(under, false) == held(rest, true).push(op));
        assert(rest.values.last() == left);
        assert(rest.values.drop_last() == stacks.values.take(n - 2));
        assert(held(rest, true) == held(below, false) + walk(left, order));
        assert(walk(top, order) == walk(left, order) + seq![op] + walk(last, order));
        assert((held(below, false) + walk(left, order)).push(op) + walk(last, order) == held(
            below,
            false,
        ) + (walk(left, order) + seq![op] + walk(last, order)));
    }
}

/// Reducing changes nothing in what the stacks hold.
pub proof fn lemma_reduce_held(stacks: Stacks, floor: int)
    requires
        stacks.reduce(floor) is Some,
    ensures
        held(stacks.reduce(floor).unwrap(), true) == held(stacks, true),
    decreases stacks.ops.len(),
{
    if stacks.ops.len() > 0 && stacks.ops.last().rank() >= floor {
        lemma_combine_held(stacks);
        lemma_reduce_held(stacks.combine().unwrap(), floor);
    }
}

/// Where reducing ends, nothing of the floor's rank or above waits last.
pub proof fn lemma_reduce_stops(stacks: Stacks, floor: int)
    requires
        stacks.reduce(floor) is Some,
    ensures
        stacks.reduce(floor).unwrap().ops.len() > 0 ==> stacks.reduce(
            floor,
        ).unwrap().ops.last().rank() < floor,
    decreases stacks.ops.len(),
{
    if stacks.ops.len() > 0 && stacks.ops.last().rank() >= floor {
        lemma_reduce_stops(stacks.combine().unwrap(), floor);
    }
}

/// What a builder holds: what its stacks hold, with a subtree to spare
/// where an operator is due.
pub open spec fn held_by(builder: Builder) -> Seq<Token> {
    held(builder.stacks, !builder.operand_due)
}

/// A step adds the token to what the builder holds, unless it is a
/// parenthesis.
#[verifier::rlimit(50)]
pub proof fn lemma_step_held(builder: Builder, token: Token)
    requires
        builder.step(token) is Ok,
    ensures
        held_by(builder.step(token).unwrap()) == if is_paren(token) {
            held_by(builder)
        } else {
            held_by(builder).push(token)
        },
{
    let order = Traversal::In;
    let stacks = builder.stacks;
    let next = builder.step(token).unwrap();
    match token {
        Token::Number(_) | Token::Var(_) => {
            let leaf = TreeNode { value: token, left: None, right: None };
            let pushed = Stacks { ops: stacks.ops, values: stacks.values.push(leaf) };
            lemma_reduce_held(pushed, 10);
            assert(pushed.values.drop_last() == stacks.values);
            assert(walk(leaf, order) == seq![token]);
            assert(held(pushed, true) == held(stacks, false) + seq![token]);
            assert(held(stacks, false) + seq![token] == held(stacks, false).push(token));
        },
        Token::UnOp(_) | Token::LParen => {
            assert(next.stacks.ops.drop_last() == stacks.ops);
        },
        Token::Op(_) => {
            let reduced = stacks.reduce(token.rank()).unwrap();
            lemma_reduce_held(stacks, token.rank());
            assert(next.stacks.ops.drop_last() == reduced.ops);
        },
        Token::RParen => {
            let reduced = stacks.reduce(2).unwrap();
            lemma_reduce_held(stacks, 2);
            lemma_reduce_stops(stacks, 2);
            if reduced.values.len() > 0 {
                let under = Stacks { ops: reduced.ops, values: reduced.values.drop_last() };
                assert(held(reduced, true) == held(under, false) + walk(
                    reduced.values.last(),
                    order,
                ));
                assert(reduced.ops.last().rank() < 2);
            }
        },
    }
}

/// A run from the beginning holds the tokens it has read, but for the
/// parentheses.
pub proof fn lemma_run_held(tokens: Seq<Token>)
    ensures
        run(Ok(Builder::start()), tokens) matches Ok(end) ==> held_by(end) == without_parens(
            tokens,
        ),
    decreases tokens.len(),
{
    if tokens.len() > 0 {
        lemma_run_held(tokens.drop_last());
        if let Ok(before) = run(Ok(Builder::start()), tokens.drop_last()) {
            if before.step(tokens.last()) is Ok {
                lemma_step_held(before, tokens.last());
            }
        }
    }
}

/// The in-order walk of the tree that the builder makes of a token list is
/// the list without its parentheses: the builder keeps every token, each
/// once, and keeps their order.
pub proof fn lemma_parse_keeps_order(tokens: Seq<Token>)
    ensures
        parse(tokens) matches Ok(tree) ==> walk(tree, Traversal::In) == without_parens(tokens),
{
    lemma_run_held(tokens);
    if let Ok(end) = run(Ok(Builder::start()), tokens) {
        if let Ok(tree) = end.finish() {
            let last = end.stacks.reduce(2).unwrap();
            lemma_reduce_held(end.stacks, 2);
            assert(last.values.last() == tree);
            assert(held(Stacks { ops: last.ops, values: last.values.drop_last() }, false)
                == Seq::<Token>::empty());
            assert(Seq::<Token>::empty() + walk(tree, Traversal::In) == walk(tree, Traversal::In));
        }
    }
}

} // verus!
