//! No token list with fewer parentheses than the in-order list of a tree
//! stands for that tree.

use vstd::prelude::*;
use crate::builder::{
    lemma_parse_expression, lemma_reduce_balanced, lemma_run_balanced, open_parens, parse,
    refusal, run, Builder, Stacks, TreeError,
};
use crate::round_trip::lemma_parse_linearized;
use crate::lexer::Traversal;
use crate::token::{Priority, Token};
use crate::tree::TreeNode;
use crate::walk::{
    lemma_linearize_walk, lemma_parse_keeps_order, lemma_reduce_stops, lemma_walk_len, pairs,
    without_parens,
};

verus! {

/// Whether `tree` stands in parentheses below a node of the rank `rank`: 1
/// if it does, 0 if not.
pub open spec fn cost(rank: int, tree: TreeNode) -> nat {
    if !tree.is_leaf() && rank > tree.value.rank() {
        1
    } else {
        0
    }
}

/// The pairs of parentheses that the in-order lists of the finished
/// subtrees hold, and those that the subtrees on the left of the binary
/// operators that wait will stand in. Where `top` holds a rank, the latest
/// subtree is to spare and counts as if it came below a node of that rank.
pub open spec fn owed(stacks: Stacks, top: Option<int>) -> nat
    decreases stacks.ops.len(), if top is Some {
        1int
    } else {
        0int
    },
{
    match top {
        Some(rank) => if stacks.values.len() == 0 {
            0
        } else {
            owed(Stacks { ops: stacks.ops, values: stacks.values.drop_last() }, None) + pairs(
                stacks.values.last(),
            ) + cost(rank, stacks.values.last())
        },
        None => if stacks.ops.len() == 0 {
            0
        } else {
            let rest = Stacks { ops: stacks.ops.drop_last(), values: stacks.values };
            if stacks.ops.last() is Op {
                owed(rest, Some(stacks.ops.last().rank()))
            } else {
                owed(rest, None)
            }
        },
    }
}

/// Whether every binary operator that waits has directly before it an
/// opening parenthesis or a binary operator of a lower rank.
pub open spec fn ordered(ops: Seq<Token>) -> bool {
    forall|i: int|
        0 < i < ops.len() && (#[trigger] ops[i]) is Op ==> ops[i - 1] is LParen || (ops[i - 1] is Op
            && ops[i - 1].rank() < ops[i].rank())
}

/// Whether the latest subtree may come below the operator that waits last
/// at the price of coming below a node of the rank `rank`.
pub open spec fn covered(stacks: Stacks, rank: int) -> bool {
    stacks.ops.len() > 0 && stacks.values.len() > 0 ==> stacks.ops.last().rank() <= rank || cost(
        10,
        stacks.values.last(),
    ) == 0
}

/// How many closing parentheses `tokens` holds.
pub open spec fn closing(tokens: Seq<Token>) -> nat
    decreases tokens.len(),
{
    if tokens.len() == 0 {
        0
    } else {
        closing(tokens.drop_last()) + if tokens.last() is RParen {
            1nat
        } else {
            0nat
        }
    }
}

/// Combining owes no more pairs than were owed before.
#[verifier::rlimit(50)]
pub proof fn lemma_combine_owed(stacks: Stacks, rank: int)
    requires
        stacks.combine() is Some,
        ordered(stacks.ops),
        covered(stacks, rank),
    ensures
        ({
            let next = stacks.combine().unwrap();
            let above = if stacks.ops.last() is Op {
                stacks.ops.last().rank()
            } else {
                10
            };
            owed(next, Some(above)) <= owed(stacks, Some(rank)) && covered(next, above) && ordered(
                next.ops,
            )
        }),
{
    let next = stacks.combine().unwrap();
    let n = stacks.values.len() as int;
    let op = stacks.ops.last();
    let last = stacks.values.last();
    let top = next.values.last();
    let below = Stacks { ops: next.ops, values: next.values.drop_last() };
    let under = Stacks { ops: stacks.ops, values: stacks.values.drop_last() };
    let rest = Stacks { ops: stacks.ops.drop_last(), values: under.values };
    assert(stacks.ops[stacks.ops.len() - 1] == op);
    assert forall|i: int| 0 < i < next.ops.len() && (#[trigger] next.ops[i]) is Op implies next.ops[i
        - 1] is LParen || (next.ops[i - 1] is Op && next.ops[i - 1].rank() < next.ops[i].rank()) by {
        assert(next.ops[i] == stacks.ops[i]);
        assert(next.ops[i - 1] == stacks.ops[i - 1]);
    }
    assert(owed(stacks, Some(rank)) == owed(under, None) + pairs(last) + cost(rank, last));
    if op is UnOp {
        let above = 10;
        assert(stacks.values.drop_last() == stacks.values.take(n - 1));
        assert(below.values == stacks.values.take(n - 1));
        assert(rest == below);
        assert(owed(under, None) == owed(rest, None));
        assert(owed(next, Some(above)) == owed(below, None) + pairs(top) + cost(above, top));
        assert(pairs(top) == pairs(last) + cost(10, last));
    } else {
        let above = op.rank();
        let left = stacks.values[n - 2];
        assert(below.values == stacks.values.take(n - 2));
        assert(owed(under, None) == owed(rest, Some(op.rank())));
        assert(rest.values.last() == left);
        assert(rest.values.drop_last() == stacks.values.take(n - 2));
        assert(owed(rest, Some(op.rank())) == owed(below, None) + pairs(left) + cost(
            op.rank(),
            left,
        ));
        assert(owed(next, Some(above)) == owed(below, None) + pairs(top) + cost(above, top));
        assert(pairs(top) == pairs(left) + cost(op.rank(), left) + pairs(last) + cost(
            op.rank(),
            last,
        ));
        if next.ops.len() > 0 {
            let i = stacks.ops.len() - 1;
            assert(stacks.ops[i] is Op);
            assert(next.ops.last() == stacks.ops[i - 1]);
        }
    }
}

/// Reducing to a floor owes no more pairs than were owed before, with the
/// latest subtree counted as if it came below a node of the floor's rank.
#[verifier::rlimit(50)]
pub proof fn lemma_reduce_owed(stacks: Stacks, floor: int, rank: int)
    requires
        stacks.reduce(floor) is Some,
        ordered(stacks.ops),
        covered(stacks, rank),
        floor <= rank,
        floor <= 10,
    ensures
        owed(stacks.reduce(floor).unwrap(), Some(floor)) <= owed(stacks, Some(rank)),
        ordered(stacks.reduce(floor).unwrap().ops),
    decreases stacks.ops.len(),
{
    if stacks.ops.len() > 0 && stacks.ops.last().rank() >= floor {
        lemma_combine_owed(stacks, rank);
        let above = if stacks.ops.last() is Op {
            stacks.ops.last().rank()
        } else {
            10
        };
        lemma_reduce_owed(stacks.combine().unwrap(), floor, above);
    }
}

/// What a builder owes: what its stacks owe, the subtree to spare counted
/// as if it came below a prefix operator.
pub open spec fn owed_by(builder: Builder) -> nat {
    owed(
        builder.stacks,
        if builder.operand_due {
            None
        } else {
            Some(10int)
        },
    )
}

/// A step owes no more than was owed before, and one pair more at most
/// where the token is a closing parenthesis.
#[verifier::rlimit(50)]
pub proof fn lemma_step_owed(builder: Builder, token: Token)
    requires
        builder.step(token) is Ok,
        builder.balanced(),
        ordered(builder.stacks.ops),
    ensures
        owed_by(builder.step(token).unwrap()) <= owed_by(builder) + if token is RParen {
            1nat
        } else {
            0nat
        },
        ordered(builder.step(token).unwrap().stacks.ops),
{
    let stacks = builder.stacks;
    let next = builder.step(token).unwrap();
    match token {
        Token::Number(_) | Token::Var(_) => {
            let leaf = TreeNode { value: token, left: None, right: None };
            let pushed = Stacks { ops: stacks.ops, values: stacks.values.push(leaf) };
            assert(pushed.values.drop_last() == stacks.values);
            assert(pairs(leaf) == 0);
            lemma_reduce_owed(pushed, 10, 10);
        },
        Token::UnOp(_) | Token::LParen => {
            assert(next.stacks.ops.drop_last() == stacks.ops);
            assert forall|i: int|
                0 < i < next.stacks.ops.len() && (#[trigger] next.stacks.ops[i]) is Op implies next.stacks.ops[i
                - 1] is LParen || (next.stacks.ops[i - 1] is Op && next.stacks.ops[i - 1].rank()
                < next.stacks.ops[i].rank()) by {
                assert(next.stacks.ops[i] == stacks.ops[i]);
                assert(next.stacks.ops[i - 1] == stacks.ops[i - 1]);
            }
        },
        Token::Op(_) => {
            let reduced = stacks.reduce(token.rank()).unwrap();
            lemma_reduce_owed(stacks, token.rank(), 10);
            lemma_reduce_stops(stacks, token.rank());
            assert(next.stacks.ops.drop_last() == reduced.ops);
            assert(owed(next.stacks, None) == owed(reduced, Some(token.rank())));
            assert forall|i: int|
                0 < i < next.stacks.ops.len() && (#[trigger] next.stacks.ops[i]) is Op implies next.stacks.ops[i
                - 1] is LParen || (next.stacks.ops[i - 1] is Op && next.stacks.ops[i - 1].rank()
                < next.stacks.ops[i].rank()) by {
                if i < reduced.ops.len() {
                    assert(next.stacks.ops[i] == reduced.ops[i]);
                    assert(next.stacks.ops[i - 1] == reduced.ops[i - 1]);
                } else {
                    assert(next.stacks.ops[i - 1] == reduced.ops.last());
                    lemma_top_is_low(builder, token);
                }
            }
        },
        Token::RParen => {
            let reduced = stacks.reduce(2).unwrap();
            lemma_reduce_owed(stacks, 2, 10);
            lemma_reduce_stops(stacks, 2);
            assert forall|i: int|
                0 < i < next.stacks.ops.len() && (#[trigger] next.stacks.ops[i]) is Op implies next.stacks.ops[i
                - 1] is LParen || (next.stacks.ops[i - 1] is Op && next.stacks.ops[i - 1].rank()
                < next.stacks.ops[i].rank()) by {
                assert(next.stacks.ops[i] == reduced.ops[i]);
                assert(next.stacks.ops[i - 1] == reduced.ops[i - 1]);
            }
            if reduced.values.len() > 0 {
                let under = Stacks { ops: reduced.ops, values: reduced.values.drop_last() };
                let rest = Stacks { ops: reduced.ops.drop_last(), values: under.values };
                assert(owed(under, None) == owed(rest, None));
            }
        },
    }
}

/// Where a binary operator comes to wait, what waits directly before it is
/// an opening parenthesis or a binary operator of a lower rank.
proof fn lemma_top_is_low(builder: Builder, token: Token)
    requires
        token is Op,
        builder.balanced(),
        builder.step(token) is Ok,
    ensures
        ({
            let reduced = builder.stacks.reduce(token.rank()).unwrap();
            reduced.ops.len() > 0 ==> reduced.ops.last() is LParen || (reduced.ops.last() is Op
                && reduced.ops.last().rank() < token.rank())
        }),
{
    lemma_reduce_balanced(builder.stacks, token.rank());
    let reduced = builder.stacks.reduce(token.rank()).unwrap();
    if reduced.ops.len() > 0 {
        assert(reduced.ops[reduced.ops.len() - 1] == reduced.ops.last());
    }
}

/// A run from the beginning owes no more pairs of parentheses than it has
/// read closing parentheses.
pub proof fn lemma_run_owed(tokens: Seq<Token>)
    ensures
        run(Ok(Builder::start()), tokens) matches Ok(end) ==> owed_by(end) <= closing(tokens)
            && ordered(end.stacks.ops) && end.balanced(),
    decreases tokens.len(),
{
    lemma_run_balanced(tokens);
    if tokens.len() > 0 {
        lemma_run_owed(tokens.drop_last());
        lemma_run_balanced(tokens.drop_last());
        if let Ok(before) = run(Ok(Builder::start()), tokens.drop_last()) {
            if before.step(tokens.last()) is Ok {
                lemma_step_owed(before, tokens.last());
            }
        }
    }
}

/// The in-order list of the tree that the builder makes of a token list
/// holds no more pairs of parentheses than the token list holds closing
/// parentheses.
pub proof fn lemma_parse_pairs(tokens: Seq<Token>)
    ensures
        parse(tokens) matches Ok(tree) ==> pairs(tree) <= closing(tokens),
{
    lemma_run_owed(tokens);
    if let Ok(end) = run(Ok(Builder::start()), tokens) {
        if let Ok(tree) = end.finish() {
            let last = end.stacks.reduce(2).unwrap();
            lemma_reduce_owed(end.stacks, 2, 10);
            assert(last.values.last() == tree);
            assert(owed(last, Some(2int)) == owed(
                Stacks { ops: last.ops, values: last.values.drop_last() },
                None,
            ) + pairs(tree) + cost(2, tree));
        }
    }
}

/// A list holds its tokens that are no parentheses, its opening parentheses
/// and its closing ones, and nothing else.
pub proof fn lemma_count_parens(tokens: Seq<Token>)
    ensures
        tokens.len() == without_parens(tokens).len() + open_parens(tokens) + 2 * closing(tokens),
    decreases tokens.len(),
{
    if tokens.len() > 0 {
        lemma_count_parens(tokens.drop_last());
    }
}

/// No token list is shorter than the in-order list of the tree that the
/// builder makes of it. So the in-order list of a tree that reads back is a
/// shortest list that stands for the tree: with any of its pairs of
/// parentheses taken out, or anything else, the builder makes another
/// tree of it, or none.
pub proof fn lemma_no_shorter_list(tokens: Seq<Token>)
    ensures
        parse(tokens) matches Ok(tree) ==> tree.linearize(Traversal::In).len() <= tokens.len(),
{
    if let Ok(tree) = parse(tokens) {
        lemma_parse_expression(tokens);
        lemma_run_balanced(tokens);
        assert(open_parens(tokens) == 0);
        lemma_parse_keeps_order(tokens);
        lemma_parse_pairs(tokens);
        lemma_count_parens(tokens);
        lemma_walk_len(tree, Traversal::In);
        lemma_linearize_walk(tree, Traversal::In);
    }
}

/// The in-order list of an expression is an expression itself: operands
/// and operators alternate in it as they must, and every parenthesis has
/// its partner.
pub proof fn lemma_linearized_is_accepted(tree: TreeNode)
    requires
        tree.is_expression(),
    ensures
        refusal(tree.linearize(Traversal::In)) is None,
        open_parens(tree.linearize(Traversal::In)) == 0,
{
    let list = tree.linearize(Traversal::In);
    lemma_parse_linearized(tree);
    lemma_parse_expression(list);
    lemma_run_balanced(list);
}

/// The in-order list of a tree holds no pair of parentheses that it could
/// do without: with any two of its tokens taken out, the builder makes
/// another tree of it, or none.
pub proof fn lemma_no_pair_to_spare(tree: TreeNode, i: int, j: int)
    requires
        0 <= i < j < tree.linearize(Traversal::In).len(),
    ensures
        parse(tree.linearize(Traversal::In).remove(j).remove(i)) != Ok::<TreeNode, TreeError>(
            tree,
        ),
{
    lemma_no_shorter_list(tree.linearize(Traversal::In).remove(j).remove(i));
}

} // verus!
