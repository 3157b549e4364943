//! What the builder makes of the token lists that the trees themselves give.

use vstd::prelude::*;
use crate::builder::{parse, run, Builder, Stacks, TreeError};
use crate::lexer::Traversal;
use crate::token::{Priority, Token};
use crate::tree::{needs_parens, parenthesized, subtree_tokens, TreeNode};

verus! {

impl TreeNode {
    /// Whether the tree is an expression in which no binary operator has, as
    /// its right child, a binary operator of its own rank.
    ///
    /// The in-order list leaves such a right child without parentheses, and
    /// the builder groups operators of one rank from the left: these are the
    /// expressions that their in-order list does not stand for.
    pub open spec fn reads_back(self) -> bool
        decreases self,
    {
        match self.value {
            Token::Number(_) | Token::Var(_) => self.is_leaf(),
            Token::UnOp(_) => {
                &&& self.left is None
                &&& self.right matches Some(r)
                &&& r.reads_back()
            },
            Token::Op(_) => {
                &&& self.left matches Some(l)
                &&& l.reads_back()
                &&& self.right matches Some(r)
                &&& r.reads_back()
                &&& !(r.value is Op && r.value.rank() == self.value.rank())
            },
            Token::LParen | Token::RParen => false,
        }
    }

    /// The highest floor down to which everything that the tree's own
    /// in-order list leaves waiting is combined.
    pub open spec fn binding(self) -> int {
        if self.value is Op {
            self.value.rank()
        } else {
            10
        }
    }
}

/// Whether the tokens of `tree` can follow on `ops` without combining any of
/// them early.
pub open spec fn shielded(ops: Seq<Token>, tree: TreeNode) -> bool {
    tree.value is Op ==> ops.len() == 0 || ops.last().rank() < tree.value.rank()
}

/// `stacks` with one more finished subtree.
pub open spec fn with_value(stacks: Stacks, tree: TreeNode) -> Stacks {
    Stacks { ops: stacks.ops, values: stacks.values.push(tree) }
}

/// `stacks` with one more waiting entry.
pub open spec fn with_op(stacks: Stacks, op: Token) -> Stacks {
    Stacks { ops: stacks.ops.push(op), values: stacks.values }
}

/// A run over two lists, one after the other, is the run over the second
/// from where the run over the first ends.
pub proof fn lemma_run_concat(from: Result<Builder, TreeError>, a: Seq<Token>, b: Seq<Token>)
    ensures
        run(from, a + b) == run(run(from, a), b),
    decreases b.len(),
{
    if b.len() == 0 {
        assert(a + b == a);
    } else {
        assert((a + b).drop_last() == a + b.drop_last());
        lemma_run_concat(from, a, b.drop_last());
    }
}

/// A run over one token is one step.
pub proof fn lemma_run_one(from: Builder, token: Token)
    ensures
        run(Ok(from), seq![token]) == from.step(token),
{
    reveal_with_fuel(run, 2);
    assert(seq![token].drop_last() == Seq::<Token>::empty());
}

/// Reducing to a floor and then to a lower one is reducing to the lower one.
pub proof fn lemma_reduce_again(stacks: Stacks, high: int, low: int)
    requires
        low <= high,
        stacks.reduce(high) is Some,
    ensures
        stacks.reduce(high).unwrap().reduce(low) == stacks.reduce(low),
    decreases stacks.ops.len(),
{
    if stacks.ops.len() > 0 && stacks.ops.last().rank() >= high {
        lemma_reduce_again(stacks.combine().unwrap(), high, low);
    }
}

/// With a subtree at hand, the prefix operators that wait last can all be
/// combined.
pub proof fn lemma_reduce_prefix_operators(stacks: Stacks)
    requires
        stacks.values.len() >= 1,
    ensures
        stacks.reduce(10) is Some,
    decreases stacks.ops.len(),
{
    if stacks.ops.len() > 0 && stacks.ops.last().rank() >= 10 {
        lemma_reduce_prefix_operators(stacks.combine().unwrap());
    }
}

/// From a builder that waits for an operand, the in-order list of `tree`
/// leaves a builder that waits for an operator and that, reduced to any
/// floor from 2 up to `tree.binding()`, is the first builder with `tree` as
/// one more finished subtree, reduced to that floor.
#[verifier::rlimit(50)]
pub proof fn lemma_run_tree(tree: TreeNode, from: Builder, floor: int)
    requires
        tree.reads_back(),
        from.operand_due,
        shielded(from.stacks.ops, tree),
        2 <= floor <= tree.binding(),
    ensures
        run(Ok(from), tree.linearize(Traversal::In)) matches Ok(after) && !after.operand_due
            && after.stacks.reduce(floor) == with_value(from.stacks, tree).reduce(floor),
    decreases tree, 0int,
{
    let order = Traversal::In;
    reveal_with_fuel(TreeNode::reads_back, 2);
    match tree.value {
        Token::Number(_) | Token::Var(_) => {
            assert(tree == TreeNode { value: tree.value, left: None, right: None });
            lemma_run_one(from, tree.value);
            lemma_reduce_prefix_operators(with_value(from.stacks, tree));
            lemma_reduce_again(with_value(from.stacks, tree), 10, floor);
        },
        Token::UnOp(_) => {
            let child = *tree.right.unwrap();
            let waiting = Builder { stacks: with_op(from.stacks, tree.value), operand_due: true };
            let rest = subtree_tokens(tree.value, tree.right, order);
            assert(tree.linearize(order) == seq![tree.value] + rest);
            lemma_run_one(from, tree.value);
            lemma_run_concat(Ok(from), seq![tree.value], rest);
            lemma_run_subtree(tree.value, child, waiting, floor);
            let both = with_value(waiting.stacks, child);
            assert(both.combine().unwrap() == with_value(from.stacks, tree)) by {
                assert(both.ops.drop_last() == from.stacks.ops);
                assert(both.values.take(both.values.len() - 1) == from.stacks.values);
            }
        },
        Token::Op(_) => {
            let left = *tree.left.unwrap();
            let right = *tree.right.unwrap();
            let head = subtree_tokens(tree.value, tree.left, order);
            let tail = subtree_tokens(tree.value, tree.right, order);
            assert(tree.linearize(order) == (head + seq![tree.value]) + tail);
            lemma_run_concat(Ok(from), head + seq![tree.value], tail);
            lemma_run_concat(Ok(from), head, seq![tree.value]);
            lemma_run_subtree(tree.value, left, from, tree.value.rank());
            let after_left = run(Ok(from), head).unwrap();
            lemma_run_one(after_left, tree.value);
            let waiting = Builder {
                stacks: with_op(with_value(from.stacks, left), tree.value),
                operand_due: true,
            };
            assert(after_left.step(tree.value) == Ok::<Builder, TreeError>(waiting));
            lemma_run_subtree(tree.value, right, waiting, floor);
            let both = with_value(waiting.stacks, right);
            assert(both.combine().unwrap() == with_value(from.stacks, tree)) by {
                assert(both.ops.drop_last() == from.stacks.ops);
                assert(both.values.take(both.values.len() - 2) == from.stacks.values);
            }
        },
        _ => {},
    }
}

/// As `lemma_run_tree`, for `child` as it stands in the in-order list of a
/// node that holds `parent`: in parentheses or not.
#[verifier::rlimit(50)]
pub proof fn lemma_run_subtree(parent: Token, child: TreeNode, from: Builder, floor: int)
    requires
        child.reads_back(),
        from.operand_due,
        2 <= floor <= 10,
        !needs_parens(parent, child) ==> shielded(from.stacks.ops, child) && floor
            <= child.binding(),
    ensures
        run(Ok(from), subtree_tokens(parent, Some(Box::new(child)), Traversal::In)) matches Ok(
            after,
        ) && !after.operand_due && after.stacks.reduce(floor) == with_value(
            from.stacks,
            child,
        ).reduce(floor),
    decreases child, 1int,
{
    let order = Traversal::In;
    if needs_parens(parent, child) {
        let inner = child.linearize(order);
        let opened = Builder { stacks: with_op(from.stacks, Token::LParen), operand_due: true };
        assert(parenthesized(inner) == (seq![Token::LParen] + inner) + seq![Token::RParen]);
        lemma_run_concat(Ok(from), seq![Token::LParen] + inner, seq![Token::RParen]);
        lemma_run_concat(Ok(from), seq![Token::LParen], inner);
        lemma_run_one(from, Token::LParen);
        lemma_run_tree(child, opened, 2);
        let inside = run(Ok(opened), inner).unwrap();
        lemma_run_one(inside, Token::RParen);
        let closed = with_value(opened.stacks, child);
        assert(closed.reduce(2) == Some(closed));
        assert(closed.ops.drop_last() == from.stacks.ops);
    } else {
        lemma_run_tree(child, from, floor);
    }
}

/// An expression in which no binary operator has a binary operator of its
/// own rank as its right child is the tree that the builder makes of its
/// in-order token list.
pub proof fn lemma_round_trip(tree: TreeNode)
    requires
        tree.reads_back(),
    ensures
        parse(tree.linearize(Traversal::In)) == Ok::<TreeNode, TreeError>(tree),
{
    lemma_run_tree(tree, Builder::start(), 2);
    let done = with_value(Builder::start().stacks, tree);
    assert(done.reduce(2) == Some(done));
    assert(done.values[0] == tree);
}

/// The leaf that holds `value`.
pub open spec fn leaf(value: Token) -> TreeNode {
    TreeNode { value, left: None, right: None }
}

/// The prefix operator `op` applied to `operand`.
pub open spec fn applied(op: Token, operand: TreeNode) -> TreeNode {
    TreeNode { value: op, left: None, right: Some(Box::new(operand)) }
}

/// The binary operator `op` between `left` and `right`.
pub open spec fn joined(op: Token, left: TreeNode, right: TreeNode) -> TreeNode {
    TreeNode { value: op, left: Some(Box::new(left)), right: Some(Box::new(right)) }
}

/// A leaf stands in the in-order list of its parent as its own token.
proof fn lemma_leaf_tokens(parent: Token, value: Token)
    ensures
        subtree_tokens(parent, Some(Box::new(leaf(value))), Traversal::In) == seq![value],
{
}

/// A node between two children stands in the in-order list of its parent
/// as the lists of its children around its own token, in parentheses where
/// the parent binds tighter.
proof fn lemma_joined_tokens(op: Token, left: TreeNode, right: TreeNode)
    ensures
        joined(op, left, right).linearize(Traversal::In) == subtree_tokens(
            op,
            Some(Box::new(left)),
            Traversal::In,
        ) + seq![op] + subtree_tokens(op, Some(Box::new(right)), Traversal::In),
        forall|parent: Token|
            #![trigger subtree_tokens(
                parent,
                Some(Box::new(joined(op, left, right))),
                Traversal::In,
            )]
            parent.rank() <= op.rank() ==> subtree_tokens(
                parent,
                Some(Box::new(joined(op, left, right))),
                Traversal::In,
            ) == joined(op, left, right).linearize(Traversal::In),
{
    let order = Traversal::In;
    let node = joined(op, left, right);
    assert(node.linearize(order) =~= subtree_tokens(op, node.left, order) + seq![op]
        + subtree_tokens(op, node.right, order));
}

/// A prefix operator stands in the in-order list before its operand, and
/// the whole stands in the list of a binary operator as it is.
proof fn lemma_applied_tokens(prefix: Token, operand: TreeNode)
    requires
        prefix is UnOp,
    ensures
        applied(prefix, operand).linearize(Traversal::In) == seq![prefix] + subtree_tokens(
            prefix,
            Some(Box::new(operand)),
            Traversal::In,
        ),
        forall|parent: Token|
            #![trigger subtree_tokens(
                parent,
                Some(Box::new(applied(prefix, operand))),
                Traversal::In,
            )]
            parent.rank() <= 10 ==> subtree_tokens(
                parent,
                Some(Box::new(applied(prefix, operand))),
                Traversal::In,
            ) == applied(prefix, operand).linearize(Traversal::In),
{
    let order = Traversal::In;
    let node = applied(prefix, operand);
    assert(node.linearize(order) =~= seq![prefix] + subtree_tokens(prefix, node.right, order));
}

/// In a chain of three operands and two binary operators without
/// parentheses, the operator of the higher rank takes the middle operand;
/// with equal ranks the first one does.
pub proof fn lemma_higher_rank_binds_tighter(
    a: Token,
    first: Token,
    b: Token,
    second: Token,
    c: Token,
)
    requires
        a.is_operand(),
        b.is_operand(),
        c.is_operand(),
        first is Op,
        second is Op,
    ensures
        parse(seq![a, first, b, second, c]) == Ok::<TreeNode, TreeError>(
            if second.rank() > first.rank() {
                joined(first, leaf(a), joined(second, leaf(b), leaf(c)))
            } else {
                joined(second, joined(first, leaf(a), leaf(b)), leaf(c))
            },
        ),
{
    let tree = if second.rank() > first.rank() {
        joined(first, leaf(a), joined(second, leaf(b), leaf(c)))
    } else {
        joined(second, joined(first, leaf(a), leaf(b)), leaf(c))
    };
    reveal_with_fuel(TreeNode::reads_back, 3);
    lemma_leaf_tokens(first, a);
    lemma_leaf_tokens(first, b);
    lemma_leaf_tokens(second, b);
    lemma_leaf_tokens(second, c);
    if second.rank() > first.rank() {
        lemma_joined_tokens(second, leaf(b), leaf(c));
        lemma_joined_tokens(first, leaf(a), joined(second, leaf(b), leaf(c)));
    } else {
        lemma_joined_tokens(first, leaf(a), leaf(b));
        lemma_joined_tokens(second, joined(first, leaf(a), leaf(b)), leaf(c));
    }
    assert(tree.linearize(Traversal::In) == seq![a, first, b, second, c]);
    lemma_round_trip(tree);
}

/// A prefix operator takes the one operand that follows it before a binary
/// operator beside it takes anything, whatever the rank of that operator:
/// before the operator, and after it.
pub proof fn lemma_prefix_binds_first(prefix: Token, a: Token, op: Token, b: Token)
    requires
        prefix is UnOp,
        a.is_operand(),
        op is Op,
        b.is_operand(),
    ensures
        parse(seq![prefix, a, op, b]) == Ok::<TreeNode, TreeError>(
            joined(op, applied(prefix, leaf(a)), leaf(b)),
        ),
        parse(seq![a, op, prefix, b]) == Ok::<TreeNode, TreeError>(
            joined(op, leaf(a), applied(prefix, leaf(b))),
        ),
{
    let before = joined(op, applied(prefix, leaf(a)), leaf(b));
    let behind = joined(op, leaf(a), applied(prefix, leaf(b)));
    reveal_with_fuel(TreeNode::reads_back, 3);
    lemma_leaf_tokens(prefix, a);
    lemma_leaf_tokens(prefix, b);
    lemma_leaf_tokens(op, a);
    lemma_leaf_tokens(op, b);
    lemma_applied_tokens(prefix, leaf(a));
    lemma_applied_tokens(prefix, leaf(b));
    lemma_joined_tokens(op, applied(prefix, leaf(a)), leaf(b));
    lemma_joined_tokens(op, leaf(a), applied(prefix, leaf(b)));
    assert(before.linearize(Traversal::In) == seq![prefix, a, op, b]);
    assert(behind.linearize(Traversal::In) == seq![a, op, prefix, b]);
    lemma_round_trip(before);
    lemma_round_trip(behind);
}

/// `left` and `right` under the binary operator `op`, grouped as the
/// builder groups them where `right` comes without parentheses: operators of
/// the rank of `op` that head `right` take what stands to their left first.
pub open spec fn grouped(op: Token, left: TreeNode, right: TreeNode) -> TreeNode
    decreases right,
{
    if right.value is Op && right.value.rank() == op.rank() && right.left is Some
        && right.right is Some {
        joined(right.value, grouped(op, left, *right.left.unwrap()), *right.right.unwrap())
    } else {
        joined(op, left, right)
    }
}

/// The expression that the in-order list of `tree` stands for: `tree` with
/// every chain of binary operators of one rank grouped from the left.
pub open spec fn from_the_left(tree: TreeNode) -> TreeNode
    decreases tree,
{
    match tree.value {
        Token::Op(_) if tree.left is Some && tree.right is Some => grouped(
            tree.value,
            from_the_left(*tree.left.unwrap()),
            from_the_left(*tree.right.unwrap()),
        ),
        Token::UnOp(_) if tree.right is Some => applied(
            tree.value,
            from_the_left(*tree.right.unwrap()),
        ),
        _ => tree,
    }
}

/// Grouping changes neither the rank at the root nor the in-order list, and
/// what it makes of two expressions that read back reads back.
#[verifier::rlimit(50)]
pub proof fn lemma_grouped(op: Token, left: TreeNode, right: TreeNode)
    requires
        op is Op,
        left.reads_back(),
        right.reads_back(),
    ensures
        grouped(op, left, right).reads_back(),
        grouped(op, left, right).value is Op,
        grouped(op, left, right).value.rank() == op.rank(),
        grouped(op, left, right).linearize(Traversal::In) == joined(op, left, right).linearize(
            Traversal::In,
        ),
    decreases right,
{
    let order = Traversal::In;
    lemma_joined_tokens(op, left, right);
    if right.value is Op && right.value.rank() == op.rank() {
        let inner_left = *right.left.unwrap();
        let inner_right = *right.right.unwrap();
        let inner = grouped(op, left, inner_left);
        lemma_grouped(op, left, inner_left);
        lemma_joined_tokens(right.value, inner, inner_right);
        lemma_joined_tokens(right.value, inner_left, inner_right);
        lemma_joined_tokens(op, left, inner_left);
        assert(right == joined(right.value, inner_left, inner_right));
        assert(subtree_tokens(right.value, Some(Box::new(inner)), order) == inner.linearize(order));
        assert(subtree_tokens(op, Some(Box::new(right)), order) == right.linearize(order));
        assert(subtree_tokens(op, Some(Box::new(inner_left)), order) == subtree_tokens(
            right.value,
            Some(Box::new(inner_left)),
            order,
        ));
        assert(subtree_tokens(op, Some(Box::new(left)), order) + seq![op] + (subtree_tokens(
            right.value,
            Some(Box::new(inner_left)),
            order,
        ) + seq![right.value] + subtree_tokens(right.value, Some(Box::new(inner_right)), order))
            == (subtree_tokens(op, Some(Box::new(left)), order) + seq![op] + subtree_tokens(
            right.value,
            Some(Box::new(inner_left)),
            order,
        )) + seq![right.value] + subtree_tokens(right.value, Some(Box::new(inner_right)), order));
    }
}

/// Grouping from the left changes neither the in-order list nor how the
/// tree stands in the list of a parent, and what it makes of an expression
/// reads back.
#[verifier::rlimit(50)]
pub proof fn lemma_from_the_left(tree: TreeNode)
    requires
        tree.is_expression(),
    ensures
        from_the_left(tree).reads_back(),
        from_the_left(tree).linearize(Traversal::In) == tree.linearize(Traversal::In),
        from_the_left(tree).value.rank() == tree.value.rank(),
        from_the_left(tree).is_leaf() == tree.is_leaf(),
    decreases tree,
{
    let order = Traversal::In;
    match tree.value {
        Token::Op(_) => {
            let left = *tree.left.unwrap();
            let right = *tree.right.unwrap();
            lemma_from_the_left(left);
            lemma_from_the_left(right);
            lemma_grouped(tree.value, from_the_left(left), from_the_left(right));
            lemma_joined_tokens(tree.value, from_the_left(left), from_the_left(right));
            lemma_joined_tokens(tree.value, left, right);
            assert(tree == joined(tree.value, left, right));
        },
        Token::UnOp(_) => {
            let operand = *tree.right.unwrap();
            lemma_from_the_left(operand);
            lemma_applied_tokens(tree.value, from_the_left(operand));
            lemma_applied_tokens(tree.value, operand);
            assert(tree == applied(tree.value, operand));
        },
        _ => {},
    }
}

/// What the builder makes of the in-order list of an expression is the
/// expression grouped from the left. So an expression is what the builder
/// makes of its in-order list exactly where it reads back.
pub proof fn lemma_parse_linearized(tree: TreeNode)
    requires
        tree.is_expression(),
    ensures
        parse(tree.linearize(Traversal::In)) == Ok::<TreeNode, TreeError>(from_the_left(tree)),
        parse(tree.linearize(Traversal::In)) == Ok::<TreeNode, TreeError>(tree)
            <==> tree.reads_back(),
{
    lemma_from_the_left(tree);
    lemma_round_trip(from_the_left(tree));
    if tree.reads_back() {
        lemma_round_trip(tree);
    }
}

} // verus!
