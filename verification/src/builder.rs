//! Building an expression tree from an in-order token list with two stacks:
//! one of operators that wait for their operands, one of finished subtrees.

use vstd::prelude::*;
use crate::token::{Priority, Token};
use crate::tree::TreeNode;

verus! {

/// Why a token list is not an expression.
#[derive(Debug, Copy, Clone, PartialEq, Eq, Structural)]
pub enum TreeError {
    /// An operand was due and a binary operator, a closing parenthesis or
    /// the end of the list came instead.
    MissingOperand,
    /// An operator was due and a number, a variable, a prefix operator or
    /// an opening parenthesis came instead.
    MissingOperator,
    /// An operator was due and a closing parenthesis came that has no
    /// partner before it, or the list ended with an operand and an opening
    /// parenthesis still has no partner.
    UnbalancedParens,
}

/// The two stacks of the builder.
pub struct Stacks {
    /// The operators and opening parentheses that wait, the latest last.
    pub ops: Seq<Token>,
    /// The finished subtrees, the latest last.
    pub values: Seq<TreeNode>,
}

impl Stacks {
    /// Takes the latest operator off and puts it above the subtrees it
    /// applies to: a prefix operator above the latest subtree, as its right
    /// child; a binary operator above the latest two, the later of them on
    /// the right. `None` where the latest entry is no operator or the
    /// subtrees are too few.
    pub open spec fn combine(self) -> Option<Stacks> {
        if self.ops.len() == 0 {
            None
        } else {
            let op = self.ops.last();
            let n = self.values.len() as int;
            match op {
                Token::UnOp(_) if n >= 1 => Some(
                    Stacks {
                        ops: self.ops.drop_last(),
                        values: self.values.take(n - 1).push(
                            TreeNode {
                                value: op,
                                left: None,
                                right: Some(Box::new(self.values[n - 1])),
                            },
                        ),
                    },
                ),
                Token::Op(_) if n >= 2 => Some(
                    Stacks {
                        ops: self.ops.drop_last(),
                        values: self.values.take(n - 2).push(
                            TreeNode {
                                value: op,
                                left: Some(Box::new(self.values[n - 2])),
                                right: Some(Box::new(self.values[n - 1])),
                            },
                        ),
                    },
                ),
                _ => None,
            }
        }
    }

    /// Combines as long as the latest waiting entry has a rank of at least
    /// `floor`. `None` where one of these steps is not possible.
    pub open spec fn reduce(self, floor: int) -> Option<Stacks>
        decreases self.ops.len(),
    {
        if self.ops.len() > 0 && self.ops.last().rank() >= floor {
            match self.combine() {
                Some(next) => next.reduce(floor),
                None => None,
            }
        } else {
            Some(self)
        }
    }
}

/// The builder between two tokens.
pub struct Builder {
    pub stacks: Stacks,
    /// Whether the next token has to begin an operand.
    pub operand_due: bool,
}

impl Builder {
    /// The builder before the first token.
    pub open spec fn start() -> Builder {
        Builder { stacks: Stacks { ops: Seq::empty(), values: Seq::empty() }, operand_due: true }
    }

    /// The builder after one more token.
    ///
    /// Where an operand is due, a number or a variable becomes a leaf and
    /// the prefix operators that wait directly before it are combined at
    /// once; a prefix operator or an opening parenthesis waits. Where an
    /// operator is due, a binary operator first has every waiting operator
    /// of its own rank or above combined and then waits; a closing
    /// parenthesis has everything combined that waits after the latest
    /// opening one, which it removes.
    pub open spec fn step(self, token: Token) -> Result<Builder, TreeError> {
        match token {
            Token::Number(_) | Token::Var(_) => if !self.operand_due {
                Err(TreeError::MissingOperator)
            } else {
                let leaf = TreeNode { value: token, left: None, right: None };
                let pushed = Stacks { ops: self.stacks.ops, values: self.stacks.values.push(leaf) };
                match pushed.reduce(10) {
                    Some(next) => Ok(Builder { stacks: next, operand_due: false }),
                    None => Err(TreeError::MissingOperand),
                }
            },
            Token::UnOp(_) | Token::LParen => if !self.operand_due {
                Err(TreeError::MissingOperator)
            } else {
                Ok(
                    Builder {
                        stacks: Stacks {
                            ops: self.stacks.ops.push(token),
                            values: self.stacks.values,
                        },
                        operand_due: true,
                    },
                )
            },
            Token::Op(_) => if self.operand_due {
                Err(TreeError::MissingOperand)
            } else {
                match self.stacks.reduce(token.rank()) {
                    Some(next) => Ok(
                        Builder {
                            stacks: Stacks { ops: next.ops.push(token), values: next.values },
                            operand_due: true,
                        },
                    ),
                    None => Err(TreeError::MissingOperand),
                }
            },
            Token::RParen => if self.operand_due {
                Err(TreeError::MissingOperand)
            } else {
                match self.stacks.reduce(2) {
                    Some(next) => if next.ops.len() > 0 {
                        Ok(
                            Builder {
                                stacks: Stacks { ops: next.ops.drop_last(), values: next.values },
                                operand_due: false,
                            },
                        )
                    } else {
                        Err(TreeError::UnbalancedParens)
                    },
                    None => Err(TreeError::MissingOperand),
                }
            },
        }
    }

    /// The tree once the list has ended: everything that waits is combined,
    /// and the one subtree that is left is the tree.
    pub open spec fn finish(self) -> Result<TreeNode, TreeError> {
        if self.operand_due {
            Err(TreeError::MissingOperand)
        } else {
            match self.stacks.reduce(2) {
                Some(end) => if end.ops.len() > 0 {
                    Err(TreeError::UnbalancedParens)
                } else if end.values.len() == 1 {
                    Ok(end.values[0])
                } else {
                    Err(TreeError::MissingOperand)
                },
                None => Err(TreeError::MissingOperand),
            }
        }
    }
}

/// The builder after `tokens`, one after the other, from `from` on. The
/// first token that cannot follow ends the run with its error.
pub open spec fn run(from: Result<Builder, TreeError>, tokens: Seq<Token>) -> Result<
    Builder,
    TreeError,
>
    decreases tokens.len(),
{
    if tokens.len() == 0 {
        from
    } else {
        match run(from, tokens.drop_last()) {
            Ok(builder) => builder.step(tokens.last()),
            Err(e) => Err(e),
        }
    }
}

/// The tree that an in-order token list stands for, or why it stands for
/// none.
pub open spec fn parse(tokens: Seq<Token>) -> Result<TreeNode, TreeError> {
    match run(Ok(Builder::start()), tokens) {
        Ok(builder) => builder.finish(),
        Err(e) => Err(e),
    }
}

/// How many binary operators wait in `ops`.
pub open spec fn binary_waiting(ops: Seq<Token>) -> nat
    decreases ops.len(),
{
    if ops.len() == 0 {
        0
    } else {
        binary_waiting(ops.drop_last()) + if ops.last() is Op {
            1nat
        } else {
            0nat
        }
    }
}

/// How many opening parentheses wait in `ops`.
pub open spec fn parens_waiting(ops: Seq<Token>) -> nat
    decreases ops.len(),
{
    if ops.len() == 0 {
        0
    } else {
        parens_waiting(ops.drop_last()) + if ops.last() is LParen {
            1nat
        } else {
            0nat
        }
    }
}

impl Stacks {
    /// Whether only operators and opening parentheses wait, every finished
    /// subtree is an expression, and there are `spare` more subtrees than
    /// binary operators that wait.
    pub open spec fn balanced(self, spare: nat) -> bool {
        &&& forall|i: int|
            0 <= i < self.ops.len() ==> (#[trigger] self.ops[i]) is LParen || self.ops[i] is Op
                || self.ops[i] is UnOp
        &&& forall|j: int| 0 <= j < self.values.len() ==> (#[trigger] self.values[j]).is_expression()
        &&& self.values.len() == binary_waiting(self.ops) + spare
    }
}

impl Builder {
    /// Whether the stacks are balanced: with one subtree to spare where an
    /// operator is due, with none where an operand is due.
    pub open spec fn balanced(self) -> bool {
        self.stacks.balanced(
            if self.operand_due {
                0
            } else {
                1
            },
        )
    }
}

/// Whether an operand is due after `token`: after an operator and after an
/// opening parenthesis.
pub open spec fn asks_operand(token: Token) -> bool {
    token is Op || token is UnOp || token is LParen
}

/// What is wrong with `token` where `operand_due` says what is due and
/// `open` opening parentheses have no partner yet; `None` where the token
/// can follow.
pub open spec fn fault(operand_due: bool, open: int, token: Token) -> Option<TreeError> {
    if operand_due {
        if token is Op || token is RParen {
            Some(TreeError::MissingOperand)
        } else {
            None
        }
    } else {
        if token is Op {
            None
        } else if token is RParen {
            if open > 0 {
                None
            } else {
                Some(TreeError::UnbalancedParens)
            }
        } else {
            Some(TreeError::MissingOperator)
        }
    }
}

/// Whether an operand is due after the tokens of `tokens`: at the beginning,
/// and where the last of them asks for one.
pub open spec fn operand_due_after(tokens: Seq<Token>) -> bool {
    tokens.len() == 0 || asks_operand(tokens.last())
}

/// The opening parentheses of `tokens` less the closing ones.
pub open spec fn open_parens(tokens: Seq<Token>) -> int
    decreases tokens.len(),
{
    if tokens.len() == 0 {
        0
    } else {
        open_parens(tokens.drop_last()) + if tokens.last() is LParen {
            1int
        } else if tokens.last() is RParen {
            -1int
        } else {
            0int
        }
    }
}

/// What is wrong with the first token of `tokens` that cannot follow on
/// those before it; `None` where each can.
pub open spec fn first_fault(tokens: Seq<Token>) -> Option<TreeError>
    decreases tokens.len(),
{
    if tokens.len() == 0 {
        None
    } else {
        let before = tokens.drop_last();
        match first_fault(before) {
            Some(e) => Some(e),
            None => fault(operand_due_after(before), open_parens(before), tokens.last()),
        }
    }
}

/// Why `tokens` is no expression: what is wrong with the first token that
/// cannot follow, else that the list ends where an operand is due, else
/// that an opening parenthesis is left without a partner. `None` where the
/// list is an expression.
pub open spec fn refusal(tokens: Seq<Token>) -> Option<TreeError> {
    match first_fault(tokens) {
        Some(e) => Some(e),
        None => if operand_due_after(tokens) {
            Some(TreeError::MissingOperand)
        } else if open_parens(tokens) > 0 {
            Some(TreeError::UnbalancedParens)
        } else {
            None
        },
    }
}

/// One more waiting entry is one more binary operator or one more opening
/// parenthesis that waits, or neither.
pub proof fn lemma_waiting_push(ops: Seq<Token>, token: Token)
    ensures
        binary_waiting(ops.push(token)) == binary_waiting(ops) + if token is Op {
            1nat
        } else {
            0nat
        },
        parens_waiting(ops.push(token)) == parens_waiting(ops) + if token is LParen {
            1nat
        } else {
            0nat
        },
{
    assert(ops.push(token).drop_last() == ops);
}

/// With a subtree to spare, an operator that waits last can be combined,
/// and a subtree is to spare afterwards too.
#[verifier::rlimit(50)]
pub proof fn lemma_combine_balanced(stacks: Stacks)
    requires
        stacks.balanced(1),
        stacks.ops.len() > 0,
        stacks.ops.last().rank() >= 2,
    ensures
        stacks.combine() matches Some(next) && next.balanced(1) && parens_waiting(next.ops)
            == parens_waiting(stacks.ops),
{
    let next = stacks.combine().unwrap();
    let n = stacks.values.len() as int;
    assert(stacks.ops[stacks.ops.len() - 1] == stacks.ops.last());
    assert forall|i: int| 0 <= i < next.ops.len() implies (#[trigger] next.ops[i]) is LParen
        || next.ops[i] is Op || next.ops[i] is UnOp by {
        assert(next.ops[i] == stacks.ops[i]);
    }
    assert forall|j: int| 0 <= j < next.values.len() implies (#[trigger] next.values[j]).is_expression() by {
        if j < next.values.len() - 1 {
            assert(next.values[j] == stacks.values[j]);
        } else {
            assert(stacks.values[n - 1].is_expression());
            if stacks.ops.last() is Op {
                assert(stacks.values[n - 2].is_expression());
            }
        }
    }
}

/// With a subtree to spare, everything that waits down to a floor of 2 or
/// above can be combined; a subtree is to spare afterwards too, and no
/// opening parenthesis has gone.
pub proof fn lemma_reduce_balanced(stacks: Stacks, floor: int)
    requires
        stacks.balanced(1),
        floor >= 2,
    ensures
        stacks.reduce(floor) matches Some(next) && next.balanced(1) && parens_waiting(next.ops)
            == parens_waiting(stacks.ops) && (next.ops.len() > 0 ==> next.ops.last().rank()
            < floor),
    decreases stacks.ops.len(),
{
    if stacks.ops.len() > 0 && stacks.ops.last().rank() >= floor {
        lemma_combine_balanced(stacks);
        lemma_reduce_balanced(stacks.combine().unwrap(), floor);
    }
}

/// From balanced stacks, a step is refused exactly where `fault` finds
/// something wrong with the token, and with what it finds; else the stacks
/// are balanced again, what is due is what the token asks for, and the
/// token has changed the number of opening parentheses that wait if it is
/// a parenthesis itself.
#[verifier::rlimit(50)]
pub proof fn lemma_step_balanced(builder: Builder, token: Token)
    requires
        builder.balanced(),
    ensures
        match fault(builder.operand_due, parens_waiting(builder.stacks.ops) as int, token) {
            Some(e) => builder.step(token) == Err::<Builder, TreeError>(e),
            None => builder.step(token) matches Ok(next) && next.balanced() && next.operand_due
                == asks_operand(token) && parens_waiting(next.stacks.ops) == parens_waiting(
                builder.stacks.ops,
            ) + if token is LParen {
                1int
            } else if token is RParen {
                -1int
            } else {
                0int
            },
        },
{
    let stacks = builder.stacks;
    match token {
        Token::Number(_) | Token::Var(_) => {
            if builder.operand_due {
                let leaf = TreeNode { value: token, left: None, right: None };
                let pushed = Stacks { ops: stacks.ops, values: stacks.values.push(leaf) };
                assert forall|j: int| 0 <= j < pushed.values.len() implies (
                #[trigger] pushed.values[j]).is_expression() by {
                    if j < stacks.values.len() {
                        assert(pushed.values[j] == stacks.values[j]);
                    }
                }
                lemma_reduce_balanced(pushed, 10);
            }
        },
        Token::UnOp(_) | Token::LParen => {
            if builder.operand_due {
                lemma_waiting_push(stacks.ops, token);
            }
        },
        Token::Op(_) => {
            if !builder.operand_due {
                lemma_reduce_balanced(stacks, token.rank());
                lemma_waiting_push(stacks.reduce(token.rank()).unwrap().ops, token);
            }
        },
        Token::RParen => {
            if !builder.operand_due {
                lemma_reduce_balanced(stacks, 2);
                let next = stacks.reduce(2).unwrap();
                if next.ops.len() > 0 {
                    assert(next.ops[next.ops.len() - 1] == next.ops.last());
                    assert(next.ops.last() is LParen);
                }
            }
        },
    }
}

/// A run from the beginning is refused exactly where `first_fault` finds
/// something wrong, and with what it finds; else it ends with balanced
/// stacks, as many opening parentheses wait as the tokens have left open,
/// and what is due is what the last token asks for.
pub proof fn lemma_run_balanced(tokens: Seq<Token>)
    ensures
        match first_fault(tokens) {
            Some(e) => run(Ok(Builder::start()), tokens) == Err::<Builder, TreeError>(e),
            None => run(Ok(Builder::start()), tokens) matches Ok(end) && end.balanced()
                && end.operand_due == operand_due_after(tokens) && parens_waiting(end.stacks.ops)
                == open_parens(tokens),
        },
    decreases tokens.len(),
{
    if tokens.len() > 0 {
        lemma_run_balanced(tokens.drop_last());
        if let Ok(before) = run(Ok(Builder::start()), tokens.drop_last()) {
            lemma_step_balanced(before, tokens.last());
        }
    }
}

/// The builder refuses a token list exactly where `refusal` says why, and
/// with what it says; what it makes of any other list is an expression.
pub proof fn lemma_parse_expression(tokens: Seq<Token>)
    ensures
        match refusal(tokens) {
            Some(e) => parse(tokens) == Err::<TreeNode, TreeError>(e),
            None => parse(tokens) matches Ok(tree) && tree.is_expression(),
        },
{
    lemma_run_balanced(tokens);
    if let Ok(end) = run(Ok(Builder::start()), tokens) {
        if !end.operand_due {
            lemma_reduce_balanced(end.stacks, 2);
            let last = end.stacks.reduce(2).unwrap();
            if last.ops.len() > 0 {
                assert(last.ops[last.ops.len() - 1] == last.ops.last());
                assert(last.ops.last() is LParen);
            } else {
                assert(last.values[0].is_expression());
            }
        }
    }
}

/// An error in a run stays: it is the error of every longer run.
pub proof fn lemma_run_error(from: Result<Builder, TreeError>, tokens: Seq<Token>, n: int)
    requires
        0 <= n <= tokens.len(),
        run(from, tokens.take(n)) is Err,
    ensures
        run(from, tokens) == run(from, tokens.take(n)),
    decreases tokens.len() - n,
{
    if n < tokens.len() {
        assert(tokens.take(n + 1).drop_last() == tokens.take(n));
        lemma_run_error(from, tokens, n + 1);
    } else {
        assert(tokens.take(n) == tokens);
    }
}

/// Combines once, as `Stacks::combine` says, or leaves both stacks as they
/// are where that is not possible.
#[verifier::rlimit(50)]
pub fn combine(ops: &mut Vec<Token>, stack: &mut Vec<TreeNode>) -> (done: bool)
    ensures
        match (Stacks { ops: old(ops)@, values: old(stack)@ }).combine() {
            Some(next) => done && final(ops)@ == next.ops && final(stack)@ == next.values,
            None => !done && final(ops)@ == old(ops)@ && final(stack)@ == old(stack)@,
        },
{
    if ops.len() == 0 {
        return false;
    }
    let op = ops[ops.len() - 1];
    let ghost before = Stacks { ops: ops@, values: stack@ };
    match op {
        Token::UnOp(_) => {
            if stack.len() < 1 {
                return false;
            }
            ops.pop();
            let right = stack.pop().unwrap();
            stack.push(TreeNode::new(op, None, Some(right)));
        },
        Token::Op(_) => {
            if stack.len() < 2 {
                return false;
            }
            ops.pop();
            let right = stack.pop().unwrap();
            let left = stack.pop().unwrap();
            stack.push(TreeNode::new(op, Some(left), Some(right)));
        },
        _ => {
            return false;
        },
    }
    assert(ops@ =~= before.combine().unwrap().ops);
    assert(stack@ =~= before.combine().unwrap().values);
    true
}

/// Combines as long as the latest waiting entry has a rank of at least
/// `floor`, as `Stacks::reduce` says.
#[verifier::loop_isolation(false)]
fn reduce(ops: &mut Vec<Token>, stack: &mut Vec<TreeNode>, floor: isize) -> (done: bool)
    ensures
        match (Stacks { ops: old(ops)@, values: old(stack)@ }).reduce(floor as int) {
            Some(next) => done && final(ops)@ == next.ops && final(stack)@ == next.values,
            None => !done,
        },
{
    let ghost goal = (Stacks { ops: ops@, values: stack@ }).reduce(floor as int);
    while ops.len() > 0 && ops[ops.len() - 1].priority() >= floor
        invariant
            (Stacks { ops: ops@, values: stack@ }).reduce(floor as int) == goal,
        decreases ops.len(),
    {
        if !combine(ops, stack) {
            return false;
        }
    }
    true
}

/// The expression tree of an in-order token list.
///
/// The list is an expression where operands and operators alternate as
/// they must and every parenthesis has its partner; any other list is
/// refused with the first thing that is wrong with it.
#[verifier::loop_isolation(false)]
pub fn build(in_order: &Vec<Token>) -> (res: Result<TreeNode, TreeError>)
    ensures
        res == parse(in_order@),
        match refusal(in_order@) {
            Some(e) => res == Err::<TreeNode, TreeError>(e),
            None => res matches Ok(tree) && tree.is_expression(),
        },
{
    proof {
        lemma_parse_expression(in_order@);
    }
    let mut ops: Vec<Token> = Vec::new();
    let mut stack: Vec<TreeNode> = Vec::new();
    let mut operand_due = true;
    let ghost begin: Result<Builder, TreeError> = Ok(Builder::start());
    let mut i: usize = 0;
    assert(in_order@.take(0) =~= Seq::empty());
    while i < in_order.len()
        invariant
            i <= in_order.len(),
            run(begin, in_order@.take(i as int)) == Ok::<Builder, TreeError>(
                Builder { stacks: Stacks { ops: ops@, values: stack@ }, operand_due },
            ),
        decreases in_order.len() - i,
    {
        let token = in_order[i];
        let ghost here = Builder { stacks: Stacks { ops: ops@, values: stack@ }, operand_due };
        proof {
            assert(in_order@.take(i + 1).drop_last() == in_order@.take(i as int));
            assert(run(begin, in_order@.take(i + 1)) == here.step(token));
            if here.step(token) is Err {
                lemma_run_error(begin, in_order@, i + 1);
            }
        }
        match token {
            Token::Number(_) | Token::Var(_) => {
                if !operand_due {
                    return Err(TreeError::MissingOperator);
                }
                stack.push(TreeNode::new(token, None, None));
                if !reduce(&mut ops, &mut stack, 10) {
                    return Err(TreeError::MissingOperand);
                }
                operand_due = false;
            },
            Token::UnOp(_) | Token::LParen => {
                if !operand_due {
                    return Err(TreeError::MissingOperator);
                }
                ops.push(token);
            },
            Token::Op(_) => {
                if operand_due {
                    return Err(TreeError::MissingOperand);
                }
                if !reduce(&mut ops, &mut stack, token.priority()) {
                    return Err(TreeError::MissingOperand);
                }
                ops.push(token);
                operand_due = true;
            },
            Token::RParen => {
                if operand_due {
                    return Err(TreeError::MissingOperand);
                }
                if !reduce(&mut ops, &mut stack, 2) {
                    return Err(TreeError::MissingOperand);
                }
                if ops.len() == 0 {
                    return Err(TreeError::UnbalancedParens);
                }
                ops.pop();
            },
        }
        i += 1;
    }
    assert(in_order@.take(i as int) == in_order@);
    if operand_due {
        return Err(TreeError::MissingOperand);
    }
    if !reduce(&mut ops, &mut stack, 2) {
        return Err(TreeError::MissingOperand);
    }
    if ops.len() > 0 {
        return Err(TreeError::UnbalancedParens);
    }
    if stack.len() != 1 {
        return Err(TreeError::MissingOperand);
    }
    Ok(stack.pop().unwrap())
}

} // verus!
