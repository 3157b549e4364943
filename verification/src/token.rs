//! The vocabulary of the expression language and the priority of each symbol.

use vstd::prelude::*;

verus! {

/// The variables an expression may mention.
#[derive(Debug, Copy, Clone, PartialEq, Eq, Structural)]
pub enum Variable {
    X,
    Y,
    Z,
}

/// The binary operators.
#[derive(Debug, Copy, Clone, PartialEq, Eq, Structural)]
pub enum Operator {
    Multiply,
    Divide,
    Add,
    Subtract,
}

/// The prefix operators, each applied to the one operand that follows it.
#[derive(Debug, Copy, Clone, PartialEq, Eq, Structural)]
pub enum UnaryOperator {
    Negation,
    Sine,
    Cosine,
    Tangent,
}

/// One lexical symbol.
///
/// A number is held as the bit pattern of its single-precision value, so
/// two numbers are the same token exactly when their bit patterns agree.
#[derive(Debug, Copy, Clone, PartialEq, Eq, Structural)]
pub enum Token {
    LParen,
    RParen,
    Op(Operator),
    UnOp(UnaryOperator),
    Number(u32),
    Var(Variable),
}

/// The rank that decides how tightly a symbol binds.
pub trait Priority {
    /// The rank as a mathematical integer.
    spec fn rank(&self) -> int;

    fn priority(&self) -> (p: isize)
        ensures
            p == self.rank(),
    ;
}

impl Priority for Operator {
    open spec fn rank(&self) -> int {
        match self {
            Operator::Add | Operator::Subtract => 2,
            Operator::Multiply | Operator::Divide => 3,
        }
    }

    fn priority(&self) -> (p: isize) {
        match self {
            Operator::Add => 2,
            Operator::Subtract => 2,
            Operator::Multiply => 3,
            Operator::Divide => 3,
        }
    }
}

impl Priority for UnaryOperator {
    open spec fn rank(&self) -> int {
        10
    }

    /// Every prefix operator outranks every binary operator.
    fn priority(&self) -> (p: isize) {
        10
    }
}

impl Priority for Token {
    open spec fn rank(&self) -> int {
        match self {
            Token::LParen => 1,
            Token::Op(op) => op.rank(),
            Token::UnOp(un_op) => un_op.rank(),
            Token::RParen | Token::Number(_) | Token::Var(_) => -1,
        }
    }

    /// Symbols that are not operators have the rank -1.
    fn priority(&self) -> (p: isize) {
        match self {
            Token::LParen => 1,
            Token::RParen => -1,
            Token::Op(op) => op.priority(),
            Token::UnOp(un_op) => un_op.priority(),
            Token::Number(_) => -1,
            Token::Var(_) => -1,
        }
    }
}

impl Token {
    /// Whether the token stands for a value by itself: a number or a variable.
    pub open spec fn is_operand(self) -> bool {
        self is Number || self is Var
    }

    /// How the token is written: the text that the lexer reads as this
    /// token. A number has no text of this kind, its text depends on its
    /// value.
    pub open spec fn text(self) -> Option<Seq<char>> {
        match self {
            Token::LParen => Some("("@),
            Token::RParen => Some(")"@),
            Token::Op(Operator::Multiply) => Some("*"@),
            Token::Op(Operator::Divide) => Some("/"@),
            Token::Op(Operator::Add) => Some("+"@),
            Token::Op(Operator::Subtract) => Some("-"@),
            Token::UnOp(UnaryOperator::Negation) => Some("-"@),
            Token::UnOp(UnaryOperator::Sine) => Some("sin"@),
            Token::UnOp(UnaryOperator::Cosine) => Some("cos"@),
            Token::UnOp(UnaryOperator::Tangent) => Some("tan"@),
            Token::Number(_) => None,
            Token::Var(Variable::X) => Some("x"@),
            Token::Var(Variable::Y) => Some("y"@),
            Token::Var(Variable::Z) => Some("z"@),
        }
    }

    /// The text of the token, as `text` says.
    pub fn symbol(&self) -> (written: Option<&'static str>)
        ensures
            match self.text() {
                Some(text) => written matches Some(s) && s@ == text,
                None => written is None,
            },
    {
        match self {
            Token::LParen => Some("("),
            Token::RParen => Some(")"),
            Token::Op(op) => match op {
                Operator::Multiply => Some("*"),
                Operator::Divide => Some("/"),
                Operator::Add => Some("+"),
                Operator::Subtract => Some("-"),
            },
            Token::UnOp(un_op) => match un_op {
                UnaryOperator::Negation => Some("-"),
                UnaryOperator::Sine => Some("sin"),
                UnaryOperator::Cosine => Some("cos"),
                UnaryOperator::Tangent => Some("tan"),
            },
            Token::Number(_) => None,
            Token::Var(v) => match v {
                Variable::X => Some("x"),
                Variable::Y => Some("y"),
                Variable::Z => Some("z"),
            },
        }
    }

    /// Whether the token is a binary operator.
    pub fn is_op(&self) -> (b: bool)
        ensures
            b == (*self is Op),
    {
        matches!(self, Token::Op(_))
    }
}

} // verus!
