//! The syntax tree that the parser builds.

use vstd::prelude::*;

use crate::token::TokenType;

verus! {

/// A statement of a unit.
#[derive(Debug, PartialEq)]
pub enum Node {
    Binding(Binding),
    Return(Expression),
    Expression(Expression),
}

/// A `let` or `const` binding of a name to a value.
#[derive(Debug, PartialEq)]
pub struct Binding {
    pub kind: TokenType,
    pub name: String,
    pub expl_type: Option<Type>,
    pub value: Expression,
}

/// An expression.
#[derive(Debug, PartialEq)]
pub enum Expression {
    Unit,
    Tag(String),
    Integer(String),
    Float(String),
    Boolean(bool),
    Block(Block),
    If(Box<If>),
    Match(Box<Match>),
    Fn(Box<Fn>),
    Closure(Box<Closure>),
    FnCall(Box<FnCall>),
    Prefix(Box<Prefix>),
    Infix(Box<Infix>),
    Postfix(Box<Postfix>),
}

/// A conditional expression.
#[derive(Debug, PartialEq)]
pub struct If {
    pub condition: Expression,
    pub consequence: Expression,
    pub alternative: Expression,
}

/// A match over a value.
#[derive(Debug, PartialEq)]
pub struct Match {
    pub value: Expression,
    pub cases: Vec<Case>,
}

/// One case of a match.
#[derive(Debug, PartialEq)]
pub struct Case {
    pub condition: Expression,
    pub consequence: Expression,
}

/// An explicit type annotation; its syntax is not settled yet.
#[derive(Debug, PartialEq)]
pub struct Type {}

/// A named function.
#[derive(Debug, PartialEq)]
pub struct Fn {
    pub name: String,
    pub parameters: Vec<String>,
    pub block: Expression,
    pub arity: usize,
}

/// A sequence of statements.
#[derive(Debug, PartialEq)]
pub struct Block {
    pub statements: Vec<Node>,
}

/// A function that captures names from its context.
#[derive(Debug, PartialEq)]
pub struct Closure {
    pub name: String,
    pub parameters: Vec<String>,
    pub block: Expression,
    pub context: Vec<String>,
    pub arity: usize,
}

/// A call of a function on arguments.
#[derive(Debug, PartialEq)]
pub struct FnCall {
    pub func: Expression,
    pub args: Vec<Expression>,
}

/// An operator applied before its operand.
#[derive(Debug, PartialEq)]
pub struct Prefix {
    pub operator: TokenType,
    pub value: Expression,
}

/// An operator between two operands.
#[derive(Debug, PartialEq)]
pub struct Infix {
    pub operator: TokenType,
    pub lhs: Expression,
    pub rhs: Expression,
}

/// An operator applied after its operand.
#[derive(Debug, PartialEq)]
pub struct Postfix {
    pub operator: TokenType,
    pub value: Expression,
}

/// The statements of a unit, in order.
#[derive(Debug, PartialEq)]
pub struct Ast {
    pub nodes: Vec<Node>,
}

} // verus!
