//! The surface syntax of a model: what translation reads of its declaration.
use vstd::prelude::*;
use crate::Float;

verus! {

/// A binary operator of the host language.
#[derive(Debug, Clone, Copy, PartialEq, Eq, Structural, Hash)]
pub enum BinaryOperator {
    Add,
    Sub,
    Mul,
    Div,
    /// Any operator outside the dialect.
    Other,
}

/// A unary operator of the host language.
#[derive(Debug, Clone, Copy, PartialEq, Eq, Structural, Hash)]
pub enum UnaryOperator {
    Neg,
    /// Any operator outside the dialect.
    Other,
}

/// The arguments of a call, as far as the dialect looks at them.
#[derive(Debug, PartialEq, Eq)]
pub enum Arguments {
    /// No argument.
    Empty,
    /// Exactly one argument.
    One(Box<Expr>),
    /// Two arguments or more.
    Many,
}

/// An expression of the host language.
#[derive(Debug, PartialEq, Eq)]
#[allow(inconsistent_fields)]
pub enum Expr {
    /// `left op right`
    Binary { left: Box<Expr>, op: BinaryOperator, right: Box<Expr> },
    /// A path of one or more segments, such as `x` or `Float::PI`.
    Path { segments: Vec<String> },
    /// A floating-point literal.
    Float(Float),
    /// An integer literal.
    Integer(i32),
    /// Any other literal.
    Literal,
    /// `(inner)`
    Paren(Box<Expr>),
    /// `op operand`
    Unary { op: UnaryOperator, operand: Box<Expr> },
    /// `operand as target`; `target` is the last segment of the type where it is a path.
    Cast { operand: Box<Expr>, target: Option<String> },
    /// `receiver.method(arguments)`
    MethodCall { receiver: Box<Expr>, method: String, arguments: Arguments },
    /// `function(arguments)`; `function` is the callee where it is a single identifier.
    Call { function: Option<String>, arguments: Arguments },
    /// `return value`
    Return(Option<Box<Expr>>),
    /// Any expression outside the dialect.
    Other,
}

/// A statement of a function body.
#[derive(Debug, PartialEq, Eq)]
pub enum Stmt {
    /// `let name = init;`  The name is present where the pattern is an identifier.
    Local { name: Option<String>, init: Option<Expr> },
    /// An expression, with or without a semicolon.
    Expr(Expr),
    /// Any other statement.
    Other,
}

/// An argument of a function.
#[derive(Debug, Clone, PartialEq, Eq)]
pub enum Argument {
    /// `self` in any form.
    Receiver,
    /// An argument bound to an identifier.
    Named(String),
    /// An argument bound to any other pattern.
    Pattern,
}

/// A function of a model.
#[derive(Debug, PartialEq, Eq)]
pub struct Function {
    pub name: String,
    pub inputs: Vec<Argument>,
    pub body: Vec<Stmt>,
}

/// A field of a record.  `ty` is the last segment of its type where that is a path.
#[derive(Debug, Clone, PartialEq, Eq)]
pub struct Field {
    pub name: String,
    pub ty: Option<String>,
}

/// The fields of a record.
#[derive(Debug, Clone, PartialEq, Eq)]
pub enum Fields {
    Named(Vec<Field>),
    /// A tuple record or a unit record.
    Unnamed,
}

/// The record that declares the attributes of a model.
#[derive(Debug, Clone, PartialEq, Eq)]
pub struct Record {
    pub name: String,
    pub fields: Fields,
}

/// An item of the module that declares a model.
#[derive(Debug, PartialEq, Eq)]
pub enum Item {
    Record(Record),
    Function(Function),
    /// Any other item.
    Other,
}

/// The role of an attribute: differentiable or not.
#[derive(Debug, Clone, Copy, PartialEq, Eq, Structural, Hash)]
pub enum Role {
    Parameter,
    Data,
}

/// An attribute of a model with its role.
#[derive(Debug, Clone, PartialEq, Eq)]
pub struct Attribute {
    pub name: String,
    pub role: Role,
}

} // verus!
