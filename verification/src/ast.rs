//! The program tree that the evaluator walks.
//!
//! Every node carries the source position `"file:line:col"` of the text it
//! was read from.

use vstd::prelude::*;

verus! {

/// The role of a signal in its component.
#[derive(Clone, Copy, Debug, PartialEq, Eq, Structural)]
pub enum SignalKind {
    Input,
    Output,
    Internal,
}

/// Operators with one operand.
#[derive(Clone, Copy, Debug, PartialEq, Eq, Structural)]
pub enum UnaryOp {
    /// Additive inverse in the field.
    Neg,
    /// Logical negation.
    Not,
}

/// Operators with two operands.
#[derive(Clone, Copy, Debug, PartialEq, Eq, Structural)]
pub enum BinaryOp {
    Add,
    Sub,
    Mul,
    Div,
    Eq,
    Ne,
    Lt,
    Le,
    Gt,
    Ge,
    And,
    Or,
}

/// Markers written in front of a template definition.
#[derive(Clone, Debug)]
pub struct Attributes {
    pub tags: Vec<String>,
}

/// An expression of the source language.
#[derive(Debug)]
#[allow(inconsistent_fields)]
pub enum Expression {
    /// A decimal literal, or a hexadecimal one that begins with `0x`.
    Number { text: String, pos: String },
    /// A variable, an element of an array variable, or a signal of the
    /// current component, with one index expression per dimension.
    Variable { name: String, indices: Vec<Expression>, pos: String },
    /// A signal of a sub-component, `component.signal`.
    Pin { component: String, signal: String, indices: Vec<Expression>, pos: String },
    Unary { op: UnaryOp, operand: Box<Expression>, pos: String },
    Binary { op: BinaryOp, lhs: Box<Expression>, rhs: Box<Expression>, pos: String },
    /// A call of a function.
    Call { name: String, args: Vec<Expression>, pos: String },
}

/// A statement of the source language.
#[derive(Debug)]
#[allow(inconsistent_fields)]
pub enum Statement {
    /// `var name;` or `var name = init;`
    Declaration { name: String, init: Option<Expression>, pos: String },
    /// `name = value;`
    Assignment { name: String, value: Expression, pos: String },
    /// `signal name;`, `signal input name;`, `signal output name[i];`
    SignalDeclaration { kind: SignalKind, name: String, indices: Vec<Expression>, pos: String },
    /// `component name = template(args);`
    ComponentDeclaration { name: String, template: String, args: Vec<Expression>, pos: String },
    /// `lhs === rhs;`
    Constraint { lhs: Expression, rhs: Expression, pos: String },
    /// `target <== value;`
    ConstrainAssign { target: Expression, value: Expression, pos: String },
    Block { body: Vec<Statement>, pos: String },
    If { cond: Expression, then_branch: Box<Statement>, else_branch: Option<Box<Statement>>, pos: String },
    While { cond: Expression, body: Box<Statement>, pos: String },
    For { init: Box<Statement>, cond: Expression, step: Box<Statement>, body: Box<Statement>, pos: String },
    Return { value: Expression, pos: String },
    FunctionDefinition { name: String, params: Vec<String>, body: Box<Statement>, pos: String },
    TemplateDefinition { attributes: Attributes, name: String, params: Vec<String>, body: Box<Statement>, pos: String },
}

} // verus!

