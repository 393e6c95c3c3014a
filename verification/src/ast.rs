//! The syntax tree that the evaluator walks.
//!
//! A program is a block; a block is a list of statements with an optional
//! trailing return list. The tree is only ever read during evaluation.
use vstd::prelude::*;

verus! {

/// A whole program: its top-level block.
#[derive(Debug, PartialEq)]
pub struct AST(pub Block);

/// A sequence of statements and, optionally, a trailing `return` list.
#[derive(Debug, PartialEq)]
pub struct Block {
    pub statements: Vec<Statement>,
    pub return_stat: Option<Vec<Expression>>,
}

/// The parameter names of a function literal, in order.
#[derive(Debug, PartialEq)]
pub struct ParList(pub Vec<String>);

#[derive(Debug, PartialEq)]
pub enum Statement {
    /// An empty statement.
    Semicolon,
    /// `vars = exps`, or `local vars = exps` when the flag is set.
    Assignment(Vec<Var>, Vec<Expression>, bool),
    /// A call whose results are dropped.
    FunctionCall(FunctionCall),
    /// Leaves the innermost loop.
    Break,
    /// `do block end`.
    DoBlock(Block),
    /// `while cond do block end`.
    While(Expression, Block),
    /// `repeat block until cond`.
    Repeat(Block, Expression),
    /// `if cond then block else block end`.
    If(Expression, Block, Option<Block>),
    /// `for name = start, limit, step do block end`.
    ForNum(String, Expression, Expression, Option<Expression>, Block),
}

#[derive(Debug, PartialEq)]
pub enum Expression {
    Nil,
    False,
    True,
    /// A number: its eight-byte payload and whether it is a float.
    Numeral([u8; 8], bool),
    LiteralString(String),
    /// A function literal.
    FunctionDef(ParList, Block),
    /// The value of a variable.
    Var(Box<Var>),
    /// A call, with all of its results.
    Call(Box<FunctionCall>),
    /// A table constructor.
    TableConstructor(Vec<Field>),
    /// `not operand`.
    Not(Box<Expression>),
    /// `#operand`.
    Length(Box<Expression>),
}

#[derive(Debug, PartialEq)]
pub enum Var {
    /// A plain name.
    NameVar(String),
    /// `table[key]`.
    BracketVar(Expression, Expression),
    /// `table.name`.
    DotVar(Expression, String),
}

/// `callee(args)`.
#[derive(Debug, PartialEq)]
pub struct FunctionCall {
    pub callee: Expression,
    pub args: Vec<Expression>,
}

#[derive(Debug, PartialEq)]
pub enum Field {
    /// `[key] = value`.
    BracketedAssign(Expression, Expression),
    /// `name = value`.
    NameAssign(String, Expression),
    /// A positional value.
    UnnamedAssign(Expression),
}

} // verus!
