//! The abstract syntax of the language.

use vstd::prelude::*;

verus! {

/// Unary operators.
#[derive(Debug, Clone, Copy, PartialEq, Eq, Structural)]
pub enum UnOp {
    Add1,
    Sub1,
    Negate,
    IsNum,
    IsBool,
}

/// Binary operators.
#[derive(Debug, Clone, Copy, PartialEq, Eq, Structural)]
pub enum BinOp {
    Plus,
    Minus,
    Times,
    Less,
    Greater,
    LessEq,
    GreaterEq,
    Equal,
}

/// An expression.
///
/// Grammar of what the parser accepts:
///   <expr> := <number> | true | false | <identifier>
///           | (let (<binding>+) <expr>)
///           | (add1 <expr>) | (sub1 <expr>)
///           | (<op> <expr> <expr>)   where <op> is one of + - * < > <= >= =
///           | (if <expr> <expr> <expr>)
///           | (set! <symbol> <expr>) | (loop <expr>) | (break <expr>)
///           | (block <expr>*)
///   <binding> := (<identifier> <expr>)
///   <identifier> := a symbol other than true, false, add1, sub1, let, loop, break, if, block
#[derive(Debug)]
pub enum Expr {
    Number(i32),
    Bool(bool),
    Id(String),
    Input,
    Var(String),
    Let(Vec<(String, Expr)>, Box<Expr>),
    UnOp(UnOp, Box<Expr>),
    BinOp(BinOp, Box<Expr>, Box<Expr>),
    If(Box<Expr>, Box<Expr>, Box<Expr>),
    Block(Vec<Expr>),
    Loop(Box<Expr>),
    Break(Box<Expr>),
    SetVar(String, Box<Expr>),
}

} // verus!
