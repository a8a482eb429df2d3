//! Statements of the language.
use vstd::prelude::*;

use crate::expr::Expr;
use crate::token::Token;
use std::rc::Rc;

verus! {

/// A statement of the language.
#[derive(Debug)]
pub enum Statement {
    Print(Expr),
    Expresion(Expr),
    /// A variable declaration; a missing initializer is a `nil` literal.
    Var(Token, Expr),
    Block(Vec<Statement>),
    If(Expr, Box<Statement>, Option<Box<Statement>>),
    While(Expr, Box<Statement>),
    /// A function declaration: its name, its parameters and its body. Function values
    /// made from it share the parameter list and the body.
    Function(Token, Rc<Vec<Token>>, Rc<Vec<Statement>>),
}

} // verus!
