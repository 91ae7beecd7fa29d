//! The expression tree produced by the parser and consumed by the interpreter.

use vstd::prelude::*;

use crate::token::{Token, TokenModel};

verus! {

/// One expression node. Each node exclusively owns its children, so the
/// tree is acyclic by construction.
#[derive(Debug)]
pub enum Expr {
    /// A number literal (the token carries the payload).
    Literal(Token),
    /// A parenthesized expression.
    Grouping(Box<Expr>),
    /// An operator applied to one operand (`-`, or the `odd` test).
    Unary(Token, Box<Expr>),
    /// An operator applied to two operands.
    Binary(Box<Expr>, Token, Box<Expr>),
    /// A variable or constant reference (the token names it).
    Variable(Token),
    /// An assignment expression; the grammar never produces one, but the
    /// tree keeps the form for completeness.
    Assign(Token, Box<Expr>),
}

/// The mathematical value of an `Expr`.
pub enum ExprModel {
    Literal(TokenModel),
    Grouping(Box<ExprModel>),
    Unary(TokenModel, Box<ExprModel>),
    Binary(Box<ExprModel>, TokenModel, Box<ExprModel>),
    Variable(TokenModel),
    Assign(TokenModel, Box<ExprModel>),
}

/// The value of each node of `e`, token views included.
pub open spec fn expr_model(e: Expr) -> ExprModel
    decreases e,
{
    match e {
        Expr::Literal(t) => ExprModel::Literal(t@),
        Expr::Grouping(inner) => ExprModel::Grouping(Box::new(expr_model(*inner))),
        Expr::Unary(op, inner) => ExprModel::Unary(op@, Box::new(expr_model(*inner))),
        Expr::Binary(lhs, op, rhs) => ExprModel::Binary(
            Box::new(expr_model(*lhs)),
            op@,
            Box::new(expr_model(*rhs)),
        ),
        Expr::Variable(t) => ExprModel::Variable(t@),
        Expr::Assign(t, inner) => ExprModel::Assign(t@, Box::new(expr_model(*inner))),
    }
}

impl View for Expr {
    type V = ExprModel;

    open spec fn view(&self) -> ExprModel {
        expr_model(*self)
    }
}

/// A copy of an expression tree whose value is known to be kept.
pub fn clone_expr(e: &Expr) -> (r: Expr)
    ensures
        r@ == e@,
    decreases *e,
{
    match e {
        Expr::Literal(t) => Expr::Literal(t.clone()),
        Expr::Grouping(inner) => Expr::Grouping(Box::new(clone_expr(inner))),
        Expr::Unary(op, inner) => Expr::Unary(op.clone(), Box::new(clone_expr(inner))),
        Expr::Binary(lhs, op, rhs) => Expr::Binary(
            Box::new(clone_expr(lhs)),
            op.clone(),
            Box::new(clone_expr(rhs)),
        ),
        Expr::Variable(t) => Expr::Variable(t.clone()),
        Expr::Assign(t, inner) => Expr::Assign(t.clone(), Box::new(clone_expr(inner))),
    }
}

impl Clone for Expr {
    fn clone(&self) -> (res: Self)
        ensures
            res@ == self@,
    {
        clone_expr(self)
    }
}

} // verus!
