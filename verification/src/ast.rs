//! The source language: a flat sequence of statements over integer
//! expressions.

use vstd::prelude::*;
use crate::ident::Id;

verus! {

/// A binary arithmetic operator.
#[derive(Debug, Clone, Copy, PartialEq, Eq, Structural)]
pub enum BOp {
    Add,
    Sub,
    Mul,
    Div,
}

/// An expression.
#[derive(Debug)]
pub enum Expr {
    Var(Id),
    Const(i64),
    BinOp { op: BOp, lhs: Box<Expr>, rhs: Box<Expr> },
    Negate(Box<Expr>),
}

/// A statement. A conditional without an `else` has an empty `else_branch`.
#[derive(Debug)]
pub enum Stmt {
    Assign(Id, Expr),
    Print(Expr),
    Read(Id),
    If { guard: Expr, then_branch: Vec<Stmt>, else_branch: Vec<Stmt> },
}

/// A program: its statements in order.
#[derive(Debug)]
pub struct Program {
    pub stmts: Vec<Stmt>,
}

/// The number of conditionals in a statement, nested ones included.
pub open spec fn ifs_in_stmt(s: Stmt) -> nat
    decreases s,
{
    match s {
        Stmt::If { guard, then_branch, else_branch } => 1 + ifs_in(then_branch@) + ifs_in(
            else_branch@,
        ),
        _ => 0,
    }
}

/// The number of conditionals in a statement sequence.
pub open spec fn ifs_in(stmts: Seq<Stmt>) -> nat
    decreases stmts,
{
    if stmts.len() == 0 {
        0
    } else {
        ifs_in(stmts.drop_last()) + ifs_in_stmt(stmts.last())
    }
}

/// The variables that an expression names.
pub open spec fn expr_vars(e: Expr) -> Set<Seq<char>>
    decreases e,
{
    match e {
        Expr::Var(x) => set![x@],
        Expr::Const(n) => Set::empty(),
        Expr::BinOp { op, lhs, rhs } => expr_vars(*lhs) + expr_vars(*rhs),
        Expr::Negate(inner) => expr_vars(*inner),
    }
}

/// The variables that a statement names: those it assigns to or reads into,
/// and those its expressions use.
pub open spec fn stmt_vars(s: Stmt) -> Set<Seq<char>>
    decreases s,
{
    match s {
        Stmt::Assign(x, e) => expr_vars(e).insert(x@),
        Stmt::Print(e) => expr_vars(e),
        Stmt::Read(x) => set![x@],
        Stmt::If { guard, then_branch, else_branch } => expr_vars(guard) + stmts_vars(then_branch@)
            + stmts_vars(else_branch@),
    }
}

/// The variables that the statements name.
pub open spec fn stmts_vars(stmts: Seq<Stmt>) -> Set<Seq<char>>
    decreases stmts,
{
    if stmts.len() == 0 {
        Set::empty()
    } else {
        stmts_vars(stmts.drop_last()) + stmt_vars(stmts.last())
    }
}

} // verus!
