//! The predicate expression tree a `WHERE` clause is built from, and its
//! mathematical model.

use vstd::prelude::*;
use crate::value::{Value, ValueS};

verus! {

/// A comparison operator of a binary predicate.
#[derive(Debug, Clone, Copy, PartialEq, Eq, Structural)]
pub enum CmpOp {
    Eq,
    NotEq,
    Lt,
    LtEq,
    Gt,
    GtEq,
}

/// A non-recursive operand: a column reference or a literal.
#[derive(Debug, Clone, PartialEq)]
pub enum Operand {
    Column(String),
    Literal(Value),
}

/// A boolean predicate over one row.
#[derive(Debug, PartialEq)]
pub enum Expr {
    /// `left op right`
    Compare { left: Operand, op: CmpOp, right: Operand },
    /// Both branches are always evaluated; an error in either surfaces.
    And(Box<Expr>, Box<Expr>),
    Or(Box<Expr>, Box<Expr>),
    /// A bare column reference; the column must hold a boolean.
    Column(String),
    /// `expr [NOT] LIKE pattern`. The escape character is accepted
    /// syntactically but has no semantic effect.
    Like { expr: Operand, pattern: Operand, negated: bool, escape: Option<char> },
    /// `expr [NOT] IN (list…)`; an empty list matches nothing.
    InList { expr: Operand, list: Vec<Operand>, negated: bool },
    /// `expr [NOT] BETWEEN low AND high`, inclusive on both ends.
    Between { expr: Operand, low: Operand, high: Operand, negated: bool },
}

/// Model of an operand.
pub enum OperandS {
    Column(Seq<char>),
    Literal(ValueS),
}

/// Model of a predicate tree.
pub enum ExprS {
    Compare { left: OperandS, op: CmpOp, right: OperandS },
    And(Box<ExprS>, Box<ExprS>),
    Or(Box<ExprS>, Box<ExprS>),
    Column(Seq<char>),
    Like { expr: OperandS, pattern: OperandS, negated: bool },
    InList { expr: OperandS, list: Seq<OperandS>, negated: bool },
    Between { expr: OperandS, low: OperandS, high: OperandS, negated: bool },
}

impl View for Operand {
    type V = OperandS;

    open spec fn view(&self) -> OperandS {
        match self {
            Operand::Column(name) => OperandS::Column(name@),
            Operand::Literal(v) => OperandS::Literal(v@),
        }
    }
}

/// Model of an operand vector.
pub open spec fn operands_view(list: Seq<Operand>) -> Seq<OperandS> {
    list.map(|i: int, o: Operand| o@)
}

/// Model of an expression tree.
pub open spec fn expr_view(e: Expr) -> ExprS
    decreases e,
{
    match e {
        Expr::Compare { left, op, right } => ExprS::Compare { left: left@, op: op, right: right@ },
        Expr::And(a, b) => ExprS::And(Box::new(expr_view(*a)), Box::new(expr_view(*b))),
        Expr::Or(a, b) => ExprS::Or(Box::new(expr_view(*a)), Box::new(expr_view(*b))),
        Expr::Column(name) => ExprS::Column(name@),
        Expr::Like { expr, pattern, negated, escape: _ } => ExprS::Like {
            expr: expr@,
            pattern: pattern@,
            negated: negated,
        },
        Expr::InList { expr, list, negated } => ExprS::InList {
            expr: expr@,
            list: operands_view(list@),
            negated: negated,
        },
        Expr::Between { expr, low, high, negated } => ExprS::Between {
            expr: expr@,
            low: low@,
            high: high@,
            negated: negated,
        },
    }
}

impl View for Expr {
    type V = ExprS;

    open spec fn view(&self) -> ExprS {
        expr_view(*self)
    }
}

} // verus!
