use vstd::prelude::*;
use crate::lex::{Function, Operator, Token, TokenView};
use crate::number::Numeral;

verus! {

/// An arithmetic expression, as a tree. Each node owns its operands.
#[derive(Debug, PartialEq, Eq)]
pub enum Expr {
    /// A binary operator between a left and a right operand.
    BinOp(Operator, Box<Expr>, Box<Expr>),
    /// The negation of the operand.
    Neg(Box<Expr>),
    /// A named function applied to its argument.
    Function(Function, Box<Expr>),
    /// A number.
    Constance(Numeral),
}

/// Why a sequence of tokens is no expression.
#[derive(Debug, PartialEq, Eq)]
pub enum ExprError {
    /// An opening parenthesis whose group is not followed by a closing one.
    ExprInvalidParenthes,
    /// Where an operand must start there is the given token, which starts
    /// none, or the tokens have run out.
    ExprInvalidFactor(Option<Token>),
}

/// What an `Expr` is to the specifications: a number is its numeral.
pub enum ExprView {
    BinOp(Operator, Box<ExprView>, Box<ExprView>),
    Neg(Box<ExprView>),
    Function(Function, Box<ExprView>),
    Constance(Seq<char>),
}

/// What an `ExprError` is to the specifications.
pub enum ExprErrorView {
    ExprInvalidParenthes,
    ExprInvalidFactor(Option<TokenView>),
}

/// The view of `e`.
pub open spec fn expr_view(e: Expr) -> ExprView
    decreases e,
{
    match e {
        Expr::BinOp(op, left, right) => ExprView::BinOp(
            op,
            Box::new(expr_view(*left)),
            Box::new(expr_view(*right)),
        ),
        Expr::Neg(operand) => ExprView::Neg(Box::new(expr_view(*operand))),
        Expr::Function(function, argument) => ExprView::Function(
            function,
            Box::new(expr_view(*argument)),
        ),
        Expr::Constance(value) => ExprView::Constance(value@),
    }
}

impl View for Expr {
    type V = ExprView;

    open spec fn view(&self) -> ExprView {
        expr_view(*self)
    }
}

impl View for ExprError {
    type V = ExprErrorView;

    open spec fn view(&self) -> ExprErrorView {
        match self {
            ExprError::ExprInvalidParenthes => ExprErrorView::ExprInvalidParenthes,
            ExprError::ExprInvalidFactor(Some(t)) => ExprErrorView::ExprInvalidFactor(Some(t@)),
            ExprError::ExprInvalidFactor(None) => ExprErrorView::ExprInvalidFactor(None),
        }
    }
}

} // verus!
