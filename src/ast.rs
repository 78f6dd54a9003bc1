use vstd::prelude::*;

verus! {

/// Prefix operators.
#[derive(Clone, Copy, Debug, PartialEq, Eq, Structural)]
pub enum UnaryOp {
    Pos,
    Neg,
}

/// Infix operators, in two precedence tiers: `Add`/`Sub` below `Mul`/`Div`.
#[derive(Clone, Copy, Debug, PartialEq, Eq, Structural)]
pub enum BinaryOp {
    Add,
    Sub,
    Mul,
    Div,
}

/// An expression tree. A literal keeps the decimal text it was written with,
/// so that it converts to a number exactly once, where it is evaluated.
#[derive(Debug)]
pub enum Expr {
    Var(String),
    Val(String),
    Unary(UnaryOp, Box<Expr>),
    Binary(BinaryOp, Box<Expr>, Box<Expr>),
}

/// The mathematical model of an [`Expr`]: the same tree over character
/// sequences.
pub enum ExprView {
    Var(Seq<char>),
    Val(Seq<char>),
    Unary(UnaryOp, Box<ExprView>),
    Binary(BinaryOp, Box<ExprView>, Box<ExprView>),
}

impl View for Expr {
    type V = ExprView;

    open spec fn view(&self) -> ExprView
        decreases self,
    {
        match self {
            Expr::Var(n) => ExprView::Var(n@),
            Expr::Val(t) => ExprView::Val(t@),
            Expr::Unary(op, e) => ExprView::Unary(*op, Box::new((**e).view())),
            Expr::Binary(op, l, r) => ExprView::Binary(*op, Box::new((**l).view()), Box::new((**r).view())),
        }
    }
}

} // verus!
