use std::rc::Rc;
use vstd::prelude::*;

use crate::lexer::{Token, TokenView};

verus! {

/// An expression. A number keeps the text of its literal.
#[derive(Debug)]
pub enum Expr {
    Binary(Rc<Expr>, Token, Rc<Expr>),
    Unary(Token, Rc<Expr>),
    Group(Rc<Expr>),
    Call(String, Vec<Expr>),
    Number(String),
    Bool(bool),
    Var(String),
}

/// A statement. `Body` is a block of statements.
#[derive(Debug)]
pub enum Stmt {
    Body(Vec<Stmt>),
    If(Expr, Rc<Stmt>, Option<Rc<Stmt>>),
    Func(String, Vec<String>, Rc<Stmt>),
    Assign(String, Expr),
    Print(Expr),
    Return(Expr),
    Expression(Expr),
}

/// The mathematical value of an expression.
pub enum ExprView {
    Binary(Box<ExprView>, TokenView, Box<ExprView>),
    Unary(TokenView, Box<ExprView>),
    Group(Box<ExprView>),
    Call(Seq<char>, Seq<ExprView>),
    Number(Seq<char>),
    Bool(bool),
    Var(Seq<char>),
}

/// The mathematical value of a statement.
pub enum StmtView {
    Body(Seq<StmtView>),
    If(ExprView, Box<StmtView>, Option<Box<StmtView>>),
    Func(Seq<char>, Seq<Seq<char>>, Box<StmtView>),
    Assign(Seq<char>, ExprView),
    Print(ExprView),
    Return(ExprView),
    Expression(ExprView),
}

/// The value of an expression.
pub open spec fn expr_view(e: Expr) -> ExprView
    decreases e, 1nat,
{
    match e {
        Expr::Binary(l, op, r) => ExprView::Binary(
            Box::new(expr_view(*l)),
            op@,
            Box::new(expr_view(*r)),
        ),
        Expr::Unary(op, r) => ExprView::Unary(op@, Box::new(expr_view(*r))),
        Expr::Group(g) => ExprView::Group(Box::new(expr_view(*g))),
        Expr::Call(name, args) => ExprView::Call(name@, exprs_view(args@)),
        Expr::Number(s) => ExprView::Number(s@),
        Expr::Bool(b) => ExprView::Bool(b),
        Expr::Var(s) => ExprView::Var(s@),
    }
}

/// The values of a sequence of expressions.
pub open spec fn exprs_view(s: Seq<Expr>) -> Seq<ExprView>
    decreases s, 0nat,
{
    if s.len() == 0 {
        Seq::empty()
    } else {
        exprs_view(s.drop_last()).push(expr_view(s.last()))
    }
}

/// The value of a statement.
pub open spec fn stmt_view(s: Stmt) -> StmtView
    decreases s, 1nat,
{
    match s {
        Stmt::Body(v) => StmtView::Body(stmts_view(v@)),
        Stmt::If(c, b, e) => StmtView::If(
            expr_view(c),
            Box::new(stmt_view(*b)),
            match e {
                Some(e) => Some(Box::new(stmt_view(*e))),
                None => None,
            },
        ),
        Stmt::Func(name, params, b) => StmtView::Func(name@, names_view(params@), Box::new(stmt_view(*b))),
        Stmt::Assign(name, e) => StmtView::Assign(name@, expr_view(e)),
        Stmt::Print(e) => StmtView::Print(expr_view(e)),
        Stmt::Return(e) => StmtView::Return(expr_view(e)),
        Stmt::Expression(e) => StmtView::Expression(expr_view(e)),
    }
}

/// The values of a sequence of statements.
pub open spec fn stmts_view(s: Seq<Stmt>) -> Seq<StmtView>
    decreases s, 0nat,
{
    if s.len() == 0 {
        Seq::empty()
    } else {
        stmts_view(s.drop_last()).push(stmt_view(s.last()))
    }
}

/// The texts of a sequence of names.
pub open spec fn names_view(s: Seq<String>) -> Seq<Seq<char>> {
    s.map_values(|n: String| n@)
}

/// The view of a sequence of expressions holds the view of each, in order.
pub proof fn lemma_exprs_view_index(s: Seq<Expr>)
    ensures
        exprs_view(s).len() == s.len(),
        forall|i: int| 0 <= i < s.len() ==> #[trigger] exprs_view(s)[i] == expr_view(s[i]),
    decreases s.len(),
{
    if s.len() > 0 {
        lemma_exprs_view_index(s.drop_last());
    }
}

/// The view of a sequence of statements holds the view of each, in order.
pub proof fn lemma_stmts_view_index(s: Seq<Stmt>)
    ensures
        stmts_view(s).len() == s.len(),
        forall|i: int| 0 <= i < s.len() ==> #[trigger] stmts_view(s)[i] == stmt_view(s[i]),
    decreases s.len(),
{
    if s.len() > 0 {
        lemma_stmts_view_index(s.drop_last());
    }
}

/// Viewing a sequence with one more expression appends its view.
pub proof fn lemma_exprs_view_push(s: Seq<Expr>, e: Expr)
    ensures
        exprs_view(s.push(e)) == exprs_view(s).push(expr_view(e)),
{
    assert(s.push(e).drop_last() =~= s);
}

/// Viewing a sequence with one more statement appends its view.
pub proof fn lemma_stmts_view_push(s: Seq<Stmt>, e: Stmt)
    ensures
        stmts_view(s.push(e)) == stmts_view(s).push(stmt_view(e)),
{
    assert(s.push(e).drop_last() =~= s);
}

/// Viewing a sequence with one more name appends its text.
pub proof fn lemma_names_view_push(s: Seq<String>, n: String)
    ensures
        names_view(s.push(n)) == names_view(s).push(n@),
{
    assert(names_view(s.push(n)) =~= names_view(s).push(n@));
}

impl View for Expr {
    type V = ExprView;

    open spec fn view(&self) -> ExprView {
        expr_view(*self)
    }
}

impl View for Stmt {
    type V = StmtView;

    open spec fn view(&self) -> StmtView {
        stmt_view(*self)
    }
}

} // verus!
